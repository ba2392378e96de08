//! The pass that pushes changed subject data to the observers.

use crate::capability::{Observer, Subject};
use crate::command::linked;
use crate::registry::{lemma_push_to_set, lemma_take_next_to_set, links, ObserverList};
use crate::table::Table;
use bevy::asset::AssetServer;
use vstd::prelude::*;

verus! {

/// What an entity's observer slot holds after `data`, exposed by the subject
/// component `raw_subject`, was pushed to it: a component takes the data in,
/// an empty slot stays empty.
pub open spec fn received<T: Send + Sync + 'static, S: Subject<T>, O: Observer<T>>(
    slot: Option<O>,
    data: T,
    raw_subject: S,
    asset_server: AssetServer,
    sender: u64,
) -> Option<O> {
    match slot {
        Some(component) => Some(component.absorbed(data, raw_subject, asset_server, sender)),
        None => None,
    }
}

/// The observer table after `data`, exposed by the subject component
/// `raw_subject`, was pushed once to each entity in `targets`.
pub open spec fn delivered<T: Send + Sync + 'static, S: Subject<T>, O: Observer<T>>(
    observers: Map<u64, Option<O>>,
    targets: Set<u64>,
    data: T,
    raw_subject: S,
    asset_server: AssetServer,
    sender: u64,
) -> Map<u64, Option<O>> {
    Map::new(
        |entity: u64| observers.dom().contains(entity),
        |entity: u64|
            if targets.contains(entity) {
                received(observers[entity], data, raw_subject, asset_server, sender)
            } else {
                observers[entity]
            },
    )
}

/// The observer table after the first `n` changed subjects, in row order,
/// have each pushed their exposed value, and themselves, to the entities
/// their registry lists. A changed subject without a registry pushes nothing.
pub open spec fn propagated<T: Send + Sync + 'static, S: Subject<T>, O: Observer<T>>(
    observers: Map<u64, Option<O>>,
    changed_ids: Seq<u64>,
    changed: Map<u64, S>,
    listed: Map<u64, Set<u64>>,
    asset_server: AssetServer,
    n: nat,
) -> Map<u64, Option<O>>
    decreases n,
{
    if n == 0 {
        observers
    } else {
        let before = propagated(
            observers,
            changed_ids,
            changed,
            listed,
            asset_server,
            (n - 1) as nat,
        );
        let subject = changed_ids[n - 1];
        if listed.dom().contains(subject) {
            delivered(
                before,
                listed[subject],
                changed[subject].exposed(),
                changed[subject],
                asset_server,
                subject,
            )
        } else {
            before
        }
    }
}

/// The entities that hold the observer component: those with a row and a
/// component in it.
pub open spec fn holders<O>(observers: Map<u64, Option<O>>) -> Set<u64> {
    Set::new(|entity: u64| observers.dom().contains(entity) && observers[entity] is Some)
}

/// The registries after a pass: those of changed subjects list only the
/// entities in `holding`, the others are as they were.
pub open spec fn pruned(listed: Map<u64, Set<u64>>, changed: Set<u64>, holding: Set<u64>) -> Map<
    u64,
    Set<u64>,
> {
    Map::new(
        |subject: u64| listed.dom().contains(subject),
        |subject: u64|
            if changed.contains(subject) {
                listed[subject].intersect(holding)
            } else {
                listed[subject]
            },
    )
}

/// Pushes the value that one subject exposes to every entity its registry lists.
///
/// `observer_query` holds the entities that exist, each with its observer
/// component if it has one. A listed entity with the component takes the
/// value in, exactly once, together with the subject component it comes
/// from. Every other listed entity is struck from the registry: one that no
/// longer exists, and one that exists without the component.
pub fn notify_observers<T: Send + Sync + 'static, S: Subject<T>, O: Observer<T>>(
    subject: u64,
    subject_comp: &S,
    observer_list: &mut ObserverList<T, S, O>,
    observer_query: &mut Table<Option<O>>,
    asset_server: &AssetServer,
)
    requires
        old(observer_query).wf(),
    ensures
        final(observer_query).wf(),
        final(observer_query).ids() == old(observer_query).ids(),
        final(observer_query)@ == delivered(
            old(observer_query)@,
            old(observer_list)@,
            subject_comp.exposed(),
            *subject_comp,
            *asset_server,
            subject,
        ),
        final(observer_list)@ == old(observer_list)@.intersect(holders(old(observer_query)@)),
{
    let data = subject_comp.give_data();
    let listed = observer_list.observers();
    let ghost start = observer_query@;
    let mut remove_list: Vec<u64> = Vec::new();
    assert(observer_query@ =~= delivered(
        start,
        listed@.take(0).to_set(),
        *data,
        *subject_comp,
        *asset_server,
        subject,
    ));
    assert(remove_list@.to_set() =~= listed@.take(0).to_set().difference(holders(start)));
    let mut i: usize = 0;
    while i < listed.len()
        invariant
            i <= listed.len(),
            listed@.no_duplicates(),
            observer_query.wf(),
            observer_query.ids() == old(observer_query).ids(),
            start == old(observer_query)@,
            *data == subject_comp.exposed(),
            observer_query@ == delivered(
                start,
                listed@.take(i as int).to_set(),
                *data,
                *subject_comp,
                *asset_server,
                subject,
            ),
            remove_list@.to_set() == listed@.take(i as int).to_set().difference(holders(start)),
        decreases listed.len() - i,
    {
        let observer = listed[i];
        let ghost done = listed@.take(i as int).to_set();
        proof {
            lemma_take_next_to_set(listed@, i as int);
            if done.contains(observer) {
                let j = choose|j: int| 0 <= j < i && listed@.take(i as int)[j] == observer;
                assert(listed@[j] == listed@[i as int]);
            }
        }
        match observer_query.find(observer) {
            Some(row) => {
                let slot = observer_query.exchange(row, None);
                match slot {
                    Some(mut component) => {
                        component.receive_data(data, subject_comp, asset_server, subject);
                        observer_query.exchange(row, Some(component));
                    },
                    None => {
                        proof {
                            lemma_push_to_set(remove_list@, observer);
                        }
                        remove_list.push(observer);
                    },
                }
                assert(observer_query@ =~= delivered(
                    start,
                    done.insert(observer),
                    *data,
                    *subject_comp,
                    *asset_server,
                    subject,
                ));
                assert(remove_list@.to_set() =~= done.insert(observer).difference(holders(start)));
            },
            None => {
                proof {
                    lemma_push_to_set(remove_list@, observer);
                }
                remove_list.push(observer);
                assert(observer_query@ =~= delivered(
                    start,
                    done.insert(observer),
                    *data,
                    *subject_comp,
                    *asset_server,
                    subject,
                ));
                assert(remove_list@.to_set() =~= done.insert(observer).difference(holders(start)));
            },
        }
        i += 1;
    }
    assert(listed@.take(listed.len() as int) == listed@);
    assert(observer_list@ =~= old(observer_list)@.difference(remove_list@.take(0).to_set()));
    let mut k: usize = 0;
    while k < remove_list.len()
        invariant
            k <= remove_list.len(),
            observer_list@ == old(observer_list)@.difference(remove_list@.take(k as int).to_set()),
        decreases remove_list.len() - k,
    {
        proof {
            lemma_take_next_to_set(remove_list@, k as int);
        }
        observer_list.remove(remove_list[k]);
        assert(observer_list@ =~= old(observer_list)@.difference(
            remove_list@.take(k + 1).to_set(),
        ));
        k += 1;
    }
    assert(remove_list@.take(remove_list.len() as int) == remove_list@);
    assert(observer_list@ =~= old(observer_list)@.intersect(holders(start)));
}

/// Pushes the exposed value of every changed subject to its observers.
///
/// `changed` holds the subjects whose component changed since the last pass,
/// `registries` the registry of each subject that has one, `observer_query`
/// the entities that exist, each with its observer component if it has one.
/// The subjects are served in row order; each listed observer that holds
/// the component takes the value in, and entities that do not hold it are
/// struck from the registries that were read.
pub fn recieve_subject_event<T: Send + Sync + 'static, S: Subject<T>, O: Observer<T>>(
    asset_server: &AssetServer,
    observer_query: &mut Table<Option<O>>,
    changed: &Table<S>,
    registries: &mut Table<ObserverList<T, S, O>>,
)
    requires
        old(observer_query).wf(),
        changed.wf(),
        old(registries).wf(),
    ensures
        final(observer_query).wf(),
        final(observer_query).ids() == old(observer_query).ids(),
        final(observer_query)@ == propagated(
            old(observer_query)@,
            changed.ids(),
            changed@,
            links(old(registries)@),
            *asset_server,
            changed.ids().len(),
        ),
        final(registries).wf(),
        final(registries).ids() == old(registries).ids(),
        links(final(registries)@) == pruned(
            links(old(registries)@),
            changed@.dom(),
            holders(old(observer_query)@),
        ),
{
    let ghost start = observer_query@;
    let ghost listed = links(registries@);
    let ghost holding = holders(observer_query@);
    let count = changed.len();
    proof {
        changed.lemma_rows();
        assert(links(registries@) =~= pruned(listed, changed.ids().take(0).to_set(), holding));
    }
    let mut i: usize = 0;
    while i < count
        invariant
            i <= count,
            count == changed.ids().len(),
            changed.wf(),
            changed.ids().no_duplicates(),
            observer_query.wf(),
            observer_query.ids() == old(observer_query).ids(),
            holders(observer_query@) == holding,
            observer_query@ == propagated(
                start,
                changed.ids(),
                changed@,
                listed,
                *asset_server,
                i as nat,
            ),
            registries.wf(),
            registries.ids() == old(registries).ids(),
            links(registries@) == pruned(listed, changed.ids().take(i as int).to_set(), holding),
        decreases count - i,
    {
        let subject = changed.entity_at(i);
        let subject_comp = changed.component_at(i);
        let ghost done = changed.ids().take(i as int).to_set();
        proof {
            lemma_take_next_to_set(changed.ids(), i as int);
            if done.contains(subject) {
                let j = choose|j: int| 0 <= j < i && changed.ids().take(i as int)[j] == subject;
                assert(changed.ids()[j] == changed.ids()[i as int]);
            }
        }
        match registries.find(subject) {
            Some(row) => {
                let ghost held = registries@;
                let mut observer_list = registries.exchange(row, ObserverList::default());
                proof {
                    assert(links(held).dom().contains(subject));
                    assert(links(held)[subject] == observer_list@);
                    assert(observer_list@ == listed[subject]);
                }
                notify_observers(
                    subject,
                    subject_comp,
                    &mut observer_list,
                    observer_query,
                    asset_server,
                );
                registries.exchange(row, observer_list);
                proof {
                    assert(holders(observer_query@) =~= holding);
                    let target = pruned(listed, done.insert(subject), holding);
                    let kept = links(registries@);
                    assert forall|e: u64| kept.dom().contains(e) implies #[trigger] kept[e]
                        == target[e] by {
                        if e != subject {
                            assert(registries@[e] == held[e]);
                            assert(links(held)[e] == held[e]@);
                        }
                    }
                    assert(links(registries@).dom() =~= links(held).dom());
                    assert(links(registries@) =~= target);
                    assert(observer_query@ == propagated(
                        start,
                        changed.ids(),
                        changed@,
                        listed,
                        *asset_server,
                        (i + 1) as nat,
                    ));
                }
            },
            None => {
                proof {
                    assert(!links(registries@).dom().contains(subject));
                    assert(links(registries@) =~= pruned(listed, done.insert(subject), holding));
                    assert(observer_query@ == propagated(
                        start,
                        changed.ids(),
                        changed@,
                        listed,
                        *asset_server,
                        (i + 1) as nat,
                    ));
                }
            },
        }
        i += 1;
    }
    proof {
        assert(changed.ids().take(count as int) == changed.ids());
    }
}

/// A pass changes no slot's existence: the same entities exist before and after.
pub proof fn lemma_propagated_entities<T: Send + Sync + 'static, S: Subject<T>, O: Observer<T>>(
    observers: Map<u64, Option<O>>,
    changed_ids: Seq<u64>,
    changed: Map<u64, S>,
    listed: Map<u64, Set<u64>>,
    asset_server: AssetServer,
    n: nat,
)
    ensures
        propagated(observers, changed_ids, changed, listed, asset_server, n).dom()
            == observers.dom(),
    decreases n,
{
    if n > 0 {
        lemma_propagated_entities(
            observers,
            changed_ids,
            changed,
            listed,
            asset_server,
            (n - 1) as nat,
        );
    }
    assert(propagated(observers, changed_ids, changed, listed, asset_server, n).dom()
        =~= observers.dom());
}

/// Changed subjects that do not list `observer` leave its slot as it was.
pub proof fn lemma_propagated_skips<T: Send + Sync + 'static, S: Subject<T>, O: Observer<T>>(
    observers: Map<u64, Option<O>>,
    changed_ids: Seq<u64>,
    changed: Map<u64, S>,
    listed: Map<u64, Set<u64>>,
    asset_server: AssetServer,
    observer: u64,
    from: nat,
    to: nat,
)
    requires
        from <= to <= changed_ids.len(),
        observers.dom().contains(observer),
        forall|j: int|
            from <= j < to ==> !(listed.dom().contains(#[trigger] changed_ids[j])
                && listed[changed_ids[j]].contains(observer)),
    ensures
        propagated(observers, changed_ids, changed, listed, asset_server, to)[observer]
            == propagated(
            observers,
            changed_ids,
            changed,
            listed,
            asset_server,
            from,
        )[observer],
    decreases to,
{
    if from < to {
        lemma_propagated_skips(
            observers,
            changed_ids,
            changed,
            listed,
            asset_server,
            observer,
            from,
            (to - 1) as nat,
        );
        lemma_propagated_entities(
            observers,
            changed_ids,
            changed,
            listed,
            asset_server,
            (to - 1) as nat,
        );
        let subject = changed_ids[to - 1];
        assert(!(listed.dom().contains(subject) && listed[subject].contains(observer)));
    }
}

/// If `observer` exists, the registry of the changed
/// subject `changed_ids[last]` lists it, and no changed subject served later
/// lists it, then after the pass its slot is the result of taking in what
/// that subject exposes: a component holds the new value, and exactly one
/// delivery of it was made.
pub proof fn lemma_change_propagates<T: Send + Sync + 'static, S: Subject<T>, O: Observer<T>>(
    observers: Map<u64, Option<O>>,
    changed_ids: Seq<u64>,
    changed: Map<u64, S>,
    listed: Map<u64, Set<u64>>,
    asset_server: AssetServer,
    observer: u64,
    last: int,
)
    requires
        observers.dom().contains(observer),
        0 <= last < changed_ids.len(),
        listed.dom().contains(changed_ids[last]),
        listed[changed_ids[last]].contains(observer),
        forall|j: int|
            last < j < changed_ids.len() ==> !(listed.dom().contains(#[trigger] changed_ids[j])
                && listed[changed_ids[j]].contains(observer)),
    ensures
        propagated(
            observers,
            changed_ids,
            changed,
            listed,
            asset_server,
            changed_ids.len(),
        )[observer] == received(
            propagated(
                observers,
                changed_ids,
                changed,
                listed,
                asset_server,
                last as nat,
            )[observer],
            changed[changed_ids[last]].exposed(),
            changed[changed_ids[last]],
            asset_server,
            changed_ids[last],
        ),
{
    lemma_propagated_skips(
        observers,
        changed_ids,
        changed,
        listed,
        asset_server,
        observer,
        (last + 1) as nat,
        changed_ids.len(),
    );
    lemma_propagated_entities(observers, changed_ids, changed, listed, asset_server, last as nat);
    let before = propagated(observers, changed_ids, changed, listed, asset_server, last as nat);
    assert(propagated(observers, changed_ids, changed, listed, asset_server, (last + 1) as nat)
        == delivered(
        before,
        listed[changed_ids[last]],
        changed[changed_ids[last]].exposed(),
        changed[changed_ids[last]],
        asset_server,
        changed_ids[last],
    ));
}

/// An observer that was listed twice for a subject takes a pushed value in
/// once: listing it again made no second link.
pub proof fn lemma_linked_twice_delivered_once<
    T: Send + Sync + 'static,
    S: Subject<T>,
    O: Observer<T>,
>(
    listed: Map<u64, Set<u64>>,
    subject: u64,
    observer: u64,
    observers: Map<u64, Option<O>>,
    data: T,
    raw_subject: S,
    asset_server: AssetServer,
)
    requires
        observers.dom().contains(observer),
    ensures
        ({
            let sources = Set::<u64>::empty().insert(subject);
            let twice = linked(linked(listed, sources, observer), sources, observer);
            &&& twice.dom().contains(subject)
            &&& twice[subject].contains(observer)
            &&& delivered(
                observers,
                twice[subject],
                data,
                raw_subject,
                asset_server,
                subject,
            )[observer] == received(observers[observer], data, raw_subject, asset_server, subject)
        }),
{
    let sources = Set::<u64>::empty().insert(subject);
    let once = linked(listed, sources, observer);
    assert(once.dom().contains(subject));
}

/// After a pass, the registry of a changed subject lists an entity exactly
/// if it listed it before and the entity holds the observer component. An
/// entity that was destroyed, or that lost the component, is gone from it.
pub proof fn lemma_gone_observers_struck<O>(
    listed: Map<u64, Set<u64>>,
    changed: Set<u64>,
    observers: Map<u64, Option<O>>,
    subject: u64,
    observer: u64,
)
    requires
        listed.dom().contains(subject),
        changed.contains(subject),
    ensures
        pruned(listed, changed, holders(observers)).dom().contains(subject),
        pruned(listed, changed, holders(observers))[subject].contains(observer) <==> {
            &&& listed[subject].contains(observer)
            &&& observers.dom().contains(observer)
            &&& observers[observer] is Some
        },
        !observers.dom().contains(observer) ==> !pruned(
            listed,
            changed,
            holders(observers),
        )[subject].contains(observer),
{
}

} // verus!
