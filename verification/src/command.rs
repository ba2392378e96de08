//! The command that links an observer to its subjects.

use crate::capability::{Observer, Subject};
use crate::registry::{lemma_take_next_to_set, links, ObserverList};
use crate::table::Table;
use bevy::asset::AssetServer;
use std::marker::PhantomData;
use vstd::prelude::*;

verus! {

/// The registries after `observer` was listed for each entity in `sources`:
/// a source without a registry gets one that lists only `observer`.
pub open spec fn linked(listed: Map<u64, Set<u64>>, sources: Set<u64>, observer: u64) -> Map<
    u64,
    Set<u64>,
> {
    Map::new(
        |subject: u64| listed.dom().contains(subject) || sources.contains(subject),
        |subject: u64|
            if sources.contains(subject) {
                if listed.dom().contains(subject) {
                    listed[subject].insert(observer)
                } else {
                    Set::<u64>::empty().insert(observer)
                }
            } else {
                listed[subject]
            },
    )
}

/// Listing `observer` for one more source, `source`, on top of the sources in `done`.
proof fn lemma_register_step(
    held: Map<u64, Set<u64>>,
    next: Map<u64, Set<u64>>,
    listed: Map<u64, Set<u64>>,
    done: Set<u64>,
    source: u64,
    observer: u64,
)
    requires
        held == linked(listed, done, observer),
        next.dom() == held.dom().insert(source),
        forall|e: u64| held.dom().contains(e) && e != source ==> #[trigger] next[e] == held[e],
        held.dom().contains(source) ==> next[source] == held[source].insert(observer),
        !held.dom().contains(source) ==> next[source] == Set::<u64>::empty().insert(observer),
    ensures
        next == linked(listed, done.insert(source), observer),
{
    let target = linked(listed, done.insert(source), observer);
    assert(next.dom() =~= target.dom());
    assert forall|e: u64| next.dom().contains(e) implies #[trigger] next[e] == target[e] by {
        if e == source {
            if held.dom().contains(source) {
                assert(held[source].insert(observer) =~= target[source]);
            }
        } else {
            assert(held.dom().contains(e));
        }
    }
    assert(next =~= target);
}

/// The observer component after the first `n` of `sources`, in order, have
/// each pushed their exposed value, and their subject component, to it. A
/// source without a subject component pushes nothing.
pub open spec fn pushed<T: Send + Sync + 'static, S: Subject<T>, O: Observer<T>>(
    component: O,
    sources: Seq<u64>,
    subjects: Map<u64, S>,
    asset_server: AssetServer,
    n: nat,
) -> O
    decreases n,
{
    if n == 0 {
        component
    } else {
        let before = pushed(component, sources, subjects, asset_server, (n - 1) as nat);
        let source = sources[n - 1];
        if subjects.dom().contains(source) {
            before.absorbed(subjects[source].exposed(), subjects[source], asset_server, source)
        } else {
            before
        }
    }
}

/// The observer table after the sources' current values were pushed to
/// `observer`: nothing changes unless `observer` exists and holds the component.
pub open spec fn bootstrapped<T: Send + Sync + 'static, S: Subject<T>, O: Observer<T>>(
    observers: Map<u64, Option<O>>,
    observer: u64,
    sources: Seq<u64>,
    subjects: Map<u64, S>,
    asset_server: AssetServer,
) -> Map<u64, Option<O>> {
    if observers.dom().contains(observer) {
        match observers[observer] {
            Some(component) => observers.insert(
                observer,
                Some(pushed(component, sources, subjects, asset_server, sources.len())),
            ),
            None => observers,
        }
    } else {
        observers
    }
}

/// Links one observer entity to a list of subject entities.
pub struct ObserverBuildCommand<T: Send + Sync + 'static, S: Subject<T>, O: Observer<T>> {
    pub observer: u64,
    pub subjects: Vec<u64>,
    pub phantom_data: PhantomData<T>,
    pub phantom_subject: PhantomData<S>,
    pub phantom_observer: PhantomData<O>,
}

impl<T: Send + Sync + 'static, S: Subject<T>, O: Observer<T>> ObserverBuildCommand<T, S, O> {
    /// The command that makes `observer` observe each of `subjects`.
    pub fn new(observer: u64, subjects: Vec<u64>) -> (command: Self)
        ensures
            command.observer == observer,
            command.subjects == subjects,
    {
        ObserverBuildCommand {
            observer,
            subjects,
            phantom_data: PhantomData,
            phantom_subject: PhantomData,
            phantom_observer: PhantomData,
        }
    }

    /// Lists the observer in the registry of every subject of the command,
    /// creating the registry where a subject has none.
    pub fn register(&self, registries: &mut Table<ObserverList<T, S, O>>)
        requires
            old(registries).wf(),
        ensures
            final(registries).wf(),
            links(final(registries)@) == linked(
                links(old(registries)@),
                self.subjects@.to_set(),
                self.observer,
            ),
    {
        let ghost listed = links(registries@);
        assert(links(registries@) =~= linked(
            listed,
            self.subjects@.take(0).to_set(),
            self.observer,
        ));
        let mut i: usize = 0;
        while i < self.subjects.len()
            invariant
                i <= self.subjects.len(),
                registries.wf(),
                links(registries@) == linked(
                    listed,
                    self.subjects@.take(i as int).to_set(),
                    self.observer,
                ),
            decreases self.subjects.len() - i,
        {
            let source = self.subjects[i];
            let ghost done = self.subjects@.take(i as int).to_set();
            let ghost held = registries@;
            proof {
                lemma_take_next_to_set(self.subjects@, i as int);
            }
            match registries.find(source) {
                Some(row) => {
                    let mut observer_list = registries.exchange(row, ObserverList::default());
                    assert(links(held)[source] == observer_list@);
                    observer_list.insert(self.observer);
                    registries.exchange(row, observer_list);
                    proof {
                        assert(links(held).dom().contains(source));
                        assert(links(registries@).dom() =~= links(held).dom().insert(source));
                        lemma_register_step(
                            links(held),
                            links(registries@),
                            listed,
                            done,
                            source,
                            self.observer,
                        );
                    }
                },
                None => {
                    let first = vec![self.observer];
                    assert(first@.to_set() =~= Set::<u64>::empty().insert(self.observer)) by {
                        assert(first@[0] == self.observer);
                    }
                    assert(!links(held).dom().contains(source));
                    registries.insert(source, ObserverList::new(first));
                    proof {
                        assert(links(registries@).dom() =~= links(held).dom().insert(source));
                        lemma_register_step(
                            links(held),
                            links(registries@),
                            listed,
                            done,
                            source,
                            self.observer,
                        );
                    }
                },
            }
            i += 1;
        }
        assert(self.subjects@.take(self.subjects.len() as int) == self.subjects@);
    }

    /// Pushes the current value of every subject of the command to the
    /// observer, in the order of the command's list.
    ///
    /// `subject_query` holds the entities that have the subject component,
    /// `observer_query` the entities that exist, each with its observer
    /// component if it has one. Nothing is pushed if the observer lacks the
    /// component, and a subject that lacks its component is passed over.
    pub fn bootstrap(
        &self,
        subject_query: &Table<S>,
        observer_query: &mut Table<Option<O>>,
        asset_server: &AssetServer,
    )
        requires
            subject_query.wf(),
            old(observer_query).wf(),
        ensures
            final(observer_query).wf(),
            final(observer_query).ids() == old(observer_query).ids(),
            final(observer_query)@ == bootstrapped(
                old(observer_query)@,
                self.observer,
                self.subjects@,
                subject_query@,
                *asset_server,
            ),
    {
        let ghost start = observer_query@;
        match observer_query.find(self.observer) {
            Some(row) => {
                let slot = observer_query.exchange(row, None);
                match slot {
                    Some(mut component) => {
                        let ghost first = component;
                        let mut i: usize = 0;
                        while i < self.subjects.len()
                            invariant
                                i <= self.subjects.len(),
                                subject_query.wf(),
                                component == pushed(
                                    first,
                                    self.subjects@,
                                    subject_query@,
                                    *asset_server,
                                    i as nat,
                                ),
                            decreases self.subjects.len() - i,
                        {
                            let source = self.subjects[i];
                            match subject_query.get(source) {
                                Some(subject_comp) => {
                                    let data = subject_comp.give_data();
                                    component.receive_data(
                                        data,
                                        subject_comp,
                                        asset_server,
                                        source,
                                    );
                                },
                                None => {},
                            }
                            assert(component == pushed(
                                first,
                                self.subjects@,
                                subject_query@,
                                *asset_server,
                                (i + 1) as nat,
                            ));
                            i += 1;
                        }
                        observer_query.exchange(row, Some(component));
                        assert(observer_query@ =~= bootstrapped(
                            start,
                            self.observer,
                            self.subjects@,
                            subject_query@,
                            *asset_server,
                        ));
                    },
                    None => {
                        assert(observer_query@ =~= start);
                    },
                }
            },
            None => {},
        }
    }

    /// Applies the command: registers the observer with every subject, then
    /// pushes the subjects' current values to it, so that the observer is up
    /// to date without waiting for a subject to change.
    pub fn write(
        self,
        registries: &mut Table<ObserverList<T, S, O>>,
        subject_query: &Table<S>,
        observer_query: &mut Table<Option<O>>,
        asset_server: &AssetServer,
    )
        requires
            old(registries).wf(),
            subject_query.wf(),
            old(observer_query).wf(),
        ensures
            final(registries).wf(),
            links(final(registries)@) == linked(
                links(old(registries)@),
                self.subjects@.to_set(),
                self.observer,
            ),
            final(observer_query).wf(),
            final(observer_query).ids() == old(observer_query).ids(),
            final(observer_query)@ == bootstrapped(
                old(observer_query)@,
                self.observer,
                self.subjects@,
                subject_query@,
                *asset_server,
            ),
    {
        self.register(registries);
        self.bootstrap(subject_query, observer_query, asset_server);
    }
}

/// Sources without a subject component leave the pushed component as it was.
pub proof fn lemma_pushed_skips<T: Send + Sync + 'static, S: Subject<T>, O: Observer<T>>(
    component: O,
    sources: Seq<u64>,
    subjects: Map<u64, S>,
    asset_server: AssetServer,
    from: nat,
    to: nat,
)
    requires
        from <= to <= sources.len(),
        forall|j: int| from <= j < to ==> !subjects.dom().contains(#[trigger] sources[j]),
    ensures
        pushed(component, sources, subjects, asset_server, to) == pushed(
            component,
            sources,
            subjects,
            asset_server,
            from,
        ),
    decreases to,
{
    if from < to {
        lemma_pushed_skips(component, sources, subjects, asset_server, from, (to - 1) as nat);
        assert(!subjects.dom().contains(sources[to - 1]));
    }
}

/// If the observer holds its component and
/// `sources[last]` is the last source that holds a subject component, then
/// once the command has been applied the observer's component is the result
/// of taking in what that subject exposes, whether or not a pass has run.
pub proof fn lemma_bootstrap_consistent<T: Send + Sync + 'static, S: Subject<T>, O: Observer<T>>(
    observers: Map<u64, Option<O>>,
    observer: u64,
    sources: Seq<u64>,
    subjects: Map<u64, S>,
    asset_server: AssetServer,
    last: int,
)
    requires
        observers.dom().contains(observer),
        observers[observer] is Some,
        0 <= last < sources.len(),
        subjects.dom().contains(sources[last]),
        forall|j: int| last < j < sources.len() ==> !subjects.dom().contains(#[trigger] sources[j]),
    ensures
        bootstrapped(observers, observer, sources, subjects, asset_server)[observer] == Some(
            pushed(
                observers[observer].unwrap(),
                sources,
                subjects,
                asset_server,
                last as nat,
            ).absorbed(
                subjects[sources[last]].exposed(),
                subjects[sources[last]],
                asset_server,
                sources[last],
            ),
        ),
{
    let component = observers[observer].unwrap();
    lemma_pushed_skips(
        component,
        sources,
        subjects,
        asset_server,
        (last + 1) as nat,
        sources.len(),
    );
    assert(pushed(component, sources, subjects, asset_server, (last + 1) as nat) == pushed(
        component,
        sources,
        subjects,
        asset_server,
        last as nat,
    ).absorbed(
        subjects[sources[last]].exposed(),
        subjects[sources[last]],
        asset_server,
        sources[last],
    ));
}

/// Listing an observer for the same subjects a
/// second time leaves every registry as the first time left it.
pub proof fn lemma_register_twice(listed: Map<u64, Set<u64>>, sources: Set<u64>, observer: u64)
    ensures
        linked(linked(listed, sources, observer), sources, observer) == linked(
            listed,
            sources,
            observer,
        ),
{
    let once = linked(listed, sources, observer);
    let twice = linked(once, sources, observer);
    assert(twice.dom() =~= once.dom());
    assert forall|e: u64| once.dom().contains(e) implies #[trigger] twice[e] == once[e] by {
        if sources.contains(e) {
            assert(once[e].insert(observer) =~= once[e]);
        }
    }
    assert(twice =~= once);
}

} // verus!
