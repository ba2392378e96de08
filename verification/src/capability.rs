//! The two capabilities a component can have: exposing a value and taking one in.

use vstd::prelude::*;

verus! {

#[verifier::external_type_specification]
#[verifier::external_body]
pub struct ExAssetServer(bevy::asset::AssetServer);

/// A component that can expose a value of type `T`.
///
/// Every type exposes itself: `T` is a subject of `T`.
pub trait Subject<T: Send + Sync + 'static> {
    /// The value this component exposes.
    spec fn exposed(&self) -> T;

    fn give_data(&self) -> (data: &T)
        ensures
            *data == self.exposed(),
    ;
}

impl<T: Send + Sync + 'static> Subject<T> for T {
    open spec fn exposed(&self) -> T {
        *self
    }

    fn give_data(&self) -> (data: &T) {
        self
    }
}

/// A component that takes in values of type `T` pushed from subjects.
pub trait Observer<T: Send + Sync + 'static>: Sized {
    /// The component after it has taken in `data`, exposed by the subject
    /// component `raw_subject` on the entity `sender`, with `asset_server`
    /// at hand.
    spec fn absorbed<S: Subject<T>>(
        self,
        data: T,
        raw_subject: S,
        asset_server: bevy::asset::AssetServer,
        sender: u64,
    ) -> Self;

    /// Takes in `data`, exposed by the subject on entity `sender`.
    ///
    /// `raw_subject` is the whole subject component, read-only, for an
    /// observer that needs more of the subject than `data`. The asset server
    /// is there to resolve what `data` refers to.
    fn receive_data<S: Subject<T>>(
        &mut self,
        data: &T,
        raw_subject: &S,
        asset_server: &bevy::asset::AssetServer,
        sender: u64,
    )
        ensures
            *final(self) == old(self).absorbed(*data, *raw_subject, *asset_server, sender),
    ;
}

} // verus!
