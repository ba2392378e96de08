//! Data synchronisation between entities: subjects expose a value, observers
//! that registered interest in a subject take the value in when they are
//! linked and whenever the subject changes.
//!
//! Entities are identified by the 64 bits of their handle. The slice of the
//! world that a relationship touches is held in tables keyed by entity.

pub mod capability;
pub mod command;
pub mod dispatch;
pub mod entity_map;
pub mod entity_set;
pub mod registry;
pub mod table;

pub use capability::{Observer, Subject};
pub use command::ObserverBuildCommand;
pub use dispatch::{notify_observers, recieve_subject_event};
pub use registry::{ObserverList, RemapError};
pub use table::Table;
