//! A collection of geometry nodes keyed by identifier, its tagged snapshot
//! form, and a structural differ over snapshots.

pub mod ident;
pub mod json;
pub mod node;
pub mod collection;
pub mod codec;
pub mod diff;
