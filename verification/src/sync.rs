//! Plain message-shape types used when change notifications are fanned out to
//! connected clients. The transport that carries them lives outside this
//! crate; only the shapes are kept here.

use vstd::prelude::*;

verus! {

/// The kind of change a sync message announces.
#[derive(Clone, Copy, Debug, PartialEq, Eq, Structural)]
pub enum SyncType {
    Create,
    Update,
    Delete,
}

/// Recipient of a sync message.
#[derive(Clone, Copy, Debug, PartialEq, Eq, Structural)]
pub enum Recipient {
    /// Send the message to all users in the organization.
    Organization(i32),
    /// Send the message to a specific user.
    User(i32),
}

} // verus!
