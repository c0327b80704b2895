//! The commands that the network and the door send to the storage.
use vstd::prelude::*;

verus! {

/// A task for the storage.
#[allow(inconsistent_fields)]
#[derive(Clone, Debug)]
pub enum Command {
    /// Delete all logged messages.
    ClearLog,
    /// Put the device into "add mode".
    AddUserMode,
    /// Add the user of a keycard to the database with a default name. The id is that on the
    /// keycard; the storage hashes it.
    AddUser { id: u32 },
    /// Remove the user with the given id from the database. The id is the hashed one, as the
    /// database holds it; so it is in the commands that follow.
    RemoveUser { id: u64 },
    /// Update the user's data on the SD card.
    UpdateUser { id: u64, name: String },
    /// Remove all users from the database.
    RemoveAllUsers,
    /// Ask whether the user with the given id is authorized.
    IsUser { id: u64 },
    /// Set a new password in place of the old one. The password is not hashed yet; the storage
    /// hashes it.
    SetPassword { password: String },
    /// Log that the user opened the door.
    LogUser { id: u64 },
}

} // verus!
