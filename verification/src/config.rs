//! Bot configuration as plain values. Persistence (the database round trip)
//! is an external collaborator's concern and lives outside the library.

use vstd::prelude::*;

verus! {

pub struct Config {
    pub support_channel: i64,
    pub conveyance_channels: Vec<i64>,
    pub conveyance_blacklisted_channels: Vec<i64>,
    pub welcome_channel: i64,
    pub verified_role: i64,
    pub moderator_role: i64,
    pub welcome_messages: Vec<String>,
}

} // verus!
