//! What GitHub tells of a user.

use crate::github::user_id::UserId;
use vstd::prelude::*;

verus! {

/// What GitHub tells of a user.
#[derive(Debug)]
pub struct User {
    pub user_id: UserId,
    pub name: String,
    pub non_fork_repositories_count: usize,
}

} // verus!
