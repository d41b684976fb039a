//! Identities of GitHub users and repositories, and the queries about them.

pub mod client;
pub mod repo_id;
pub mod user;
pub mod user_id;
