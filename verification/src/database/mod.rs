//! The observation store and what is computed from it.

pub mod change;
pub mod db;
pub mod extract;
pub mod list;
pub mod sync;
pub mod table;
pub mod user_obs;
pub mod user_query;
