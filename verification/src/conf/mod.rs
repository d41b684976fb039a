//! The configuration: properties and the watched users.

pub mod conf;
