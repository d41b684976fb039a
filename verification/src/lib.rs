//! Star counts of watched GitHub users over time: dated snapshots, the
//! changes between them, and time-aligned extracts.

pub mod cli;
pub mod conf;
pub mod database;
pub mod error;
pub mod github;
pub mod md;
pub mod text;
pub mod time;

pub use cli::args::BoolArg;
pub use conf::conf::Conf;
pub use database::change::{sort_by_interest, Ratio, RepoChange};
pub use database::db::{Db, Fetched, SyncReport};
pub use database::extract::{Extract, ExtractLine};
pub use database::list::{List, ListLine};
pub use database::user_obs::{DatedObs, RepoObs, UserObs};
pub use database::user_query::{Col, UserQuery, UserResponseLine};
pub use error::Error;
pub use github::client::{
    GithubClient, PageInfo, Paging, StarCounts, GITHUB_API_TOKEN_KEY, PAGE_SIZE,
};
pub use github::repo_id::RepoId;
pub use github::user::User;
pub use github::user_id::UserId;
pub use md::change_report::{ChangeReport, ReportRow};
pub use time::Timestamp;
