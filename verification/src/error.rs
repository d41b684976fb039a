//! What the library refuses, and why.

use vstd::prelude::*;
use vstd::string::*;

verus! {

/// The failures that the library reports.
#[derive(Debug)]
pub enum Error {
    /// The store knows nothing of this user.
    NoData { login: String },
    /// The configuration holds no GitHub API token.
    NoToken,
    /// The stars of one snapshot are more than a machine word counts.
    TooManyStars { login: String },
}

impl Error {
    /// The failure in words.
    pub open spec fn text(self) -> Seq<char> {
        match self {
            Error::NoData { login } => "no data for user "@ + login@,
            Error::NoToken => "You must first set a github API token with "@
                + "`starry set github-api-token your-key`"@,
            Error::TooManyStars { login } => "too many stars for user "@ + login@,
        }
    }

    /// The failure in words.
    pub fn message(&self) -> (message: String)
        ensures
            message@ == self.text(),
    {
        match self {
            Error::NoData { login } => {
                let mut message = String::from_str("no data for user ");
                message.append(login.as_str());
                message
            },
            Error::NoToken => {
                let mut message = String::from_str("You must first set a github API token with ");
                message.append("`starry set github-api-token your-key`");
                message
            },
            Error::TooManyStars { login } => {
                let mut message = String::from_str("too many stars for user ");
                message.append(login.as_str());
                message
            },
        }
    }
}

} // verus!
