//! The identity of a repository.

use crate::github::user_id::UserId;
use vstd::prelude::*;
use vstd::string::*;

verus! {

/// A repository: its owner and its name.
#[derive(Debug)]
pub struct RepoId {
    pub owner: UserId,
    pub name: String,
}

/// A repository identity as plain text.
pub struct RepoName {
    pub owner: Seq<char>,
    pub name: Seq<char>,
}

impl View for RepoId {
    type V = RepoName;

    open spec fn view(&self) -> RepoName {
        RepoName { owner: self.owner@, name: self.name@ }
    }
}

impl Clone for RepoId {
    fn clone(&self) -> (copy: Self)
        ensures
            copy == *self,
    {
        RepoId { owner: self.owner.clone(), name: self.name.clone() }
    }
}

impl RepoName {
    /// `owner/name`.
    pub open spec fn text(self) -> Seq<char> {
        self.owner + "/"@ + self.name
    }

    /// `repository(owner:"…", name:"…")`.
    pub open spec fn selector(self) -> Seq<char> {
        "repository(owner:\""@ + self.owner + "\", name:\""@ + self.name + "\")"@
    }
}

impl RepoId {
    /// The repository of `owner` that is named `name`.
    pub fn new(owner: UserId, name: &str) -> (id: Self)
        ensures
            id.owner == owner,
            id.name@ == name@,
    {
        RepoId { owner, name: String::from_str(name) }
    }

    /// The GraphQL selector of this repository.
    pub fn graphql_selector(&self) -> (selector: String)
        ensures
            selector@ == self@.selector(),
    {
        let mut selector = String::from_str("repository(owner:\"");
        selector.append(self.owner.login.as_str());
        selector.append("\", name:\"");
        selector.append(self.name.as_str());
        selector.append("\")");
        selector
    }

    /// The textual form `owner/name`.
    pub fn to_string(&self) -> (text: String)
        ensures
            text@ == self@.text(),
    {
        let mut text = self.owner.login.clone();
        text.append("/");
        text.append(self.name.as_str());
        text
    }
}

} // verus!
