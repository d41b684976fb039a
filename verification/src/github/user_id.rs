//! The identity of a user.

use vstd::prelude::*;
use vstd::string::*;

verus! {

/// A GitHub user, known by login.
#[derive(Debug)]
pub struct UserId {
    pub login: String,
}

impl View for UserId {
    type V = Seq<char>;

    open spec fn view(&self) -> Seq<char> {
        self.login@
    }
}

impl Clone for UserId {
    fn clone(&self) -> (copy: Self)
        ensures
            copy == *self,
    {
        UserId { login: self.login.clone() }
    }
}

impl PartialEq for UserId {
    fn eq(&self, other: &Self) -> (same: bool) {
        self.login == other.login
    }
}

impl vstd::std_specs::cmp::PartialEqSpecImpl for UserId {
    open spec fn obeys_eq_spec() -> bool {
        true
    }

    open spec fn eq_spec(&self, other: &Self) -> bool {
        self@ == other@
    }
}

impl UserId {
    /// The user with this login.
    pub fn new(login: &str) -> (id: Self)
        ensures
            id@ == login@,
    {
        UserId { login: String::from_str(login) }
    }

    /// The GraphQL selector of this user.
    pub fn graphql_selector(&self) -> (selector: String)
        ensures
            selector@ == Self::selector_of(self@),
    {
        let mut selector = String::from_str("user(login:\"");
        selector.append(self.login.as_str());
        selector.append("\")");
        selector
    }

    /// `user(login:"…")` around a login.
    pub open spec fn selector_of(login: Seq<char>) -> Seq<char> {
        "user(login:\""@ + login + "\")"@
    }

    /// The login, as the textual form of the identity.
    pub fn to_string(&self) -> (text: String)
        ensures
            text@ == self@,
    {
        self.login.clone()
    }
}

} // verus!
