//! The queries sent to GitHub and the paging through their answers.

use crate::conf::conf::Conf;
use crate::database::user_obs::{RepoCount, RepoObs, Snapshot, UserObs};
use crate::error::Error;
use crate::github::user_id::UserId;
use crate::text::{decimal, views};
use crate::time::Timestamp;
use vstd::prelude::*;
use vstd::string::*;

verus! {

/// The query part for the count of a collection: the collection, its filter
/// in brackets, and `{ totalCount }`.
pub open spec fn count_text(collection_name: Seq<char>, filter: Seq<char>) -> Seq<char> {
    collection_name + "("@ + filter + "){ totalCount }"@
}

/// The selector of one page: the page size, the cursor after which the page
/// starts where there is one, and the other clauses.
pub open spec fn selector_text(
    after: Option<Seq<char>>,
    first: nat,
    other_clauses: Seq<char>,
) -> Seq<char> {
    match after {
        Some(cursor) => "(first:"@ + decimal(first) + " after:\""@ + cursor + "\" "@
            + other_clauses + ")"@,
        None => "(first:"@ + decimal(first) + " "@ + other_clauses + ")"@,
    }
}

/// The body of one page: the total count, the nodes with what is asked of
/// each, and the page information.
pub open spec fn body_text(item_query_part: Seq<char>) -> Seq<char> {
    "{\n            totalCount\n            nodes "@ + item_query_part
        + "\n            pageInfo {"@
        + "\n                startCursor"@
        + "\n                endCursor"@
        + "\n                hasPreviousPage"@
        + "\n                hasNextPage"@
        + "\n            }"@
        + "\n        }"@
}

/// The text of an optional cursor.
pub open spec fn cursor_of(cursor: Option<String>) -> Option<Seq<char>> {
    match cursor {
        Some(c) => Some(c@),
        None => None,
    }
}

/// What a page says of the pages around it, as far as the paging goes.
#[derive(Debug)]
pub struct PageInfo {
    pub end_cursor: Option<String>,
    pub has_next_page: Option<bool>,
}

/// Page information as plain values.
pub struct PageEnd {
    pub end_cursor: Option<Seq<char>>,
    pub has_next_page: Option<bool>,
}

impl View for PageInfo {
    type V = PageEnd;

    open spec fn view(&self) -> PageEnd {
        PageEnd { end_cursor: cursor_of(self.end_cursor), has_next_page: self.has_next_page }
    }
}

/// Optional page information as plain values.
pub open spec fn page_end_of(page_info: Option<PageInfo>) -> Option<PageEnd> {
    match page_info {
        Some(info) => Some(info@),
        None => None,
    }
}

/// The cursor after which the next page starts: the end cursor of a page
/// that says that there is a next page.
pub open spec fn next_cursor(page_info: Option<PageEnd>) -> Option<Seq<char>> {
    match page_info {
        Some(info) => if info.has_next_page == Some(true) {
            info.end_cursor
        } else {
            None
        },
        None => None,
    }
}

/// Calls `byo_graphql::List::next_page_cursor` on a list that holds the
/// given page information. Trusted: it gives the end cursor where the page
/// information says that there is a next page, and nothing otherwise.
#[verifier::external_body]
fn next_page_cursor(page_info: PageInfo) -> (cursor: Option<String>)
    ensures
        cursor_of(cursor) == next_cursor(Some(page_info@)),
{
    let page_info = byo_graphql::PageInfo {
        startCursor: None,
        endCursor: page_info.end_cursor,
        hasPreviousPage: None,
        hasNextPage: page_info.has_next_page,
    };
    let list = byo_graphql::List::<()> {
        totalCount: None,
        nodes: Vec::new(),
        pageInfo: Some(page_info),
    };
    list.next_page_cursor()
}

/// Calls `byo_graphql::Count::query`. Trusted: it writes the collection's
/// name, the filter in round brackets and `{ totalCount }`, as its source
/// and its documented example show.
#[verifier::external_body]
fn count_query(collection_name: &str, filter: &str) -> (query: String)
    ensures
        query@ == count_text(collection_name@, filter@),
{
    byo_graphql::Count::query(collection_name, filter)
}

/// Calls `byo_graphql::List::query_page_selector`. Trusted: it writes, in
/// round brackets, `first:` and the page size, ` after:` and the quoted
/// cursor where one is given, a space and the other clauses.
#[verifier::external_body]
fn page_selector(after: &Option<String>, first: usize, other_clauses: &str) -> (selector: String)
    ensures
        selector@ == selector_text(cursor_of(*after), first as nat, other_clauses@),
{
    byo_graphql::List::<()>::query_page_selector(after, first, other_clauses)
}

/// Calls `byo_graphql::List::query_page_body`. Trusted: it writes, in curly
/// brackets and on lines of their own, `totalCount`, `nodes` with the given
/// part, and `pageInfo` with its four fields, indented as in its source.
#[verifier::external_body]
fn page_body(item_query_part: &str) -> (body: String)
    ensures
        body@ == body_text(item_query_part@),
{
    byo_graphql::List::<()>::query_page_body(item_query_part)
}

/// The name of the property that holds the GitHub API token.
pub const GITHUB_API_TOKEN_KEY: &'static str = "github-api-token";

/// The number of repositories asked for in one page.
pub const PAGE_SIZE: usize = 100;

/// What is needed to query GitHub: the API token.
#[derive(Debug)]
pub struct GithubClient {
    pub token: String,
}

/// The query for a user's name and number of repositories that are no forks.
pub open spec fn user_query_text(login: Seq<char>) -> Seq<char> {
    "{ "@ + UserId::selector_of(login) + " { name "@ + count_text(
        "repositories"@,
        "isFork: false"@,
    ) + "  } }"@
}

/// The query for one page of a user's own repositories that are no forks,
/// with the stars of each.
pub open spec fn star_counts_query_text(login: Seq<char>, cursor: Option<Seq<char>>) -> Seq<char> {
    "{ "@ + UserId::selector_of(login) + " { repositories"@ + selector_text(
        cursor,
        PAGE_SIZE as nat,
        "isFork: false, ownerAffiliations: OWNER"@,
    ) + body_text("{ name, stargazers { totalCount } }"@) + " } }"@
}

impl GithubClient {
    /// A client with the token of the configuration. Fails where the
    /// configuration holds none.
    pub fn new(conf: &Conf) -> (client: Result<Self, Error>)
        ensures
            client is Ok <==> conf.props().dom().contains(GITHUB_API_TOKEN_KEY@),
            client matches Ok(c) ==> c.token@ == conf.props()[GITHUB_API_TOKEN_KEY@],
            client matches Err(error) ==> error is NoToken,
    {
        match conf.get(GITHUB_API_TOKEN_KEY) {
            Some(token) => Ok(GithubClient { token: String::from_str(token) }),
            None => Err(Error::NoToken),
        }
    }

    /// The query that gets a GitHub user's information by its login.
    pub fn user_query(user_id: &UserId) -> (query: String)
        ensures
            query@ == user_query_text(user_id@),
    {
        let mut query = String::from_str("{ ");
        query.append(user_id.graphql_selector().as_str());
        query.append(" { name ");
        query.append(count_query("repositories", "isFork: false").as_str());
        query.append("  } }");
        query
    }

    /// The query that gets one page of the star counts of a user's
    /// repositories: the first page without a cursor, else the page after it.
    pub fn star_counts_query(user_id: &UserId, cursor: &Option<String>) -> (query: String)
        ensures
            query@ == star_counts_query_text(user_id@, cursor_of(*cursor)),
    {
        let mut query = String::from_str("{ ");
        query.append(user_id.graphql_selector().as_str());
        query.append(" { repositories");
        query.append(
            page_selector(cursor, PAGE_SIZE, "isFork: false, ownerAffiliations: OWNER").as_str(),
        );
        query.append(page_body("{ name, stargazers { totalCount } }").as_str());
        query.append(" } }");
        query
    }
}

/// The star counts of a user, while their pages come in.
#[derive(Debug)]
pub struct StarCounts {
    pub user_id: UserId,
    pub time: Timestamp,
    pub counts: Vec<RepoObs>,
    pub cursor: Option<String>,
}

/// What a page leaves to do.
#[derive(Debug)]
pub enum Paging {
    /// Another page is to be fetched.
    More(StarCounts),
    /// All pages are in: the snapshot.
    Done(UserObs),
}

impl StarCounts {
    /// Before the first page.
    pub fn new(user_id: UserId, now: Timestamp) -> (pages: Self)
        ensures
            pages.user_id == user_id,
            pages.time == now,
            pages.counts@ == Seq::<RepoObs>::empty(),
            pages.cursor is None,
    {
        StarCounts { user_id, time: now, counts: Vec::new(), cursor: None }
    }

    /// The query for the page that is to be fetched next.
    pub fn query(&self) -> (query: String)
        ensures
            query@ == star_counts_query_text(self.user_id@, cursor_of(self.cursor)),
    {
        GithubClient::star_counts_query(&self.user_id, &self.cursor)
    }

    /// Takes in a page: its repositories join those of the pages before, in
    /// their order. Where the page says that there is a next page, that page
    /// is to be fetched, after the end cursor of this one; else, and where the
    /// page says nothing of the paging, the snapshot is complete.
    pub fn page(self, nodes: Vec<RepoObs>, page_info: Option<PageInfo>) -> (step: Paging)
        ensures
            match step {
                Paging::More(pages) => next_cursor(page_end_of(page_info)) is Some && cursor_of(
                    pages.cursor,
                ) == next_cursor(page_end_of(page_info)) && pages.user_id == self.user_id
                    && pages.time == self.time && pages.counts@ == self.counts@ + nodes@,
                Paging::Done(obs) => next_cursor(page_end_of(page_info)) is None && obs.user_id
                    == self.user_id && obs.time == self.time && obs.counts@ == self.counts@
                    + nodes@,
            },
    {
        let mut counts = self.counts;
        let mut nodes = nodes;
        counts.append(&mut nodes);
        let next = match page_info {
            Some(info) => next_page_cursor(info),
            None => None,
        };
        match next {
            Some(cursor) => Paging::More(
                StarCounts {
                    user_id: self.user_id,
                    time: self.time,
                    counts,
                    cursor: Some(cursor),
                },
            ),
            None => Paging::Done(UserObs { user_id: self.user_id, time: self.time, counts }),
        }
    }
}

} // verus!
