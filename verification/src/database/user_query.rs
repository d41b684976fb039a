//! What an extract asks of one user, and what each snapshot answers.

use crate::database::change::stars_of;
use crate::github::user_id::UserId;
use crate::text::views;
use crate::time::Timestamp;
use vstd::prelude::*;

verus! {

/// A column of an extract: its place and the name that it answers.
#[derive(Debug)]
pub struct Col {
    pub idx: usize,
    pub name: String,
}

/// A column as plain values.
pub struct Column {
    pub idx: int,
    pub name: Seq<char>,
}

impl View for Col {
    type V = Column;

    open spec fn view(&self) -> Column {
        Column { idx: self.idx as int, name: self.name@ }
    }
}

/// a query for the time series for some
/// repos (maybe) and the sum (maybe) of a user
#[derive(Debug)]
pub struct UserQuery {
    pub user_id: UserId,
    pub sum: Option<Col>,
    pub repos: Vec<Col>,
}

/// A query as plain values.
pub struct Query {
    pub user: Seq<char>,
    pub sum: Option<Column>,
    pub repos: Seq<Column>,
}

/// An optional column as plain values.
pub open spec fn column_of(col: Option<Col>) -> Option<Column> {
    match col {
        Some(c) => Some(c@),
        None => None,
    }
}

impl View for UserQuery {
    type V = Query;

    open spec fn view(&self) -> Query {
        Query { user: self.user_id@, sum: column_of(self.sum), repos: views(self.repos@) }
    }
}

/// What one snapshot answers to a query: its time, the total of its stars,
/// and one optional count for each repository asked for.
#[derive(Debug)]
pub struct UserResponseLine {
    pub time: Timestamp,
    pub sum: usize,
    pub counts: Vec<Option<usize>>,
}

/// A response line as plain values.
pub struct ResponseLine {
    pub time: i64,
    pub sum: nat,
    pub counts: Seq<Option<nat>>,
}

/// Optional star counts as optional natural numbers, one for one.
pub open spec fn cells(counts: Seq<Option<usize>>) -> Seq<Option<nat>> {
    counts.map_values(|stars: Option<usize>| stars_of(stars))
}

impl View for UserResponseLine {
    type V = ResponseLine;

    open spec fn view(&self) -> ResponseLine {
        ResponseLine { time: self.time@, sum: self.sum as nat, counts: cells(self.counts@) }
    }
}

} // verus!
