//! The rows of a report of changes.

use crate::database::change::{Change, RepoChange};
use crate::text::{decimal, decimal_string, views};
use vstd::prelude::*;
use vstd::string::*;

verus! {

/// A report of the most significant changes: at most `max_rows` of them are
/// shown.
pub struct ChangeReport<'c> {
    changes: &'c [RepoChange],
    max_rows: usize,
}

/// One row of the report.
#[derive(Debug)]
pub struct ReportRow {
    pub owner: String,
    pub name: String,
    pub last: String,
    pub trend: &'static str,
    pub now: usize,
    pub url: String,
}

/// A row of the report as plain values.
pub struct Shown {
    pub owner: Seq<char>,
    pub name: Seq<char>,
    pub last: Seq<char>,
    pub trend: Seq<char>,
    pub now: nat,
    pub url: Seq<char>,
}

impl View for ReportRow {
    type V = Shown;

    open spec fn view(&self) -> Shown {
        Shown {
            owner: self.owner@,
            name: self.name@,
            last: self.last@,
            trend: self.trend@,
            now: self.now as nat,
            url: self.url@,
        }
    }
}

/// What the report shows of a change: the stars before are left empty for a
/// repository seen for the first time.
pub open spec fn shown(change: Change) -> Shown {
    Shown {
        owner: change.repo.owner,
        name: change.repo.name,
        last: match change.old {
            Some(old) => decimal(old),
            None => Seq::empty(),
        },
        trend: change.trend(),
        now: change.new,
        url: change.url(),
    }
}

/// The number of rows shown of `count` changes.
pub open spec fn kept(count: nat, max_rows: nat) -> nat {
    if count > max_rows {
        max_rows
    } else {
        count
    }
}

impl<'c> ChangeReport<'c> {
    /// The changes that are reported.
    pub closed spec fn changes(self) -> Seq<Change> {
        views(self.changes@)
    }

    /// The greatest number of rows shown.
    pub closed spec fn limit(self) -> nat {
        self.max_rows as nat
    }

    /// A report of `changes` that shows at most `max_rows` of them.
    pub fn new(changes: &'c [RepoChange], max_rows: usize) -> (report: Self)
        ensures
            report.changes() == views(changes@),
            report.limit() == max_rows,
    {
        Self { changes, max_rows }
    }

    /// The number of changes.
    pub fn change_count(&self) -> (count: usize)
        ensures
            count == self.changes().len(),
    {
        self.changes.len()
    }

    /// The number of rows shown, where it is less than the number of
    /// changes.
    pub fn kept_count(&self) -> (count: Option<usize>)
        ensures
            count is Some <==> self.changes().len() > self.limit(),
            count matches Some(n) ==> n == self.limit(),
    {
        if self.changes.len() > self.max_rows {
            Some(self.max_rows)
        } else {
            None
        }
    }

    /// The rows of the report: one for each of the first changes, as many as
    /// are shown.
    pub fn rows(&self) -> (rows: Vec<ReportRow>)
        ensures
            views(rows@) == self.changes().take(
                kept(self.changes().len(), self.limit()) as int,
            ).map_values(|change: Change| shown(change)),
    {
        let count = if self.changes.len() > self.max_rows {
            self.max_rows
        } else {
            self.changes.len()
        };
        let mut rows: Vec<ReportRow> = Vec::new();
        let mut i: usize = 0;
        while i < count
            invariant
                i <= count <= self.changes.len(),
                rows.len() == i,
                forall|k: int| 0 <= k < i ==> (#[trigger] rows[k])@ == shown(self.changes[k]@),
            decreases count - i,
        {
            let change = &self.changes[i];
            let last = match change.old_stars {
                Some(stars) => decimal_string(stars),
                None => String::new(),
            };
            rows.push(
                ReportRow {
                    owner: change.repo_id.owner.login.clone(),
                    name: change.repo_id.name.clone(),
                    last,
                    trend: change.trend_markdown(),
                    now: change.new_stars,
                    url: change.url(),
                },
            );
            i += 1;
        }
        assert(views(rows@) =~= self.changes().take(
            kept(self.changes().len(), self.limit()) as int,
        ).map_values(|change: Change| shown(change)));
        rows
    }
}

} // verus!
