//! Extracts: time-aligned tables of the star counts of users and
//! repositories.

use crate::database::change::stars_of;
use crate::database::db::{history_in, Db};
use crate::database::table::{ascending, cell, has_row, lemma_rows_of, observed, uniform};
use crate::database::user_obs::Snapshot;
use crate::database::user_query::{
    cells, Col, Column, Query, ResponseLine, UserQuery, UserResponseLine,
};
use crate::error::Error;
use crate::github::user_id::UserId;
use crate::text::{decimal, decimal_string, repo_part, split_name, user_part, views};
use crate::time::{rfc3339_text, Timestamp};
use vstd::prelude::*;
use vstd::string::*;

verus! {

/// One row of an extract: a time and, for each name of the extract, the
/// count at that time where there is one.
#[derive(Debug)]
pub struct ExtractLine {
    pub time: Timestamp,
    // this vec is the same len than the extract's names
    pub counts: Vec<Option<usize>>,
}

/// A time-aligned table of star counts.
#[derive(Debug)]
pub struct Extract {
    // names of either users or repos (with a /)
    pub names: Vec<String>,
    pub lines: Vec<ExtractLine>,
}

/// A row of an extract as plain values.
pub struct Row {
    pub time: i64,
    pub counts: Seq<Option<nat>>,
}

impl View for ExtractLine {
    type V = Row;

    open spec fn view(&self) -> Row {
        Row { time: self.time@, counts: cells(self.counts@) }
    }
}

/// An extract as plain values.
pub struct Table {
    pub names: Seq<Seq<char>>,
    pub rows: Seq<Row>,
}

impl View for Extract {
    type V = Table;

    open spec fn view(&self) -> Table {
        Table { names: views(self.names@), rows: views(self.lines@) }
    }
}

/// The users that `names` speak of, each once, in the order in which they
/// first occur.
pub open spec fn distinct_users(names: Seq<Seq<char>>) -> Seq<Seq<char>>
    decreases names.len(),
{
    if names.len() == 0 {
        Seq::empty()
    } else {
        let earlier = distinct_users(names.drop_last());
        let user = user_part(names.last());
        if earlier.contains(user) {
            earlier
        } else {
            earlier.push(user)
        }
    }
}

/// The column that gets the sum of `user`: the last of `names` that is the
/// user's login and nothing more.
pub open spec fn sum_col(names: Seq<Seq<char>>, user: Seq<char>) -> Option<Column>
    decreases names.len(),
{
    if names.len() == 0 {
        None
    } else if user_part(names.last()) == user && repo_part(names.last()) is None {
        Some(Column { idx: names.len() - 1, name: names.last() })
    } else {
        sum_col(names.drop_last(), user)
    }
}

/// The columns that get a repository of `user`, in the order of `names`,
/// each with the name of its repository.
pub open spec fn repo_cols(names: Seq<Seq<char>>, user: Seq<char>) -> Seq<Column>
    decreases names.len(),
{
    if names.len() == 0 {
        Seq::empty()
    } else {
        let earlier = repo_cols(names.drop_last(), user);
        match repo_part(names.last()) {
            Some(repo) => if user_part(names.last()) == user {
                earlier.push(Column { idx: names.len() - 1, name: repo })
            } else {
                earlier
            },
            None => earlier,
        }
    }
}

/// What `names` ask of `user`.
pub open spec fn query_for(names: Seq<Seq<char>>, user: Seq<char>) -> Query {
    Query { user, sum: sum_col(names, user), repos: repo_cols(names, user) }
}

/// One query for each user that `names` speak of.
pub open spec fn queries_of(names: Seq<Seq<char>>) -> Seq<Query> {
    distinct_users(names).map_values(|user: Seq<char>| query_for(names, user))
}

/// The header of the table as text: `time`, then each name after a comma.
pub open spec fn header_text(names: Seq<Seq<char>>) -> Seq<char>
    decreases names.len(),
{
    if names.len() == 0 {
        "time"@
    } else {
        header_text(names.drop_last()) + ","@ + names.last()
    }
}

/// The cells of a row as text: each after a comma, a count as a decimal
/// numeral and an absent one as nothing.
pub open spec fn cells_text(counts: Seq<Option<nat>>) -> Seq<char>
    decreases counts.len(),
{
    if counts.len() == 0 {
        Seq::empty()
    } else {
        cells_text(counts.drop_last()) + ","@ + match counts.last() {
            Some(n) => decimal(n),
            None => Seq::empty(),
        }
    }
}

impl Row {
    /// The row as a line of text: the time in RFC 3339 form at second
    /// precision, then the cells.
    pub open spec fn text(self) -> Seq<char> {
        rfc3339_text(self.time)->0 + cells_text(self.counts) + "\n"@
    }
}

/// The rows as text, one line each.
pub open spec fn rows_text(rows: Seq<Row>) -> Seq<char>
    decreases rows.len(),
{
    if rows.len() == 0 {
        Seq::empty()
    } else {
        rows_text(rows.drop_last()) + rows.last().text()
    }
}

impl Table {
    /// The table as CSV text: the header, then one line for each row.
    pub open spec fn csv(self) -> Seq<char> {
        header_text(self.names) + "\n"@ + rows_text(self.rows)
    }
}

/// A row of `width` cells without a count.
pub open spec fn blank(width: nat) -> Seq<Option<nat>> {
    Seq::new(width, |c: int| None)
}

/// The place of the first row that is not earlier than `time`, or the number
/// of rows where all are earlier.
pub open spec fn place_of(rows: Seq<Row>, time: i64) -> int
    decreases rows.len(),
{
    if rows.len() == 0 || rows[0].time >= time {
        0
    } else {
        1 + place_of(rows.drop_first(), time)
    }
}

/// `base` with the cell of each column of `repos` set to the count that
/// stands at the column's place in `counts`.
pub open spec fn with_repos(base: Seq<Option<nat>>, repos: Seq<Column>, counts: Seq<Option<nat>>) -> Seq<
    Option<nat>,
>
    decreases repos.len(),
{
    if repos.len() == 0 {
        base
    } else {
        with_repos(base, repos.drop_last(), counts).update(
            repos.last().idx,
            counts[repos.len() - 1],
        )
    }
}

/// `base` with the cells that `query` asks for set to what `line` answers:
/// the sum in the column of the sum, each count in the column of its
/// repository.
pub open spec fn filled(query: Query, line: ResponseLine, base: Seq<Option<nat>>) -> Seq<
    Option<nat>,
> {
    let summed = match query.sum {
        Some(col) => base.update(col.idx, Some(line.sum)),
        None => base,
    };
    with_repos(summed, query.repos, line.counts)
}

/// `rows` after one response line: the row of the line's time, put in at its
/// place in the order of time where there was none, gets the answers.
pub open spec fn merged(rows: Seq<Row>, width: nat, query: Query, line: ResponseLine) -> Seq<Row> {
    let place = place_of(rows, line.time);
    if place < rows.len() && rows[place].time == line.time {
        rows.update(place, Row { time: line.time, counts: filled(query, line, rows[place].counts) })
    } else {
        rows.insert(place, Row { time: line.time, counts: filled(query, line, blank(width)) })
    }
}

/// `rows` after the response lines of one query, taken in their order.
pub open spec fn merged_lines(rows: Seq<Row>, width: nat, query: Query, lines: Seq<ResponseLine>) -> Seq<
    Row,
>
    decreases lines.len(),
{
    if lines.len() == 0 {
        rows
    } else {
        merged(merged_lines(rows, width, query, lines.drop_last()), width, query, lines.last())
    }
}

/// The names of the repositories that a query asks for, in its order.
pub open spec fn repo_names(query: Query) -> Seq<Seq<char>> {
    query.repos.map_values(|col: Column| col.name)
}

/// What the store answers to a query: one line for each snapshot of the
/// user, in the order of the store.
pub open spec fn answers(store: Map<Seq<char>, Seq<Snapshot>>, query: Query) -> Seq<ResponseLine> {
    history_in(store, query.user).map_values(
        |snapshot: Snapshot| snapshot.response(repo_names(query)),
    )
}

/// The rows after the answers to each of `queries`, taken in their order.
pub open spec fn merged_queries(
    store: Map<Seq<char>, Seq<Snapshot>>,
    width: nat,
    queries: Seq<Query>,
) -> Seq<Row>
    decreases queries.len(),
{
    if queries.len() == 0 {
        Seq::empty()
    } else {
        merged_lines(
            merged_queries(store, width, queries.drop_last()),
            width,
            queries.last(),
            answers(store, queries.last()),
        )
    }
}

/// The rows of the extract that `names` ask of `store`.
pub open spec fn rows_of(store: Map<Seq<char>, Seq<Snapshot>>, names: Seq<Seq<char>>) -> Seq<Row> {
    merged_queries(store, names.len(), queries_of(names))
}

/// The first of `users` that `store` does not know.
pub open spec fn unknown_user(store: Map<Seq<char>, Seq<Snapshot>>, users: Seq<Seq<char>>) -> Option<
    Seq<char>,
>
    decreases users.len(),
{
    if users.len() == 0 {
        None
    } else {
        match unknown_user(store, users.drop_last()) {
            Some(user) => Some(user),
            None => if store.dom().contains(users.last()) {
                None
            } else {
                Some(users.last())
            },
        }
    }
}

/// The first unknown user among the first of `users` is the first unknown
/// user among all of them.
pub proof fn lemma_unknown_user_found(
    store: Map<Seq<char>, Seq<Snapshot>>,
    users: Seq<Seq<char>>,
    n: int,
)
    requires
        0 <= n <= users.len(),
        unknown_user(store, users.take(n)) is Some,
    ensures
        unknown_user(store, users) == unknown_user(store, users.take(n)),
    decreases users.len() - n,
{
    if n < users.len() {
        assert(users.take(n + 1).drop_last() =~= users.take(n));
        lemma_unknown_user_found(store, users, n + 1);
    } else {
        assert(users.take(n) =~= users);
    }
}

/// Whether the columns of `query` lie within `width`.
pub open spec fn cols_within(query: Query, width: nat) -> bool {
    &&& query.sum matches Some(col) ==> 0 <= col.idx < width
    &&& forall|k: int| 0 <= k < query.repos.len() ==> 0 <= (#[trigger] query.repos[k]).idx < width
}

/// The columns that `names` ask of a user are columns of `names`.
pub proof fn lemma_cols_within(names: Seq<Seq<char>>, user: Seq<char>)
    ensures
        cols_within(query_for(names, user), names.len()),
    decreases names.len(),
{
    if names.len() > 0 {
        lemma_cols_within(names.drop_last(), user);
        let earlier = repo_cols(names.drop_last(), user);
        let all = repo_cols(names, user);
        assert forall|k: int| 0 <= k < all.len() implies 0 <= (#[trigger] all[k]).idx
            < names.len() by {
            if k < earlier.len() {
                assert(all[k] == earlier[k]);
                let asked = query_for(names.drop_last(), user);
                assert(0 <= asked.repos[k].idx < names.len() - 1);
            } else {
                assert(all.len() == earlier.len() + 1);
                assert(all[k].idx == names.len() - 1);
            }
        }
    }
}

/// A row is first among those not earlier than `time` where all rows before
/// it are earlier and it is not.
pub proof fn lemma_place_of_is(rows: Seq<Row>, time: i64, place: int)
    requires
        0 <= place <= rows.len(),
        place < rows.len() ==> rows[place].time >= time,
        forall|j: int| 0 <= j < place ==> rows[j].time < time,
    ensures
        place_of(rows, time) == place,
    decreases rows.len(),
{
    if place > 0 {
        let rest = rows.drop_first();
        assert(rows[0].time < time);
        assert forall|j: int| 0 <= j < place - 1 implies rest[j].time < time by {
            assert(rest[j] == rows[j + 1]);
        }
        lemma_place_of_is(rest, time, place - 1);
    }
}

/// A user of whom no name speaks is asked nothing.
pub proof fn lemma_unasked_user(names: Seq<Seq<char>>, user: Seq<char>)
    requires
        !distinct_users(names).contains(user),
    ensures
        sum_col(names, user) is None,
        repo_cols(names, user) == Seq::<Column>::empty(),
    decreases names.len(),
{
    if names.len() > 0 {
        let earlier = distinct_users(names.drop_last());
        let last = user_part(names.last());
        if earlier.contains(last) {
            assert(last != user);
        } else {
            assert(earlier.push(last)[earlier.len() as int] == last);
            assert(last != user);
            assert forall|k: int| 0 <= k < earlier.len() implies earlier[k] != user by {
                assert(earlier.push(last)[k] == earlier[k]);
            }
        }
        lemma_unasked_user(names.drop_last(), user);
    }
}

/// No user stands twice among the distinct users.
pub proof fn lemma_distinct_users(names: Seq<Seq<char>>)
    ensures
        forall|i: int, j: int|
            0 <= i < j < distinct_users(names).len() ==> distinct_users(names)[i]
                != distinct_users(names)[j],
    decreases names.len(),
{
    if names.len() > 0 {
        lemma_distinct_users(names.drop_last());
        let earlier = distinct_users(names.drop_last());
        let user = user_part(names.last());
        let all = distinct_users(names);
        assert forall|i: int, j: int| 0 <= i < j < all.len() implies all[i] != all[j] by {
            if !earlier.contains(user) {
                assert(all =~= earlier.push(user));
                if j == earlier.len() {
                    assert(earlier[i] != user);
                } else {
                    assert(all[i] == earlier[i] && all[j] == earlier[j]);
                }
            }
        }
    }
}

impl Extract {
    /// Sets the cells that `query` asks for to what `line` answers.
    fn fill(counts: &mut Vec<Option<usize>>, query: &UserQuery, line: &UserResponseLine)
        requires
            cols_within(query@, old(counts).len() as nat),
            line.counts.len() == query.repos.len(),
        ensures
            cells(final(counts)@) == filled(query@, line@, cells(old(counts)@)),
            final(counts).len() == old(counts).len(),
    {
        let ghost width = counts.len() as nat;
        match &query.sum {
            Some(col) => {
                let ghost before = cells(counts@);
                counts.set(col.idx, Some(line.sum));
                assert(cells(counts@) =~= before.update(col.idx as int, Some(line.sum as nat)));
            },
            None => {},
        }
        let ghost summed = cells(counts@);
        let mut k: usize = 0;
        while k < query.repos.len()
            invariant
                k <= query.repos.len(),
                counts.len() == width,
                cols_within(query@, width),
                line.counts.len() == query.repos.len(),
                cells(counts@) == with_repos(summed, query@.repos.take(k as int), line@.counts),
            decreases query.repos.len() - k,
        {
            let ghost before = cells(counts@);
            proof {
                let repos = query@.repos;
                assert(repos.take(k + 1).drop_last() =~= repos.take(k as int));
                assert(repos.take(k + 1).last() == query.repos[k as int]@);
                assert(repos[k as int] == query.repos[k as int]@);
                assert(line@.counts[k as int] == stars_of(
                    line.counts[k as int],
                ));
            }
            counts.set(query.repos[k].idx, line.counts[k]);
            assert(cells(counts@) =~= before.update(
                query.repos[k as int].idx as int,
                line@.counts[k as int],
            ));
            k += 1;
        }
        assert(query@.repos.take(k as int) =~= query@.repos);
    }

    /// A row of `width` cells without a count.
    fn blank_counts(width: usize) -> (counts: Vec<Option<usize>>)
        ensures
            counts.len() == width,
            cells(counts@) == blank(width as nat),
    {
        let mut counts: Vec<Option<usize>> = Vec::new();
        let mut n: usize = 0;
        while n < width
            invariant
                n <= width,
                counts.len() == n,
                forall|i: int| 0 <= i < n ==> counts[i] is None,
            decreases width - n,
        {
            counts.push(None);
            n += 1;
        }
        assert(cells(counts@) =~= blank(width as nat));
        counts
    }

    /// Merges one response line into the rows.
    fn merge_line(
        lines: &mut Vec<ExtractLine>,
        width: usize,
        query: &UserQuery,
        line: &UserResponseLine,
    )
        requires
            cols_within(query@, width as nat),
            line.counts.len() == query.repos.len(),
            forall|i: int| 0 <= i < old(lines).len() ==> (#[trigger] old(lines)[i]).counts.len()
                == width,
        ensures
            views(final(lines)@) == merged(views(old(lines)@), width as nat, query@, line@),
            forall|i: int| 0 <= i < final(lines).len() ==> (#[trigger] final(lines)[i]).counts.len()
                == width,
    {
        let ghost rows = views(lines@);
        let mut place: usize = 0;
        while place < lines.len() && lines[place].time.secs() < line.time.secs()
            invariant
                place <= lines.len(),
                forall|j: int| 0 <= j < place ==> lines[j].time@ < line.time@,
            decreases lines.len() - place,
        {
            place += 1;
        }
        proof {
            assert forall|j: int| 0 <= j < place implies rows[j].time < line@.time by {
                assert(rows[j] == lines[j]@);
            }
            lemma_place_of_is(rows, line@.time, place as int);
        }
        if place < lines.len() && lines[place].time.secs() == line.time.secs() {
            let mut counts: Vec<Option<usize>> = Vec::new();
            core::mem::swap(&mut lines[place].counts, &mut counts);
            Self::fill(&mut counts, query, line);
            core::mem::swap(&mut lines[place].counts, &mut counts);
            proof {
                Timestamp::lemma_same_secs(lines[place as int].time, line.time);
                assert(views(lines@) =~= merged(rows, width as nat, query@, line@));
            }
        } else {
            let mut counts = Self::blank_counts(width);
            Self::fill(&mut counts, query, line);
            lines.insert(place, ExtractLine { time: line.time, counts });
            assert(views(lines@) =~= merged(rows, width as nat, query@, line@));
        }
    }

    /// Compiles the names into queries, one for each user, in the order in
    /// which the users first occur.
    pub fn queries(names: &Vec<String>) -> (queries: Vec<UserQuery>)
        ensures
            views(queries@) == queries_of(views(names@)),
    {
        let ghost all = views(names@);
        let mut queries: Vec<UserQuery> = Vec::new();
        let mut idx: usize = 0;
        assert(views(queries@) =~= queries_of(all.take(0)));
        while idx < names.len()
            invariant
                idx <= names.len(),
                all == views(names@),
                views(queries@) == queries_of(all.take(idx as int)),
            decreases names.len() - idx,
        {
            let ghost seen = all.take(idx as int);
            let ghost next = all.take(idx + 1);
            let ghost name = names[idx as int]@;
            let ghost before = views(queries@);
            let ghost users = distinct_users(seen);
            proof {
                assert(next.drop_last() =~= seen);
                assert(next.last() == name);
                assert(before.len() == users.len());
                assert forall|k: int| 0 <= k < queries.len() implies queries[k].user_id@
                    == users[k] by {
                    assert(before[k] == queries[k]@);
                    assert(before[k] == query_for(seen, users[k]));
                }
            }
            let (user, repo) = split_name(names[idx].as_str());
            let mut query_idx: usize = 0;
            while query_idx < queries.len() && !queries[query_idx].user_id.login.as_str().eq(user)
                invariant
                    query_idx <= queries.len(),
                    forall|k: int| 0 <= k < query_idx ==> queries[k].user_id@ != user@,
                decreases queries.len() - query_idx,
            {
                query_idx += 1;
            }
            if query_idx == queries.len() {
                proof {
                    assert(!users.contains(user@));
                    lemma_unasked_user(seen, user@);
                }
                queries.push(UserQuery { user_id: UserId::new(user), sum: None, repos: Vec::new() });
                assert(queries[query_idx as int]@ == query_for(seen, user@)) by {
                    assert(views(queries[query_idx as int].repos@) =~= Seq::<Column>::empty());
                }
            } else {
                assert(users[query_idx as int] == user@);
                assert(users.contains(user@));
                assert(before[query_idx as int] == queries[query_idx as int]@);
                assert(before[query_idx as int] == query_for(seen, users[query_idx as int]));
            }
            let ghost grown = distinct_users(next);
            let ghost found = views(queries@);
            proof {
                lemma_distinct_users(next);
                assert(queries.len() == grown.len());
                assert(grown[query_idx as int] == user@);
                assert forall|k: int| 0 <= k < queries.len() && k != query_idx implies found[k]
                    == before[k] && grown[k] == users[k] by {
                    assert(found[k] == queries[k]@);
                }
            }
            assert(queries[query_idx as int]@ == query_for(seen, user@));
            match repo {
                Some(repo) => {
                    let ghost repos = views(queries[query_idx as int].repos@);
                    let col = Col { idx, name: String::from_str(repo) };
                    queries[query_idx].repos.push(col);
                    assert(views(queries[query_idx as int].repos@) =~= repos.push(col@));
                },
                None => {
                    queries[query_idx].sum = Some(Col { idx, name: names[idx].clone() });
                },
            }
            proof {
                assert(queries[query_idx as int]@ == query_for(next, user@));
                assert forall|k: int| 0 <= k < queries.len() implies queries[k]@ == query_for(
                    next,
                    grown[k],
                ) by {
                    if k != query_idx {
                        assert(queries[k]@ == found[k]);
                        assert(before[k] == query_for(seen, users[k]));
                        assert(grown[k] != user@);
                    }
                }
                assert(views(queries@) =~= queries_of(next));
            }
            idx += 1;
        }
        assert(all.take(idx as int) =~= all);
        queries
    }

    /// The table as CSV text: a header `time,<name>,<name>,...`, then one line
    /// for each row, with the time in RFC 3339 form at second precision and an
    /// empty cell where there is no count.
    pub fn write_csv(&self) -> (csv: String)
        ensures
            csv@ == self@.csv(),
    {
        let mut csv = String::from_str("time");
        let ghost names = views(self.names@);
        let mut n: usize = 0;
        assert(names.take(0) =~= Seq::<Seq<char>>::empty());
        while n < self.names.len()
            invariant
                n <= self.names.len(),
                names == views(self.names@),
                csv@ == header_text(names.take(n as int)),
            decreases self.names.len() - n,
        {
            proof {
                assert(names.take(n + 1).drop_last() =~= names.take(n as int));
                assert(names.take(n + 1).last() == self.names[n as int]@);
            }
            csv.append(",");
            csv.append(self.names[n].as_str());
            n += 1;
        }
        assert(names.take(n as int) =~= names);
        csv.append("\n");
        let ghost head = csv@;
        let ghost rows = views(self.lines@);
        let mut i: usize = 0;
        assert(rows.take(0) =~= Seq::<Row>::empty());
        assert(csv@ =~= head + rows_text(rows.take(0)));
        while i < self.lines.len()
            invariant
                i <= self.lines.len(),
                rows == views(self.lines@),
                csv@ == head + rows_text(rows.take(i as int)),
            decreases self.lines.len() - i,
        {
            let line = &self.lines[i];
            let ghost done = csv@;
            let ghost counts = line@.counts;
            proof {
                assert(rows.take(i + 1).drop_last() =~= rows.take(i as int));
                assert(rows.take(i + 1).last() == line@);
            }
            let time = line.time.to_rfc3339();
            csv.append(time.as_str());
            let mut k: usize = 0;
            assert(counts.take(0) =~= Seq::<Option<nat>>::empty());
            assert(csv@ =~= done + time@ + cells_text(counts.take(0)));
            while k < line.counts.len()
                invariant
                    k <= line.counts.len(),
                    counts == line@.counts,
                    csv@ == done + time@ + cells_text(counts.take(k as int)),
                decreases line.counts.len() - k,
            {
                let ghost so_far = csv@;
                proof {
                    assert(counts.take(k + 1).drop_last() =~= counts.take(k as int));
                    assert(counts.take(k + 1).last() == stars_of(
                        line.counts[k as int],
                    ));
                }
                csv.append(",");
                match line.counts[k] {
                    Some(count) => {
                        csv.append(decimal_string(count).as_str());
                    },
                    None => {
                        assert(csv@ =~= so_far + ","@ + Seq::<char>::empty());
                    },
                }
                assert(csv@ =~= done + time@ + cells_text(counts.take(k + 1)));
                k += 1;
            }
            assert(counts.take(k as int) =~= counts);
            csv.append("\n");
            assert(csv@ =~= head + rows_text(rows.take(i + 1))) by {
                assert(line@.text() =~= time@ + cells_text(counts) + "\n"@);
                assert(csv@ =~= done + line@.text());
            }
            i += 1;
        }
        assert(rows.take(i as int) =~= rows);
        csv
    }

    /// The names of the repositories that the query asks for.
    fn repo_names<'a>(query: &'a UserQuery) -> (names: Vec<&'a str>)
        ensures
            views(names@) == repo_names(query@),
    {
        let mut names: Vec<&'a str> = Vec::new();
        let mut k: usize = 0;
        while k < query.repos.len()
            invariant
                k <= query.repos.len(),
                names.len() == k,
                forall|i: int| 0 <= i < k ==> names[i]@ == query.repos[i].name@,
            decreases query.repos.len() - k,
        {
            names.push(query.repos[k].name.as_str());
            k += 1;
        }
        assert(views(names@) =~= repo_names(query@));
        names
    }

    /// The time-aligned table that `names` ask of the store: one column for
    /// each name, in their order, and one row for each time at which the
    /// store holds a snapshot of one of the users, in ascending order. A name
    /// is a login, for the sum of the user's stars, or a login, `/` and the
    /// name of a repository. Fails where the store does not know one of the
    /// users.
    pub fn read(db: &Db, names: Vec<String>) -> (extract: Result<Extract, Error>)
        ensures
            extract is Ok <==> unknown_user(db@, distinct_users(views(names@))) is None,
            extract matches Ok(table) ==> table.names == names && views(table.lines@) == rows_of(
                db@,
                views(names@),
            ),
            extract matches Ok(table) ==> ascending(table@.rows) && uniform(
                table@.rows,
                names.len() as nat,
            ),
            extract matches Ok(table) ==> forall|time: i64| #[trigger]
                has_row(table@.rows, time) <==> observed(
                    db@,
                    distinct_users(views(names@)),
                    time,
                ),
            extract matches Ok(table) ==> forall|i: int, c: int|
                0 <= i < table.lines.len() && 0 <= c < names.len() ==> #[trigger] table@.rows[i].counts[c]
                    == cell(db@, views(names@), table@.rows[i].time, c),
            extract matches Err(error) ==> error matches Error::NoData { login } && Some(login@)
                == unknown_user(db@, distinct_users(views(names@))),
    {
        let ghost all = views(names@);
        let ghost users = distinct_users(all);
        let ghost asked = queries_of(all);
        let queries = Self::queries(&names);
        let width = names.len();
        let mut lines: Vec<ExtractLine> = Vec::new();
        let mut q: usize = 0;
        assert(users.take(0) =~= Seq::<Seq<char>>::empty());
        assert(asked.take(0) =~= Seq::<Query>::empty());
        while q < queries.len()
            invariant
                q <= queries.len(),
                all == views(names@),
                users == distinct_users(all),
                asked == queries_of(all),
                asked == views(queries@),
                width == names.len(),
                unknown_user(db@, users.take(q as int)) is None,
                views(lines@) == merged_queries(db@, width as nat, asked.take(q as int)),
                forall|i: int| 0 <= i < lines.len() ==> (#[trigger] lines[i]).counts.len() == width,
            decreases queries.len() - q,
        {
            let query = &queries[q];
            proof {
                assert(asked.len() == users.len());
                assert(asked.len() == queries.len());
                assert(asked[q as int] == query@);
                assert(asked[q as int] == query_for(all, users[q as int]));
                lemma_cols_within(all, users[q as int]);
                assert(users.take(q + 1).drop_last() =~= users.take(q as int));
                assert(asked.take(q + 1).drop_last() =~= asked.take(q as int));
                assert(asked.take(q + 1).last() == query@);
            }
            let wanted = Self::repo_names(query);
            let ghost before = views(lines@);
            match db.extract_user_query(&query.user_id, wanted) {
                Err(error) => {
                    proof {
                        lemma_unknown_user_found(db@, users, q + 1);
                    }
                    return Err(error);
                },
                Ok(response_lines) => {
                    let ghost found = views(response_lines@);
                    assert(found =~= answers(db@, query@));
                    let mut l: usize = 0;
                    while l < response_lines.len()
                        invariant
                            l <= response_lines.len(),
                            cols_within(query@, width as nat),
                            found == views(response_lines@),
                            found == answers(db@, query@),
                            views(lines@) == merged_lines(
                                before,
                                width as nat,
                                query@,
                                found.take(l as int),
                            ),
                            forall|i: int|
                                0 <= i < lines.len() ==> (#[trigger] lines[i]).counts.len()
                                    == width,
                        decreases response_lines.len() - l,
                    {
                        proof {
                            assert(found.take(l + 1).drop_last() =~= found.take(l as int));
                            assert(found.take(l + 1).last() == response_lines[l as int]@);
                            assert(found[l as int] == response_lines[l as int]@);
                            let history = history_in(db@, query@.user);
                            assert(answers(db@, query@).len() == history.len());
                            assert(answers(db@, query@)[l as int] == history[l as int].response(
                                repo_names(query@),
                            ));
                            assert(found[l as int] == history[l as int].response(
                                repo_names(query@),
                            ));
                            assert(repo_names(query@).len() == query@.repos.len());
                            assert(found[l as int].counts.len() == query@.repos.len());
                        }
                        Self::merge_line(&mut lines, width, query, &response_lines[l]);
                        l += 1;
                    }
                    assert(found.take(l as int) =~= found);
                },
            }
            q += 1;
        }
        assert(asked.len() == users.len());
        assert(asked.len() == queries.len());
        assert(users.take(q as int) =~= users);
        assert(asked.take(q as int) =~= asked);
        proof {
            lemma_rows_of(db@, all);
        }
        Ok(Extract { names, lines })
    }
}

} // verus!
