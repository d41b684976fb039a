//! What holds of the rows of an extract.

use crate::database::db::{history_in, Store};
use crate::database::extract::{
    answers, blank, cols_within, distinct_users, filled, lemma_cols_within, lemma_distinct_users,
    lemma_place_of_is, merged, merged_lines, merged_queries, place_of, queries_of, query_for,
    repo_cols, repo_names, rows_of, sum_col, with_repos, Row,
};
use crate::database::user_obs::{aligned_count, last_count, named_again, total, Snapshot};
use crate::database::user_query::{Column, Query, ResponseLine};
use crate::text::{repo_part, user_part};
use vstd::prelude::*;

verus! {

/// Whether the rows stand in strictly ascending order of time.
pub open spec fn ascending(rows: Seq<Row>) -> bool {
    forall|i: int, j: int| 0 <= i < j < rows.len() ==> rows[i].time < rows[j].time
}

/// Whether each row has `width` cells.
pub open spec fn uniform(rows: Seq<Row>, width: nat) -> bool {
    forall|i: int| 0 <= i < rows.len() ==> (#[trigger] rows[i]).counts.len() == width
}

/// Whether there is a row for `time`.
pub open spec fn has_row(rows: Seq<Row>, time: i64) -> bool {
    exists|i: int| 0 <= i < rows.len() && rows[i].time == time
}

/// The cell of column `c` in the row for `time`: no count where there is no
/// such row.
pub open spec fn value(rows: Seq<Row>, time: i64, c: int) -> Option<nat> {
    let place = place_of(rows, time);
    if place < rows.len() && rows[place].time == time {
        rows[place].counts[c]
    } else {
        None
    }
}

/// Whether one of the columns of `repos` is column `c`.
pub open spec fn among(repos: Seq<Column>, c: int) -> bool {
    exists|k: int| 0 <= k < repos.len() && repos[k].idx == c
}

/// Whether the query fills column `c`.
pub open spec fn touches(query: Query, c: int) -> bool {
    (query.sum matches Some(col) && col.idx == c) || among(query.repos, c)
}

/// The last of the lines that is for `time`.
pub open spec fn last_line_at(lines: Seq<ResponseLine>, time: i64) -> Option<ResponseLine>
    decreases lines.len(),
{
    if lines.len() == 0 {
        None
    } else if lines.last().time == time {
        Some(lines.last())
    } else {
        last_line_at(lines.drop_last(), time)
    }
}

/// The last of the snapshots that was taken at `time`.
pub open spec fn last_at(history: Seq<Snapshot>, time: i64) -> Option<Snapshot>
    decreases history.len(),
{
    if history.len() == 0 {
        None
    } else if history.last().time == time {
        Some(history.last())
    } else {
        last_at(history.drop_last(), time)
    }
}

/// What a response line puts in column `c` of a row of `width` cells that
/// held no count.
pub open spec fn answer(query: Query, line: ResponseLine, width: nat, c: int) -> Option<nat> {
    filled(query, line, blank(width))[c]
}

/// The cell of column `c` in the row for `time` of the extract that `names`
/// ask of `store`: what the query of the column's user finds in the last
/// snapshot that the store holds of that user at that time, and no count
/// where it holds none.
pub open spec fn cell(store: Store, names: Seq<Seq<char>>, time: i64, c: int) -> Option<nat> {
    let query = query_for(names, user_part(names[c]));
    match last_at(history_in(store, query.user), time) {
        Some(snapshot) => answer(query, snapshot.response(repo_names(query)), names.len(), c),
        None => None,
    }
}

/// Whether the store holds a snapshot taken at `time` of one of `users`.
pub open spec fn observed(store: Store, users: Seq<Seq<char>>, time: i64) -> bool {
    exists|m: int, k: int|
        0 <= m < users.len() && 0 <= k < history_in(store, users[m]).len() && (
        #[trigger] history_in(store, users[m])[k]).time == time
}

/// The place of a time among rows: all rows before it are earlier, and the
/// row at it, if any, is not.
pub proof fn lemma_place_of(rows: Seq<Row>, time: i64)
    ensures
        0 <= place_of(rows, time) <= rows.len(),
        place_of(rows, time) < rows.len() ==> rows[place_of(rows, time)].time >= time,
        forall|j: int| 0 <= j < place_of(rows, time) ==> rows[j].time < time,
    decreases rows.len(),
{
    if rows.len() == 0 || rows[0].time >= time {
    } else {
        let rest = rows.drop_first();
        lemma_place_of(rest, time);
        assert forall|j: int| 0 <= j < place_of(rows, time) implies rows[j].time < time by {
            if j > 0 {
                assert(rows[j] == rest[j - 1]);
            }
        }
    }
}

/// Among ascending rows, the row for a time stands at the place of that
/// time.
pub proof fn lemma_place_of_row(rows: Seq<Row>, i: int)
    requires
        ascending(rows),
        0 <= i < rows.len(),
    ensures
        place_of(rows, rows[i].time) == i,
{
    lemma_place_of_is(rows, rows[i].time, i);
}

/// Setting cells keeps the number of cells.
pub proof fn lemma_filled_len(query: Query, line: ResponseLine, base: Seq<Option<nat>>)
    requires
        cols_within(query, base.len()),
    ensures
        filled(query, line, base).len() == base.len(),
{
    let summed = match query.sum {
        Some(col) => base.update(col.idx, Some(line.sum)),
        None => base,
    };
    lemma_with_repos_len(summed, query.repos, line.counts);
}

/// Setting cells keeps the number of cells.
pub proof fn lemma_with_repos_len(
    base: Seq<Option<nat>>,
    repos: Seq<Column>,
    counts: Seq<Option<nat>>,
)
    requires
        forall|k: int| 0 <= k < repos.len() ==> 0 <= (#[trigger] repos[k]).idx < base.len(),
    ensures
        with_repos(base, repos, counts).len() == base.len(),
    decreases repos.len(),
{
    if repos.len() > 0 {
        let front = repos.drop_last();
        assert forall|k: int| 0 <= k < front.len() implies 0 <= (#[trigger] front[k]).idx
            < base.len() by {
            assert(front[k] == repos[k]);
        }
        lemma_with_repos_len(base, front, counts);
        assert(0 <= repos[repos.len() - 1].idx < base.len());
    }
}

/// Columns are set one by one: a cell that no column is for stays as it
/// was, and a cell that a column is for does not depend on what it was.
pub proof fn lemma_with_repos(
    base: Seq<Option<nat>>,
    other: Seq<Option<nat>>,
    repos: Seq<Column>,
    counts: Seq<Option<nat>>,
    c: int,
)
    requires
        base.len() == other.len(),
        0 <= c < base.len(),
        forall|k: int| 0 <= k < repos.len() ==> 0 <= (#[trigger] repos[k]).idx < base.len(),
    ensures
        with_repos(base, repos, counts).len() == base.len(),
        !among(repos, c) ==> with_repos(base, repos, counts)[c] == base[c],
        among(repos, c) ==> with_repos(base, repos, counts)[c] == with_repos(
            other,
            repos,
            counts,
        )[c],
    decreases repos.len(),
{
    if repos.len() > 0 {
        let front = repos.drop_last();
        assert forall|k: int| 0 <= k < front.len() implies 0 <= (#[trigger] front[k]).idx
            < base.len() by {
            assert(front[k] == repos[k]);
        }
        lemma_with_repos(base, other, front, counts, c);
        lemma_with_repos(other, base, front, counts, c);
        let last = repos[repos.len() - 1];
        assert(0 <= last.idx < base.len());
        if last.idx == c {
            assert(among(repos, c));
        } else {
            if among(repos, c) {
                let k = choose|k: int| 0 <= k < repos.len() && repos[k].idx == c;
                assert(front[k].idx == c);
                assert(among(front, c));
            }
            if among(front, c) {
                let k = choose|k: int| 0 <= k < front.len() && front[k].idx == c;
                assert(repos[k].idx == c);
            }
        }
    }
}

/// A query fills the cells of its columns with its answers, whatever they
/// held, and leaves the other cells as they were.
pub proof fn lemma_filled(query: Query, line: ResponseLine, base: Seq<Option<nat>>, c: int)
    requires
        cols_within(query, base.len()),
        0 <= c < base.len(),
    ensures
        filled(query, line, base).len() == base.len(),
        touches(query, c) ==> filled(query, line, base)[c] == answer(query, line, base.len(), c),
        !touches(query, c) ==> filled(query, line, base)[c] == base[c],
{
    let empty = blank(base.len());
    let summed = match query.sum {
        Some(col) => base.update(col.idx, Some(line.sum)),
        None => base,
    };
    let summed_empty = match query.sum {
        Some(col) => empty.update(col.idx, Some(line.sum)),
        None => empty,
    };
    lemma_with_repos(summed, summed_empty, query.repos, line.counts, c);
    lemma_with_repos(summed_empty, summed, query.repos, line.counts, c);
}

/// One response line keeps the rows in order and as wide as they were, adds
/// at most the row of its time, and changes only the cells of the columns of
/// its query in that row.
pub proof fn lemma_merged(rows: Seq<Row>, width: nat, query: Query, line: ResponseLine)
    requires
        ascending(rows),
        uniform(rows, width),
        cols_within(query, width),
    ensures
        ascending(merged(rows, width, query, line)),
        uniform(merged(rows, width, query, line), width),
        forall|time: i64| #[trigger]
            has_row(merged(rows, width, query, line), time) <==> has_row(rows, time) || time
                == line.time,
        forall|time: i64, c: int|
            0 <= c < width ==> #[trigger] value(merged(rows, width, query, line), time, c) == if time
                == line.time && touches(query, c) {
                answer(query, line, width, c)
            } else {
                value(rows, time, c)
            },
{
    let place = place_of(rows, line.time);
    let after = merged(rows, width, query, line);
    lemma_place_of(rows, line.time);
    if place < rows.len() && rows[place].time == line.time {
        let row = Row { time: line.time, counts: filled(query, line, rows[place].counts) };
        assert(rows[place].counts.len() == width);
        lemma_filled_len(query, line, rows[place].counts);
        assert forall|i: int| 0 <= i < after.len() implies (#[trigger] after[i]).time
            == rows[i].time by {}
        assert forall|time: i64| #[trigger]
            has_row(after, time) <==> has_row(rows, time) || time == line.time by {
            if has_row(after, time) {
                let i = choose|i: int| 0 <= i < after.len() && after[i].time == time;
                assert(rows[i].time == time);
            }
            if has_row(rows, time) {
                let i = choose|i: int| 0 <= i < rows.len() && rows[i].time == time;
                assert(after[i].time == time);
            }
            if time == line.time {
                assert(after[place].time == time);
            }
        }
        assert forall|time: i64, c: int| 0 <= c < width implies #[trigger] value(after, time, c)
            == if time == line.time && touches(query, c) {
            answer(query, line, width, c)
        } else {
            value(rows, time, c)
        } by {
            lemma_place_of(rows, time);
            let at = place_of(rows, time);
            assert forall|j: int| 0 <= j < at implies after[j].time < time by {
                assert(after[j].time == rows[j].time);
            }
            if at < rows.len() {
                assert(after[at].time == rows[at].time);
            }
            lemma_place_of_is(after, time, at);
            if time == line.time {
                lemma_filled(query, line, rows[place].counts, c);
            }
        }
    } else {
        let row = Row { time: line.time, counts: filled(query, line, blank(width)) };
        rows.insert_ensures(place, row);
        lemma_filled_len(query, line, blank(width));
        assert forall|i: int, j: int| 0 <= i < j < after.len() implies after[i].time
            < after[j].time by {
            if i < place {
                assert(after[i] == rows[i]);
            } else if i > place {
                assert(after[i] == rows[i - 1]);
            }
            if j < place {
                assert(after[j] == rows[j]);
            } else if j > place {
                assert(after[j] == rows[j - 1]);
            }
            if place < rows.len() {
                assert(rows[place].time > line.time);
            }
        }
        assert forall|i: int| 0 <= i < after.len() implies (#[trigger] after[i]).counts.len()
            == width by {
            if i < place {
                assert(after[i] == rows[i]);
            } else if i > place {
                assert(after[i] == rows[i - 1]);
            }
        }
        assert forall|time: i64| #[trigger]
            has_row(after, time) <==> has_row(rows, time) || time == line.time by {
            if has_row(after, time) {
                let i = choose|i: int| 0 <= i < after.len() && after[i].time == time;
                if i < place {
                    assert(after[i] == rows[i]);
                } else if i > place {
                    assert(after[i] == rows[i - 1]);
                }
            }
            if has_row(rows, time) {
                let i = choose|i: int| 0 <= i < rows.len() && rows[i].time == time;
                if i < place {
                    assert(after[i] == rows[i]);
                } else {
                    assert(after[i + 1] == rows[i]);
                }
            }
            if time == line.time {
                assert(after[place].time == time);
            }
        }
        assert forall|time: i64, c: int| 0 <= c < width implies #[trigger] value(after, time, c)
            == if time == line.time && touches(query, c) {
            answer(query, line, width, c)
        } else {
            value(rows, time, c)
        } by {
            lemma_place_of(rows, time);
            let at = place_of(rows, time);
            if time <= line.time {
                assert(at <= place) by {
                    if at > place {
                        assert(rows[place].time < time);
                    }
                }
                assert forall|j: int| 0 <= j < at implies after[j].time < time by {
                    assert(after[j] == rows[j]);
                }
                if at < place {
                    assert(after[at] == rows[at]);
                }
                lemma_place_of_is(after, time, at);
                if time == line.time {
                    assert(at == place) by {
                        if at < place {
                            assert(rows[at].time < line.time);
                        }
                    }
                    lemma_filled(query, line, blank(width), c);
                } else if at == place {
                    assert(after[at].time == line.time);
                }
            } else {
                assert(at >= place) by {
                    if at < place {
                        assert(rows[at].time < line.time);
                    }
                }
                assert forall|j: int| 0 <= j < at + 1 implies after[j].time < time by {
                    if j < place {
                        assert(after[j] == rows[j]);
                    } else if j > place {
                        assert(after[j] == rows[j - 1]);
                    }
                }
                if at < rows.len() {
                    assert(after[at + 1] == rows[at]);
                }
                lemma_place_of_is(after, time, at + 1);
            }
        }
    }
}

/// Whether one of the lines is for `time`.
pub open spec fn has_line(lines: Seq<ResponseLine>, time: i64) -> bool {
    exists|k: int| 0 <= k < lines.len() && lines[k].time == time
}

/// The response lines of one query keep the rows in order and as wide as
/// they were, add the rows of their times, and leave in each cell of a
/// column of the query what the last line of the row's time answers.
pub proof fn lemma_merged_lines(
    rows: Seq<Row>,
    width: nat,
    query: Query,
    lines: Seq<ResponseLine>,
)
    requires
        ascending(rows),
        uniform(rows, width),
        cols_within(query, width),
    ensures
        ascending(merged_lines(rows, width, query, lines)),
        uniform(merged_lines(rows, width, query, lines), width),
        forall|time: i64| #[trigger]
            has_row(merged_lines(rows, width, query, lines), time) <==> has_row(rows, time)
                || has_line(lines, time),
        forall|time: i64, c: int|
            0 <= c < width ==> #[trigger] value(merged_lines(rows, width, query, lines), time, c)
                == if touches(query, c) && last_line_at(lines, time) is Some {
                answer(query, last_line_at(lines, time)->0, width, c)
            } else {
                value(rows, time, c)
            },
    decreases lines.len(),
{
    if lines.len() > 0 {
        let front = lines.drop_last();
        let last = lines.last();
        let before = merged_lines(rows, width, query, front);
        let after = merged_lines(rows, width, query, lines);
        lemma_merged_lines(rows, width, query, front);
        lemma_merged(before, width, query, last);
        assert forall|time: i64| #[trigger]
            has_row(after, time) <==> has_row(rows, time) || has_line(lines, time) by {
            assert(has_row(after, time) <==> has_row(before, time) || time == last.time);
            assert(has_row(before, time) <==> has_row(rows, time) || has_line(front, time));
            if has_line(front, time) {
                let k = choose|k: int| 0 <= k < front.len() && front[k].time == time;
                assert(lines[k].time == time);
            }
            if time == last.time {
                assert(lines[lines.len() - 1].time == time);
            }
            if has_line(lines, time) && time != last.time {
                let k = choose|k: int| 0 <= k < lines.len() && lines[k].time == time;
                assert(front[k].time == time);
            }
        }
        assert forall|time: i64, c: int| 0 <= c < width implies #[trigger] value(after, time, c)
            == if touches(query, c) && last_line_at(lines, time) is Some {
            answer(query, last_line_at(lines, time)->0, width, c)
        } else {
            value(rows, time, c)
        } by {
            assert(value(after, time, c) == if time == last.time && touches(query, c) {
                answer(query, last, width, c)
            } else {
                value(before, time, c)
            });
            assert(value(before, time, c) == if touches(query, c) && last_line_at(front, time)
                is Some {
                answer(query, last_line_at(front, time)->0, width, c)
            } else {
                value(rows, time, c)
            });
        }
    }
}

/// Whether no column is filled by two of the queries.
pub open spec fn apart(queries: Seq<Query>) -> bool {
    forall|m: int, n: int, c: int|
        0 <= m < n < queries.len() ==> !(touches(queries[m], c) && touches(queries[n], c))
}

/// Whether one of the queries has an answer for `time`.
pub open spec fn answered(store: Store, queries: Seq<Query>, time: i64) -> bool {
    exists|m: int| 0 <= m < queries.len() && has_line(answers(store, #[trigger] queries[m]), time)
}

/// Whether none of the queries fills column `c`.
pub open spec fn unasked(queries: Seq<Query>, c: int) -> bool {
    forall|m: int| 0 <= m < queries.len() ==> !touches(#[trigger] queries[m], c)
}

/// The answers to queries that fill no column in common give rows in order,
/// one for each time for which there is an answer, and each cell holds what
/// the query of its column last answered for the time of its row.
pub proof fn lemma_merged_queries(store: Store, width: nat, queries: Seq<Query>)
    requires
        forall|m: int| 0 <= m < queries.len() ==> cols_within(#[trigger] queries[m], width),
        apart(queries),
    ensures
        ascending(merged_queries(store, width, queries)),
        uniform(merged_queries(store, width, queries), width),
        forall|time: i64| #[trigger]
            has_row(merged_queries(store, width, queries), time) <==> answered(
                store,
                queries,
                time,
            ),
        forall|time: i64, c: int|
            0 <= c < width && unasked(queries, c) ==> #[trigger] value(
                merged_queries(store, width, queries),
                time,
                c,
            ) is None,
        forall|time: i64, c: int, m: int|
            0 <= c < width && 0 <= m < queries.len() && touches(#[trigger] queries[m], c)
                ==> #[trigger] value(merged_queries(store, width, queries), time, c) == if last_line_at(
                answers(store, queries[m]),
                time,
            ) is Some {
                answer(queries[m], last_line_at(answers(store, queries[m]), time)->0, width, c)
            } else {
                None
            },
    decreases queries.len(),
{
    let after = merged_queries(store, width, queries);
    if queries.len() > 0 {
        let front = queries.drop_last();
        let last = queries.last();
        let lines = answers(store, last);
        let before = merged_queries(store, width, front);
        assert forall|m: int| 0 <= m < front.len() implies cols_within(
            #[trigger] front[m],
            width,
        ) by {
            assert(front[m] == queries[m]);
        }
        assert forall|m: int, n: int, c: int| 0 <= m < n < front.len() implies !(touches(
            front[m],
            c,
        ) && touches(front[n], c)) by {
            assert(front[m] == queries[m] && front[n] == queries[n]);
        }
        lemma_merged_queries(store, width, front);
        assert(cols_within(queries[queries.len() - 1], width));
        lemma_merged_lines(before, width, last, lines);
        assert forall|time: i64| #[trigger]
            has_row(after, time) <==> answered(store, queries, time) by {
            assert(has_row(after, time) <==> has_row(before, time) || has_line(lines, time));
            assert(has_row(before, time) <==> answered(store, front, time));
            if answered(store, front, time) {
                let m = choose|m: int|
                    0 <= m < front.len() && has_line(answers(store, #[trigger] front[m]), time);
                assert(front[m] == queries[m]);
            }
            if has_line(lines, time) {
                assert(queries[queries.len() - 1] == last);
            }
            if answered(store, queries, time) {
                let m = choose|m: int|
                    0 <= m < queries.len() && has_line(
                        answers(store, #[trigger] queries[m]),
                        time,
                    );
                if m < front.len() {
                    assert(front[m] == queries[m]);
                }
            }
        }
        assert forall|time: i64, c: int| 0 <= c < width && unasked(queries, c) implies #[trigger] value(
            after,
            time,
            c,
        ) is None by {
            assert(!touches(queries[queries.len() - 1], c));
            assert forall|m: int| 0 <= m < front.len() implies !touches(#[trigger] front[m], c) by {
                assert(front[m] == queries[m]);
            }
            assert(value(before, time, c) is None);
        }
        assert forall|time: i64, c: int, m: int|
            0 <= c < width && 0 <= m < queries.len() && touches(
                #[trigger] queries[m],
                c,
            ) implies #[trigger] value(after, time, c) == if last_line_at(
            answers(store, queries[m]),
            time,
        ) is Some {
            answer(queries[m], last_line_at(answers(store, queries[m]), time)->0, width, c)
        } else {
            None
        } by {
            if m == queries.len() - 1 {
                assert forall|n: int| 0 <= n < front.len() implies !touches(
                    #[trigger] front[n],
                    c,
                ) by {
                    assert(front[n] == queries[n]);
                }
                assert(unasked(front, c));
                assert(value(before, time, c) is None);
            } else {
                assert(front[m] == queries[m]);
                assert(!touches(last, c));
                assert(touches(front[m], c));
            }
        }
    } else {
        assert forall|time: i64| #[trigger] has_row(after, time) <==> answered(
            store,
            queries,
            time,
        ) by {}
    }
}

/// A query fills only columns whose names are of its user.
pub proof fn lemma_touches_own(names: Seq<Seq<char>>, user: Seq<char>, c: int)
    requires
        touches(query_for(names, user), c),
    ensures
        0 <= c < names.len(),
        user_part(names[c]) == user,
    decreases names.len(),
{
    if names.len() > 0 {
        let front = names.drop_last();
        let query = query_for(names, user);
        let earlier = query_for(front, user);
        if c == names.len() - 1 {
            if user_part(names.last()) != user {
                if among(query.repos, c) {
                    let k = choose|k: int| 0 <= k < query.repos.len() && query.repos[k].idx == c;
                    assert(earlier.repos[k].idx == c);
                    assert(among(earlier.repos, c));
                }
                assert(touches(earlier, c));
                lemma_touches_own(front, user, c);
            }
        } else {
            if among(query.repos, c) {
                let k = choose|k: int| 0 <= k < query.repos.len() && query.repos[k].idx == c;
                if k < earlier.repos.len() {
                    assert(earlier.repos[k] == query.repos[k]);
                }
                assert(among(earlier.repos, c));
            }
            assert(touches(earlier, c));
            lemma_touches_own(front, user, c);
            assert(front[c] == names[c]);
        }
    } else {
        assert(!among(query_for(names, user).repos, c));
    }
}

/// The user of each name is among the distinct users.
pub proof fn lemma_user_listed(names: Seq<Seq<char>>, c: int)
    requires
        0 <= c < names.len(),
    ensures
        distinct_users(names).contains(user_part(names[c])),
    decreases names.len(),
{
    let front = names.drop_last();
    let earlier = distinct_users(front);
    let all = distinct_users(names);
    let last = user_part(names.last());
    if c < names.len() - 1 {
        lemma_user_listed(front, c);
        assert(front[c] == names[c]);
        let k = choose|k: int| 0 <= k < earlier.len() && earlier[k] == user_part(names[c]);
        assert(all[k] == earlier[k]);
    } else if earlier.contains(last) {
    } else {
        assert(all[earlier.len() as int] == last);
    }
}

/// The answers to a query are for the times of the snapshots, and the last
/// answer for a time is that of the last snapshot of that time.
pub proof fn lemma_answers(history: Seq<Snapshot>, wanted: Seq<Seq<char>>, time: i64)
    ensures
        has_line(history.map_values(|snapshot: Snapshot| snapshot.response(wanted)), time)
            <==> exists|k: int| 0 <= k < history.len() && history[k].time == time,
        last_line_at(history.map_values(|snapshot: Snapshot| snapshot.response(wanted)), time)
            == match last_at(history, time) {
            Some(snapshot) => Some(snapshot.response(wanted)),
            None => None,
        },
    decreases history.len(),
{
    let lines = history.map_values(|snapshot: Snapshot| snapshot.response(wanted));
    if history.len() > 0 {
        let front = history.drop_last();
        lemma_answers(front, wanted, time);
        assert(front.map_values(|snapshot: Snapshot| snapshot.response(wanted))
            =~= lines.drop_last());
        assert(lines.last() == history.last().response(wanted));
    }
    if has_line(lines, time) {
        let k = choose|k: int| 0 <= k < lines.len() && lines[k].time == time;
        assert(history[k].time == time);
    }
    if exists|k: int| 0 <= k < history.len() && history[k].time == time {
        let k = choose|k: int| 0 <= k < history.len() && history[k].time == time;
        assert(lines[k].time == time);
    }
}

/// The rows of an extract stand in ascending order of time, one for each
/// time at which the store holds a snapshot of one of the users asked for.
/// Each has one cell for each name, in the order of the names, and the cell
/// holds what the query of the name's user finds in the last snapshot of
/// that user at the time of the row.
pub proof fn lemma_rows_of(store: Store, names: Seq<Seq<char>>)
    ensures
        ascending(rows_of(store, names)),
        uniform(rows_of(store, names), names.len()),
        forall|time: i64| #[trigger]
            has_row(rows_of(store, names), time) <==> observed(
                store,
                distinct_users(names),
                time,
            ),
        forall|i: int, c: int|
            0 <= i < rows_of(store, names).len() && 0 <= c < names.len() ==> #[trigger] rows_of(
                store,
                names,
            )[i].counts[c] == cell(store, names, rows_of(store, names)[i].time, c),
{
    let width = names.len();
    let users = distinct_users(names);
    let queries = queries_of(names);
    let rows = rows_of(store, names);
    lemma_distinct_users(names);
    assert forall|m: int| 0 <= m < queries.len() implies cols_within(
        #[trigger] queries[m],
        width,
    ) by {
        lemma_cols_within(names, users[m]);
    }
    assert forall|m: int, n: int, c: int| 0 <= m < n < queries.len() implies !(touches(
        queries[m],
        c,
    ) && touches(queries[n], c)) by {
        if touches(queries[m], c) && touches(queries[n], c) {
            lemma_touches_own(names, users[m], c);
            lemma_touches_own(names, users[n], c);
        }
    }
    lemma_merged_queries(store, width, queries);
    assert forall|time: i64| #[trigger]
        has_row(rows, time) <==> observed(store, users, time) by {
        assert(has_row(rows, time) <==> answered(store, queries, time));
        if answered(store, queries, time) {
            let m = choose|m: int|
                0 <= m < queries.len() && has_line(answers(store, #[trigger] queries[m]), time);
            lemma_answers(history_in(store, users[m]), repo_names(queries[m]), time);
            let k = choose|k: int|
                0 <= k < history_in(store, users[m]).len() && history_in(store, users[m])[k].time
                    == time;
            assert(history_in(store, users[m])[k].time == time);
        }
        if observed(store, users, time) {
            let (m, k) = choose|m: int, k: int|
                0 <= m < users.len() && 0 <= k < history_in(store, users[m]).len() && (
                #[trigger] history_in(store, users[m])[k]).time == time;
            lemma_answers(history_in(store, users[m]), repo_names(queries[m]), time);
            assert(has_line(answers(store, queries[m]), time));
        }
    }
    assert forall|i: int, c: int| 0 <= i < rows.len() && 0 <= c < names.len() implies #[trigger] rows[i].counts[c]
        == cell(store, names, rows[i].time, c) by {
        let time = rows[i].time;
        lemma_place_of_row(rows, i);
        assert(rows[i].counts[c] == value(rows, time, c));
        let user = user_part(names[c]);
        lemma_user_listed(names, c);
        let m = choose|m: int| 0 <= m < users.len() && users[m] == user;
        let query = queries[m];
        assert(query == query_for(names, user));
        lemma_answers(history_in(store, user), repo_names(query), time);
        if touches(query, c) {
        } else {
            assert forall|n: int| 0 <= n < queries.len() implies !touches(
                #[trigger] queries[n],
                c,
            ) by {
                if touches(queries[n], c) {
                    lemma_touches_own(names, users[n], c);
                    assert(users[n] == users[m]);
                }
            }
            assert(unasked(queries, c));
            assert(value(rows, time, c) is None);
            if last_at(history_in(store, user), time) is Some {
                let snapshot = last_at(history_in(store, user), time)->0;
                lemma_filled(query, snapshot.response(repo_names(query)), blank(width), c);
            }
        }
    }
}

/// Whether the name at `d` asks for the sum of `user`.
pub open spec fn asks_sum(names: Seq<Seq<char>>, user: Seq<char>, d: int) -> bool {
    0 <= d < names.len() && user_part(names[d]) == user && repo_part(names[d]) is None
}

/// Whether the name at `d` asks for the repository `repo` of `user`.
pub open spec fn asks_repo(names: Seq<Seq<char>>, user: Seq<char>, repo: Seq<char>, d: int) -> bool {
    0 <= d < names.len() && user_part(names[d]) == user && repo_part(names[d]) == Some(repo)
}

/// Whether what the name at `c` asks for is asked again further on.
pub open spec fn asked_again(names: Seq<Seq<char>>, c: int) -> bool {
    exists|d: int|
        c < d < names.len() && user_part(#[trigger] names[d]) == user_part(names[c]) && repo_part(
            names[d],
        ) == repo_part(names[c])
}

/// The column of the sum of a user is the last name that asks for it.
pub proof fn lemma_sum_col(names: Seq<Seq<char>>, user: Seq<char>)
    ensures
        match sum_col(names, user) {
            Some(col) => asks_sum(names, user, col.idx) && col.name == names[col.idx] && forall|
                d: int,
            |
                col.idx < d < names.len() ==> !asks_sum(names, user, d),
            None => forall|d: int| 0 <= d < names.len() ==> !asks_sum(names, user, d),
        },
    decreases names.len(),
{
    if names.len() > 0 {
        let front = names.drop_last();
        lemma_sum_col(front, user);
        if asks_sum(names, user, names.len() - 1) {
        } else {
            match sum_col(front, user) {
                Some(col) => {
                    assert(front[col.idx] == names[col.idx]);
                    assert forall|d: int| col.idx < d < names.len() implies !asks_sum(
                        names,
                        user,
                        d,
                    ) by {
                        if d < front.len() {
                            assert(front[d] == names[d]);
                            assert(!asks_sum(front, user, d));
                        }
                    }
                },
                None => {
                    assert forall|d: int| 0 <= d < names.len() implies !asks_sum(
                        names,
                        user,
                        d,
                    ) by {
                        if d < front.len() {
                            assert(front[d] == names[d]);
                            assert(!asks_sum(front, user, d));
                        }
                    }
                },
            }
        }
    }
}

/// The columns of the repositories of a user are the names that ask for
/// one, in their order, each with the name of its repository.
pub proof fn lemma_repo_cols(names: Seq<Seq<char>>, user: Seq<char>)
    ensures
        forall|k: int|
            0 <= k < repo_cols(names, user).len() ==> asks_repo(
                names,
                user,
                (#[trigger] repo_cols(names, user)[k]).name,
                repo_cols(names, user)[k].idx,
            ),
        forall|j: int, k: int|
            0 <= j < k < repo_cols(names, user).len() ==> repo_cols(names, user)[j].idx
                < repo_cols(names, user)[k].idx,
        forall|d: int|
            0 <= d < names.len() && user_part(#[trigger] names[d]) == user && repo_part(names[d])
                is Some ==> among(repo_cols(names, user), d),
    decreases names.len(),
{
    if names.len() > 0 {
        let front = names.drop_last();
        let earlier = repo_cols(front, user);
        let all = repo_cols(names, user);
        let last = names.len() - 1;
        lemma_repo_cols(front, user);
        assert forall|k: int| 0 <= k < earlier.len() implies asks_repo(
            names,
            user,
            (#[trigger] earlier[k]).name,
            earlier[k].idx,
        ) && earlier[k].idx < last by {
            assert(asks_repo(front, user, earlier[k].name, earlier[k].idx));
            assert(front[earlier[k].idx] == names[earlier[k].idx]);
        }
        assert forall|k: int| 0 <= k < all.len() implies asks_repo(
            names,
            user,
            (#[trigger] all[k]).name,
            all[k].idx,
        ) by {
            if k < earlier.len() {
                assert(all[k] == earlier[k]);
            }
        }
        assert forall|j: int, k: int| 0 <= j < k < all.len() implies all[j].idx < all[k].idx by {
            assert(all[j] == earlier[j]);
            if k < earlier.len() {
                assert(all[k] == earlier[k]);
            }
        }
        assert forall|d: int|
            0 <= d < names.len() && user_part(#[trigger] names[d]) == user && repo_part(names[d])
                is Some implies among(all, d) by {
            if d < last {
                assert(front[d] == names[d]);
                assert(among(earlier, d));
                let k = choose|k: int| 0 <= k < earlier.len() && earlier[k].idx == d;
                assert(all[k] == earlier[k]);
            } else {
                assert(all[all.len() - 1].idx == d);
            }
        }
    }
}

/// Where no two columns are the same, the cell of each column holds the
/// count that stands at the column's place.
pub proof fn lemma_with_repos_at(
    base: Seq<Option<nat>>,
    repos: Seq<Column>,
    counts: Seq<Option<nat>>,
    k: int,
)
    requires
        0 <= k < repos.len(),
        forall|i: int| 0 <= i < repos.len() ==> 0 <= (#[trigger] repos[i]).idx < base.len(),
        forall|i: int, j: int| 0 <= i < j < repos.len() ==> repos[i].idx != repos[j].idx,
    ensures
        with_repos(base, repos, counts)[repos[k].idx] == counts[k],
    decreases repos.len(),
{
    let front = repos.drop_last();
    assert forall|i: int| 0 <= i < front.len() implies 0 <= (#[trigger] front[i]).idx
        < base.len() by {
        assert(front[i] == repos[i]);
    }
    lemma_with_repos_len(base, front, counts);
    assert(0 <= repos[repos.len() - 1].idx < base.len());
    assert(0 <= repos[k].idx < base.len());
    if k < repos.len() - 1 {
        assert forall|i: int, j: int| 0 <= i < j < front.len() implies front[i].idx
            != front[j].idx by {
            assert(front[i] == repos[i] && front[j] == repos[j]);
        }
        assert(front[k] == repos[k]);
        lemma_with_repos_at(base, front, counts, k);
        assert(repos[k].idx != repos[repos.len() - 1].idx);
    }
}

/// The cell of a name that asks for the sum of a user holds the total of the
/// stars of the last snapshot of the user at the time of the row; it holds no
/// count where there is no such snapshot, or where the sum is asked again
/// further on.
pub proof fn lemma_cell_of_sum(store: Store, names: Seq<Seq<char>>, time: i64, c: int)
    requires
        0 <= c < names.len(),
        repo_part(names[c]) is None,
    ensures
        cell(store, names, time, c) == match last_at(
            history_in(store, user_part(names[c])),
            time,
        ) {
            Some(snapshot) => if asked_again(names, c) {
                None
            } else {
                Some(total(snapshot.counts))
            },
            None => None,
        },
{
    let user = user_part(names[c]);
    let query = query_for(names, user);
    lemma_sum_col(names, user);
    lemma_repo_cols(names, user);
    lemma_cols_within(names, user);
    assert(asks_sum(names, user, c));
    assert(!among(query.repos, c)) by {
        if among(query.repos, c) {
            let k = choose|k: int| 0 <= k < query.repos.len() && query.repos[k].idx == c;
            assert(asks_repo(names, user, query.repos[k].name, query.repos[k].idx));
        }
    }
    let col = query.sum->0;
    assert(query.sum is Some);
    if asked_again(names, c) {
        let d = choose|d: int|
            c < d < names.len() && user_part(#[trigger] names[d]) == user_part(names[c])
                && repo_part(names[d]) == repo_part(names[c]);
        assert(asks_sum(names, user, d));
        assert(col.idx != c);
    } else {
        assert(col.idx == c) by {
            if col.idx > c {
                assert(user_part(names[col.idx]) == user_part(names[c]));
            }
        }
    }
    if last_at(history_in(store, user), time) is Some {
        let snapshot = last_at(history_in(store, user), time)->0;
        let line = snapshot.response(repo_names(query));
        let empty = blank(names.len());
        let summed = empty.update(col.idx, Some(line.sum));
        lemma_with_repos(summed, empty, query.repos, line.counts, c);
    }
}

/// The cell of a name that asks for a repository holds the count of the last
/// row of that repository in the last snapshot of the user at the time of
/// the row; it holds no count where there is no such snapshot or no such
/// row, or where the repository is asked again further on.
pub proof fn lemma_cell_of_repo(store: Store, names: Seq<Seq<char>>, time: i64, c: int)
    requires
        0 <= c < names.len(),
        repo_part(names[c]) is Some,
    ensures
        cell(store, names, time, c) == match last_at(
            history_in(store, user_part(names[c])),
            time,
        ) {
            Some(snapshot) => if asked_again(names, c) {
                None
            } else {
                last_count(snapshot.counts, repo_part(names[c])->0)
            },
            None => None,
        },
{
    let user = user_part(names[c]);
    let repo = repo_part(names[c])->0;
    let query = query_for(names, user);
    let repos = query.repos;
    let wanted = repo_names(query);
    lemma_repo_cols(names, user);
    lemma_cols_within(names, user);
    assert(among(repos, c));
    let k = choose|k: int| 0 <= k < repos.len() && repos[k].idx == c;
    assert(asks_repo(names, user, repos[k].name, repos[k].idx));
    assert(wanted[k] == repo);
    if named_again(wanted, k) {
        let j = choose|j: int| k < j < wanted.len() && wanted[j] == wanted[k];
        assert(asks_repo(names, user, repos[j].name, repos[j].idx));
        assert(repos[k].idx < repos[j].idx);
        assert(user_part(names[repos[j].idx]) == user_part(names[c]));
        assert(asked_again(names, c));
    }
    if asked_again(names, c) {
        let d = choose|d: int|
            c < d < names.len() && user_part(#[trigger] names[d]) == user_part(names[c])
                && repo_part(names[d]) == repo_part(names[c]);
        assert(among(repos, d));
        let j = choose|j: int| 0 <= j < repos.len() && repos[j].idx == d;
        assert(asks_repo(names, user, repos[j].name, repos[j].idx));
        assert(j > k) by {
            if j < k {
                assert(repos[j].idx < repos[k].idx);
            }
        }
        assert(wanted[j] == wanted[k]);
        assert(named_again(wanted, k));
    }
    if last_at(history_in(store, user), time) is Some {
        let snapshot = last_at(history_in(store, user), time)->0;
        let line = snapshot.response(wanted);
        let empty = blank(names.len());
        let summed = match query.sum {
            Some(col) => empty.update(col.idx, Some(line.sum)),
            None => empty,
        };
        assert forall|i: int, j: int| 0 <= i < j < repos.len() implies repos[i].idx
            != repos[j].idx by {
            assert(repos[i].idx < repos[j].idx);
        }
        lemma_with_repos_at(summed, repos, line.counts, k);
        assert(line.counts[k] == aligned_count(snapshot.counts, wanted, k));
    }
}

} // verus!
