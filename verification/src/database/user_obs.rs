//! Snapshots of a user's star counts, the files that hold them, and what
//! changed between two of them.

use crate::database::change::{stars_of, Change, RepoChange};
use crate::database::user_query::{cells, ResponseLine};
use crate::github::repo_id::{RepoId, RepoName};
use crate::github::user_id::UserId;
use crate::text::views;
use crate::time::{parsed_secs, rfc3339_text, secs_of, Timestamp};
use vstd::prelude::*;
use vstd::string::*;

verus! {

/// The star count of one repository, as one row of a snapshot.
#[derive(Debug)]
pub struct RepoObs {
    pub repo_name: String,
    pub stars: usize,
}

/// A row of a snapshot as plain values.
pub struct RepoCount {
    pub name: Seq<char>,
    pub stars: nat,
}

impl View for RepoObs {
    type V = RepoCount;

    open spec fn view(&self) -> RepoCount {
        RepoCount { name: self.repo_name@, stars: self.stars as nat }
    }
}

impl Clone for RepoObs {
    fn clone(&self) -> (copy: Self)
        ensures
            copy == *self,
    {
        RepoObs { repo_name: self.repo_name.clone(), stars: self.stars }
    }
}

/// A snapshot reduced to its time and the total of its stars.
#[derive(Clone, Copy, Debug)]
pub struct DatedObs {
    pub time: Timestamp,
    pub stars: usize,
}

/// A time and a total as plain values.
pub struct DatedSum {
    pub time: i64,
    pub stars: nat,
}

impl View for DatedObs {
    type V = DatedSum;

    open spec fn view(&self) -> DatedSum {
        DatedSum { time: self.time@, stars: self.stars as nat }
    }
}

/// A user observation: the star counts of all repositories of one user at
/// one time, in the order in which they were received.
#[derive(Debug)]
pub struct UserObs {
    pub user_id: UserId,
    pub time: Timestamp,
    pub counts: Vec<RepoObs>,
}

/// A user observation as plain values.
pub struct Snapshot {
    pub user: Seq<char>,
    pub time: i64,
    pub counts: Seq<RepoCount>,
}

impl Snapshot {
    /// The time of the snapshot with the total of its stars.
    pub open spec fn sum(self) -> DatedSum {
        DatedSum { time: self.time, stars: total(self.counts) }
    }

    /// What the snapshot answers to a query for `names`.
    pub open spec fn response(self, names: Seq<Seq<char>>) -> ResponseLine {
        ResponseLine {
            time: self.time,
            sum: total(self.counts),
            counts: aligned_counts(self.counts, names),
        }
    }
}

impl View for UserObs {
    type V = Snapshot;

    open spec fn view(&self) -> Snapshot {
        Snapshot { user: self.user_id@, time: self.time@, counts: views(self.counts@) }
    }
}

impl Clone for UserObs {
    fn clone(&self) -> (copy: Self)
        ensures
            copy@ == self@,
    {
        let mut counts: Vec<RepoObs> = Vec::new();
        let mut i: usize = 0;
        while i < self.counts.len()
            invariant
                i <= self.counts.len(),
                counts.len() == i,
                forall|k: int| 0 <= k < i ==> counts[k] == self.counts[k],
            decreases self.counts.len() - i,
        {
            counts.push(self.counts[i].clone());
            i += 1;
        }
        assert(views(counts@) =~= views(self.counts@));
        UserObs { user_id: self.user_id.clone(), time: self.time, counts }
    }
}

/// The sum of the star counts of `counts`.
pub open spec fn total(counts: Seq<RepoCount>) -> nat
    decreases counts.len(),
{
    if counts.len() == 0 {
        0
    } else {
        total(counts.drop_last()) + counts.last().stars
    }
}

/// The star count of the first row of `counts` named `name`.
pub open spec fn first_count(counts: Seq<RepoCount>, name: Seq<char>) -> Option<nat>
    decreases counts.len(),
{
    if counts.len() == 0 {
        None
    } else if counts[0].name == name {
        Some(counts[0].stars)
    } else {
        first_count(counts.drop_first(), name)
    }
}

/// The rows of `new` that `old` does not hold with the same count, each with
/// the count that `old` has for its name, in the order of `new`.
pub open spec fn changes(owner: Seq<char>, new: Seq<RepoCount>, old: Seq<RepoCount>) -> Seq<
    Change,
>
    decreases new.len(),
{
    if new.len() == 0 {
        Seq::empty()
    } else {
        let earlier = changes(owner, new.drop_last(), old);
        let row = new.last();
        let before = first_count(old, row.name);
        if before == Some(row.stars) {
            earlier
        } else {
            earlier.push(
                Change {
                    repo: RepoName { owner, name: row.name },
                    old: before,
                    new: row.stars,
                },
            )
        }
    }
}

/// The star count of the last row of `counts` named `name`.
pub open spec fn last_count(counts: Seq<RepoCount>, name: Seq<char>) -> Option<nat>
    decreases counts.len(),
{
    if counts.len() == 0 {
        None
    } else if counts.last().name == name {
        Some(counts.last().stars)
    } else {
        last_count(counts.drop_last(), name)
    }
}

/// Whether the name at `i` stands again further on in `names`.
pub open spec fn named_again(names: Seq<Seq<char>>, i: int) -> bool {
    exists|j: int| i < j < names.len() && names[j] == names[i]
}

/// The count that answers the name at `i`: that of the last row with this
/// name, unless the name is asked again further on, in which case only its
/// last place is answered.
pub open spec fn aligned_count(counts: Seq<RepoCount>, names: Seq<Seq<char>>, i: int) -> Option<
    nat,
> {
    if named_again(names, i) {
        None
    } else {
        last_count(counts, names[i])
    }
}

/// One optional count for each of `names`, in their order.
pub open spec fn aligned_counts(counts: Seq<RepoCount>, names: Seq<Seq<char>>) -> Seq<
    Option<nat>,
> {
    Seq::new(names.len(), |i: int| aligned_count(counts, names, i))
}

/// The seconds of the time that a snapshot file's name gives: the name is an
/// RFC 3339 date and time followed by `.csv`.
pub open spec fn dated_name(name: Seq<char>) -> Option<i64> {
    if name.len() > 4 && name.subrange(name.len() - 4, name.len() as int) == ".csv"@ {
        parsed_secs(name.subrange(0, name.len() - 4))
    } else {
        None
    }
}

/// The name of the file that holds the snapshot taken at `secs`.
pub open spec fn file_name_at(secs: i64) -> Seq<char> {
    rfc3339_text(secs)->0 + ".csv"@
}

impl UserObs {
    /// The name of the file that holds this snapshot: its time in RFC 3339
    /// form at second precision, with the extension `csv`.
    pub fn file_name(&self) -> (name: String)
        ensures
            name@ == file_name_at(self.time@),
    {
        let mut name = self.time.to_rfc3339();
        name.append(".csv");
        name
    }

    /// If the file name is that of a snapshot (an RFC 3339 date and time,
    /// then `.csv`), the time that it gives.
    pub fn filename_date(file_name: &str) -> (time: Option<Timestamp>)
        ensures
            secs_of(time) == dated_name(file_name@),
    {
        let len = file_name.unicode_len();
        if len <= 4 {
            return None;
        }
        let extension = file_name.substring_char(len - 4, len);
        if !extension.eq(".csv") {
            return None;
        }
        Timestamp::parse_from_rfc3339(file_name.substring_char(0, len - 4))
    }

    /// The first of `rows` that is named `repo_name`.
    pub fn read_line(rows: &Vec<RepoObs>, repo_name: &str) -> (row: Option<RepoObs>)
        ensures
            row is Some <==> first_count(views(rows@), repo_name@) is Some,
            row matches Some(found) ==> found@.name == repo_name@ && Some(found@.stars)
                == first_count(views(rows@), repo_name@),
    {
        let mut i: usize = 0;
        assert(views(rows@).skip(0) =~= views(rows@));
        while i < rows.len()
            invariant
                i <= rows.len(),
                first_count(views(rows@), repo_name@) == first_count(
                    views(rows@).skip(i as int),
                    repo_name@,
                ),
            decreases rows.len() - i,
        {
            proof {
                let rest = views(rows@).skip(i as int);
                assert(rest.len() > 0);
                assert(rest[0] == rows[i as int]@);
                assert(rest.drop_first() =~= views(rows@).skip(i + 1));
            }
            if rows[i].repo_name.as_str().eq(repo_name) {
                return Some(rows[i].clone());
            }
            i += 1;
        }
        assert(views(rows@).skip(i as int).len() == 0);
        None
    }

    /// The place of the last of `names` that equals `name`.
    fn last_place(names: &Vec<&str>, name: &str) -> (place: Option<usize>)
        ensures
            match place {
                Some(j) => j < names.len() && names[j as int]@ == name@ && forall|k: int|
                    j < k < names.len() ==> names[k]@ != name@,
                None => forall|k: int| 0 <= k < names.len() ==> names[k]@ != name@,
            },
    {
        let mut j: usize = names.len();
        while j > 0
            invariant
                j <= names.len(),
                forall|k: int| j <= k < names.len() ==> names[k]@ != name@,
            decreases j,
        {
            j -= 1;
            if names[j].eq(name) {
                return Some(j);
            }
        }
        None
    }

    /// For each of `repo_names` the count that `rows` hold for it, in the
    /// order of the names, and the total of all rows. Where a name is asked
    /// twice only its last place is answered; where several rows bear a name
    /// the last one counts.
    pub fn read_lines_and_sum(rows: &Vec<RepoObs>, repo_names: &Vec<&str>) -> (found: (
        Vec<Option<usize>>,
        usize,
    ))
        requires
            total(views(rows@)) <= usize::MAX,
        ensures
            cells(found.0@) == aligned_counts(views(rows@), views(repo_names@)),
            found.1 == total(views(rows@)),
    {
        let ghost names = views(repo_names@);
        let ghost counts = views(rows@);
        let mut arr: Vec<Option<usize>> = Vec::new();
        let mut n: usize = 0;
        while n < repo_names.len()
            invariant
                n <= repo_names.len(),
                arr.len() == n,
                forall|i: int| 0 <= i < n ==> arr[i] is None,
            decreases repo_names.len() - n,
        {
            arr.push(None);
            n += 1;
        }
        let mut sum: usize = 0;
        let mut k: usize = 0;
        while k < rows.len()
            invariant
                k <= rows.len(),
                names == views(repo_names@),
                counts == views(rows@),
                total(counts) <= usize::MAX,
                arr.len() == repo_names.len(),
                sum == total(counts.take(k as int)),
                forall|i: int|
                    0 <= i < arr.len() ==> stars_of(#[trigger] arr[i]) == aligned_count(
                        counts.take(k as int),
                        names,
                        i,
                    ),
            decreases rows.len() - k,
        {
            let row = &rows[k];
            proof {
                assert(counts.take(k + 1).drop_last() =~= counts.take(k as int));
                assert(counts.take(k + 1).last() == row@);
                lemma_total_take(counts, k + 1);
            }
            sum = sum + row.stars;
            let place = Self::last_place(repo_names, row.repo_name.as_str());
            match place {
                Some(j) => {
                    arr.set(j, Some(row.stars));
                    assert(!named_again(names, j as int));
                },
                None => {},
            }
            assert forall|i: int| 0 <= i < arr.len() implies stars_of(#[trigger] arr[i])
                == aligned_count(counts.take(k + 1), names, i) by {
                if names[i] == row@.name {
                    if place != Some(i as usize) {
                        assert(place is Some);
                        assert(names[place->0 as int] == names[i]);
                        assert(named_again(names, i));
                    }
                }
            }
            k += 1;
        }
        assert(counts.take(k as int) =~= counts);
        assert(cells(arr@) =~= aligned_counts(counts, names));
        (arr, sum)
    }
}

impl UserObs {
    /// The total of the stars, where it fits the machine's word.
    pub fn checked_sum(&self) -> (sum: Option<DatedObs>)
        ensures
            sum is Some <==> total(self@.counts) <= usize::MAX,
            sum matches Some(dated) ==> dated.time == self.time && dated@ == self@.sum(),
    {
        let mut stars: usize = 0;
        let mut i: usize = 0;
        while i < self.counts.len()
            invariant
                i <= self.counts.len(),
                stars == total(self@.counts.take(i as int)),
            decreases self.counts.len() - i,
        {
            proof {
                let rows = self@.counts;
                assert(rows.take(i + 1).drop_last() =~= rows.take(i as int));
                assert(rows.take(i + 1).last() == self.counts[i as int]@);
                lemma_total_take(rows, i + 1);
            }
            match stars.checked_add(self.counts[i].stars) {
                Some(more) => {
                    stars = more;
                },
                None => {
                    return None;
                },
            }
            i += 1;
        }
        assert(self@.counts.take(i as int) =~= self@.counts);
        Some(DatedObs { time: self.time, stars })
    }

    /// The time of the snapshot with the total of its stars.
    pub fn sum(&self) -> (dated: DatedObs)
        requires
            total(self@.counts) <= usize::MAX,
        ensures
            dated.time == self.time,
            dated@ == self@.sum(),
    {
        self.checked_sum().unwrap()
    }

    /// The star count of the repository named `repo_name`: that of the first
    /// row with this name.
    pub fn repo_count(&self, repo_name: &str) -> (stars: Option<usize>)
        ensures
            stars_of(stars) == first_count(self@.counts, repo_name@),
    {
        let mut i: usize = 0;
        assert(self@.counts.skip(0) =~= self@.counts);
        while i < self.counts.len()
            invariant
                i <= self.counts.len(),
                first_count(self@.counts, repo_name@) == first_count(
                    self@.counts.skip(i as int),
                    repo_name@,
                ),
            decreases self.counts.len() - i,
        {
            proof {
                let rest = self@.counts.skip(i as int);
                assert(rest.len() > 0);
                assert(rest[0] == self.counts[i as int]@);
                assert(rest.drop_first() =~= self@.counts.skip(i + 1));
            }
            if self.counts[i].repo_name.as_str().eq(repo_name) {
                return Some(self.counts[i].stars);
            }
            i += 1;
        }
        assert(self@.counts.skip(i as int).len() == 0);
        None
    }

    /// What changed since `old_uo`: one change for each row whose count
    /// `old_uo` does not hold under the same name, in the order of the rows.
    /// Rows that only `old_uo` holds are not reported.
    pub fn diff_from(&self, old_uo: &Self) -> (found: Vec<RepoChange>)
        ensures
            views(found@) == changes(self@.user, self@.counts, old_uo@.counts),
    {
        let mut found: Vec<RepoChange> = Vec::new();
        let mut i: usize = 0;
        while i < self.counts.len()
            invariant
                i <= self.counts.len(),
                views(found@) == changes(self@.user, self@.counts.take(i as int), old_uo@.counts),
            decreases self.counts.len() - i,
        {
            let repo_obs = &self.counts[i];
            let old_stars = old_uo.repo_count(repo_obs.repo_name.as_str());
            proof {
                let rows = self@.counts;
                assert(rows.take(i + 1).drop_last() =~= rows.take(i as int));
                assert(rows.take(i + 1).last() == repo_obs@);
            }
            let same = match old_stars {
                Some(n) => n == repo_obs.stars,
                None => false,
            };
            if !same {
                let ghost before = views(found@);
                let change = RepoChange {
                    repo_id: RepoId::new(self.user_id.clone(), repo_obs.repo_name.as_str()),
                    old_stars,
                    new_stars: repo_obs.stars,
                };
                found.push(change);
                assert(views(found@) =~= before.push(change@));
            }
            i += 1;
        }
        assert(self@.counts.take(i as int) =~= self@.counts);
        found
    }
}

/// The total of the first rows is at most the total of all.
pub proof fn lemma_total_take(counts: Seq<RepoCount>, n: int)
    requires
        0 <= n <= counts.len(),
    ensures
        total(counts.take(n)) <= total(counts),
    decreases counts.len(),
{
    if n < counts.len() {
        assert(counts.drop_last().take(n) =~= counts.take(n));
        lemma_total_take(counts.drop_last(), n);
    } else {
        assert(counts.take(n) =~= counts);
    }
}

/// Whether rows of the same name hold the same count.
pub open spec fn consistent(counts: Seq<RepoCount>) -> bool {
    forall|i: int, j: int|
        0 <= i < counts.len() && 0 <= j < counts.len() && counts[i].name == counts[j].name
            ==> counts[i].stars == counts[j].stars
}

/// Whether a row of `counts` is named `name`.
pub open spec fn names(counts: Seq<RepoCount>, name: Seq<char>) -> bool {
    exists|i: int| 0 <= i < counts.len() && counts[i].name == name
}

/// The first count of a name is the count of a row of that name, and there
/// is none exactly where no row bears the name.
pub proof fn lemma_first_count(counts: Seq<RepoCount>, name: Seq<char>)
    ensures
        first_count(counts, name) is Some <==> names(counts, name),
        first_count(counts, name) matches Some(stars) ==> exists|i: int|
            0 <= i < counts.len() && counts[i].name == name && counts[i].stars == stars,
    decreases counts.len(),
{
    if counts.len() > 0 {
        let rest = counts.drop_first();
        lemma_first_count(rest, name);
        if counts[0].name == name {
            assert(names(counts, name));
        } else {
            if names(rest, name) {
                let i = choose|i: int| 0 <= i < rest.len() && rest[i].name == name;
                assert(counts[i + 1].name == name);
            }
            if names(counts, name) {
                let i = choose|i: int| 0 <= i < counts.len() && counts[i].name == name;
                assert(rest[i - 1].name == name);
            }
            if first_count(counts, name) is Some {
                let stars = first_count(counts, name)->0;
                let i = choose|i: int|
                    0 <= i < rest.len() && rest[i].name == name && rest[i].stars == stars;
                assert(counts[i + 1].name == name && counts[i + 1].stars == stars);
            }
        }
    }
}

/// Nothing has changed exactly where the old snapshot holds every row of the
/// new one under its name, as the first of that name.
pub proof fn lemma_no_change(owner: Seq<char>, new: Seq<RepoCount>, old: Seq<RepoCount>)
    ensures
        changes(owner, new, old).len() == 0 <==> forall|i: int|
            0 <= i < new.len() ==> first_count(old, (#[trigger] new[i]).name) == Some(
                new[i].stars,
            ),
    decreases new.len(),
{
    if new.len() > 0 {
        let front = new.drop_last();
        lemma_no_change(owner, front, old);
        if changes(owner, new, old).len() == 0 {
            assert forall|i: int| 0 <= i < new.len() implies first_count(
                old,
                (#[trigger] new[i]).name,
            ) == Some(new[i].stars) by {
                if i < front.len() {
                    assert(front[i] == new[i]);
                }
            }
        }
        if forall|i: int|
            0 <= i < new.len() ==> first_count(old, (#[trigger] new[i]).name) == Some(
                new[i].stars,
            ) {
            assert forall|i: int| 0 <= i < front.len() implies first_count(
                old,
                (#[trigger] front[i]).name,
            ) == Some(front[i].stars) by {
                assert(front[i] == new[i]);
            }
            assert(first_count(old, new[new.len() - 1].name) == Some(new[new.len() - 1].stars));
        }
    }
}

/// Two snapshots with the same rows, in whatever order, show no change,
/// provided that the old one holds no name with two different counts.
pub proof fn lemma_same_rows_no_change(owner: Seq<char>, new: Seq<RepoCount>, old: Seq<RepoCount>)
    requires
        new.to_set() == old.to_set(),
        consistent(old),
    ensures
        changes(owner, new, old) == Seq::<Change>::empty(),
{
    lemma_no_change(owner, new, old);
    assert forall|i: int| 0 <= i < new.len() implies first_count(old, (#[trigger] new[i]).name)
        == Some(new[i].stars) by {
        let row = new[i];
        assert(new.to_set().contains(row));
        assert(old.to_set().contains(row));
        assert(old.contains(row));
        let j = choose|j: int| 0 <= j < old.len() && old[j] == row;
        assert(names(old, row.name));
        lemma_first_count(old, row.name);
    }
    assert(changes(owner, new, old) =~= Seq::<Change>::empty());
}

/// A name that no row of the new snapshot bears is in no change.
pub proof fn lemma_changes_are_of_rows(
    owner: Seq<char>,
    new: Seq<RepoCount>,
    old: Seq<RepoCount>,
    name: Seq<char>,
)
    requires
        !names(new, name),
    ensures
        forall|k: int|
            0 <= k < changes(owner, new, old).len() ==> (#[trigger] changes(
                owner,
                new,
                old,
            )[k]).repo.name != name,
    decreases new.len(),
{
    if new.len() > 0 {
        let front = new.drop_last();
        assert(new[new.len() - 1].name != name);
        if names(front, name) {
            let i = choose|i: int| 0 <= i < front.len() && front[i].name == name;
            assert(new[i].name == name);
        }
        lemma_changes_are_of_rows(owner, front, old, name);
    }
}

/// A repository that the new snapshot holds once and the old one does not
/// hold is reported exactly once, as new, with its count.
pub proof fn lemma_new_repo_reported_once(
    owner: Seq<char>,
    new: Seq<RepoCount>,
    old: Seq<RepoCount>,
    at: int,
)
    requires
        0 <= at < new.len(),
        !names(old, new[at].name),
        forall|i: int| 0 <= i < new.len() && i != at ==> new[i].name != new[at].name,
    ensures
        exists|m: int|
            {
                &&& 0 <= m < changes(owner, new, old).len()
                &&& #[trigger] changes(owner, new, old)[m] == Change {
                    repo: RepoName { owner, name: new[at].name },
                    old: None,
                    new: new[at].stars,
                }
                &&& forall|k: int|
                    0 <= k < changes(owner, new, old).len() && k != m ==> (#[trigger] changes(
                        owner,
                        new,
                        old,
                    )[k]).repo.name != new[at].name
            },
    decreases new.len(),
{
    let name = new[at].name;
    let front = new.drop_last();
    let found = changes(owner, new, old);
    let earlier = changes(owner, front, old);
    lemma_first_count(old, name);
    if at == new.len() - 1 {
        assert(!names(front, name)) by {
            if names(front, name) {
                let i = choose|i: int| 0 <= i < front.len() && front[i].name == name;
                assert(new[i].name == name);
            }
        }
        lemma_changes_are_of_rows(owner, front, old, name);
        let m = earlier.len() as int;
        assert(found[m] == Change { repo: RepoName { owner, name }, old: None, new: new[at].stars });
        assert forall|k: int| 0 <= k < found.len() && k != m implies (#[trigger] found[k]).repo.name
            != name by {
            assert(found[k] == earlier[k]);
        }
    } else {
        assert(front[at] == new[at]);
        assert forall|i: int| 0 <= i < front.len() && i != at implies front[i].name
            != front[at].name by {
            assert(front[i] == new[i]);
        }
        lemma_new_repo_reported_once(owner, front, old, at);
        let m = choose|m: int|
            {
                &&& 0 <= m < earlier.len()
                &&& #[trigger] earlier[m] == Change {
                    repo: RepoName { owner, name },
                    old: None,
                    new: new[at].stars,
                }
                &&& forall|k: int|
                    0 <= k < earlier.len() && k != m ==> (#[trigger] earlier[k]).repo.name != name
            };
        assert(new[new.len() - 1].name != name);
        assert(found[m] == earlier[m]);
        assert forall|k: int| 0 <= k < found.len() && k != m implies (#[trigger] found[k]).repo.name
            != name by {
            if k < earlier.len() {
                assert(found[k] == earlier[k]);
            }
        }
    }
}

} // verus!
