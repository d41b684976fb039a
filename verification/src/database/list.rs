//! Lists of users or repositories with their stars.

use crate::conf::conf::Conf;
use crate::database::db::{history_in, latest, Db};
use crate::database::user_obs::{total, RepoCount, Snapshot, UserObs};
use crate::github::user_id::UserId;
use crate::text::{decimal, decimal_string, views};
use vstd::prelude::*;
use vstd::string::*;

verus! {

/// A name and a number of stars.
#[derive(Debug)]
pub struct ListLine {
    pub name: String,
    pub stars: usize,
}

/// A line of a list as plain values.
pub struct Entry {
    pub name: Seq<char>,
    pub stars: nat,
}

impl View for ListLine {
    type V = Entry;

    open spec fn view(&self) -> Entry {
        Entry { name: self.name@, stars: self.stars as nat }
    }
}

/// A list of users or of repositories, with their stars.
#[derive(Debug)]
pub struct List {
    pub lines: Vec<ListLine>,
}

/// One line for each of `watched` that has a latest snapshot in `store`, in
/// their order, with the total of that snapshot; where `drawable`, only for
/// users with at least two snapshots.
pub open spec fn user_lines(
    store: Map<Seq<char>, Seq<Snapshot>>,
    watched: Seq<Seq<char>>,
    drawable: bool,
) -> Seq<Entry>
    decreases watched.len(),
{
    if watched.len() == 0 {
        Seq::empty()
    } else {
        let earlier = user_lines(store, watched.drop_last(), drawable);
        let history = history_in(store, watched.last());
        if drawable && history.len() < 2 {
            earlier
        } else {
            match latest(history) {
                Some(snapshot) => earlier.push(
                    Entry { name: watched.last(), stars: total(snapshot.counts) },
                ),
                None => earlier,
            }
        }
    }
}

/// One line for each row with at least one star, in the order of the rows.
pub open spec fn starred(counts: Seq<RepoCount>) -> Seq<Entry>
    decreases counts.len(),
{
    if counts.len() == 0 {
        Seq::empty()
    } else if counts.last().stars > 0 {
        starred(counts.drop_last()).push(
            Entry { name: counts.last().name, stars: counts.last().stars },
        )
    } else {
        starred(counts.drop_last())
    }
}

/// The lines as text: on each line a name, a comma and the stars.
pub open spec fn lines_text(lines: Seq<Entry>) -> Seq<char>
    decreases lines.len(),
{
    if lines.len() == 0 {
        Seq::empty()
    } else {
        lines_text(lines.drop_last()) + lines.last().name + ","@ + decimal(lines.last().stars)
            + "\n"@
    }
}

/// The list as CSV text, under the header `name,stars`.
pub open spec fn list_csv(lines: Seq<Entry>) -> Seq<char> {
    "name,stars\n"@ + lines_text(lines)
}

impl List {
    /// The watched users that have a latest snapshot, with the total of its
    /// stars; where `drawable`, only the users with at least two snapshots.
    pub fn users(db: &Db, conf: &Conf, drawable: bool) -> (list: Self)
        ensures
            views(list.lines@) == user_lines(db@, conf.watched(), drawable),
    {
        let watched = conf.watched_users();
        let ghost names = views(watched@);
        let mut lines: Vec<ListLine> = Vec::new();
        let mut i: usize = 0;
        assert(names.take(0) =~= Seq::<Seq<char>>::empty());
        assert(views(lines@) =~= Seq::<Entry>::empty());
        while i < watched.len()
            invariant
                i <= watched.len(),
                names == views(watched@),
                views(lines@) == user_lines(db@, names.take(i as int), drawable),
            decreases watched.len() - i,
        {
            let name = &watched[i];
            let user_id = UserId::new(name.as_str());
            proof {
                assert(names.take(i + 1).drop_last() =~= names.take(i as int));
                assert(names.take(i + 1).last() == name@);
            }
            if !(drawable && db.count_user_obs(&user_id) < 2) {
                match db.last_user_obs(&user_id) {
                    Some(uo) => {
                        let ghost before = views(lines@);
                        let stars = uo.sum().stars;
                        let line = ListLine { name: name.clone(), stars };
                        lines.push(line);
                        assert(views(lines@) =~= before.push(line@));
                    },
                    None => {},
                }
            }
            i += 1;
        }
        assert(names.take(i as int) =~= names);
        List { lines }
    }

    /// The repositories of a snapshot that have at least one star.
    pub fn from(uo: UserObs) -> (list: Self)
        ensures
            views(list.lines@) == starred(uo@.counts),
    {
        let ghost counts = uo@.counts;
        let mut lines: Vec<ListLine> = Vec::new();
        let mut i: usize = 0;
        assert(counts.take(0) =~= Seq::<RepoCount>::empty());
        assert(views(lines@) =~= Seq::<Entry>::empty());
        while i < uo.counts.len()
            invariant
                i <= uo.counts.len(),
                counts == uo@.counts,
                views(lines@) == starred(counts.take(i as int)),
            decreases uo.counts.len() - i,
        {
            let c = &uo.counts[i];
            proof {
                assert(counts.take(i + 1).drop_last() =~= counts.take(i as int));
                assert(counts.take(i + 1).last() == c@);
            }
            if c.stars > 0 {
                let ghost before = views(lines@);
                let line = ListLine { name: c.repo_name.clone(), stars: c.stars };
                lines.push(line);
                assert(views(lines@) =~= before.push(line@));
            }
            i += 1;
        }
        assert(counts.take(i as int) =~= counts);
        List { lines }
    }

    /// The list as CSV text: the header `name,stars`, then one line for each
    /// entry.
    pub fn write_csv(&self) -> (csv: String)
        ensures
            csv@ == list_csv(views(self.lines@)),
    {
        let mut csv = String::from_str("name,stars\n");
        let ghost lines = views(self.lines@);
        let mut i: usize = 0;
        assert(lines.take(0) =~= Seq::<Entry>::empty());
        assert(csv@ =~= list_csv(lines.take(0)));
        while i < self.lines.len()
            invariant
                i <= self.lines.len(),
                lines == views(self.lines@),
                csv@ == list_csv(lines.take(i as int)),
            decreases self.lines.len() - i,
        {
            let line = &self.lines[i];
            let ghost done = csv@;
            proof {
                assert(lines.take(i + 1).drop_last() =~= lines.take(i as int));
                assert(lines.take(i + 1).last() == line@);
            }
            csv.append(line.name.as_str());
            csv.append(",");
            csv.append(decimal_string(line.stars).as_str());
            csv.append("\n");
            assert(csv@ =~= list_csv(lines.take(i + 1)));
            i += 1;
        }
        assert(lines.take(i as int) =~= lines);
        csv
    }
}

} // verus!
