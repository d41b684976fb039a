//! The store: the history of snapshots of each user, and the sync that
//! extends it.

use crate::conf::conf::Conf;
use crate::database::change::{Change, RepoChange};
use crate::database::user_obs::{changes, total, DatedObs, Snapshot, UserObs};
use crate::database::user_query::UserResponseLine;
use crate::error::Error;
use crate::github::user_id::UserId;
use crate::text::views;
use vstd::prelude::*;

verus! {

/// The snapshots of one user, in the order in which the store holds them.
#[derive(Debug)]
struct UserHistory {
    user_id: UserId,
    snapshots: Vec<UserObs>,
}

/// The database: an append-only history of snapshots for each user.
#[derive(Debug)]
pub struct Db {
    users: Vec<UserHistory>,
    /// whether to tell everything when we work
    verbose: bool,
    /// whether to save on disk
    read_only: bool,
}

/// What a store holds: the history of each user that it knows, by login.
pub type Store = Map<Seq<char>, Seq<Snapshot>>;

/// The last of the snapshots with the greatest time.
pub open spec fn latest(snapshots: Seq<Snapshot>) -> Option<Snapshot>
    decreases snapshots.len(),
{
    if snapshots.len() == 0 {
        None
    } else {
        match latest(snapshots.drop_last()) {
            Some(best) => if best.time > snapshots.last().time {
                Some(best)
            } else {
                Some(snapshots.last())
            },
            None => Some(snapshots.last()),
        }
    }
}

/// The snapshots that `store` holds for `user`: none where it does not know
/// the user.
pub open spec fn history_in(store: Store, user: Seq<char>) -> Seq<Snapshot> {
    if store.dom().contains(user) {
        store[user]
    } else {
        Seq::empty()
    }
}

/// `store` with `snapshot` appended to the history of its user.
pub open spec fn appended(store: Store, snapshot: Snapshot) -> Store {
    store.insert(snapshot.user, history_in(store, snapshot.user).push(snapshot))
}

/// What came of the fetch of one user's star counts.
#[derive(Debug)]
pub enum Fetched {
    /// The snapshot that was fetched.
    Obs(UserObs),
    /// The fetch failed.
    Failed { user_id: UserId, cause: String },
}

/// The outcome of a fetch as plain values.
pub enum Outcome {
    Obs(Snapshot),
    Failed(Seq<char>),
}

impl View for Fetched {
    type V = Outcome;

    open spec fn view(&self) -> Outcome {
        match self {
            Fetched::Obs(obs) => Outcome::Obs(obs@),
            Fetched::Failed { user_id, cause } => Outcome::Failed(user_id@),
        }
    }
}

/// What a sync found and did. `persisted` and `failed` hold the places, among
/// the fetches that were handed in, of the snapshots that were stored and of
/// the units that failed.
#[derive(Debug)]
pub struct SyncReport {
    pub changes: Vec<RepoChange>,
    pub persisted: Vec<usize>,
    pub failed: Vec<usize>,
}

/// A store and the report of a sync on it, as plain values.
pub struct Synced {
    pub store: Store,
    pub changes: Seq<Change>,
    pub persisted: Seq<int>,
    pub failed: Seq<int>,
}

/// Places as integers.
pub open spec fn places(at: Seq<usize>) -> Seq<int> {
    at.map_values(|i: usize| i as int)
}

/// What a fresh snapshot changes against the latest that the store holds of
/// its user: nothing where the store holds none.
pub open spec fn unit_changes(store: Store, obs: Snapshot) -> Seq<Change> {
    match latest(history_in(store, obs.user)) {
        Some(old) => changes(obs.user, obs.counts, old.counts),
        None => Seq::empty(),
    }
}

/// Whether a fresh snapshot is worth storing: it is the first of its user,
/// or it differs from the latest.
pub open spec fn unit_persists(store: Store, obs: Snapshot) -> bool {
    latest(history_in(store, obs.user)) is None || unit_changes(store, obs).len() > 0
}

/// One unit of a sync, for the fetch at place `at`. A failed fetch is noted.
/// A snapshot is compared with the latest of its user; where it is worth
/// storing and the store writes, it is stored, and if that fails the unit is
/// noted as failed and its changes are left out.
pub open spec fn synced_unit(state: Synced, read_only: bool, at: int, outcome: Outcome) -> Synced {
    match outcome {
        Outcome::Failed(_) => Synced { failed: state.failed.push(at), ..state },
        Outcome::Obs(obs) => {
            let found = unit_changes(state.store, obs);
            if read_only || !unit_persists(state.store, obs) {
                Synced { changes: state.changes + found, ..state }
            } else if total(obs.counts) > usize::MAX {
                Synced { failed: state.failed.push(at), ..state }
            } else {
                Synced {
                    store: appended(state.store, obs),
                    changes: state.changes + found,
                    persisted: state.persisted.push(at),
                    failed: state.failed,
                }
            }
        },
    }
}

/// A sync: its units one after the other, in the order of the fetches.
pub open spec fn synced(store: Store, read_only: bool, outcomes: Seq<Outcome>) -> Synced
    decreases outcomes.len(),
{
    if outcomes.len() == 0 {
        Synced { store, changes: Seq::empty(), persisted: Seq::empty(), failed: Seq::empty() }
    } else {
        synced_unit(
            synced(store, read_only, outcomes.drop_last()),
            read_only,
            outcomes.len() - 1,
            outcomes.last(),
        )
    }
}

/// The user that an outcome is about.
pub open spec fn user_of(outcome: Outcome) -> Seq<char> {
    match outcome {
        Outcome::Obs(obs) => obs.user,
        Outcome::Failed(user) => user,
    }
}

/// The changes that are not of a repository of `user`, in their order.
pub open spec fn changes_of_others(changes: Seq<Change>, user: Seq<char>) -> Seq<Change>
    decreases changes.len(),
{
    if changes.len() == 0 {
        Seq::empty()
    } else if changes.last().repo.owner == user {
        changes_of_others(changes.drop_last(), user)
    } else {
        changes_of_others(changes.drop_last(), user).push(changes.last())
    }
}

/// The places other than `at`, in their order.
pub open spec fn other_places(places: Seq<int>, at: int) -> Seq<int>
    decreases places.len(),
{
    if places.len() == 0 {
        Seq::empty()
    } else if places.last() == at {
        other_places(places.drop_last(), at)
    } else {
        other_places(places.drop_last(), at).push(places.last())
    }
}

impl SyncReport {
    /// The report as plain values, with the store that the sync left.
    pub open spec fn with_store(self, store: Store) -> Synced {
        Synced {
            store,
            changes: views(self.changes@),
            persisted: places(self.persisted@),
            failed: places(self.failed@),
        }
    }

    /// Notes that the snapshot of the unit at place `at` could not be
    /// written after all: the unit counts as failed, and the changes of its
    /// user leave the report.
    pub fn store_failed(&mut self, fetched: &Vec<Fetched>, at: usize)
        requires
            at < fetched.len(),
        ensures
            views(final(self).changes@) == changes_of_others(
                views(old(self).changes@),
                user_of(fetched[at as int]@),
            ),
            places(final(self).persisted@) == other_places(places(old(self).persisted@), at as int),
            places(final(self).failed@) == places(old(self).failed@).push(at as int),
    {
        let user: &str = match &fetched[at] {
            Fetched::Obs(obs) => obs.user_id.login.as_str(),
            Fetched::Failed { user_id, cause } => user_id.login.as_str(),
        };
        let ghost told = views(self.changes@);
        let mut all: Vec<RepoChange> = Vec::new();
        core::mem::swap(&mut self.changes, &mut all);
        // the changes are moved, not copied: from the end onto a stack, and
        // from the stack back into the report
        let mut kept: Vec<RepoChange> = Vec::new();
        assert(views(kept@).reverse() =~= Seq::<Change>::empty());
        assert(views(all@) =~= told.take(all.len() as int));
        while all.len() > 0
            invariant
                all.len() <= told.len(),
                at < fetched.len(),
                views(all@) == told.take(all.len() as int),
                user@ == user_of(fetched[at as int]@),
                changes_of_others(told, user@) == changes_of_others(views(all@), user@) + views(
                    kept@,
                ).reverse(),
            decreases all.len(),
        {
            let ghost before = views(all@);
            let ghost held = views(kept@);
            let change = all.pop().unwrap();
            assert(views(all@) =~= before.drop_last());
            assert(before.last() == change@);
            if !change.repo_id.owner.login.as_str().eq(user) {
                kept.push(change);
                assert(views(kept@) =~= held.push(change@));
                assert(views(kept@).reverse() =~= seq![change@] + held.reverse());
                assert(changes_of_others(before, user@) + held.reverse() =~= changes_of_others(
                    views(all@),
                    user@,
                ) + views(kept@).reverse());
            }
            assert(views(all@) =~= told.take(all.len() as int));
        }
        let ghost backwards = views(kept@);
        assert(changes_of_others(told, user@) =~= backwards.reverse());
        while kept.len() > 0
            invariant
                kept.len() <= backwards.len(),
                views(kept@) == backwards.take(kept.len() as int),
                views(self.changes@) == backwards.skip(kept.len() as int).reverse(),
                self.persisted == old(self).persisted,
                self.failed == old(self).failed,
            decreases kept.len(),
        {
            let ghost before = views(kept@);
            let ghost done = views(self.changes@);
            let change = kept.pop().unwrap();
            assert(views(kept@) =~= before.drop_last());
            assert(before.last() == change@);
            self.changes.push(change);
            assert(views(self.changes@) =~= done.push(change@));
            assert(views(kept@) =~= backwards.take(kept.len() as int));
            assert(views(self.changes@) =~= backwards.skip(kept.len() as int).reverse());
        }
        assert(backwards.skip(0) =~= backwards);
        let ghost stored = places(self.persisted@);
        let mut persisted: Vec<usize> = Vec::new();
        let mut i: usize = 0;
        assert(stored.take(0) =~= Seq::<int>::empty());
        assert(places(persisted@) =~= Seq::<int>::empty());
        while i < self.persisted.len()
            invariant
                i <= self.persisted.len(),
                stored == places(self.persisted@),
                places(persisted@) == other_places(stored.take(i as int), at as int),
            decreases self.persisted.len() - i,
        {
            let ghost before = places(persisted@);
            proof {
                assert(stored.take(i + 1).drop_last() =~= stored.take(i as int));
                assert(stored.take(i + 1).last() == self.persisted[i as int] as int);
            }
            if self.persisted[i] != at {
                persisted.push(self.persisted[i]);
                assert(places(persisted@) =~= before.push(self.persisted[i as int] as int));
            }
            i += 1;
        }
        assert(stored.take(i as int) =~= stored);
        self.persisted = persisted;
        let ghost noted = places(self.failed@);
        self.failed.push(at);
        assert(places(self.failed@) =~= noted.push(at as int));
    }
}

impl UserHistory {
    spec fn wf(self) -> bool {
        forall|k: int|
            0 <= k < self.snapshots.len() ==> {
                &&& (#[trigger] self.snapshots[k])@.user == self.user_id@
                &&& total(self.snapshots[k]@.counts) <= usize::MAX
            }
    }
}

impl Db {
    #[verifier::type_invariant]
    spec fn wf(self) -> bool {
        &&& forall|i: int, j: int|
            0 <= i < j < self.users.len() ==> self.users[i].user_id@ != self.users[j].user_id@
        &&& forall|i: int| 0 <= i < self.users.len() ==> (#[trigger] self.users[i]).wf()
    }

    spec fn place(self, user: Seq<char>) -> int {
        choose|i: int| 0 <= i < self.users.len() && self.users[i].user_id@ == user
    }

    /// The histories that the store holds, by login.
    pub closed spec fn view(self) -> Store {
        Map::new(
            |user: Seq<char>|
                exists|i: int| 0 <= i < self.users.len() && self.users[i].user_id@ == user,
            |user: Seq<char>| views(self.users[self.place(user)].snapshots@),
        )
    }

    proof fn lemma_view_at(self, i: int)
        requires
            self.wf(),
            0 <= i < self.users.len(),
        ensures
            self@.dom().contains(self.users[i].user_id@),
            self@[self.users[i].user_id@] == views(self.users[i].snapshots@),
    {
        let user = self.users[i].user_id@;
        let j = self.place(user);
        assert(0 <= j < self.users.len() && self.users[j].user_id@ == user);
        assert(j == i);
    }

    /// Whether nothing is written.
    pub closed spec fn is_read_only(self) -> bool {
        self.read_only
    }

    /// Whether each write is announced.
    pub closed spec fn is_verbose(self) -> bool {
        self.verbose
    }

    /// An empty store that writes, silently.
    pub fn new() -> (db: Self)
        ensures
            db@ == Store::empty(),
            !db.is_read_only(),
            !db.is_verbose(),
    {
        let db = Db { users: Vec::new(), verbose: false, read_only: false };
        assert(db@ =~= Store::empty());
        db
    }

    /// Where the history of `user_id` stands.
    fn find(&self, user_id: &UserId) -> (found: Option<usize>)
        ensures
            match found {
                Some(i) => i < self.users.len() && self.users[i as int].user_id@ == user_id@
                    && self@.dom().contains(user_id@) && self@[user_id@] == views(
                    self.users[i as int].snapshots@,
                ),
                None => !self@.dom().contains(user_id@),
            },
    {
        proof {
            use_type_invariant(self);
        }
        let mut i: usize = 0;
        while i < self.users.len()
            invariant
                i <= self.users.len(),
                forall|k: int| 0 <= k < i ==> self.users[k].user_id@ != user_id@,
            decreases self.users.len() - i,
        {
            if self.users[i].user_id == *user_id {
                proof {
                    use_type_invariant(self);
                    let j = self.place(user_id@);
                    assert(0 <= i < self.users.len() && self.users[i as int].user_id@
                        == user_id@);
                    assert(0 <= j < self.users.len() && self.users[j].user_id@ == user_id@);
                    assert(j == i);
                }
                return Some(i);
            }
            i += 1;
        }
        None
    }

    /// The number of snapshots stored for the user: none where the store
    /// does not know the user.
    pub fn count_user_obs(&self, user_id: &UserId) -> (count: usize)
        ensures
            count == history_in(self@, user_id@).len(),
    {
        match self.find(user_id) {
            Some(i) => self.users[i].snapshots.len(),
            None => 0,
        }
    }

    /// Appends a snapshot to the history of its user, which begins with it
    /// where the store did not know the user. A snapshot whose stars are more
    /// than a machine word counts is refused, and the store stays as it was.
    pub fn persist(&mut self, obs: UserObs) -> (done: Result<(), Error>)
        ensures
            done is Ok <==> total(obs@.counts) <= usize::MAX,
            done is Ok ==> final(self)@ == appended(old(self)@, obs@),
            done is Err ==> final(self)@ == old(self)@,
            done matches Err(Error::TooManyStars { login }) ==> login@ == obs@.user,
            done is Err ==> done->Err_0 is TooManyStars,
            final(self).is_read_only() == old(self).is_read_only(),
            final(self).is_verbose() == old(self).is_verbose(),
    {
        proof {
            use_type_invariant(&*self);
        }
        if obs.checked_sum().is_none() {
            return Err(Error::TooManyStars { login: obs.user_id.login.clone() });
        }
        let place = self.find(&obs.user_id);
        let mut users: Vec<UserHistory> = Vec::new();
        core::mem::swap(&mut self.users, &mut users);
        match place {
            Some(i) => {
                users[i].snapshots.push(obs);
            },
            None => {
                let mut snapshots: Vec<UserObs> = Vec::new();
                let user_id = obs.user_id.clone();
                snapshots.push(obs);
                users.push(UserHistory { user_id, snapshots });
            },
        }
        core::mem::swap(&mut self.users, &mut users);
        proof {
            use_type_invariant(&*self);
            let before = *old(self);
            let after = *self;
            let wanted = appended(before@, obs@);
            let at: int = match place {
                Some(i) => i as int,
                None => before.users.len() as int,
            };
            after.lemma_view_at(at);
            assert(views(after.users[at].snapshots@) =~= history_in(before@, obs@.user).push(
                obs@,
            ));
            assert forall|user: Seq<char>| after@.dom().contains(user) implies wanted.dom().contains(
                user,
            ) && after@[user] == wanted[user] by {
                let j = after.place(user);
                if j != at {
                    before.lemma_view_at(j);
                    after.lemma_view_at(j);
                }
            }
            assert forall|user: Seq<char>| wanted.dom().contains(user) implies after@.dom().contains(
                user,
            ) by {
                if user != obs@.user {
                    let j = before.place(user);
                    before.lemma_view_at(j);
                    after.lemma_view_at(j);
                }
            }
            assert(after@ =~= wanted);
        }
        Ok(())
    }

    /// Whether nothing is written.
    pub fn read_only(&self) -> (read_only: bool)
        ensures
            read_only == self.is_read_only(),
    {
        self.read_only
    }

    /// Whether each write is announced.
    pub fn verbose(&self) -> (verbose: bool)
        ensures
            verbose == self.is_verbose(),
    {
        self.verbose
    }

    /// Makes the store write or not.
    pub fn set_read_only(&mut self, read_only: bool)
        ensures
            final(self).is_read_only() == read_only,
            final(self).is_verbose() == old(self).is_verbose(),
            final(self)@ == old(self)@,
    {
        proof {
            use_type_invariant(&*self);
        }
        self.read_only = read_only;
    }

    /// Makes the store announce its writes or not.
    pub fn set_verbose(&mut self, verbose: bool)
        ensures
            final(self).is_verbose() == verbose,
            final(self).is_read_only() == old(self).is_read_only(),
            final(self)@ == old(self)@,
    {
        proof {
            use_type_invariant(&*self);
        }
        self.verbose = verbose;
    }

    /// Makes the user known to the store, with no snapshot where it was not
    /// known before.
    pub fn open_user(&mut self, user_id: &UserId)
        ensures
            final(self)@ == old(self)@.insert(user_id@, history_in(old(self)@, user_id@)),
            final(self).is_read_only() == old(self).is_read_only(),
            final(self).is_verbose() == old(self).is_verbose(),
    {
        proof {
            use_type_invariant(&*self);
        }
        match self.find(user_id) {
            Some(_) => {
                assert(self@ =~= old(self)@.insert(user_id@, history_in(old(self)@, user_id@)));
            },
            None => {
                let mut users: Vec<UserHistory> = Vec::new();
                core::mem::swap(&mut self.users, &mut users);
                users.push(UserHistory { user_id: user_id.clone(), snapshots: Vec::new() });
                core::mem::swap(&mut self.users, &mut users);
                proof {
                    use_type_invariant(&*self);
                    let before = *old(self);
                    let after = *self;
                    let wanted = before@.insert(user_id@, history_in(before@, user_id@));
                    let at = before.users.len() as int;
                    after.lemma_view_at(at);
                    assert(views(after.users[at].snapshots@) =~= Seq::<Snapshot>::empty());
                    assert forall|user: Seq<char>|
                        after@.dom().contains(user) implies wanted.dom().contains(user)
                        && after@[user] == wanted[user] by {
                        let j = after.place(user);
                        if j != at {
                            before.lemma_view_at(j);
                            after.lemma_view_at(j);
                        }
                    }
                    assert forall|user: Seq<char>|
                        wanted.dom().contains(user) implies after@.dom().contains(user) by {
                        if user != user_id@ {
                            let j = before.place(user);
                            before.lemma_view_at(j);
                            after.lemma_view_at(j);
                        }
                    }
                    assert(after@ =~= wanted);
                }
            },
        }
    }

    /// The latest snapshot of the user: the last of those with the greatest
    /// time, or none where the store holds no snapshot of the user.
    pub fn last_user_obs(&self, user_id: &UserId) -> (last: Option<&UserObs>)
        ensures
            match last {
                Some(obs) => latest(history_in(self@, user_id@)) == Some(obs@) && total(
                    obs@.counts,
                ) <= usize::MAX,
                None => latest(history_in(self@, user_id@)) is None,
            },
    {
        proof {
            use_type_invariant(self);
        }
        match self.find(user_id) {
            Some(i) => {
                let snapshots = &self.users[i].snapshots;
                if snapshots.len() == 0 {
                    return None;
                }
                let ghost all = views(snapshots@);
                let mut best: usize = 0;
                let mut k: usize = 1;
                assert(all.take(1).drop_last() =~= Seq::<Snapshot>::empty());
                assert(latest(all.take(1).drop_last()) is None);
                assert(all.take(1).last() == all[0]);
                while k < snapshots.len()
                    invariant
                        1 <= k <= snapshots.len(),
                        best < k,
                        all == views(snapshots@),
                        latest(all.take(k as int)) == Some(all[best as int]),
                    decreases snapshots.len() - k,
                {
                    proof {
                        assert(all.take(k + 1).drop_last() =~= all.take(k as int));
                    }
                    if snapshots[k].time.secs() >= snapshots[best].time.secs() {
                        best = k;
                    }
                    k += 1;
                }
                assert(all.take(k as int) =~= all);
                Some(&snapshots[best])
            },
            None => None,
        }
    }

    /// The time series made of the total numbers of stars of a user, one
    /// entry for each snapshot, in the order of the store.
    pub fn extract_user(&self, user_id: &UserId) -> (series: Result<Vec<DatedObs>, Error>)
        ensures
            series is Ok <==> self@.dom().contains(user_id@),
            series matches Ok(sums) ==> views(sums@) == self@[user_id@].map_values(
                |snapshot: Snapshot| snapshot.sum(),
            ),
            series matches Err(error) ==> error matches Error::NoData { login } && login@
                == user_id@,
    {
        proof {
            use_type_invariant(self);
        }
        match self.find(user_id) {
            Some(i) => {
                let snapshots = &self.users[i].snapshots;
                let mut sums: Vec<DatedObs> = Vec::new();
                let mut k: usize = 0;
                while k < snapshots.len()
                    invariant
                        k <= snapshots.len(),
                        sums.len() == k,
                        self.users[i as int].wf(),
                        snapshots == &self.users[i as int].snapshots,
                        forall|n: int| 0 <= n < k ==> (#[trigger] sums[n])@ == snapshots[n]@.sum(),
                    decreases snapshots.len() - k,
                {
                    sums.push(snapshots[k].sum());
                    k += 1;
                }
                assert(views(sums@) =~= self@[user_id@].map_values(
                    |snapshot: Snapshot| snapshot.sum(),
                ));
                Ok(sums)
            },
            None => Err(Error::NoData { login: user_id.login.clone() }),
        }
    }

    /// The lines, one for each snapshot of the user in the order of the
    /// store, that answer a query for the given repositories.
    pub fn extract_user_query(&self, user_id: &UserId, repo_names: Vec<&str>) -> (lines: Result<
        Vec<UserResponseLine>,
        Error,
    >)
        ensures
            lines is Ok <==> self@.dom().contains(user_id@),
            lines matches Ok(found) ==> views(found@) == self@[user_id@].map_values(
                |snapshot: Snapshot| snapshot.response(views(repo_names@)),
            ),
            lines matches Err(error) ==> error matches Error::NoData { login } && login@
                == user_id@,
    {
        proof {
            use_type_invariant(self);
        }
        match self.find(user_id) {
            Some(i) => {
                let snapshots = &self.users[i].snapshots;
                let mut lines: Vec<UserResponseLine> = Vec::new();
                let mut k: usize = 0;
                while k < snapshots.len()
                    invariant
                        k <= snapshots.len(),
                        lines.len() == k,
                        self.users[i as int].wf(),
                        snapshots == &self.users[i as int].snapshots,
                        forall|n: int|
                            0 <= n < k ==> (#[trigger] lines[n])@ == snapshots[n]@.response(
                                views(repo_names@),
                            ),
                    decreases snapshots.len() - k,
                {
                    let (counts, sum) = UserObs::read_lines_and_sum(
                        &snapshots[k].counts,
                        &repo_names,
                    );
                    lines.push(UserResponseLine { time: snapshots[k].time, sum, counts });
                    k += 1;
                }
                assert(views(lines@) =~= self@[user_id@].map_values(
                    |snapshot: Snapshot| snapshot.response(views(repo_names@)),
                ));
                Ok(lines)
            },
            None => Err(Error::NoData { login: user_id.login.clone() }),
        }
    }

    /// The users to fetch: the watched users of the configuration.
    pub fn targets(conf: &Conf) -> (users: Vec<UserId>)
        ensures
            views(users@) == conf.watched(),
    {
        let watched = conf.watched_users();
        let mut users: Vec<UserId> = Vec::new();
        let mut i: usize = 0;
        while i < watched.len()
            invariant
                i <= watched.len(),
                users.len() == i,
                forall|k: int| 0 <= k < i ==> users[k]@ == watched[k]@,
            decreases watched.len() - i,
        {
            users.push(UserId::new(watched[i].as_str()));
            i += 1;
        }
        assert(views(users@) =~= views(watched@));
        users
    }

    /// One unit of a sync, for the fetch at place `at`.
    fn update_unit(&mut self, report: &mut SyncReport, at: usize, fetched: &Fetched)
        ensures
            final(report).with_store(final(self)@) == synced_unit(
                old(report).with_store(old(self)@),
                old(self).is_read_only(),
                at as int,
                fetched@,
            ),
            final(self).is_read_only() == old(self).is_read_only(),
            final(self).is_verbose() == old(self).is_verbose(),
    {
        let ghost before = report.with_store(self@);
        match fetched {
            Fetched::Failed { user_id, cause } => {
                report.failed.push(at);
                assert(places(report.failed@) =~= before.failed.push(at as int));
            },
            Fetched::Obs(obs) => {
                let mut prior = false;
                let mut found: Vec<RepoChange> = Vec::new();
                match self.last_user_obs(&obs.user_id) {
                    Some(old) => {
                        prior = true;
                        found = obs.diff_from(old);
                    },
                    None => {
                        assert(views(found@) =~= Seq::<Change>::empty());
                    },
                }
                assert(views(found@) == unit_changes(self@, obs@));
                let ghost news = views(found@);
                let ghost told = views(report.changes@);
                if !self.read_only() && (!prior || found.len() > 0) {
                    match self.persist(obs.clone()) {
                        Ok(()) => {
                            report.changes.append(&mut found);
                            report.persisted.push(at);
                            assert(views(report.changes@) =~= told + news);
                            assert(places(report.persisted@) =~= before.persisted.push(at as int));
                        },
                        Err(_) => {
                            report.failed.push(at);
                            assert(places(report.failed@) =~= before.failed.push(at as int));
                        },
                    }
                } else {
                    report.changes.append(&mut found);
                    assert(views(report.changes@) =~= told + news);
                }
            },
        }
    }

    /// Syncs the store with what was fetched of the watched users: each
    /// snapshot is compared with the latest of its user and stored where it is
    /// the first or differs, unless the store does not write. No failure of
    /// one unit stops the others. With no watched user nothing is done.
    pub fn update(&mut self, conf: &Conf, fetched: &Vec<Fetched>) -> (report: SyncReport)
        ensures
            report.with_store(final(self)@) == if conf.watched().len() == 0 {
                synced(old(self)@, old(self).is_read_only(), Seq::empty())
            } else {
                synced(old(self)@, old(self).is_read_only(), views(fetched@))
            },
            final(self).is_read_only() == old(self).is_read_only(),
            final(self).is_verbose() == old(self).is_verbose(),
    {
        let mut report = SyncReport {
            changes: Vec::new(),
            persisted: Vec::new(),
            failed: Vec::new(),
        };
        let ghost outcomes = views(fetched@);
        proof {
            assert(views(report.changes@) =~= Seq::<Change>::empty());
            assert(places(report.persisted@) =~= Seq::<int>::empty());
            assert(places(report.failed@) =~= Seq::<int>::empty());
            assert(outcomes.take(0) =~= Seq::<Outcome>::empty());
        }
        if conf.watched_users().len() == 0 {
            return report;
        }
        let mut i: usize = 0;
        while i < fetched.len()
            invariant
                i <= fetched.len(),
                outcomes == views(fetched@),
                self.is_read_only() == old(self).is_read_only(),
                self.is_verbose() == old(self).is_verbose(),
                report.with_store(self@) == synced(
                    old(self)@,
                    old(self).is_read_only(),
                    outcomes.take(i as int),
                ),
            decreases fetched.len() - i,
        {
            proof {
                assert(outcomes.take(i + 1).drop_last() =~= outcomes.take(i as int));
                assert(outcomes.take(i + 1).last() == fetched[i as int]@);
            }
            self.update_unit(&mut report, i, &fetched[i]);
            i += 1;
        }
        assert(outcomes.take(i as int) =~= outcomes);
        report
    }
}

} // verus!
