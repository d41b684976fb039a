//! What holds of a sync whose units are each for another user.

use crate::database::change::Change;
use crate::database::db::{
    appended, history_in, latest, synced, unit_changes, unit_persists, user_of, Outcome, Store,
};
use crate::database::user_obs::{consistent, lemma_same_rows_no_change, total, Snapshot};
use vstd::prelude::*;
use vstd::seq_lib::*;

verus! {

/// Whether each outcome is about another user.
pub open spec fn one_unit_each(outcomes: Seq<Outcome>) -> bool {
    forall|i: int, j: int|
        0 <= i < j < outcomes.len() ==> user_of(outcomes[i]) != user_of(outcomes[j])
}

/// Whether no outcome is about `user`.
pub open spec fn untouched(outcomes: Seq<Outcome>, user: Seq<char>) -> bool {
    forall|i: int| 0 <= i < outcomes.len() ==> user_of(#[trigger] outcomes[i]) != user
}

/// Whether the unit stores its snapshot: the store writes, the snapshot is
/// worth storing, and its stars can be counted.
pub open spec fn takes(store: Store, read_only: bool, outcome: Outcome) -> bool {
    outcome matches Outcome::Obs(obs) && !read_only && unit_persists(store, obs) && total(
        obs.counts,
    ) <= usize::MAX
}

/// Whether the unit fails: the fetch failed, or the snapshot was to be
/// stored and could not be.
pub open spec fn fails(store: Store, read_only: bool, outcome: Outcome) -> bool {
    match outcome {
        Outcome::Obs(obs) => !read_only && unit_persists(store, obs) && total(obs.counts)
            > usize::MAX,
        Outcome::Failed(_) => true,
    }
}

/// The changes that one unit reports of its user, against `store`: none
/// where the unit fails.
pub open spec fn contributed(store: Store, read_only: bool, outcome: Outcome) -> Seq<Change> {
    match outcome {
        Outcome::Obs(obs) => if fails(store, read_only, outcome) {
            Seq::empty()
        } else {
            unit_changes(store, obs)
        },
        Outcome::Failed(_) => Seq::empty(),
    }
}

/// The history of the user of a unit after the unit.
pub open spec fn unit_history(store: Store, read_only: bool, outcome: Outcome) -> Seq<Snapshot> {
    match outcome {
        Outcome::Obs(obs) => if takes(store, read_only, outcome) {
            history_in(store, obs.user).push(obs)
        } else {
            history_in(store, obs.user)
        },
        Outcome::Failed(user) => history_in(store, user),
    }
}

/// The changes of all units, each against `store`, in the order of the
/// units.
pub open spec fn units_changes(store: Store, read_only: bool, outcomes: Seq<Outcome>) -> Seq<Change>
    decreases outcomes.len(),
{
    if outcomes.len() == 0 {
        Seq::empty()
    } else {
        units_changes(store, read_only, outcomes.drop_last()) + contributed(
            store,
            read_only,
            outcomes.last(),
        )
    }
}

/// The places of the units for which `wanted` holds against `store`.
pub open spec fn units_where(
    store: Store,
    read_only: bool,
    outcomes: Seq<Outcome>,
    wanted: spec_fn(Store, bool, Outcome) -> bool,
) -> Seq<int>
    decreases outcomes.len(),
{
    if outcomes.len() == 0 {
        Seq::empty()
    } else {
        let earlier = units_where(store, read_only, outcomes.drop_last(), wanted);
        if wanted(store, read_only, outcomes.last()) {
            earlier.push(outcomes.len() - 1)
        } else {
            earlier
        }
    }
}

/// `store` with the snapshot of each unit that stores one against `store`.
pub open spec fn settled(store: Store, read_only: bool, outcomes: Seq<Outcome>) -> Store
    decreases outcomes.len(),
{
    if outcomes.len() == 0 {
        store
    } else {
        let earlier = settled(store, read_only, outcomes.drop_last());
        match outcomes.last() {
            Outcome::Obs(obs) => if takes(store, read_only, outcomes.last()) {
                appended(earlier, obs)
            } else {
                earlier
            },
            Outcome::Failed(_) => earlier,
        }
    }
}

/// The latest snapshot is one of the history and none of the history is
/// later; only an empty history has none.
pub proof fn lemma_latest(history: Seq<Snapshot>)
    ensures
        latest(history) is None <==> history.len() == 0,
        latest(history) matches Some(best) ==> history.contains(best) && forall|k: int|
            0 <= k < history.len() ==> history[k].time <= best.time,
    decreases history.len(),
{
    if history.len() > 0 {
        let front = history.drop_last();
        lemma_latest(front);
        let best = latest(history)->0;
        if front.len() > 0 {
            let before = latest(front)->0;
            if before.time > history.last().time {
                let k = choose|k: int| 0 <= k < front.len() && front[k] == before;
                assert(history[k] == best);
            } else {
                assert(history[history.len() - 1] == best);
            }
            assert forall|k: int| 0 <= k < history.len() implies history[k].time <= best.time by {
                if k < front.len() {
                    assert(front[k] == history[k]);
                }
            }
        } else {
            assert(history[history.len() - 1] == best);
        }
    }
}

/// A snapshot that is not earlier than any of a history is the latest once
/// it is appended.
pub proof fn lemma_latest_appended(history: Seq<Snapshot>, snapshot: Snapshot)
    requires
        forall|k: int| 0 <= k < history.len() ==> history[k].time <= snapshot.time,
    ensures
        latest(history.push(snapshot)) == Some(snapshot),
{
    lemma_latest(history);
    assert(history.push(snapshot).drop_last() =~= history);
    if history.len() > 0 {
        let best = latest(history)->0;
        let k = choose|k: int| 0 <= k < history.len() && history[k] == best;
        assert(history[k].time <= snapshot.time);
    }
}

/// Units leave the histories of the users that they are not about as they
/// were.
pub proof fn lemma_settled_elsewhere(
    store: Store,
    read_only: bool,
    outcomes: Seq<Outcome>,
    user: Seq<char>,
)
    requires
        untouched(outcomes, user),
    ensures
        settled(store, read_only, outcomes).dom().contains(user) == store.dom().contains(user),
        history_in(settled(store, read_only, outcomes), user) == history_in(store, user),
    decreases outcomes.len(),
{
    if outcomes.len() > 0 {
        let front = outcomes.drop_last();
        assert forall|i: int| 0 <= i < front.len() implies user_of(#[trigger] front[i])
            != user by {
            assert(front[i] == outcomes[i]);
        }
        lemma_settled_elsewhere(store, read_only, front, user);
        assert(user_of(outcomes[outcomes.len() - 1]) != user);
    }
}

/// Among units that are each for another user, the history of the user of a
/// unit is, after all of them, what that unit alone makes of it.
pub proof fn lemma_settled_unit(store: Store, read_only: bool, outcomes: Seq<Outcome>, at: int)
    requires
        one_unit_each(outcomes),
        0 <= at < outcomes.len(),
    ensures
        settled(store, read_only, outcomes).dom().contains(user_of(outcomes[at])) == (
        store.dom().contains(user_of(outcomes[at])) || takes(store, read_only, outcomes[at])),
        history_in(settled(store, read_only, outcomes), user_of(outcomes[at])) == unit_history(
            store,
            read_only,
            outcomes[at],
        ),
    decreases outcomes.len(),
{
    let front = outcomes.drop_last();
    let user = user_of(outcomes[at]);
    assert forall|i: int, j: int| 0 <= i < j < front.len() implies user_of(front[i]) != user_of(
        front[j],
    ) by {
        assert(front[i] == outcomes[i] && front[j] == outcomes[j]);
    }
    if at == outcomes.len() - 1 {
        assert forall|i: int| 0 <= i < front.len() implies user_of(#[trigger] front[i])
            != user by {
            assert(front[i] == outcomes[i]);
        }
        lemma_settled_elsewhere(store, read_only, front, user);
    } else {
        assert(front[at] == outcomes[at]);
        lemma_settled_unit(store, read_only, front, at);
        assert(user_of(outcomes[outcomes.len() - 1]) != user);
    }
}

/// No failure of one unit touches another: where each unit is for another
/// user, a sync leaves what each unit alone makes of the store that the sync
/// began with, and reports the changes of each unit against that store, in
/// the order of the units.
pub proof fn lemma_units_apart(store: Store, read_only: bool, outcomes: Seq<Outcome>)
    requires
        one_unit_each(outcomes),
    ensures
        synced(store, read_only, outcomes).store == settled(store, read_only, outcomes),
        synced(store, read_only, outcomes).changes == units_changes(store, read_only, outcomes),
        synced(store, read_only, outcomes).persisted == units_where(
            store,
            read_only,
            outcomes,
            |s: Store, r: bool, o: Outcome| takes(s, r, o),
        ),
        synced(store, read_only, outcomes).failed == units_where(
            store,
            read_only,
            outcomes,
            |s: Store, r: bool, o: Outcome| fails(s, r, o),
        ),
    decreases outcomes.len(),
{
    if outcomes.len() > 0 {
        let front = outcomes.drop_last();
        let last = outcomes.last();
        assert forall|i: int, j: int| 0 <= i < j < front.len() implies user_of(front[i])
            != user_of(front[j]) by {
            assert(front[i] == outcomes[i] && front[j] == outcomes[j]);
        }
        lemma_units_apart(store, read_only, front);
        assert forall|i: int| 0 <= i < front.len() implies user_of(#[trigger] front[i])
            != user_of(last) by {
            assert(front[i] == outcomes[i]);
        }
        lemma_settled_elsewhere(store, read_only, front, user_of(last));
        let state = synced(store, read_only, front);
        match last {
            Outcome::Obs(obs) => {
                assert(history_in(state.store, obs.user) == history_in(store, obs.user));
                assert(unit_changes(state.store, obs) == unit_changes(store, obs));
                if fails(store, read_only, last) {
                    assert(units_changes(store, read_only, front) + Seq::<Change>::empty()
                        =~= units_changes(store, read_only, front));
                }
            },
            Outcome::Failed(_) => {
                assert(units_changes(store, read_only, front) + Seq::<Change>::empty()
                    =~= units_changes(store, read_only, front));
            },
        }
    }
}

/// Whether `after` holds all that `before` held, each history as it was or
/// with more at its end.
pub open spec fn grown_from(before: Store, after: Store) -> bool {
    forall|user: Seq<char>|
        (before.dom().contains(user) ==> #[trigger] after.dom().contains(user)) && history_in(
            before,
            user,
        ).is_prefix_of(history_in(after, user))
}

/// A sync only appends: no snapshot is changed or taken away.
pub proof fn lemma_sync_only_appends(store: Store, read_only: bool, outcomes: Seq<Outcome>)
    ensures
        grown_from(store, synced(store, read_only, outcomes).store),
    decreases outcomes.len(),
{
    let after = synced(store, read_only, outcomes).store;
    if outcomes.len() > 0 {
        let front = outcomes.drop_last();
        let before = synced(store, read_only, front).store;
        lemma_sync_only_appends(store, read_only, front);
        assert forall|user: Seq<char>|
            (store.dom().contains(user) ==> #[trigger] after.dom().contains(user)) && history_in(
                store,
                user,
            ).is_prefix_of(history_in(after, user)) by {
            assert(store.dom().contains(user) ==> before.dom().contains(user));
            assert(history_in(store, user).is_prefix_of(history_in(before, user)));
            assert(history_in(before, user).is_prefix_of(history_in(after, user)));
        }
    } else {
        assert forall|user: Seq<char>|
            (store.dom().contains(user) ==> #[trigger] after.dom().contains(user)) && history_in(
                store,
                user,
            ).is_prefix_of(history_in(after, user)) by {
            assert(history_in(store, user).is_prefix_of(history_in(store, user)));
        }
    }
}

/// A sync of a store that does not write leaves the store as it was.
pub proof fn lemma_sync_read_only(store: Store, outcomes: Seq<Outcome>)
    ensures
        synced(store, true, outcomes).store == store,
        synced(store, true, outcomes).persisted == Seq::<int>::empty(),
    decreases outcomes.len(),
{
    if outcomes.len() > 0 {
        lemma_sync_read_only(store, outcomes.drop_last());
    }
}

/// The places of the units for which something holds stand in ascending
/// order, each once, and are the places of exactly those units.
pub proof fn lemma_units_where(
    store: Store,
    read_only: bool,
    outcomes: Seq<Outcome>,
    wanted: spec_fn(Store, bool, Outcome) -> bool,
)
    ensures
        forall|j: int, k: int|
            0 <= j < k < units_where(store, read_only, outcomes, wanted).len() ==> units_where(
                store,
                read_only,
                outcomes,
                wanted,
            )[j] < units_where(store, read_only, outcomes, wanted)[k],
        forall|i: int|
            units_where(store, read_only, outcomes, wanted).contains(i) <==> 0 <= i
                < outcomes.len() && wanted(store, read_only, outcomes[i]),
    decreases outcomes.len(),
{
    let found = units_where(store, read_only, outcomes, wanted);
    if outcomes.len() > 0 {
        let front = outcomes.drop_last();
        let earlier = units_where(store, read_only, front, wanted);
        let last = outcomes.len() - 1;
        lemma_units_where(store, read_only, front, wanted);
        assert forall|k: int| 0 <= k < earlier.len() implies 0 <= #[trigger] earlier[k]
            < last by {
            assert(earlier.contains(earlier[k]));
        }
        assert forall|j: int, k: int| 0 <= j < k < found.len() implies found[j] < found[k] by {
            assert(found[j] == earlier[j]);
            if k < earlier.len() {
                assert(found[k] == earlier[k]);
            }
        }
        assert forall|i: int|
            found.contains(i) <==> 0 <= i < outcomes.len() && wanted(
                store,
                read_only,
                outcomes[i],
            ) by {
            if found.contains(i) {
                let k = choose|k: int| 0 <= k < found.len() && found[k] == i;
                if k < earlier.len() {
                    assert(earlier[k] == i);
                    assert(earlier.contains(i));
                    assert(front[i] == outcomes[i]);
                }
            }
            if 0 <= i < outcomes.len() && wanted(store, read_only, outcomes[i]) {
                if i < last {
                    assert(front[i] == outcomes[i]);
                    assert(earlier.contains(i));
                    let k = choose|k: int| 0 <= k < earlier.len() && earlier[k] == i;
                    assert(found[k] == i);
                } else {
                    assert(found[found.len() - 1] == i);
                }
            }
        }
    }
}

/// A snapshot that is stored and is not earlier than those that the store
/// held of its user is the latest of that user: it is read back as it was
/// stored.
pub proof fn lemma_stored_is_latest(store: Store, obs: Snapshot)
    requires
        not_before(store, obs),
    ensures
        latest(history_in(appended(store, obs), obs.user)) == Some(obs),
{
    let before = history_in(store, obs.user);
    assert forall|k: int| 0 <= k < before.len() implies before[k].time <= obs.time by {
        assert(history_in(store, obs.user)[k].time <= obs.time);
    }
    lemma_latest_appended(before, obs);
}

/// Whether two outcomes are snapshots of the same user with the same rows.
pub open spec fn same_state(first: Outcome, second: Outcome) -> bool {
    first matches Outcome::Obs(a) && second matches Outcome::Obs(b) && a.user == b.user && a.counts
        == b.counts
}

/// Whether the snapshot was taken at or after every snapshot that the store
/// holds of its user.
pub open spec fn not_before(store: Store, obs: Snapshot) -> bool {
    forall|k: int|
        0 <= k < history_in(store, obs.user).len() ==> (#[trigger] history_in(
            store,
            obs.user,
        )[k]).time <= obs.time
}

/// Whether the unit neither stores nor reports anything.
pub open spec fn quiet(store: Store, read_only: bool, outcome: Outcome) -> bool {
    !takes(store, read_only, outcome) && contributed(store, read_only, outcome) == Seq::<
        Change,
    >::empty()
}

/// Quiet units leave the store as it was and report nothing.
pub proof fn lemma_quiet_units(store: Store, read_only: bool, outcomes: Seq<Outcome>)
    requires
        forall|i: int| 0 <= i < outcomes.len() ==> quiet(store, read_only, #[trigger] outcomes[i]),
    ensures
        settled(store, read_only, outcomes) == store,
        units_changes(store, read_only, outcomes) == Seq::<Change>::empty(),
        units_where(store, read_only, outcomes, |s: Store, r: bool, o: Outcome| takes(s, r, o))
            == Seq::<int>::empty(),
    decreases outcomes.len(),
{
    if outcomes.len() > 0 {
        let front = outcomes.drop_last();
        assert forall|i: int| 0 <= i < front.len() implies quiet(
            store,
            read_only,
            #[trigger] front[i],
        ) by {
            assert(front[i] == outcomes[i]);
        }
        lemma_quiet_units(store, read_only, front);
        assert(quiet(store, read_only, outcomes[outcomes.len() - 1]));
        assert(units_changes(store, read_only, outcomes) =~= Seq::<Change>::empty());
    }
}

/// A sync that runs again on an unchanged remote state stores nothing and
/// reports no change. This holds where the store writes, each unit is for
/// another user, no snapshot holds a name with two different counts, and no
/// snapshot is earlier than those stored for its user.
pub proof fn lemma_sync_twice(store: Store, first: Seq<Outcome>, second: Seq<Outcome>)
    requires
        one_unit_each(first),
        first.len() == second.len(),
        forall|i: int| 0 <= i < first.len() ==> same_state(#[trigger] first[i], second[i]),
        forall|i: int|
            0 <= i < first.len() ==> (#[trigger] first[i] matches Outcome::Obs(obs)
                ==> consistent(obs.counts) && not_before(store, obs)),
    ensures
        synced(synced(store, false, first).store, false, second).changes == Seq::<Change>::empty(),
        synced(synced(store, false, first).store, false, second).persisted == Seq::<int>::empty(),
        synced(synced(store, false, first).store, false, second).store == synced(
            store,
            false,
            first,
        ).store,
{
    lemma_units_apart(store, false, first);
    let once = settled(store, false, first);
    assert forall|i: int, j: int| 0 <= i < j < second.len() implies user_of(second[i]) != user_of(
        second[j],
    ) by {
        assert(same_state(first[i], second[i]) && same_state(first[j], second[j]));
        assert(user_of(first[i]) != user_of(first[j]));
    }
    lemma_units_apart(once, false, second);
    assert forall|i: int| 0 <= i < second.len() implies quiet(once, false, #[trigger] second[i]) by {
        assert(same_state(first[i], second[i]));
        let old = first[i]->Obs_0;
        let new = second[i]->Obs_0;
        let before = history_in(store, old.user);
        lemma_settled_unit(store, false, first, i);
        assert(history_in(once, new.user) == unit_history(store, false, first[i]));
        assert(consistent(old.counts) && not_before(store, old));
        if takes(store, false, first[i]) {
            assert forall|k: int| 0 <= k < before.len() implies before[k].time <= old.time by {
                assert(history_in(store, old.user)[k].time <= old.time);
            }
            lemma_latest_appended(before, old);
            lemma_same_rows_no_change(new.user, new.counts, old.counts);
            assert(unit_changes(once, new) == Seq::<Change>::empty());
        } else {
            assert(unit_changes(once, new) == unit_changes(store, old));
            if !unit_persists(store, old) {
                assert(unit_changes(once, new) =~= Seq::<Change>::empty());
            }
        }
    }
    lemma_quiet_units(once, false, second);
}

/// The changes of all units but one, with the changes of that one, are the
/// changes of all units, in whatever order.
pub proof fn lemma_changes_without(
    store: Store,
    read_only: bool,
    outcomes: Seq<Outcome>,
    at: int,
)
    requires
        0 <= at < outcomes.len(),
    ensures
        units_changes(store, read_only, outcomes).to_multiset() == units_changes(
            store,
            read_only,
            outcomes.remove(at),
        ).to_multiset().add(contributed(store, read_only, outcomes[at]).to_multiset()),
    decreases outcomes.len(),
{
    broadcast use vstd::multiset::group_multiset_axioms;

    let front = outcomes.drop_last();
    let last = outcomes.last();
    lemma_multiset_commutative(
        units_changes(store, read_only, front),
        contributed(store, read_only, last),
    );
    if at == outcomes.len() - 1 {
        assert(outcomes.remove(at) =~= front);
    } else {
        let rest = front.remove(at);
        assert(outcomes.remove(at) =~= rest.push(last));
        assert(outcomes.remove(at).drop_last() =~= rest);
        assert(front[at] == outcomes[at]);
        lemma_changes_without(store, read_only, front, at);
        lemma_multiset_commutative(
            units_changes(store, read_only, rest),
            contributed(store, read_only, last),
        );
        assert(units_changes(store, read_only, outcomes).to_multiset() =~= units_changes(
            store,
            read_only,
            outcomes.remove(at),
        ).to_multiset().add(contributed(store, read_only, outcomes[at]).to_multiset()));
    }
}

/// What one of two sequences with the same items holds, the other holds.
pub proof fn lemma_same_items(one: Seq<Outcome>, other: Seq<Outcome>, item: Outcome)
    requires
        one.to_multiset() == other.to_multiset(),
        one.contains(item),
    ensures
        other.contains(item),
{
    to_multiset_contains(one, item);
    to_multiset_contains(other, item);
}

/// The changes of the same units, each against `store`, are the same in
/// whatever order the units come.
pub proof fn lemma_changes_any_order(
    store: Store,
    read_only: bool,
    one: Seq<Outcome>,
    other: Seq<Outcome>,
)
    requires
        one.to_multiset() == other.to_multiset(),
    ensures
        units_changes(store, read_only, one).to_multiset() == units_changes(
            store,
            read_only,
            other,
        ).to_multiset(),
    decreases one.len(),
{
    broadcast use vstd::multiset::group_multiset_axioms;

    one.to_multiset_ensures();
    other.to_multiset_ensures();
    if one.len() == 0 {
        assert(other.len() == 0);
    } else {
        let last = one.last();
        let front = one.drop_last();
        assert(one[one.len() - 1] == last);
        assert(one.contains(last));
        lemma_same_items(one, other, last);
        let at = choose|at: int| 0 <= at < other.len() && other[at] == last;
        let rest = other.remove(at);
        assert(one.remove(one.len() - 1) =~= front);
        to_multiset_remove(one, one.len() - 1);
        to_multiset_remove(other, at);
        assert(front.to_multiset() == rest.to_multiset());
        lemma_changes_any_order(store, read_only, front, rest);
        lemma_changes_without(store, read_only, other, at);
        lemma_multiset_commutative(
            units_changes(store, read_only, front),
            contributed(store, read_only, last),
        );
    }
}

/// The order in which the units of a sync complete does not matter: where
/// each unit is for another user, the same units in another order leave the
/// same store and report the same changes, as a multiset.
pub proof fn lemma_sync_any_order(
    store: Store,
    read_only: bool,
    one: Seq<Outcome>,
    other: Seq<Outcome>,
)
    requires
        one_unit_each(one),
        one_unit_each(other),
        one.to_multiset() == other.to_multiset(),
    ensures
        synced(store, read_only, one).changes.to_multiset() == synced(
            store,
            read_only,
            other,
        ).changes.to_multiset(),
        synced(store, read_only, one).store == synced(store, read_only, other).store,
{
    lemma_units_apart(store, read_only, one);
    lemma_units_apart(store, read_only, other);
    lemma_changes_any_order(store, read_only, one, other);
    one.to_multiset_ensures();
    other.to_multiset_ensures();
    let left = settled(store, read_only, one);
    let right = settled(store, read_only, other);
    assert forall|user: Seq<char>|
        #[trigger] left.dom().contains(user) == right.dom().contains(user) && history_in(
            left,
            user,
        ) == history_in(right, user) by {
        if exists|i: int| 0 <= i < one.len() && user_of(one[i]) == user {
            let i = choose|i: int| 0 <= i < one.len() && user_of(one[i]) == user;
            assert(one.contains(one[i]));
            lemma_same_items(one, other, one[i]);
            let j = choose|j: int| 0 <= j < other.len() && other[j] == one[i];
            lemma_settled_unit(store, read_only, one, i);
            lemma_settled_unit(store, read_only, other, j);
        } else {
            assert forall|j: int| 0 <= j < other.len() implies user_of(#[trigger] other[j])
                != user by {
                assert(other.contains(other[j]));
                lemma_same_items(other, one, other[j]);
                let i = choose|i: int| 0 <= i < one.len() && one[i] == other[j];
                assert(user_of(one[i]) != user);
            }
            lemma_settled_elsewhere(store, read_only, one, user);
            lemma_settled_elsewhere(store, read_only, other, user);
        }
    }
    assert forall|user: Seq<char>| left.dom().contains(user) implies #[trigger] left[user]
        == right[user] by {
        assert(left.dom().contains(user) == right.dom().contains(user));
        assert(history_in(left, user) == history_in(right, user));
    }
    assert(left.dom() =~= right.dom());
    assert(left =~= right);
}

} // verus!
