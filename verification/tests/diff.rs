use starry::{RepoObs, Timestamp, UserId, UserObs};

fn snapshot(login: &str, secs: i64, rows: &[(&str, usize)]) -> UserObs {
    UserObs {
        user_id: UserId::new(login),
        time: Timestamp::from_secs(secs).unwrap(),
        counts: rows
            .iter()
            .map(|(name, stars)| RepoObs { repo_name: name.to_string(), stars: *stars })
            .collect(),
    }
}

#[test]
fn diff_of_equal_snapshots_is_empty() {
    let old = snapshot("alice", 1_600_000_000, &[("a", 1), ("b", 2)]);
    let new = snapshot("alice", 1_600_000_600, &[("b", 2), ("a", 1)]);
    assert!(new.diff_from(&old).is_empty());
    assert!(old.diff_from(&new).is_empty());
    assert!(old.diff_from(&old).is_empty());
}

#[test]
fn diff_of_empty_snapshots_is_empty() {
    let none = snapshot("alice", 1_600_000_000, &[]);
    let some = snapshot("alice", 1_600_000_600, &[("a", 1)]);
    assert!(none.diff_from(&none).is_empty());
    assert!(none.diff_from(&some).is_empty());
    assert_eq!(some.diff_from(&none).len(), 1);
}

#[test]
fn diff_reports_new_and_changed_repos() {
    let old = snapshot("alice", 1_600_000_000, &[("a", 1), ("b", 2), ("gone", 7)]);
    let new = snapshot("alice", 1_600_000_600, &[("a", 1), ("b", 5), ("c", 0)]);
    let found = new.diff_from(&old);
    assert_eq!(found.len(), 2);
    assert_eq!(found[0].repo_id.to_string(), "alice/b");
    assert_eq!(found[0].old_stars, Some(2));
    assert_eq!(found[0].new_stars, 5);
    assert_eq!(found[1].repo_id.to_string(), "alice/c");
    assert_eq!(found[1].old_stars, None);
    assert_eq!(found[1].new_stars, 0);
}

#[test]
fn diff_reports_a_new_repo_exactly_once() {
    let old = snapshot("alice", 1_600_000_000, &[("a", 1)]);
    let new = snapshot("alice", 1_600_000_600, &[("a", 1), ("fresh", 12), ("b", 3)]);
    let found = new.diff_from(&old);
    let fresh: Vec<_> = found.iter().filter(|c| c.repo_id.name == "fresh").collect();
    assert_eq!(fresh.len(), 1);
    assert_eq!(fresh[0].old_stars, None);
    assert_eq!(fresh[0].new_stars, 12);
}

#[test]
fn diff_does_not_report_repos_that_are_gone() {
    let old = snapshot("alice", 1_600_000_000, &[("a", 1), ("gone", 7)]);
    let new = snapshot("alice", 1_600_000_600, &[("a", 1)]);
    assert!(new.diff_from(&old).is_empty());
}

#[test]
fn diff_reports_drops() {
    let old = snapshot("alice", 1_600_000_000, &[("a", 10)]);
    let new = snapshot("alice", 1_600_000_600, &[("a", 4)]);
    let found = new.diff_from(&old);
    assert_eq!(found.len(), 1);
    assert_eq!((found[0].old_stars, found[0].new_stars), (Some(10), 4));
    assert_eq!(found[0].repo_id.owner.login, "alice");
}

#[test]
fn diff_compares_with_the_first_row_of_a_repeated_name() {
    let old = snapshot("alice", 1_600_000_000, &[("a", 1), ("a", 2)]);
    let new = snapshot("alice", 1_600_000_600, &[("a", 2)]);
    let found = new.diff_from(&old);
    assert_eq!(found.len(), 1);
    assert_eq!((found[0].old_stars, found[0].new_stars), (Some(1), 2));
}

#[test]
fn diff_takes_the_owner_from_the_new_snapshot() {
    let old = snapshot("bob", 1_600_000_000, &[("a", 1)]);
    let new = snapshot("alice", 1_600_000_600, &[("a", 2)]);
    let found = new.diff_from(&old);
    assert_eq!(found[0].repo_id.to_string(), "alice/a");
}
