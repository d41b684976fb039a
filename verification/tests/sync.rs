use starry::{Conf, Db, Fetched, RepoChange, RepoObs, SyncReport, Timestamp, UserId, UserObs};

const T1: i64 = 1_600_000_000;
const T2: i64 = 1_600_086_400;
const T3: i64 = 1_600_172_800;

fn snapshot(login: &str, secs: i64, rows: &[(&str, usize)]) -> UserObs {
    UserObs {
        user_id: UserId::new(login),
        time: Timestamp::from_secs(secs).unwrap(),
        counts: rows
            .iter()
            .map(|(name, stars)| RepoObs { repo_name: name.to_string(), stars: *stars })
            .collect(),
    }
}

fn fetched(login: &str, secs: i64, rows: &[(&str, usize)]) -> Fetched {
    Fetched::Obs(snapshot(login, secs, rows))
}

fn failed(login: &str) -> Fetched {
    Fetched::Failed { user_id: UserId::new(login), cause: "transport".to_string() }
}

fn watching(logins: &[&str]) -> Conf {
    let mut conf = Conf::new();
    for login in logins {
        conf.follow(login.to_string());
    }
    conf
}

fn told(changes: &[RepoChange]) -> Vec<(String, Option<usize>, usize)> {
    let mut all: Vec<_> =
        changes.iter().map(|c| (c.repo_id.to_string(), c.old_stars, c.new_stars)).collect();
    all.sort();
    all
}

fn nothing(report: &SyncReport) -> bool {
    report.changes.is_empty() && report.persisted.is_empty() && report.failed.is_empty()
}

#[test]
fn sync_without_watched_user_does_nothing() {
    let conf = Conf::new();
    assert!(Db::targets(&conf).is_empty());
    let mut db = Db::new();
    let report = db.update(&conf, &vec![]);
    assert!(nothing(&report));
    let report = db.update(&conf, &vec![fetched("alice", T1, &[("a", 1)])]);
    assert!(nothing(&report));
    assert_eq!(db.count_user_obs(&UserId::new("alice")), 0);
}

#[test]
fn sync_targets_are_the_watched_users() {
    let conf = watching(&["alice", "bob", "alice"]);
    let targets: Vec<String> = Db::targets(&conf).iter().map(|u| u.to_string()).collect();
    assert_eq!(targets, vec!["alice", "bob"]);
}

#[test]
fn sync_stores_the_first_snapshot_and_reports_nothing() {
    let conf = watching(&["alice"]);
    let mut db = Db::new();
    let report = db.update(&conf, &vec![fetched("alice", T1, &[("a", 1), ("b", 2)])]);
    assert!(report.changes.is_empty());
    assert_eq!(report.persisted, vec![0]);
    assert!(report.failed.is_empty());
    assert_eq!(db.count_user_obs(&UserId::new("alice")), 1);
}

#[test]
fn sync_reports_and_stores_what_changed() {
    let conf = watching(&["alice"]);
    let mut db = Db::new();
    db.persist(snapshot("alice", T1, &[("a", 1), ("b", 2)])).unwrap();
    let report = db.update(&conf, &vec![fetched("alice", T2, &[("a", 1), ("b", 3), ("c", 9)])]);
    assert_eq!(
        told(&report.changes),
        vec![("alice/b".to_string(), Some(2), 3), ("alice/c".to_string(), None, 9)]
    );
    assert_eq!(report.persisted, vec![0]);
    assert_eq!(db.count_user_obs(&UserId::new("alice")), 2);
    assert_eq!(db.last_user_obs(&UserId::new("alice")).unwrap().time.secs(), T2);
}

#[test]
fn sync_does_not_store_what_did_not_change() {
    let conf = watching(&["alice"]);
    let mut db = Db::new();
    db.persist(snapshot("alice", T1, &[("a", 1), ("b", 2)])).unwrap();
    let report = db.update(&conf, &vec![fetched("alice", T2, &[("b", 2), ("a", 1)])]);
    assert!(nothing(&report));
    assert_eq!(db.count_user_obs(&UserId::new("alice")), 1);
}

#[test]
fn sync_twice_on_an_unchanged_remote_state_writes_once() {
    let conf = watching(&["alice", "bob"]);
    let mut db = Db::new();
    db.persist(snapshot("alice", T1, &[("a", 1)])).unwrap();
    let first = db.update(
        &conf,
        &vec![fetched("alice", T2, &[("a", 5), ("n", 0)]), fetched("bob", T2, &[("x", 3)])],
    );
    assert_eq!(first.changes.len(), 2);
    assert_eq!(first.persisted, vec![0, 1]);
    let second = db.update(
        &conf,
        &vec![fetched("alice", T3, &[("a", 5), ("n", 0)]), fetched("bob", T3, &[("x", 3)])],
    );
    assert!(nothing(&second));
    assert_eq!(db.count_user_obs(&UserId::new("alice")), 2);
    assert_eq!(db.count_user_obs(&UserId::new("bob")), 1);
}

#[test]
fn sync_keeps_the_units_of_others_when_one_fails() {
    let conf = watching(&["alice", "bob"]);
    let mut db = Db::new();
    db.persist(snapshot("alice", T1, &[("a", 1)])).unwrap();
    db.persist(snapshot("bob", T1, &[("x", 1)])).unwrap();
    let report =
        db.update(&conf, &vec![failed("bob"), fetched("alice", T2, &[("a", 2), ("b", 1)])]);
    assert_eq!(
        told(&report.changes),
        vec![("alice/a".to_string(), Some(1), 2), ("alice/b".to_string(), None, 1)]
    );
    assert_eq!(report.failed, vec![0]);
    assert_eq!(report.persisted, vec![1]);
    assert_eq!(db.count_user_obs(&UserId::new("bob")), 1);
    assert_eq!(db.count_user_obs(&UserId::new("alice")), 2);
}

#[test]
fn sync_of_failures_alone_reports_each_once() {
    let conf = watching(&["alice", "bob"]);
    let mut db = Db::new();
    let report = db.update(&conf, &vec![failed("alice"), failed("bob")]);
    assert!(report.changes.is_empty());
    assert!(report.persisted.is_empty());
    assert_eq!(report.failed, vec![0, 1]);
}

#[test]
fn sync_that_does_not_write_reports_without_storing() {
    let conf = watching(&["alice", "bob"]);
    let mut db = Db::new();
    db.persist(snapshot("alice", T1, &[("a", 1)])).unwrap();
    db.set_read_only(true);
    let units = vec![fetched("alice", T2, &[("a", 2)]), fetched("bob", T2, &[("x", 3)])];
    let report = db.update(&conf, &units);
    assert_eq!(told(&report.changes), vec![("alice/a".to_string(), Some(1), 2)]);
    assert!(report.persisted.is_empty());
    assert!(report.failed.is_empty());
    assert_eq!(db.count_user_obs(&UserId::new("alice")), 1);
    assert_eq!(db.count_user_obs(&UserId::new("bob")), 0);
    assert!(db.read_only());
    let again = db.update(&conf, &units);
    assert_eq!(told(&again.changes), told(&report.changes));
}

#[test]
fn sync_fails_the_unit_whose_snapshot_cannot_be_stored() {
    let conf = watching(&["alice", "bob"]);
    let mut db = Db::new();
    db.persist(snapshot("alice", T1, &[("a", 1)])).unwrap();
    let report = db.update(
        &conf,
        &vec![
            fetched("alice", T2, &[("a", usize::MAX), ("b", 1)]),
            fetched("bob", T2, &[("x", 3)]),
        ],
    );
    assert!(report.changes.is_empty());
    assert_eq!(report.failed, vec![0]);
    assert_eq!(report.persisted, vec![1]);
    assert_eq!(db.count_user_obs(&UserId::new("alice")), 1);
}

#[test]
fn sync_compares_with_the_latest_snapshot() {
    let conf = watching(&["alice"]);
    let mut db = Db::new();
    db.persist(snapshot("alice", T2, &[("a", 5)])).unwrap();
    db.persist(snapshot("alice", T1, &[("a", 1)])).unwrap();
    let report = db.update(&conf, &vec![fetched("alice", T3, &[("a", 5)])]);
    assert!(nothing(&report));
    let report = db.update(&conf, &vec![fetched("alice", T3, &[("a", 1)])]);
    assert_eq!(told(&report.changes), vec![("alice/a".to_string(), Some(5), 1)]);
}

#[test]
fn sync_gives_the_same_changes_in_any_order_of_the_units() {
    let conf = watching(&["alice", "bob", "carol", "dave"]);
    let stored = [
        snapshot("alice", T1, &[("a", 1), ("b", 2)]),
        snapshot("bob", T1, &[("x", 1)]),
        snapshot("dave", T1, &[("d", 4)]),
    ];
    let units = |order: &[usize]| -> Vec<Fetched> {
        order
            .iter()
            .map(|i| match i {
                0 => fetched("alice", T2, &[("a", 3), ("b", 2), ("c", 1)]),
                1 => fetched("bob", T2, &[("x", 0)]),
                2 => fetched("carol", T2, &[("new", 8)]),
                _ => failed("dave"),
            })
            .collect()
    };
    let mut results = Vec::new();
    for order in [[0, 1, 2, 3], [3, 2, 1, 0], [2, 0, 3, 1], [1, 3, 0, 2]] {
        let mut db = Db::new();
        for obs in &stored {
            db.persist(obs.clone()).unwrap();
        }
        let report = db.update(&conf, &units(&order));
        assert_eq!(report.failed.len(), 1);
        assert_eq!(report.persisted.len(), 3);
        let counts: Vec<usize> = ["alice", "bob", "carol", "dave"]
            .iter()
            .map(|login| db.count_user_obs(&UserId::new(login)))
            .collect();
        results.push((told(&report.changes), counts));
    }
    assert_eq!(results[0].0.len(), 3);
    assert_eq!(results[0].1, vec![2, 2, 1, 1]);
    for result in &results[1..] {
        assert_eq!(result, &results[0]);
    }
}

#[test]
fn sync_report_drops_the_unit_that_could_not_be_written() {
    let conf = watching(&["alice", "bob", "carol"]);
    let mut db = Db::new();
    db.persist(snapshot("alice", T1, &[("a", 1)])).unwrap();
    db.persist(snapshot("bob", T1, &[("x", 1)])).unwrap();
    let units = vec![
        fetched("alice", T2, &[("a", 2), ("b", 1)]),
        failed("carol"),
        fetched("bob", T2, &[("x", 5)]),
    ];
    let mut report = db.update(&conf, &units);
    assert_eq!(report.changes.len(), 3);
    assert_eq!(report.persisted, vec![0, 2]);
    assert_eq!(report.failed, vec![1]);
    report.store_failed(&units, 0);
    assert_eq!(told(&report.changes), vec![("bob/x".to_string(), Some(1), 5)]);
    assert_eq!(report.persisted, vec![2]);
    assert_eq!(report.failed, vec![1, 0]);
    report.store_failed(&units, 2);
    assert!(report.changes.is_empty());
    assert!(report.persisted.is_empty());
    assert_eq!(report.failed, vec![1, 0, 2]);
}

#[test]
fn sync_report_keeps_the_order_of_the_changes_of_others() {
    let conf = watching(&["alice", "bob"]);
    let mut db = Db::new();
    db.persist(snapshot("alice", T1, &[("a", 1), ("b", 1), ("c", 1)])).unwrap();
    db.persist(snapshot("bob", T1, &[("x", 1)])).unwrap();
    let units = vec![
        fetched("alice", T2, &[("c", 2), ("a", 2), ("b", 2)]),
        fetched("bob", T2, &[("x", 5)]),
    ];
    let mut report = db.update(&conf, &units);
    report.store_failed(&units, 1);
    let names: Vec<String> = report.changes.iter().map(|c| c.repo_id.to_string()).collect();
    assert_eq!(names, vec!["alice/c", "alice/a", "alice/b"]);
}

