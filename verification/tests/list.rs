use starry::{Conf, Db, List, ListLine, RepoObs, Timestamp, UserId, UserObs};

const T1: i64 = 1_600_000_000;
const T2: i64 = 1_600_086_400;

fn snapshot(login: &str, secs: i64, rows: &[(&str, usize)]) -> UserObs {
    UserObs {
        user_id: UserId::new(login),
        time: Timestamp::from_secs(secs).unwrap(),
        counts: rows
            .iter()
            .map(|(name, stars)| RepoObs { repo_name: name.to_string(), stars: *stars })
            .collect(),
    }
}

fn lines(list: &List) -> Vec<(&str, usize)> {
    list.lines.iter().map(|line| (line.name.as_str(), line.stars)).collect()
}

fn store() -> (Db, Conf) {
    let mut db = Db::new();
    db.persist(snapshot("alice", T1, &[("a", 1)])).unwrap();
    db.persist(snapshot("alice", T2, &[("a", 2), ("b", 40)])).unwrap();
    db.persist(snapshot("bob", T1, &[("x", 7)])).unwrap();
    db.open_user(&UserId::new("carol"));
    db.persist(snapshot("erin", T1, &[("e", 1)])).unwrap();
    let mut conf = Conf::new();
    for login in ["bob", "carol", "alice", "dave"] {
        conf.follow(login.to_string());
    }
    (db, conf)
}

#[test]
fn list_of_users_gives_the_latest_totals() {
    let (db, conf) = store();
    let list = List::users(&db, &conf, false);
    assert_eq!(lines(&list), vec![("bob", 7), ("alice", 42)]);
}

#[test]
fn list_of_drawable_users_needs_two_snapshots() {
    let (db, conf) = store();
    let list = List::users(&db, &conf, true);
    assert_eq!(lines(&list), vec![("alice", 42)]);
}

#[test]
fn list_of_repos_leaves_out_those_without_stars() {
    let list = List::from(snapshot("alice", T1, &[("a", 2), ("none", 0), ("b", 1), ("z", 0)]));
    assert_eq!(lines(&list), vec![("a", 2), ("b", 1)]);
    assert!(List::from(snapshot("alice", T1, &[])).lines.is_empty());
}

#[test]
fn list_is_written_as_csv() {
    let list = List {
        lines: vec![
            ListLine { name: "alice".to_string(), stars: 42 },
            ListLine { name: "bob".to_string(), stars: 0 },
        ],
    };
    assert_eq!(list.write_csv(), "name,stars\nalice,42\nbob,0\n");
    assert_eq!(List { lines: vec![] }.write_csv(), "name,stars\n");
}
