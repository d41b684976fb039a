use starry::{Db, Error, Extract, RepoObs, Timestamp, UserId, UserObs};

const T1: i64 = 1_600_000_000;
const T2: i64 = 1_600_086_400;
const T3: i64 = 1_600_172_800;

fn at(secs: i64) -> Timestamp {
    Timestamp::from_secs(secs).unwrap()
}

fn snapshot(login: &str, secs: i64, rows: &[(&str, usize)]) -> UserObs {
    UserObs {
        user_id: UserId::new(login),
        time: at(secs),
        counts: rows
            .iter()
            .map(|(name, stars)| RepoObs { repo_name: name.to_string(), stars: *stars })
            .collect(),
    }
}

fn names(names: &[&str]) -> Vec<String> {
    names.iter().map(|n| n.to_string()).collect()
}

fn rows(extract: &Extract) -> Vec<(i64, Vec<Option<usize>>)> {
    extract.lines.iter().map(|line| (line.time.secs(), line.counts.clone())).collect()
}

#[test]
fn extract_of_a_user_and_one_of_its_repos() {
    let mut db = Db::new();
    db.persist(snapshot("alice", T1, &[("repoX", 3), ("other", 10)])).unwrap();
    db.persist(snapshot("alice", T2, &[("repoX", 5), ("other", 10)])).unwrap();
    let extract = Extract::read(&db, names(&["alice", "alice/repoX"])).unwrap();
    assert_eq!(extract.names, names(&["alice", "alice/repoX"]));
    assert_eq!(
        rows(&extract),
        vec![(T1, vec![Some(13), Some(3)]), (T2, vec![Some(15), Some(5)])]
    );
}

#[test]
fn extract_sorts_the_rows_by_time() {
    let mut db = Db::new();
    db.persist(snapshot("alice", T3, &[("a", 3)])).unwrap();
    db.persist(snapshot("alice", T1, &[("a", 1)])).unwrap();
    db.persist(snapshot("alice", T2, &[("a", 2)])).unwrap();
    let extract = Extract::read(&db, names(&["alice/a"])).unwrap();
    assert_eq!(
        rows(&extract),
        vec![(T1, vec![Some(1)]), (T2, vec![Some(2)]), (T3, vec![Some(3)])]
    );
}

#[test]
fn extract_merges_users_by_exact_time() {
    let mut db = Db::new();
    db.persist(snapshot("alice", T1, &[("a", 1)])).unwrap();
    db.persist(snapshot("alice", T3, &[("a", 3)])).unwrap();
    db.persist(snapshot("bob", T2, &[("x", 20)])).unwrap();
    db.persist(snapshot("bob", T3, &[("x", 30), ("y", 1)])).unwrap();
    let extract = Extract::read(&db, names(&["bob/x", "alice", "bob", "alice/a"])).unwrap();
    assert_eq!(
        rows(&extract),
        vec![
            (T1, vec![None, Some(1), None, Some(1)]),
            (T2, vec![Some(20), None, Some(20), None]),
            (T3, vec![Some(30), Some(3), Some(31), Some(3)]),
        ]
    );
}

#[test]
fn extract_leaves_the_cell_of_a_missing_repo_empty() {
    let mut db = Db::new();
    db.persist(snapshot("alice", T1, &[("a", 1)])).unwrap();
    db.persist(snapshot("alice", T2, &[("a", 2), ("late", 7)])).unwrap();
    let extract = Extract::read(&db, names(&["alice/late", "alice/never"])).unwrap();
    assert_eq!(rows(&extract), vec![(T1, vec![None, None]), (T2, vec![Some(7), None])]);
}

#[test]
fn extract_without_names_has_no_row() {
    let mut db = Db::new();
    db.persist(snapshot("alice", T1, &[("a", 1)])).unwrap();
    let extract = Extract::read(&db, vec![]).unwrap();
    assert!(extract.names.is_empty());
    assert!(extract.lines.is_empty());
    assert_eq!(extract.write_csv(), "time\n");
}

#[test]
fn extract_of_a_user_without_snapshot_has_no_row() {
    let mut db = Db::new();
    db.open_user(&UserId::new("alice"));
    let extract = Extract::read(&db, names(&["alice"])).unwrap();
    assert!(extract.lines.is_empty());
    assert_eq!(extract.write_csv(), "time,alice\n");
}

#[test]
fn extract_of_an_unknown_user_is_refused() {
    let mut db = Db::new();
    db.persist(snapshot("alice", T1, &[("a", 1)])).unwrap();
    match Extract::read(&db, names(&["alice", "bob/x", "carol"])) {
        Err(Error::NoData { login }) => assert_eq!(login, "bob"),
        other => panic!("unexpected {:?}", other),
    }
    match Extract::read(&db, names(&["zoe"])) {
        Err(error) => assert_eq!(error.message(), "no data for user zoe"),
        other => panic!("unexpected {:?}", other),
    }
}

#[test]
fn extract_fills_only_the_last_column_of_a_repeated_name() {
    let mut db = Db::new();
    db.persist(snapshot("alice", T1, &[("a", 1), ("b", 2)])).unwrap();
    let extract =
        Extract::read(&db, names(&["alice", "alice/a", "alice", "alice/a", "alice/b"])).unwrap();
    assert_eq!(rows(&extract), vec![(T1, vec![None, None, Some(3), Some(1), Some(2)])]);
}

#[test]
fn extract_reads_the_repo_up_to_a_second_slash() {
    let mut db = Db::new();
    db.persist(snapshot("alice", T1, &[("a", 1), ("", 4)])).unwrap();
    let extract = Extract::read(&db, names(&["alice/a/ignored", "alice/"])).unwrap();
    assert_eq!(rows(&extract), vec![(T1, vec![Some(1), Some(4)])]);
}

#[test]
fn extract_takes_the_last_snapshot_of_a_time() {
    let mut db = Db::new();
    db.persist(snapshot("alice", T1, &[("a", 1), ("b", 5)])).unwrap();
    db.persist(snapshot("alice", T1, &[("a", 2)])).unwrap();
    let extract = Extract::read(&db, names(&["alice", "alice/a", "alice/b"])).unwrap();
    assert_eq!(rows(&extract), vec![(T1, vec![Some(2), Some(2), None])]);
}

#[test]
fn extract_queries_group_the_names_by_user() {
    let queries = Extract::queries(&names(&["bob/x", "alice", "bob", "alice/a", "bob/y", "bob"]));
    assert_eq!(queries.len(), 2);
    assert_eq!(queries[0].user_id.login, "bob");
    let sum = queries[0].sum.as_ref().unwrap();
    assert_eq!((sum.idx, sum.name.as_str()), (5, "bob"));
    let repos: Vec<(usize, &str)> =
        queries[0].repos.iter().map(|col| (col.idx, col.name.as_str())).collect();
    assert_eq!(repos, vec![(0, "x"), (4, "y")]);
    assert_eq!(queries[1].user_id.login, "alice");
    let sum = queries[1].sum.as_ref().unwrap();
    assert_eq!((sum.idx, sum.name.as_str()), (1, "alice"));
    let repos: Vec<(usize, &str)> =
        queries[1].repos.iter().map(|col| (col.idx, col.name.as_str())).collect();
    assert_eq!(repos, vec![(3, "a")]);
}

#[test]
fn extract_queries_of_repos_alone_ask_no_sum() {
    let queries = Extract::queries(&names(&["alice/a"]));
    assert_eq!(queries.len(), 1);
    assert!(queries[0].sum.is_none());
    assert_eq!(queries[0].repos.len(), 1);
    assert!(Extract::queries(&vec![]).is_empty());
}

#[test]
fn extract_is_written_as_csv() {
    let mut db = Db::new();
    db.persist(snapshot("alice", T1, &[("repoX", 3), ("other", 10)])).unwrap();
    db.persist(snapshot("alice", T2, &[("other", 12)])).unwrap();
    db.persist(snapshot("bob", T2, &[("x", 0)])).unwrap();
    let extract = Extract::read(&db, names(&["alice", "alice/repoX", "bob/x"])).unwrap();
    assert_eq!(
        extract.write_csv(),
        "time,alice,alice/repoX,bob/x\n\
         2020-09-13T12:26:40Z,13,3,\n\
         2020-09-14T12:26:40Z,12,,0\n"
    );
}
