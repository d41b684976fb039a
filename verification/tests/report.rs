use starry::{ChangeReport, RepoChange, RepoId, UserId};

fn change(name: &str, old: Option<usize>, new: usize) -> RepoChange {
    RepoChange { repo_id: RepoId::new(UserId::new("alice"), name), old_stars: old, new_stars: new }
}

#[test]
fn report_shows_each_change() {
    let changes = vec![change("a", Some(10), 30), change("b", None, 2)];
    let report = ChangeReport::new(&changes, 20);
    assert_eq!(report.change_count(), 2);
    assert_eq!(report.kept_count(), None);
    let rows = report.rows();
    assert_eq!(rows.len(), 2);
    assert_eq!(rows[0].owner, "alice");
    assert_eq!(rows[0].name, "a");
    assert_eq!(rows[0].last, "10");
    assert_eq!(rows[0].trend, "`U` `U` `U`");
    assert_eq!(rows[0].now, 30);
    assert_eq!(rows[0].url, "https://github.com/alice/a");
    assert_eq!(rows[1].last, "");
    assert_eq!(rows[1].trend, "`U`");
    assert_eq!(rows[1].now, 2);
}

#[test]
fn report_shows_no_more_rows_than_asked() {
    let changes = vec![change("a", Some(1), 2), change("b", Some(2), 1), change("c", None, 0)];
    let report = ChangeReport::new(&changes, 2);
    assert_eq!(report.change_count(), 3);
    assert_eq!(report.kept_count(), Some(2));
    let rows = report.rows();
    assert_eq!(rows.len(), 2);
    assert_eq!(rows[1].name, "b");
    assert_eq!(rows[1].trend, "`D`");
    let exact = ChangeReport::new(&changes, 3);
    assert_eq!(exact.kept_count(), None);
    assert_eq!(exact.rows().len(), 3);
    let none = ChangeReport::new(&changes, 0);
    assert_eq!(none.kept_count(), Some(0));
    assert!(none.rows().is_empty());
}

#[test]
fn report_of_no_change_is_empty() {
    let changes: Vec<RepoChange> = vec![];
    let report = ChangeReport::new(&changes, 20);
    assert_eq!(report.change_count(), 0);
    assert_eq!(report.kept_count(), None);
    assert!(report.rows().is_empty());
}
