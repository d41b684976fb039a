use starry::{sort_by_interest, RepoChange, RepoId, UserId};

fn change(old: Option<usize>, new: usize) -> RepoChange {
    RepoChange { repo_id: RepoId::new(UserId::new("alice"), "repo"), old_stars: old, new_stars: new }
}

fn value(change: &RepoChange) -> f64 {
    let v = change.value();
    v.num as f64 / v.den as f64
}

fn interest(change: &RepoChange) -> f64 {
    let v = change.interest();
    v.num as f64 / v.den as f64
}

#[test]
fn value_of_a_new_repo_without_stars_is_a_fifth() {
    let c = change(None, 0);
    assert_eq!((c.value().num, c.value().den), (4, 20));
    assert_eq!(value(&c), 0.2);
}

#[test]
fn value_of_a_new_repo_with_twenty_stars() {
    let c = change(None, 20);
    assert_eq!((c.value().num, c.value().den), (24, 20));
    assert_eq!(value(&c), 1.2);
}

#[test]
fn value_of_new_repos_grows_with_the_stars() {
    let mut before = value(&change(None, 0));
    for new in 1..200 {
        let v = value(&change(None, new));
        assert!(v > before);
        before = v;
    }
}

#[test]
fn value_of_no_change_is_zero() {
    let c = change(Some(10), 10);
    assert_eq!(c.value().num, 0);
    assert_eq!(value(&c), 0.0);
    assert_eq!(interest(&c), 0.0);
}

#[test]
fn value_is_the_damped_delta() {
    let c = change(Some(10), 30);
    assert_eq!((c.value().num, c.value().den), (2000, 140));
    let d = change(Some(30), 10);
    assert_eq!((d.value().num, d.value().den), (-2000, 140));
    assert_eq!((d.interest().num, d.interest().den), (2000, 140));
}

#[test]
fn value_has_the_sign_of_the_move() {
    for old in 0..40usize {
        for new in 0..40usize {
            let v = value(&change(Some(old), new));
            assert_eq!(v > 0.0, new > old);
            assert_eq!(v < 0.0, new < old);
            assert!(-100.0 < v && v < 100.0);
            assert_eq!(interest(&change(Some(old), new)), v.abs());
        }
    }
}

#[test]
fn value_of_the_greatest_counts_does_not_overflow() {
    let up = change(Some(0), usize::MAX);
    assert_eq!(up.value().num, 100 * (usize::MAX as i128));
    assert_eq!(up.value().den, 100 + (usize::MAX as i128));
    assert!(99 * up.value().den < up.value().num && up.value().num < 100 * up.value().den);
    let down = change(Some(usize::MAX), 0);
    assert_eq!(down.value().num, -100 * (usize::MAX as i128));
    assert_eq!(down.interest().num, 100 * (usize::MAX as i128));
    let both = change(Some(usize::MAX), usize::MAX);
    assert_eq!((both.value().num, both.value().den), (0, 100 + 2 * (usize::MAX as i128)));
    assert_eq!(up.trend_markdown(), "`U` `U` `U`");
    assert_eq!(down.trend_markdown(), "`D` `D` `D`");
}

#[test]
fn trend_of_new_repos() {
    assert_eq!(change(None, 0).trend_markdown(), "");
    assert_eq!(change(None, 1).trend_markdown(), "`U`");
    assert_eq!(change(None, 16).trend_markdown(), "`U`");
    assert_eq!(change(None, 17).trend_markdown(), "`U` `U`");
    assert_eq!(change(None, 56).trend_markdown(), "`U` `U`");
    assert_eq!(change(None, 57).trend_markdown(), "`U` `U` `U`");
}

#[test]
fn trend_of_rises() {
    // value = 100 * (new - old) / (100 + old + new)
    assert_eq!(change(Some(100), 100).trend_markdown(), "");
    // 100 / 499 is about 0.2004
    assert_eq!(change(Some(199), 200).trend_markdown(), "`U`");
    // 100 / 501 is just under 0.2
    assert_eq!(change(Some(200), 201).trend_markdown(), "");
    // 300 / 303 is under 1
    assert_eq!(change(Some(100), 103).trend_markdown(), "`U`");
    // 400 / 304 is above 1
    assert_eq!(change(Some(100), 104).trend_markdown(), "`U` `U`");
    // 600 / 306 is under 3
    assert_eq!(change(Some(100), 106).trend_markdown(), "`U` `U`");
    // 700 / 307 is under 3, 1000 / 310 is above
    assert_eq!(change(Some(100), 107).trend_markdown(), "`U` `U`");
    assert_eq!(change(Some(100), 110).trend_markdown(), "`U` `U` `U`");
}

#[test]
fn trend_of_drops() {
    // -100 / 299
    assert_eq!(change(Some(100), 99).trend_markdown(), "`D`");
    // -200 / 298
    assert_eq!(change(Some(100), 98).trend_markdown(), "`D`");
    // -300 / 297 is below -1
    assert_eq!(change(Some(100), 97).trend_markdown(), "`D` `D`");
    // -500 / 295 is above -2
    assert_eq!(change(Some(100), 95).trend_markdown(), "`D` `D`");
    // -600 / 294 is below -2
    assert_eq!(change(Some(100), 94).trend_markdown(), "`D` `D` `D`");
}

#[test]
fn trend_at_the_exact_thresholds() {
    // exactly 3: 100 * 3 / (100 + 0 + 0) is not possible, so 100 * 9 / 300 with old + new = 200
    assert_eq!(change(Some(97), 103).trend_markdown(), "`U` `U`") ;
    // exactly 1: 100 * 2 / 200 with old + new = 100
    assert_eq!(change(Some(49), 51).trend_markdown(), "`U`");
    // exactly -1
    assert_eq!(change(Some(51), 49).trend_markdown(), "`D`");
    // exactly -2: 100 * -4 / 200
    assert_eq!(change(Some(52), 48).trend_markdown(), "`D` `D`");
}

#[test]
fn url_of_a_change() {
    assert_eq!(change(None, 3).url(), "https://github.com/alice/repo");
}

#[test]
fn change_in_words() {
    assert_eq!(
        change(Some(1), 2).to_string(),
        "alice/repo rised from 1 to 2 - https://github.com/alice/repo"
    );
    assert_eq!(
        change(Some(12), 9).to_string(),
        "alice/repo dropped from 12 to 9 - https://github.com/alice/repo"
    );
    assert_eq!(
        change(Some(5), 5).to_string(),
        "alice/repo dropped from 5 to 5 - https://github.com/alice/repo"
    );
    assert_eq!(
        change(None, 5).to_string(),
        "alice/repo is new and has already 5 stars - https://github.com/alice/repo"
    );
    assert_eq!(change(None, 1).to_string(), "alice/repo is new - https://github.com/alice/repo");
    assert_eq!(change(None, 0).to_string(), "alice/repo is new - https://github.com/alice/repo");
}

fn named(name: &str, old: Option<usize>, new: usize) -> RepoChange {
    RepoChange { repo_id: RepoId::new(UserId::new("alice"), name), old_stars: old, new_stars: new }
}

fn names(changes: &[RepoChange]) -> Vec<&str> {
    changes.iter().map(|c| c.repo_id.name.as_str()).collect()
}

#[test]
fn more_interesting_compares_the_interests() {
    let big = change(Some(10), 30);
    let small = change(Some(10), 11);
    let drop = change(Some(30), 10);
    assert!(big.more_interesting_than(&small));
    assert!(!small.more_interesting_than(&big));
    assert!(!big.more_interesting_than(&big));
    assert!(!big.more_interesting_than(&drop));
    assert!(!drop.more_interesting_than(&big));
    assert!(change(None, 20).more_interesting_than(&change(None, 19)));
    // 1.2 against 100 * 2 / 122
    assert!(change(Some(10), 12).more_interesting_than(&change(None, 20)));
    assert!(!change(None, 20).more_interesting_than(&change(Some(10), 12)));
}

#[test]
fn more_interesting_agrees_with_the_floats() {
    let mut all = Vec::new();
    for old in [None, Some(0), Some(1), Some(7), Some(100), Some(5000)] {
        for new in [0usize, 1, 2, 8, 99, 100, 101, 4000, 70000] {
            all.push(change(old, new));
        }
    }
    for a in &all {
        for b in &all {
            assert_eq!(a.more_interesting_than(b), interest(a) > interest(b));
        }
    }
}

#[test]
fn more_interesting_holds_for_the_greatest_counts() {
    let up = change(Some(0), usize::MAX);
    let nearly = change(Some(1), usize::MAX);
    let new = change(None, usize::MAX);
    assert!(up.more_interesting_than(&nearly));
    assert!(!nearly.more_interesting_than(&up));
    assert!(new.more_interesting_than(&up));
    assert!(!up.more_interesting_than(&new));
    assert!(!up.more_interesting_than(&change(Some(usize::MAX), 0)));
}

#[test]
fn sort_by_interest_puts_the_most_interesting_first() {
    let mut changes = vec![
        named("small", Some(100), 101),
        named("new", None, 3),
        named("big", Some(10), 90),
        named("drop", Some(50), 20),
        named("same", Some(5), 5),
    ];
    sort_by_interest(&mut changes);
    // 40, 17.6.., 0.35, 0.33.., 0
    assert_eq!(names(&changes), vec!["big", "drop", "new", "small", "same"]);
}

#[test]
fn sort_by_interest_keeps_the_order_of_ties() {
    let mut changes = vec![
        named("a", Some(10), 12),
        named("b", Some(12), 10),
        named("top", Some(1), 50),
        named("c", Some(10), 12),
        named("d", None, 0),
        named("e", None, 0),
    ];
    sort_by_interest(&mut changes);
    assert_eq!(names(&changes), vec!["top", "a", "b", "c", "d", "e"]);
    let mut none: Vec<RepoChange> = vec![];
    sort_by_interest(&mut none);
    assert!(none.is_empty());
    let mut one = vec![named("only", None, 1)];
    sort_by_interest(&mut one);
    assert_eq!(names(&one), vec!["only"]);
}

