use starry::{
    GithubClient, PageInfo, Paging, RepoId, RepoObs, StarCounts, Timestamp, UserId, PAGE_SIZE,
};

fn row(name: &str, stars: usize) -> RepoObs {
    RepoObs { repo_name: name.to_string(), stars }
}

fn last_page() -> Option<PageInfo> {
    Some(PageInfo { end_cursor: Some("end".to_string()), has_next_page: Some(false) })
}

fn page_before(cursor: &str) -> Option<PageInfo> {
    Some(PageInfo { end_cursor: Some(cursor.to_string()), has_next_page: Some(true) })
}

fn rows(rows: &[RepoObs]) -> Vec<(&str, usize)> {
    rows.iter().map(|r| (r.repo_name.as_str(), r.stars)).collect()
}

const BODY: &str = "{
            totalCount
            nodes { name, stargazers { totalCount } }
            pageInfo {
                startCursor
                endCursor
                hasPreviousPage
                hasNextPage
            }
        }";

#[test]
fn user_selector() {
    assert_eq!(UserId::new("alice").graphql_selector(), "user(login:\"alice\")");
    assert_eq!(UserId::new("").graphql_selector(), "user(login:\"\")");
}

#[test]
fn repo_selector_and_text() {
    let repo = RepoId::new(UserId::new("alice"), "repoX");
    assert_eq!(repo.owner.login, "alice");
    assert_eq!(repo.name, "repoX");
    assert_eq!(repo.graphql_selector(), "repository(owner:\"alice\", name:\"repoX\")");
    assert_eq!(repo.to_string(), "alice/repoX");
    let copy = repo.clone();
    assert_eq!(copy.to_string(), "alice/repoX");
}

#[test]
fn user_query_asks_for_the_name_and_the_repositories_that_are_no_forks() {
    assert_eq!(
        GithubClient::user_query(&UserId::new("alice")),
        "{ user(login:\"alice\") { name repositories(isFork: false){ totalCount }  } }"
    );
}

#[test]
fn star_counts_query_of_the_first_page() {
    assert_eq!(PAGE_SIZE, 100);
    let expected = format!(
        "{{ user(login:\"alice\") {{ repositories(first:100 isFork: false, ownerAffiliations: OWNER){} }} }}",
        BODY
    );
    assert_eq!(GithubClient::star_counts_query(&UserId::new("alice"), &None), expected);
}

#[test]
fn star_counts_query_of_a_later_page() {
    let expected = format!(
        "{{ user(login:\"bob\") {{ repositories(first:100 after:\"Y3Vyc29y\" isFork: false, ownerAffiliations: OWNER){} }} }}",
        BODY
    );
    assert_eq!(
        GithubClient::star_counts_query(&UserId::new("bob"), &Some("Y3Vyc29y".to_string())),
        expected
    );
}

#[test]
fn star_counts_of_one_page() {
    let now = Timestamp::from_secs(1_600_000_000).unwrap();
    let pages = StarCounts::new(UserId::new("alice"), now);
    assert_eq!(pages.query(), GithubClient::star_counts_query(&UserId::new("alice"), &None));
    match pages.page(vec![row("a", 1), row("b", 2)], last_page()) {
        Paging::Done(obs) => {
            assert_eq!(obs.user_id.login, "alice");
            assert_eq!(obs.time, now);
            assert_eq!(rows(&obs.counts), vec![("a", 1), ("b", 2)]);
        }
        other => panic!("unexpected {:?}", other),
    }
}

#[test]
fn star_counts_of_several_pages_come_in_order() {
    let now = Timestamp::from_secs(1_600_000_000).unwrap();
    let pages = StarCounts::new(UserId::new("alice"), now);
    let pages = match pages.page(vec![row("a", 1), row("b", 2)], page_before("c1")) {
        Paging::More(pages) => pages,
        other => panic!("unexpected {:?}", other),
    };
    assert_eq!(pages.cursor.as_deref(), Some("c1"));
    assert_eq!(
        pages.query(),
        GithubClient::star_counts_query(&UserId::new("alice"), &Some("c1".to_string()))
    );
    let pages = match pages.page(vec![], page_before("c2")) {
        Paging::More(pages) => pages,
        other => panic!("unexpected {:?}", other),
    };
    assert_eq!(rows(&pages.counts), vec![("a", 1), ("b", 2)]);
    match pages.page(vec![row("c", 3)], last_page()) {
        Paging::Done(obs) => {
            assert_eq!(rows(&obs.counts), vec![("a", 1), ("b", 2), ("c", 3)]);
            assert_eq!(obs.time, now);
        }
        other => panic!("unexpected {:?}", other),
    }
}

#[test]
fn star_counts_of_a_user_without_repository() {
    let now = Timestamp::from_secs(0).unwrap();
    match StarCounts::new(UserId::new("nobody"), now).page(vec![], None) {
        Paging::Done(obs) => assert!(obs.counts.is_empty()),
        other => panic!("unexpected {:?}", other),
    }
}

#[test]
fn paging_ends_where_no_next_page_is_told() {
    let now = Timestamp::from_secs(0).unwrap();
    let ends = [
        None,
        Some(PageInfo { end_cursor: None, has_next_page: None }),
        Some(PageInfo { end_cursor: Some("c".to_string()), has_next_page: None }),
        Some(PageInfo { end_cursor: Some("c".to_string()), has_next_page: Some(false) }),
        Some(PageInfo { end_cursor: None, has_next_page: Some(true) }),
    ];
    for end in ends {
        match StarCounts::new(UserId::new("alice"), now).page(vec![row("a", 1)], end) {
            Paging::Done(obs) => assert_eq!(rows(&obs.counts), vec![("a", 1)]),
            other => panic!("unexpected {:?}", other),
        }
    }
}

#[test]
fn paging_goes_on_after_the_end_cursor() {
    let now = Timestamp::from_secs(0).unwrap();
    match StarCounts::new(UserId::new("alice"), now).page(vec![], page_before("next")) {
        Paging::More(pages) => assert_eq!(pages.cursor.as_deref(), Some("next")),
        other => panic!("unexpected {:?}", other),
    }
}

