use starry::{Conf, Error, GithubClient, GITHUB_API_TOKEN_KEY};

#[test]
fn conf_starts_empty() {
    let conf = Conf::new();
    assert_eq!(conf.get("github-api-token"), None);
    assert!(conf.watched_users().is_empty());
}

#[test]
fn conf_set_then_get() {
    let mut conf = Conf::new();
    conf.set("a".to_string(), "1".to_string());
    conf.set("b".to_string(), "2".to_string());
    assert_eq!(conf.get("a"), Some("1"));
    assert_eq!(conf.get("b"), Some("2"));
    assert_eq!(conf.get("c"), None);
    assert_eq!(conf.get(""), None);
}

#[test]
fn conf_set_replaces_the_value() {
    let mut conf = Conf::new();
    conf.set("a".to_string(), "1".to_string());
    conf.set("b".to_string(), "2".to_string());
    conf.set("a".to_string(), "3".to_string());
    assert_eq!(conf.get("a"), Some("3"));
    assert_eq!(conf.get("b"), Some("2"));
}

#[test]
fn conf_follow_adds_a_user_once() {
    let mut conf = Conf::new();
    conf.follow("alice".to_string());
    conf.follow("bob".to_string());
    conf.follow("alice".to_string());
    assert_eq!(conf.watched_users(), &vec!["alice".to_string(), "bob".to_string()]);
    assert_eq!(conf.get("alice"), None);
}

#[test]
fn conf_unfollow_removes_the_user() {
    let mut conf = Conf::new();
    for login in ["alice", "bob", "carol"] {
        conf.follow(login.to_string());
    }
    conf.unfollow("bob");
    assert_eq!(conf.watched_users(), &vec!["alice".to_string(), "carol".to_string()]);
    conf.unfollow("nobody");
    assert_eq!(conf.watched_users(), &vec!["alice".to_string(), "carol".to_string()]);
    conf.unfollow("carol");
    conf.unfollow("alice");
    assert!(conf.watched_users().is_empty());
    conf.follow("bob".to_string());
    assert_eq!(conf.watched_users(), &vec!["bob".to_string()]);
}

#[test]
fn client_needs_a_token() {
    let mut conf = Conf::new();
    conf.set("other".to_string(), "x".to_string());
    match GithubClient::new(&conf) {
        Err(Error::NoToken) => {}
        other => panic!("unexpected {:?}", other),
    }
    assert_eq!(
        Error::NoToken.message(),
        "You must first set a github API token with `starry set github-api-token your-key`"
    );
}

#[test]
fn client_takes_the_token_of_the_configuration() {
    assert_eq!(GITHUB_API_TOKEN_KEY, "github-api-token");
    let mut conf = Conf::new();
    conf.set("github-api-token".to_string(), "SECRET-REDACTED".to_string());
    let client = GithubClient::new(&conf).unwrap();
    assert_eq!(client.token, "SECRET-REDACTED");
}

#[test]
fn errors_in_words() {
    assert_eq!(
        Error::NoData { login: "alice".to_string() }.message(),
        "no data for user alice"
    );
    assert_eq!(
        Error::TooManyStars { login: "bob".to_string() }.message(),
        "too many stars for user bob"
    );
}

#[test]
fn conf_properties_lists_each_name_once() {
    let mut conf = Conf::new();
    assert!(conf.properties().is_empty());
    conf.set("a".to_string(), "1".to_string());
    conf.set("b".to_string(), "2".to_string());
    conf.set("a".to_string(), "3".to_string());
    let mut pairs = conf.properties();
    pairs.sort();
    assert_eq!(
        pairs,
        vec![("a".to_string(), "3".to_string()), ("b".to_string(), "2".to_string())]
    );
}

