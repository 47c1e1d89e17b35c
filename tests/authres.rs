use authres::{
    authres_dkim_passed, authres_header_values, handle_authres, parse_authres_headers,
    parse_authservid_candidates_config, remove_comments, should_allow_keychange, single_candidate,
    update_authservid_candidates, AuthenticationResults, AuthresMap, CandidateChoice,
};

fn parse_bytes(bytes: &[u8], from_domain: &str) -> AuthresMap {
    let values = authres_header_values(bytes).unwrap();
    parse_authres_headers(&values, from_domain)
}

fn single(map: &AuthresMap, id: &str, dkim_passed: bool) {
    assert_eq!(map.len(), 1);
    assert_eq!(map.get(id), Some(AuthenticationResults { dkim_passed }));
}

fn map_of(ids: &[&str]) -> AuthresMap {
    let mut map = AuthresMap::new();
    for id in ids {
        assert!(map.insert(id, AuthenticationResults { dkim_passed: true }));
    }
    map
}

fn apply_update(config: &mut Option<String>, ids: &[&str]) {
    let map = map_of(ids);
    if let Some(new_config) = update_authservid_candidates(config, &map) {
        *config = Some(new_config);
    }
}

#[test]
fn test_remove_comments() {
    let header = "Authentication-Results: mx3.messagingengine.com;
    dkim=pass (1024-bit rsa key sha256) header.d=riseup.net;"
        .to_string();
    assert_eq!(
        remove_comments(&header),
        "Authentication-Results: mx3.messagingengine.com;
    dkim=pass   header.d=riseup.net;"
    );

    let header = ") aaa (".to_string();
    assert_eq!(remove_comments(&header), ") aaa (");

    let header = "((something weird) no comment".to_string();
    assert_eq!(remove_comments(&header), "  no comment");

    let header = "🎉(🎉(🎉))🎉(".to_string();
    assert_eq!(remove_comments(&header), "🎉 )🎉(");

    // Comments are allowed to include whitespace
    let header = "(com\n\t\r\nment) no comment (comment)".to_string();
    assert_eq!(remove_comments(&header), "  no comment  ");
}

#[test]
fn test_parse_authentication_results() {
    let bytes = b"Authentication-Results:  gmx.net; dkim=pass header.i=@slack.com
Authentication-Results:  gmx.net; dkim=pass header.i=@amazonses.com";
    let actual = parse_bytes(bytes, "slack.com");
    single(&actual, "gmx.net", true);

    let bytes = b"Authentication-Results:  gmx.net; dkim=pass header.i=@amazonses.com";
    let actual = parse_bytes(bytes, "slack.com");
    single(&actual, "gmx.net", false);

    // Weird Authentication-Results from Outlook without an authserv-id
    let bytes = b"Authentication-Results: spf=pass (sender IP is 40.92.73.85)
    smtp.mailfrom=hotmail.com; dkim=pass (signature was verified)
    header.d=hotmail.com;dmarc=pass action=none
    header.from=hotmail.com;compauth=pass reason=100";
    let actual = parse_bytes(bytes, "hotmail.com");
    single(&actual, "invalidAuthservId", true);

    // Usually, MUAs put their Authentication-Results to the top, so if in doubt,
    // headers from the top should be preferred
    let bytes = b"Authentication-Results:  gmx.net; dkim=none header.i=@slack.com
Authentication-Results:  gmx.net; dkim=pass header.i=@slack.com";
    let actual = parse_bytes(bytes, "slack.com");
    single(&actual, "gmx.net", false);

    // ';' in comments
    let bytes = b"Authentication-Results: mx1.riseup.net;
\tdkim=pass (1024-bit key; unprotected) header.d=yandex.ru header.i=@yandex.ru header.a=rsa-sha256 header.s=mail header.b=avNJu6sw;
\tdkim-atps=neutral";
    let actual = parse_bytes(bytes, "yandex.ru");
    single(&actual, "mx1.riseup.net", true);
}

#[test]
fn test_update_authservid_candidates() {
    let mut config: Option<String> = None;

    apply_update(&mut config, &["mx3.messagingengine.com"]);
    assert_eq!(config.clone().unwrap(), "mx3.messagingengine.com");

    apply_update(&mut config, &["mx4.messagingengine.com"]);
    assert_eq!(config.clone().unwrap(), "");

    // "mx4.messagingengine.com" seems to be the new authserv-id, it is accepted
    apply_update(&mut config, &["mx4.messagingengine.com"]);
    assert_eq!(config.clone().unwrap(), "mx4.messagingengine.com");

    // A message without any Authentication-Results headers shouldn't remove all
    // candidates since it could be a mailer-daemon message or so
    apply_update(&mut config, &[]);
    assert_eq!(config.clone().unwrap(), "mx4.messagingengine.com");

    apply_update(
        &mut config,
        &["mx4.messagingengine.com", "someotherdomain.com"],
    );
    assert_eq!(config.clone().unwrap(), "mx4.messagingengine.com");
}

#[test]
fn test_handle_authres() {
    // A malformed header must not make handling fail.
    let values = authres_header_values(b"Authentication-Results: dkim=").unwrap();
    assert_eq!(values, vec!["dkim=".to_string()]);
    let outcome = handle_authres(&values, "invalidfrom.com", &None, false);
    assert!(outcome.allow_keychange);
    assert!(!outcome.mark_dkim_working);
}

#[test]
fn remove_comments_is_idempotent_and_not_longer() {
    let fixtures = [
        ") aaa (",
        "((something weird) no comment",
        "🎉(🎉(🎉))🎉(",
        "(com\n\t\r\nment) no comment (comment)",
        "a (b) c (d",
        "()",
        "",
    ];
    for x in fixtures {
        let once = remove_comments(x);
        assert_eq!(remove_comments(&once), once);
        assert!(once.chars().count() <= x.chars().count());
    }
    assert_eq!(remove_comments("()"), " ");
    assert_eq!(remove_comments("a (b) c (d"), "a   c (d");
}

#[test]
fn no_headers_give_no_verdicts_and_no_update() {
    let values = authres_header_values(b"From: alice@example.org\nSubject: hi").unwrap();
    assert!(values.is_empty());
    let map = parse_authres_headers(&values, "example.org");
    assert!(map.is_empty());
    let config = Some("mx.example.org".to_string());
    assert_eq!(update_authservid_candidates(&config, &map), None);
    let outcome = handle_authres(&values, "example.org", &config, true);
    assert_eq!(outcome.new_candidates, None);
    assert!(outcome.allow_keychange);
}

#[test]
fn candidates_narrow_to_common_id() {
    let mut config: Option<String> = None;
    apply_update(&mut config, &["a"]);
    assert_eq!(config.clone().unwrap(), "a");
    apply_update(&mut config, &["b"]);
    assert_eq!(config.clone().unwrap(), "");
    apply_update(&mut config, &["b"]);
    assert_eq!(config.clone().unwrap(), "b");
    apply_update(&mut config, &[]);
    assert_eq!(config.clone().unwrap(), "b");
    apply_update(&mut config, &["b", "c"]);
    assert_eq!(config.clone().unwrap(), "b");
}

#[test]
fn update_reports_no_change_as_none() {
    let map = map_of(&["x.org", "y.org"]);
    assert_eq!(
        update_authservid_candidates(&Some("y.org x.org".to_string()), &map),
        None
    );
    let fresh = update_authservid_candidates(&None, &map).unwrap();
    let mut words = parse_authservid_candidates_config(&Some(fresh));
    words.sort();
    assert_eq!(words, vec!["x.org".to_string(), "y.org".to_string()]);
}

#[test]
fn outlook_header_without_authserv_id() {
    let values = vec![
        "spf=pass smtp.mailfrom=hotmail.com; dkim=pass header.d=hotmail.com".to_string(),
        "; dkim=pass header.d=hotmail.com".to_string(),
    ];
    let map = parse_authres_headers(&values, "hotmail.com");
    single(&map, "invalidAuthservId", true);
}

#[test]
fn first_stacked_header_decides() {
    let none_first = vec![
        "gmx.net; dkim=none header.i=@slack.com".to_string(),
        "gmx.net; dkim=pass header.i=@slack.com".to_string(),
    ];
    single(&parse_authres_headers(&none_first, "slack.com"), "gmx.net", false);
    let pass_first = vec![
        "gmx.net; dkim=pass header.i=@slack.com".to_string(),
        "gmx.net; dkim=none header.i=@slack.com".to_string(),
    ];
    single(&parse_authres_headers(&pass_first, "slack.com"), "gmx.net", true);
}

#[test]
fn semicolon_inside_comment_does_not_cut_dkim() {
    let values =
        vec!["mx1.riseup.net; dkim=pass (1024-bit key; unprotected) header.d=yandex.ru".to_string()];
    single(&parse_authres_headers(&values, "yandex.ru"), "mx1.riseup.net", true);
}

#[test]
fn groups_are_kept_apart() {
    let values = vec![
        "a.net; dkim=fail header.d=x.org".to_string(),
        "b.net; spf=pass".to_string(),
        "b.net; dkim=pass header.d=x.org".to_string(),
        "c.net; spf=pass".to_string(),
    ];
    let map = parse_authres_headers(&values, "x.org");
    assert_eq!(map.len(), 3);
    assert_eq!(map.get("a.net"), Some(AuthenticationResults { dkim_passed: false }));
    assert_eq!(map.get("b.net"), Some(AuthenticationResults { dkim_passed: true }));
    assert_eq!(map.get("c.net"), Some(AuthenticationResults { dkim_passed: false }));
    assert_eq!(map.get("d.net"), None);
}

#[test]
fn dkim_pass_needs_exact_domain() {
    let sub = vec!["x; dkim=pass header.d=mail.example.org".to_string()];
    assert!(!authres_dkim_passed(&sub, "example.org"));
    let exact = vec!["x; dkim=pass header.d=example.org".to_string()];
    assert!(authres_dkim_passed(&exact, "example.org"));
    let by_i = vec!["x; dkim=pass header.i=@example.org".to_string()];
    assert!(authres_dkim_passed(&by_i, "example.org"));
    let fail = vec!["x; dkim=fail header.d=example.org".to_string()];
    assert!(!authres_dkim_passed(&fail, "example.org"));
    let later_segment = vec!["x; dkim=pass; header.d=example.org".to_string()];
    assert!(!authres_dkim_passed(&later_segment, "example.org"));
    let none: Vec<String> = vec!["x; spf=pass".to_string()];
    assert!(!authres_dkim_passed(&none, "example.org"));
    assert!(!authres_dkim_passed(&[], "example.org"));
}

#[test]
fn candidate_config_words() {
    let words = parse_authservid_candidates_config(&Some("  a.org\tb.org  c.org ".to_string()));
    assert_eq!(
        words,
        vec!["a.org".to_string(), "b.org".to_string(), "c.org".to_string()]
    );
    assert!(parse_authservid_candidates_config(&None).is_empty());
    assert!(parse_authservid_candidates_config(&Some(String::new())).is_empty());
}

#[test]
fn single_candidate_choices() {
    assert!(matches!(single_candidate(&None), CandidateChoice::NoCandidate));
    assert!(matches!(
        single_candidate(&Some("".to_string())),
        CandidateChoice::NoCandidate
    ));
    match single_candidate(&Some("a.org a.org".to_string())) {
        CandidateChoice::Unique(id) => assert_eq!(id, "a.org"),
        other => panic!("unexpected {:?}", other),
    }
    assert!(matches!(
        single_candidate(&Some("a.org b.org".to_string())),
        CandidateChoice::Ambiguous
    ));
}

#[test]
fn known_domain_with_failing_dkim_is_denied() {
    let mut map = AuthresMap::new();
    assert!(map.insert("mx.example.org", AuthenticationResults { dkim_passed: false }));
    let config = Some("mx.example.org".to_string());

    let known = should_allow_keychange(&map, &config, true);
    assert!(!known.allow_keychange);
    assert!(!known.mark_dkim_working);

    let unknown = should_allow_keychange(&map, &config, false);
    assert!(unknown.allow_keychange);
    assert!(!unknown.mark_dkim_working);

    let mut passing = AuthresMap::new();
    assert!(passing.insert("mx.example.org", AuthenticationResults { dkim_passed: true }));
    let first_pass = should_allow_keychange(&passing, &config, false);
    assert!(first_pass.allow_keychange);
    assert!(first_pass.mark_dkim_working);

    // Two candidates: ambiguous, the optimistic default holds.
    let two = Some("mx.example.org other.org".to_string());
    assert!(should_allow_keychange(&map, &two, true).allow_keychange);
}

#[test]
fn handle_authres_decides_on_narrowed_candidates() {
    let values = vec!["mx.example.org; dkim=fail header.d=example.org".to_string()];
    let outcome = handle_authres(&values, "example.org", &Some("mx.example.org".to_string()), true);
    assert_eq!(outcome.new_candidates, None);
    assert!(!outcome.allow_keychange);

    let values = vec!["mx.example.org; dkim=pass header.d=example.org".to_string()];
    let outcome = handle_authres(&values, "example.org", &None, false);
    assert_eq!(outcome.new_candidates, Some("mx.example.org".to_string()));
    assert!(outcome.allow_keychange);
    assert!(outcome.mark_dkim_working);
}

#[test]
fn map_insert_refuses_malformed_ids() {
    let mut map = AuthresMap::new();
    assert!(!map.insert("", AuthenticationResults { dkim_passed: true }));
    assert!(!map.insert("a b", AuthenticationResults { dkim_passed: true }));
    assert!(map.is_empty());
    assert!(map.insert("a", AuthenticationResults { dkim_passed: true }));
    assert!(map.insert("a", AuthenticationResults { dkim_passed: false }));
    assert_eq!(map.len(), 1);
    assert_eq!(map.get("a"), Some(AuthenticationResults { dkim_passed: false }));
    assert_eq!(map.keys(), vec!["a".to_string()]);
}

#[test]
fn header_values_are_read_by_name_and_unfolded() {
    let bytes = b"Received: x\nauthentication-results: a.net;\n\tdkim=pass\nAuthentication-Results: b.net; spf=pass\nSubject: s";
    let values = authres_header_values(bytes).unwrap();
    assert_eq!(values.len(), 2);
    assert_eq!(values[0], "a.net; dkim=pass");
    assert_eq!(values[1], "b.net; spf=pass");
}

#[test]
fn narrowing_stores_each_id_once() {
    let map = map_of(&["a.org", "c.org"]);
    let stored = update_authservid_candidates(&Some("a.org a.org b.org".to_string()), &map);
    assert_eq!(stored, Some("a.org".to_string()));
    let stored = update_authservid_candidates(&Some("b.org".to_string()), &map);
    assert_eq!(stored, Some(String::new()));
}

#[test]
fn each_comment_shortens_by_at_least_one() {
    let cases = [("(a)(b)(c)", 3usize), ("x (y) z", 1), ("()", 1), ("no comment", 0), (") (", 0)];
    for (x, comments) in cases {
        let stripped = remove_comments(x);
        assert!(stripped.chars().count() + comments <= x.chars().count());
        assert_eq!(stripped.chars().count() == x.chars().count(), stripped == x);
    }
    assert_eq!(remove_comments("(a)(b)(c)"), "   ");
}
