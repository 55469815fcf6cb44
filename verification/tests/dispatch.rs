use std::cell::RefCell;

use argtea::{parse, parse_with, Dispatch, FlagDescriptor, FlagTable, FlagView, ParseSession};

fn tokens(args: &[&str]) -> Vec<String> {
    args.iter().map(|a| a.to_string()).collect()
}

fn plain(rule: usize, alias: &str) -> Dispatch {
    Dispatch::Flag { rule, alias: alias.to_string(), params: vec![] }
}

fn valued(rule: usize, alias: &str, values: &[Option<&str>]) -> Dispatch {
    Dispatch::Flag {
        rule,
        alias: alias.to_string(),
        params: values.iter().map(|v| v.map(|s| s.to_string())).collect(),
    }
}

fn table() -> FlagTable {
    FlagTable::new(vec![
        FlagDescriptor::flag(&["-a"], &[], &[]),
        FlagDescriptor::flag(&["-b", "--bee"], &[], &[]),
        FlagDescriptor::flag(&["-c"], &[], &[]),
        FlagDescriptor::flag(&["--warning", "-W"], &["warning"], &[]),
        FlagDescriptor::flag(&["--pair", "-p"], &["x", "y"], &[]),
        FlagDescriptor::flag(&["--"], &[], &[]),
        FlagDescriptor::catch_all(&["other"], &[]),
    ])
    .unwrap()
}

#[test]
fn flag_view_builds_short_flags() {
    let mut view = FlagView::new();
    assert_eq!(view.get('a'), "-a");
    assert_eq!(view.get('\u{E9}'), "-\u{E9}");
    assert_eq!(view.get('-'), "--");
}

#[test]
fn no_tokens_no_dispatch() {
    assert_eq!(parse(vec![], &table()), vec![]);
    let mut session = ParseSession::new(vec![]);
    assert_eq!(session.next(&table()), None);
    assert_eq!(session.next(&table()), None);
}

#[test]
fn cluster_dispatches_its_flags_in_order() {
    assert_eq!(
        parse(tokens(&["-abc"]), &table()),
        vec![plain(0, "-a"), plain(1, "-b"), plain(2, "-c")]
    );
    assert_eq!(
        parse(tokens(&["-cab", "-a"]), &table()),
        vec![plain(2, "-c"), plain(0, "-a"), plain(1, "-b"), plain(0, "-a")]
    );
}

#[test]
fn value_forms_agree() {
    let t = table();
    assert_eq!(parse(tokens(&["-W", "all"]), &t), vec![valued(3, "-W", &[Some("all")])]);
    assert_eq!(
        parse(tokens(&["--warning", "all"]), &t),
        vec![valued(3, "--warning", &[Some("all")])]
    );
    assert_eq!(
        parse(tokens(&["--warning=all"]), &t),
        vec![valued(3, "--warning", &[Some("all")])]
    );
    assert_eq!(parse(tokens(&["-Wall"]), &t), vec![valued(3, "-W", &[Some("all")])]);
}

#[test]
fn cluster_ends_in_a_flag_with_a_value() {
    let t = table();
    assert_eq!(
        parse(tokens(&["-aW", "all"]), &t),
        vec![plain(0, "-a"), valued(3, "-W", &[Some("all")])]
    );
    assert_eq!(
        parse(tokens(&["-abW", "all", "-c"]), &t),
        vec![plain(0, "-a"), plain(1, "-b"), valued(3, "-W", &[Some("all")]), plain(2, "-c")]
    );
    assert_eq!(
        parse(tokens(&["-aWall", "-c"]), &t),
        vec![plain(0, "-a"), valued(3, "-W", &[Some("all")]), plain(2, "-c")]
    );
}

#[test]
fn matched_alias_is_the_one_that_was_written() {
    let t = FlagTable::new(vec![
        FlagDescriptor::flag(&["--weird-flag", "-f"], &["p"], &[]),
        FlagDescriptor::catch_all(&["other"], &[]),
    ])
    .unwrap();
    assert_eq!(parse(tokens(&["-f", "abc"]), &t), vec![valued(0, "-f", &[Some("abc")])]);
    assert_eq!(
        parse(tokens(&["--weird-flag", "def"]), &t),
        vec![valued(0, "--weird-flag", &[Some("def")])]
    );
}

#[test]
fn values_come_from_what_is_at_hand_and_then_from_the_stream() {
    let t = table();
    assert_eq!(
        parse(tokens(&["--pair", "1", "2", "-a"]), &t),
        vec![valued(4, "--pair", &[Some("1"), Some("2")]), plain(0, "-a")]
    );
    assert_eq!(
        parse(tokens(&["--pair=1", "2", "-a"]), &t),
        vec![valued(4, "--pair", &[Some("1"), Some("2")]), plain(0, "-a")]
    );
    assert_eq!(
        parse(tokens(&["-p1", "2", "-a"]), &t),
        vec![valued(4, "-p", &[Some("1"), Some("2")]), plain(0, "-a")]
    );
    assert_eq!(
        parse(tokens(&["-ap", "-a", "--bee"]), &t),
        vec![plain(0, "-a"), valued(4, "-p", &[Some("-a"), Some("--bee")])]
    );
}

#[test]
fn a_missing_value_is_absent() {
    let t = table();
    assert_eq!(parse(tokens(&["-W"]), &t), vec![valued(3, "-W", &[None])]);
    assert_eq!(parse(tokens(&["--pair", "1"]), &t), vec![valued(4, "--pair", &[Some("1"), None])]);
    assert_eq!(parse(tokens(&["-aW"]), &t), vec![plain(0, "-a"), valued(3, "-W", &[None])]);
    assert_eq!(parse(tokens(&["--pair"]), &t), vec![valued(4, "--pair", &[None, None])]);
}

#[test]
fn an_empty_value_behind_equals_is_a_value() {
    let t = table();
    assert_eq!(
        parse(tokens(&["--warning=", "-a"]), &t),
        vec![valued(3, "--warning", &[Some("")]), plain(0, "-a")]
    );
    assert_eq!(
        parse(tokens(&["--warning=a=b"]), &t),
        vec![valued(3, "--warning", &[Some("a=b")])]
    );
}

#[test]
fn a_value_that_no_parameter_takes_is_dropped() {
    let t = table();
    assert_eq!(parse(tokens(&["--bee=x", "-a"]), &t), vec![plain(1, "--bee"), plain(0, "-a")]);
}

#[test]
fn unknown_tokens_go_to_the_catch_all() {
    let t = table();
    assert_eq!(
        parse(tokens(&["file", "-a", "", "-"]), &t),
        vec![
            Dispatch::CatchAll { rule: 6, token: "file".to_string() },
            plain(0, "-a"),
            Dispatch::CatchAll { rule: 6, token: "".to_string() },
            Dispatch::CatchAll { rule: 6, token: "-".to_string() },
        ]
    );
    assert_eq!(
        parse(tokens(&["-axb"]), &t),
        vec![
            plain(0, "-a"),
            Dispatch::CatchAll { rule: 6, token: "-x".to_string() },
            plain(1, "-b"),
        ]
    );
    assert_eq!(
        parse(tokens(&["--unknown=1", "-a"]), &t),
        vec![Dispatch::CatchAll { rule: 6, token: "--unknown=1".to_string() }, plain(0, "-a")]
    );
}

#[test]
fn only_long_flags_are_parted_at_equals() {
    let t = FlagTable::new(vec![
        FlagDescriptor::flag(&["-W"], &["w"], &[]),
        FlagDescriptor::flag(&["W"], &["w"], &[]),
        FlagDescriptor::catch_all(&["other"], &[]),
    ])
    .unwrap();
    assert_eq!(
        parse(tokens(&["W=1"]), &t),
        vec![Dispatch::CatchAll { rule: 2, token: "W=1".to_string() }]
    );
    assert_eq!(parse(tokens(&["-W=1"]), &t), vec![valued(0, "-W", &[Some("=1")])]);
}

#[test]
fn clusters_are_counted_in_characters() {
    let t = FlagTable::new(vec![
        FlagDescriptor::flag(&["-\u{E9}"], &[], &[]),
        FlagDescriptor::flag(&["-\u{4E16}"], &["v"], &[]),
        FlagDescriptor::catch_all(&["other"], &[]),
    ])
    .unwrap();
    assert_eq!(parse(tokens(&["-\u{E9}"]), &t), vec![plain(0, "-\u{E9}")]);
    assert_eq!(
        parse(tokens(&["-\u{E9}\u{4E16}\u{754C}"]), &t),
        vec![plain(0, "-\u{E9}"), valued(1, "-\u{4E16}", &[Some("\u{754C}")])]
    );
}

#[test]
fn matching_is_exact_and_the_first_rule_wins() {
    let t = FlagTable::new(vec![
        FlagDescriptor::flag(&["--flag"], &[], &[]),
        FlagDescriptor::flag(&["--flag", "--Flag"], &["v"], &[]),
        FlagDescriptor::catch_all(&["other"], &[]),
    ])
    .unwrap();
    assert_eq!(
        parse(tokens(&["--flag", "--Flag", "x", "--FLAG", "--fla", "--flags"]), &t),
        vec![
            plain(0, "--flag"),
            valued(1, "--Flag", &[Some("x")]),
            Dispatch::CatchAll { rule: 2, token: "--FLAG".to_string() },
            Dispatch::CatchAll { rule: 2, token: "--fla".to_string() },
            Dispatch::CatchAll { rule: 2, token: "--flags".to_string() },
        ]
    );
}

#[test]
fn without_a_catch_all_unknown_tokens_are_reported() {
    let t = FlagTable::new(vec![FlagDescriptor::flag(&["-a"], &[], &[])]).unwrap();
    assert_eq!(
        parse(tokens(&["-a", "what", "--x=1", "-a"]), &t),
        vec![
            plain(0, "-a"),
            Dispatch::Unmatched { token: "what".to_string() },
            Dispatch::Unmatched { token: "--x=1".to_string() },
            plain(0, "-a"),
        ]
    );
}

#[test]
fn fake_rules_are_never_matched_and_hidden_rules_are() {
    let t = FlagTable::new(vec![
        FlagDescriptor::flag(&["-Wall"], &[], &["fake"]).fake(),
        FlagDescriptor::flag(&["--only-docs"], &[], &["fake"]).fake(),
        FlagDescriptor::flag(&["--secret"], &[], &["hidden"]).hidden(),
        FlagDescriptor::flag(&["-W"], &["w"], &[]),
        FlagDescriptor::catch_all(&["other"], &[]).hidden(),
    ])
    .unwrap();
    assert_eq!(
        parse(tokens(&["-Wall", "--only-docs", "--secret"]), &t),
        vec![
            valued(3, "-W", &[Some("all")]),
            Dispatch::CatchAll { rule: 4, token: "--only-docs".to_string() },
            plain(2, "--secret"),
        ]
    );
}

#[test]
fn a_fake_catch_all_takes_nothing() {
    let t = FlagTable::new(vec![
        FlagDescriptor::flag(&["-a"], &[], &[]),
        FlagDescriptor::catch_all(&["other"], &[]).fake(),
    ])
    .unwrap();
    assert_eq!(
        parse(tokens(&["x"]), &t),
        vec![Dispatch::Unmatched { token: "x".to_string() }]
    );
}

#[test]
fn session_hands_out_one_dispatch_at_a_time() {
    let t = table();
    let mut session = ParseSession::new(tokens(&["-ab", "--warning=x", "rest"]));
    assert_eq!(session.next(&t), Some(plain(0, "-a")));
    assert_eq!(session.next(&t), Some(plain(1, "-b")));
    assert_eq!(session.next(&t), Some(valued(3, "--warning", &[Some("x")])));
    assert_eq!(session.next(&t), Some(Dispatch::CatchAll { rule: 6, token: "rest".to_string() }));
    assert_eq!(session.next(&t), None);
    assert_eq!(session.into_remaining(), Vec::<String>::new());
}

#[test]
fn stopping_leaves_the_later_tokens_in_the_stream() {
    let t = table();
    let mut session = ParseSession::new(tokens(&["-a", "--", "-b", "file", "--warning=x"]));
    let mut seen = Vec::new();
    while let Some(dispatch) = session.next(&t) {
        let stop = dispatch == plain(5, "--");
        seen.push(dispatch);
        if stop {
            session.stop();
        }
    }
    assert_eq!(seen, vec![plain(0, "-a"), plain(5, "--")]);
    assert_eq!(session.next(&t), None);
    assert_eq!(session.into_remaining(), tokens(&["-b", "file", "--warning=x"]));
}

#[test]
fn stopping_takes_the_values_of_the_last_flag_only() {
    let t = table();
    let mut session = ParseSession::new(tokens(&["--pair", "1", "2", "3", "4"]));
    assert_eq!(session.next(&t), Some(valued(4, "--pair", &[Some("1"), Some("2")])));
    session.stop();
    assert_eq!(session.next(&t), None);
    assert_eq!(session.into_remaining(), tokens(&["3", "4"]));
}

#[test]
fn a_fresh_session_keeps_all_its_tokens() {
    let session = ParseSession::new(tokens(&["-a", "-b"]));
    assert_eq!(session.into_remaining(), tokens(&["-a", "-b"]));
    let mut stopped = ParseSession::new(tokens(&["-a", "-b"]));
    stopped.stop();
    assert_eq!(stopped.next(&table()), None);
    assert_eq!(stopped.into_remaining(), tokens(&["-a", "-b"]));
}

#[test]
fn parse_with_runs_the_handler_until_it_asks_to_stop() {
    let t = table();
    let log = RefCell::new(Vec::new());
    let mut session = ParseSession::new(tokens(&["-ab", "--", "-c", "file"]));
    let events = parse_with(&mut session, &t, |d: &Dispatch| {
        match d {
            Dispatch::Flag { alias, .. } => log.borrow_mut().push(alias.clone()),
            _ => panic!("unexpected dispatch {d:?}"),
        }
        matches!(d, Dispatch::Flag { rule: 5, .. })
    });
    assert_eq!(events, vec![plain(0, "-a"), plain(1, "-b"), plain(5, "--")]);
    assert_eq!(log.into_inner(), vec!["-a", "-b", "--"]);
    assert_eq!(session.next(&t), None);
    assert_eq!(session.into_remaining(), tokens(&["-c", "file"]));
}

#[test]
fn parse_with_runs_to_the_end_when_nothing_stops_it() {
    let t = table();
    let mut session = ParseSession::new(tokens(&["-a", "x", "-W"]));
    let events = parse_with(&mut session, &t, |_: &Dispatch| false);
    assert_eq!(
        events,
        vec![
            plain(0, "-a"),
            Dispatch::CatchAll { rule: 6, token: "x".to_string() },
            valued(3, "-W", &[None]),
        ]
    );
    assert_eq!(session.into_remaining(), Vec::<String>::new());
}
