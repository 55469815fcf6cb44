use argtea::table::check_rules;
use argtea::{ConfigError, FlagDescriptor, FlagTable};

fn flag(alias: &'static [&'static str]) -> FlagDescriptor {
    FlagDescriptor::flag(alias, &[], &[])
}

fn catch_all() -> FlagDescriptor {
    FlagDescriptor::catch_all(&["other"], &[])
}

#[test]
fn builders_set_the_attributes() {
    let d = FlagDescriptor::flag(&["-a", "--all"], &["x"], &["doc"]);
    assert_eq!(d.aliases, &["-a", "--all"]);
    assert_eq!(d.params, &["x"]);
    assert_eq!(d.doc_lines, &["doc"]);
    assert!(!d.is_catch_all && d.visible && !d.is_fake);

    let c = FlagDescriptor::catch_all(&["file"], &["doc"]);
    assert!(c.aliases.is_empty());
    assert_eq!(c.params, &["file"]);
    assert!(c.is_catch_all && c.visible && !c.is_fake);

    let h = d.hidden();
    assert!(!h.visible && !h.is_fake);
    let f = d.fake();
    assert!(f.visible && f.is_fake);
    let both = d.fake().hidden();
    assert!(!both.visible && both.is_fake);

    let entry = d.docs();
    assert_eq!(entry.flags, &["-a", "--all"]);
    assert_eq!(entry.params, &["x"]);
    assert_eq!(entry.doc, &["doc"]);
}

#[test]
fn well_formed_tables_are_accepted() {
    assert!(FlagTable::new(vec![]).is_ok());
    assert!(FlagTable::new(vec![flag(&["-a"])]).is_ok());
    assert!(FlagTable::new(vec![catch_all()]).is_ok());
    let table = FlagTable::new(vec![flag(&["-a"]), flag(&["-b"]), catch_all()]).unwrap();
    assert_eq!(table.rules().len(), 3);
    assert_eq!(table.rules()[1].aliases, &["-b"]);
    assert_eq!(check_rules(table.rules()), None);
}

#[test]
fn fake_rules_may_follow_the_catch_all() {
    let rules = vec![flag(&["-a"]), catch_all(), flag(&["-Wall"]).fake(), catch_all().fake()];
    assert!(FlagTable::new(rules).is_ok());
}

#[test]
fn a_flag_without_alias_is_malformed() {
    let rules = vec![flag(&["-a"]), flag(&[])];
    assert_eq!(FlagTable::new(rules).err(), Some(ConfigError::MalformedRule { index: 1 }));
}

#[test]
fn a_catch_all_with_an_alias_or_without_one_name_is_malformed() {
    let mut with_alias = catch_all();
    with_alias.aliases = &["-x"];
    assert_eq!(
        FlagTable::new(vec![with_alias]).err(),
        Some(ConfigError::MalformedRule { index: 0 })
    );

    let nameless = FlagDescriptor::catch_all(&[], &[]);
    assert_eq!(
        FlagTable::new(vec![flag(&["-a"]), flag(&["-b"]), nameless]).err(),
        Some(ConfigError::MalformedRule { index: 2 })
    );

    let two_names = FlagDescriptor::catch_all(&["a", "b"], &[]);
    assert_eq!(
        FlagTable::new(vec![two_names]).err(),
        Some(ConfigError::MalformedRule { index: 0 })
    );
}

#[test]
fn a_malformed_fake_rule_is_refused_too() {
    let rules = vec![flag(&[]).fake().hidden()];
    assert_eq!(FlagTable::new(rules).err(), Some(ConfigError::MalformedRule { index: 0 }));
}

#[test]
fn two_catch_alls_are_refused() {
    let rules = vec![flag(&["-a"]), catch_all(), flag(&["-f"]).fake(), catch_all()];
    assert_eq!(
        FlagTable::new(rules).err(),
        Some(ConfigError::MultipleCatchAll { first: 1, second: 3 })
    );
}

#[test]
fn a_catch_all_before_a_flag_is_refused() {
    let rules = vec![catch_all(), flag(&["-a"]), catch_all()];
    assert_eq!(
        FlagTable::new(rules).err(),
        Some(ConfigError::CatchAllNotLast { catch_all: 0, later: 1 })
    );
}

#[test]
fn the_first_malformed_rule_is_named_before_other_defects() {
    let rules = vec![catch_all(), catch_all(), flag(&[]), flag(&[])];
    assert_eq!(FlagTable::new(rules).err(), Some(ConfigError::MalformedRule { index: 2 }));
}

#[test]
fn docs_lists_the_visible_rules_in_order() {
    let table = FlagTable::new(vec![
        FlagDescriptor::flag(&["-a"], &[], &["first"]),
        FlagDescriptor::flag(&["-b"], &["x"], &["second"]).hidden(),
        FlagDescriptor::flag(&["-c"], &["y"], &["third"]).fake(),
        FlagDescriptor::catch_all(&["rest"], &["fourth"]),
    ])
    .unwrap();
    let docs = table.docs();
    assert_eq!(docs.len(), 3);
    assert_eq!(docs[0].flags, &["-a"]);
    assert_eq!(docs[1].flags, &["-c"]);
    assert_eq!(docs[1].params, &["y"]);
    assert_eq!(docs[1].doc, &["third"]);
    assert!(docs[2].flags.is_empty());
    assert_eq!(docs[2].params, &["rest"]);
}
