use argtea::help::{DOC_INDENT, LINE_WIDTH};
use argtea::{
    add_doccoments, add_word, simple_format, wrapping_format, Flag, FlagDescriptor, FlagTable,
};

fn wrapped(docs: &[&str], indent: usize) -> String {
    let mut buf = String::new();
    add_doccoments(&mut buf, docs, indent);
    buf
}

#[test]
fn doc_lines_are_trimmed_and_indented() {
    assert_eq!(wrapped(&["  hello   world  "], 4), "    hello world\n\n");
    assert_eq!(wrapped(&["hello"], 0), "hello\n\n");
}

#[test]
fn no_doc_lines_add_nothing() {
    let mut buf = String::from("kept");
    add_doccoments(&mut buf, &[], 4);
    assert_eq!(buf, "kept");
}

#[test]
fn doc_block_is_appended_to_what_the_buffer_holds() {
    let mut buf = String::from("Options:\n");
    add_doccoments(&mut buf, &["one"], 2);
    assert_eq!(buf, "Options:\n  one\n\n");
}

#[test]
fn consecutive_doc_lines_flow_together() {
    assert_eq!(wrapped(&["foo", "bar baz"], 4), "    foo bar baz\n\n");
}

#[test]
fn empty_doc_line_breaks_the_paragraph() {
    assert_eq!(wrapped(&["a", "", "b"], 2), "  a\n  b\n\n");
    assert_eq!(wrapped(&["a", "   ", "", "b"], 2), "  a\n\n  b\n\n");
    assert_eq!(wrapped(&[""], 4), "\n\n\n");
}

#[test]
fn words_are_split_on_ascii_whitespace() {
    assert_eq!(wrapped(&["a\tb\nc\x0Cd\re"], 1), " a b c d e\n\n");
}

#[test]
fn trimming_knows_unicode_whitespace() {
    assert_eq!(wrapped(&["\u{A0}foo\u{2003}"], 2), "  foo\n\n");
    assert_eq!(wrapped(&["a", "\u{A0}\u{3000}", "b"], 2), "  a\n  b\n\n");
    assert_eq!(wrapped(&["a\u{A0}b c"], 2), "  a\u{A0}b c\n\n");
}

#[test]
fn a_word_joins_the_line_while_it_stays_under_eighty_columns() {
    let long = "x".repeat(73);
    let line = format!("{long} y z");
    let expected = format!("    {long} y\n    z\n\n");
    assert_eq!(wrapped(&[line.as_str()], 4), expected);
    assert_eq!(expected.lines().next().unwrap().chars().count(), 79);
}

#[test]
fn a_word_that_would_reach_eighty_columns_starts_a_line() {
    let long = "x".repeat(74);
    let line = format!("{long} y");
    assert_eq!(wrapped(&[line.as_str()], 4), format!("    {long}\n    y\n\n"));
}

#[test]
fn the_indent_counts_as_columns() {
    let long = "x".repeat(73);
    let line = format!("{long} y");
    assert_eq!(wrapped(&[line.as_str()], 4), format!("    {long} y\n\n"));
    assert_eq!(wrapped(&[line.as_str()], 5), format!("     {long}\n     y\n\n"));
    assert_eq!(wrapped(&[line.as_str()], 0), format!("{long} y\n\n"));
}

#[test]
fn a_word_longer_than_the_line_stands_alone() {
    let long = "x".repeat(100);
    let line = format!("a {long} b");
    assert_eq!(
        wrapped(&[line.as_str()], 4),
        format!("    a\n    {long}\n    b\n\n")
    );
}

#[test]
fn columns_are_counted_in_characters() {
    let wide = "\u{E9}".repeat(40);
    let line = format!("{wide} y");
    assert_eq!(wrapped(&[line.as_str()], 4), format!("    {wide} y\n\n"));
}

#[test]
fn wrapping_goes_on_over_doc_lines() {
    let first = "x".repeat(70);
    assert_eq!(
        wrapped(&[first.as_str(), "yyyy zzzz"], 4),
        format!("    {first} yyyy\n    zzzz\n\n")
    );
}

#[test]
fn wrapped_help_of_flags() {
    let docs = [
        Flag {
            doc: &[" Enables a specific warning", "", " b"],
            flags: &["--warning", "-W"],
            params: &["warning"],
        },
        Flag { doc: &[" never shown"], flags: &[], params: &["other"] },
        Flag { doc: &[], flags: &[" -f "], params: &["p", "q"] },
    ];
    let mut buf = String::from("Options:\n");
    wrapping_format(&mut buf, &docs);
    assert_eq!(
        buf,
        "Options:\n   --warning -W <warning>\n    Enables a specific warning\n    b\n\n   -f <p> <q>\n\n\n"
    );
}

#[test]
fn wrapped_help_of_no_flags_is_empty() {
    let mut buf = String::new();
    wrapping_format(&mut buf, &[]);
    assert_eq!(buf, "");
}

#[test]
fn simple_help_of_flags() {
    let docs = [
        Flag { doc: &["one", " two"], flags: &["--long", "-l", "-L"], params: &["x", "y"] },
        Flag { doc: &[], flags: &[], params: &[] },
    ];
    assert_eq!(
        simple_format(&["head", ""], &docs, &["tail"]),
        "head\n\n  --long, -l, -L <x> <y> \n   one\n    two\n\n\n  \n\n\ntail\n"
    );
}

#[test]
fn simple_help_keeps_doc_lines_as_they_are() {
    let docs = [Flag { doc: &["  spaced   out  "], flags: &[" -x "], params: &[] }];
    assert_eq!(simple_format(&[], &docs, &[]), "   -x  \n     spaced   out  \n\n\n");
}

#[test]
fn simple_help_without_anything_is_empty() {
    assert_eq!(simple_format(&[], &[], &[]), "");
}

#[test]
fn simple_rendering_is_repeatable() {
    let table = FlagTable::new(vec![
        FlagDescriptor::flag(&["--help", "-h"], &[], &[" Displays this help message."]),
        FlagDescriptor::flag(&["--output", "-o"], &["output_path"], &[" Sets the output file path."]),
        FlagDescriptor::catch_all(&["file"], &[" Adds a file as an input."]),
    ])
    .unwrap();
    let first = simple_format(&["Options:"], &table.docs(), &[]);
    let second = simple_format(&["Options:"], &table.docs(), &[]);
    assert_eq!(first.as_bytes(), second.as_bytes());
    assert_eq!(
        first,
        "Options:\n  --help, -h \n    Displays this help message.\n\n\n  --output, -o <output_path> \n    Sets the output file path.\n\n\n  <file> \n    Adds a file as an input.\n\n\n"
    );
}

#[test]
fn hidden_rules_are_left_out_and_fake_rules_are_shown() {
    let table = FlagTable::new(vec![
        FlagDescriptor::flag(&["--secret"], &[], &["hidden text"]).hidden(),
        FlagDescriptor::flag(&["-Wall"], &[], &["fake text"]).fake(),
        FlagDescriptor::flag(&["--both"], &[], &["fake and hidden"]).fake().hidden(),
    ])
    .unwrap();
    let docs = table.docs();
    assert_eq!(docs.len(), 1);
    assert_eq!(docs[0].flags, &["-Wall"]);

    let simple = simple_format(&[], &docs, &[]);
    assert_eq!(simple, "  -Wall \n   fake text\n\n\n");

    let mut wrapped = String::new();
    wrapping_format(&mut wrapped, &docs);
    assert_eq!(wrapped, "   -Wall\n    fake text\n\n");
}

fn word_added(start: &str, col: usize, word: &str, indent: usize) -> (String, usize) {
    let line: Vec<char> = format!("<{word}>").chars().collect();
    let mut buf = String::from(start);
    let next = add_word(&mut buf, col, &line, 1, line.len() - 1, indent);
    (buf, next)
}

#[test]
fn layout_constants() {
    assert_eq!(LINE_WIDTH, 80);
    assert_eq!(DOC_INDENT, 4);
}

#[test]
fn a_word_at_the_start_of_a_line_is_indented() {
    assert_eq!(word_added("", 0, "abc", 2), ("  abc".to_string(), 5));
    assert_eq!(word_added("x\n", 0, "abc", 0), ("x\nabc".to_string(), 3));
    assert_eq!(word_added("", 0, "\u{E9}\u{E9}", 1), (" \u{E9}\u{E9}".to_string(), 3));
}

#[test]
fn a_word_behind_another_follows_a_space() {
    assert_eq!(word_added("  abc", 5, "de", 2), ("  abc de".to_string(), 8));
    assert_eq!(word_added("", 77, "x", 4), (" x".to_string(), 79));
    assert_eq!(word_added("", 1, &"x".repeat(77), 4), (format!(" {}", "x".repeat(77)), 79));
}

#[test]
fn a_word_that_does_not_fit_opens_a_line() {
    assert_eq!(word_added("ab", 78, "x", 4), ("ab\n    x".to_string(), 5));
    assert_eq!(word_added("ab", 2, &"x".repeat(77), 0), (format!("ab\n{}", "x".repeat(77)), 77));
    assert_eq!(word_added("ab", 80, "x", 1), ("ab\n x".to_string(), 2));
    assert_eq!(word_added("ab", usize::MAX, "x", 1), ("ab\n x".to_string(), 2));
}

#[test]
fn columns_are_counted_up_to_the_line_width() {
    assert_eq!(word_added("", 0, &"x".repeat(76), 4), (format!("    {}", "x".repeat(76)), 80));
    assert_eq!(word_added("", 0, &"x".repeat(200), 4), (format!("    {}", "x".repeat(200)), 80));
    assert_eq!(word_added("", 0, "x", 500), (format!("{}x", " ".repeat(500)), 80));
    assert_eq!(word_added("", 0, &"x".repeat(75), 4), (format!("    {}", "x".repeat(75)), 79));
}

#[test]
fn every_flag_with_an_alias_is_parted_from_the_next() {
    let docs = [
        Flag { doc: &[], flags: &["-a"], params: &[] },
        Flag { doc: &["about b"], flags: &["-b"], params: &[] },
        Flag { doc: &[], flags: &[], params: &["rest"] },
        Flag { doc: &[], flags: &["-c"], params: &["x"] },
    ];
    let mut buf = String::new();
    wrapping_format(&mut buf, &docs);
    assert_eq!(buf, "   -a\n\n\n   -b\n    about b\n\n   -c <x>\n\n\n");
}

#[test]
fn every_word_of_the_wrapped_help_stems_from_a_visible_flag() {
    let table = FlagTable::new(vec![
        FlagDescriptor::flag(&["--secret", "-s"], &["key"], &[" hidden words"]).hidden(),
        FlagDescriptor::flag(&[" --warning ", "-W"], &["level"], &["  Enables a   warning", "", "b "]),
        FlagDescriptor::flag(&["-Wall"], &[], &[]).fake(),
        FlagDescriptor::catch_all(&["file"], &["never shown"]),
    ])
    .unwrap();
    let mut text = String::new();
    wrapping_format(&mut text, &table.docs());
    let words: Vec<&str> = text.split_ascii_whitespace().collect();
    assert_eq!(
        words,
        vec!["--warning", "-W", "<level>", "Enables", "a", "warning", "b", "-Wall"]
    );
    for hidden in ["--secret", "-s", "<key>", "key", "hidden", "words", "never", "shown", "<file>"] {
        assert!(!text.contains(hidden), "{hidden}");
    }
}
