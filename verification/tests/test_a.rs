use argtea::{simple_format, Dispatch, FlagDescriptor, FlagTable, ParseSession};

struct TestA {
    warning: Option<String>,
}

fn rules() -> Vec<FlagDescriptor> {
    vec![
        FlagDescriptor::flag(
            &["-a"],
            &[],
            &[
                " This will not be visible in the documentation",
                " Neither will this",
            ],
        )
        .hidden(),
        FlagDescriptor::flag(
            &["--fake-and-hidden"],
            &[],
            &[" This flag does not do anything and does not show up in documentation"],
        )
        .fake()
        .hidden(),
        FlagDescriptor::flag(&["-Wall"], &[], &[" Enables all warnings"]).fake(),
        FlagDescriptor::flag(
            &["--warning", "-W"],
            &["warning"],
            &[" Enables a specific warning", "", " b"],
        ),
        FlagDescriptor::flag(&["--weird-flag", "-f"], &["p"], &[]),
        FlagDescriptor::catch_all(&["other"], &[]),
    ]
}

impl TestA {
    fn docs() -> String {
        let table = FlagTable::new(rules()).unwrap();
        simple_format(&["argtea test A"], &table.docs(), &["end"])
    }

    fn parse(params: Vec<String>) -> TestA {
        let table = FlagTable::new(rules()).unwrap();
        let mut warning_ = None;
        let mut session = ParseSession::new(params);
        while let Some(dispatch) = session.next(&table) {
            match dispatch {
                Dispatch::Flag { rule: 0, .. } => {
                    println!("a");
                }
                Dispatch::Flag { rule: 3, mut params, .. } => {
                    let Some(warning) = params.remove(0) else {
                        panic!("expected parameter for warning flag")
                    };
                    warning_ = Some(warning);
                }
                Dispatch::Flag { rule: 4, alias: flag_name, mut params } => {
                    let Some(p) = params.remove(0) else {
                        panic!("expected parameter for `{flag_name}`")
                    };
                    warning_ = Some(format!("{flag_name} {p}"));
                }
                Dispatch::CatchAll { token: other, .. } => {
                    panic!("unexpected parameter `{other}`");
                }
                other => {
                    panic!("unexpected dispatch {other:?}");
                }
            }
        }
        TestA { warning: warning_ }
    }
}

#[test]
fn test_a() {
    let tests: &[(&[&str], &str)] = &[
        (&["-W", "all"], "all"),
        (&["-aW", "all"], "all"),
        (&["--warning", "all"], "all"),
        (&["--warning=all"], "all"),
        (&["-Wall"], "all"),
        (&["-aWall"], "all"),
        (&["-f", "abc"], "-f abc"),
        (&["-fabc"], "-f abc"),
        (&["--weird-flag", "def"], "--weird-flag def"),
    ];

    for (test, expected) in tests {
        let args: Vec<String> = test.iter().map(|a| a.to_string()).collect();

        let result = TestA::parse(args);
        assert_eq!(result.warning.as_deref(), Some(*expected));
    }
}

#[test]
fn test_a_docs() {
    const EXPECTED: &str = "argtea test A\n  -Wall \n    Enables all warnings\n\n\n  --warning, -W <warning> \n    Enables a specific warning\n   \n    b\n\n\n  --weird-flag, -f <p> \n\n\n  <other> \n\n\nend\n";

    assert_eq!(TestA::docs(), EXPECTED);
}
