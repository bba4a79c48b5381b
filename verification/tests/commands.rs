use boss::command::{parse_command, CmdSpec};
use boss::config::{load_config, Config, ConfigError};

fn words(list: &[&str]) -> Vec<String> {
    list.iter().map(|w| w.to_string()).collect()
}

fn raw(list: &[(&str, &str)]) -> Vec<(String, String)> {
    list.iter().map(|(n, c)| (n.to_string(), c.to_string())).collect()
}

#[test]
fn plain_words_are_split_at_spaces() {
    let spec = parse_command("sleep 5").unwrap();
    assert_eq!(spec.argv, words(&["sleep", "5"]));
}

#[test]
fn quoted_words_stay_together() {
    let spec = parse_command("echo \"two words\" 'and three more' last\\ one").unwrap();
    assert_eq!(spec.argv, words(&["echo", "two words", "and three more", "last one"]));
}

#[test]
fn open_quote_is_rejected() {
    assert!(parse_command("sh -c \"echo hi").is_none());
    assert!(parse_command("sh -c 'echo hi").is_none());
}

#[test]
fn empty_line_has_no_words() {
    let spec = parse_command("").unwrap();
    assert!(spec.argv.is_empty());
    assert!(!spec.is_launchable());
    assert!(parse_command("true").unwrap().is_launchable());
}

#[test]
fn clone_keeps_the_words() {
    let spec = CmdSpec { argv: words(&["myserver", "--port", "8000"]) };
    let copy = spec.clone();
    assert_eq!(copy.argv, spec.argv);
    assert!(spec.same_argv(&copy));
}

#[test]
fn same_argv_tells_words_apart() {
    let a = CmdSpec { argv: words(&["myserver", "--port", "8000"]) };
    let b = CmdSpec { argv: words(&["myserver", "--port", "9000"]) };
    let c = CmdSpec { argv: words(&["myserver", "--port"]) };
    assert!(!a.same_argv(&b));
    assert!(!a.same_argv(&c));
    assert!(!c.same_argv(&a));
    assert!(a.same_argv(&a));
}

#[test]
fn config_keeps_lines_in_order() {
    let cfg = load_config(&raw(&[("web", "sleep 2"), ("db", "postgres -D '/var/lib/pg data'")]))
        .unwrap();
    assert_eq!(cfg.len(), 2);
    assert_eq!(cfg.target(0).name, "web");
    assert_eq!(cfg.target(0).spec.argv, words(&["sleep", "2"]));
    assert_eq!(cfg.target(1).name, "db");
    assert_eq!(cfg.target(1).spec.argv, words(&["postgres", "-D", "/var/lib/pg data"]));
    assert_eq!(cfg.position(&"db".to_string()), Some(1));
    assert_eq!(cfg.position(&"cache".to_string()), None);
}

#[test]
fn config_with_open_quote_names_the_line() {
    let r = load_config(&raw(&[("web", "sleep 2"), ("bad", "echo 'oops"), ("web", "sleep 3")]));
    match r {
        Err(ConfigError::MismatchedQuotes { name }) => assert_eq!(name, "bad"),
        other => panic!("unexpected: {:?}", other),
    }
}

#[test]
fn config_with_repeated_name_names_it() {
    let r = load_config(&raw(&[("web", "sleep 2"), ("db", "sleep 3"), ("web", "sleep 4")]));
    match r {
        Err(ConfigError::DuplicateName { name }) => assert_eq!(name, "web"),
        other => panic!("unexpected: {:?}", other),
    }
}

#[test]
fn first_fault_decides_the_error() {
    let r = load_config(&raw(&[("web", "sleep 2"), ("web", "sleep 3"), ("bad", "echo \"x")]));
    assert!(matches!(r, Err(ConfigError::DuplicateName { .. })));
    let r = load_config(&raw(&[("web", "sleep 2"), ("web", "echo \"x")]));
    assert!(matches!(r, Err(ConfigError::MismatchedQuotes { .. })));
}

#[test]
fn empty_config_is_accepted() {
    let cfg = load_config(&Vec::new()).unwrap();
    assert_eq!(cfg.len(), 0);
}

#[test]
fn add_refuses_a_second_line_for_a_name() {
    let mut cfg = Config::new();
    assert!(cfg.add("a".to_string(), CmdSpec { argv: words(&["sleep", "100"]) }));
    assert!(!cfg.add("a".to_string(), CmdSpec { argv: words(&["sleep", "200"]) }));
    assert!(cfg.add("b".to_string(), CmdSpec { argv: words(&["sleep", "100"]) }));
    assert_eq!(cfg.len(), 2);
    assert_eq!(cfg.target(0).spec.argv, words(&["sleep", "100"]));
}

#[test]
fn errors_say_what_is_wrong() {
    let e = ConfigError::MismatchedQuotes { name: "web".to_string() };
    assert_eq!(e.message(), "web: mismatched quotes");
    let e = ConfigError::DuplicateName { name: "db".to_string() };
    assert_eq!(e.message(), "db: named twice");
}
