use boss::command::CmdSpec;
use boss::config::{load_config, Config};
use boss::outcome::{classify, CompletedCmd};
use boss::supervisor::{Action, Next, Supervisor};

fn words(list: &[&str]) -> Vec<String> {
    list.iter().map(|w| w.to_string()).collect()
}

fn config(list: &[(&str, &str)]) -> Config {
    let raw: Vec<(String, String)> =
        list.iter().map(|(n, c)| (n.to_string(), c.to_string())).collect();
    load_config(&raw).unwrap()
}

fn name(n: &str) -> String {
    n.to_string()
}

/// Starts everything that `cfg` wants on an empty supervisor, giving the
/// processes the identifiers 100, 101, ...
fn running(cfg: &Config) -> Supervisor {
    let mut sup = Supervisor::new();
    let mut pid = 100;
    for action in sup.plan_reload(cfg) {
        match action {
            Action::Start { name, spec } => {
                sup.started(name, spec, Some(pid));
                pid += 1;
            }
            other => panic!("unexpected: {:?}", other),
        }
    }
    sup
}

fn pid_of(sup: &Supervisor, n: &str) -> Option<i32> {
    sup.lookup(&name(n)).unwrap().pid
}

fn argv_of(sup: &Supervisor, n: &str) -> Vec<String> {
    sup.lookup(&name(n)).unwrap().spec.argv.clone()
}

#[test]
fn new_supervisor_is_empty_and_finished() {
    let sup = Supervisor::new();
    assert_eq!(sup.len(), 0);
    assert!(sup.is_finished());
    assert!(sup.lookup(&name("web")).is_none());
    assert!(!sup.is_awaited(&name("web")));
}

#[test]
fn startup_starts_every_name() {
    let cfg = config(&[("a", "sleep 100"), ("b", "sleep 200")]);
    let sup = Supervisor::new();
    let plan = sup.plan_reload(&cfg);
    assert_eq!(plan.len(), 2);
    match &plan[0] {
        Action::Start { name, spec } => {
            assert_eq!(name, "a");
            assert_eq!(spec.argv, words(&["sleep", "100"]));
        }
        other => panic!("unexpected: {:?}", other),
    }
    match &plan[1] {
        Action::Start { name, spec } => {
            assert_eq!(name, "b");
            assert_eq!(spec.argv, words(&["sleep", "200"]));
        }
        other => panic!("unexpected: {:?}", other),
    }
}

#[test]
fn exit_is_reported_and_followed_by_a_restart() {
    let cfg = config(&[("web", "sleep 2")]);
    let mut sup = running(&cfg);
    assert_eq!(sup.len(), 1);
    assert_eq!(pid_of(&sup, "web"), Some(100));
    assert!(sup.is_awaited(&name("web")));
    assert!(!sup.is_finished());

    let done = CompletedCmd { name: name("web"), started_at: 50, outcome: classify(Some(0)) };
    assert_eq!(done.report(52), "web: exited with status 0, after 2 sec.");
    match sup.completed(&done.name) {
        Next::Respawn { spec } => assert_eq!(spec.argv, words(&["sleep", "2"])),
        Next::Retire => panic!("web is still wanted"),
    }
    assert!(!sup.is_awaited(&name("web")));
    sup.respawned(&done.name, Some(4711));
    assert_eq!(pid_of(&sup, "web"), Some(4711));
    assert!(sup.is_awaited(&name("web")));
    assert!(!sup.is_finished());
}

#[test]
fn reload_stops_removed_and_starts_added() {
    let mut sup = running(&config(&[("a", "sleep 100"), ("b", "sleep 100")]));
    let plan = sup.plan_reload(&config(&[("b", "sleep 100"), ("c", "sleep 100")]));
    assert!(!plan.is_empty());
    assert_eq!(plan.len(), 2);
    let mut it = plan.into_iter();
    match it.next().unwrap() {
        Action::Stop { name, pid } => {
            assert_eq!(name, "a");
            assert_eq!(pid, Some(100));
            assert!(sup.stop_sent(&name, true));
        }
        other => panic!("unexpected: {:?}", other),
    }
    match it.next().unwrap() {
        Action::Start { name, spec } => {
            assert_eq!(name, "c");
            assert_eq!(spec.argv, words(&["sleep", "100"]));
            sup.started(name, spec, Some(300));
        }
        other => panic!("unexpected: {:?}", other),
    }
    assert!(sup.lookup(&name("a")).is_none());
    assert_eq!(pid_of(&sup, "b"), Some(101));
    assert_eq!(argv_of(&sup, "b"), words(&["sleep", "100"]));
    assert_eq!(pid_of(&sup, "c"), Some(300));
    assert!(sup.is_awaited(&name("a")));
    assert!(sup.is_awaited(&name("b")));
    assert!(sup.is_awaited(&name("c")));
}

#[test]
fn update_is_applied_by_the_next_restart() {
    let mut sup = running(&config(&[("svc", "myserver --port 8000")]));
    let plan = sup.plan_reload(&config(&[("svc", "myserver --port 9000")]));
    assert_eq!(plan.len(), 1);
    match plan.into_iter().next().unwrap() {
        Action::Defer { name, pid, spec } => {
            assert_eq!(name, "svc");
            assert_eq!(pid, Some(100));
            assert_eq!(spec.argv, words(&["myserver", "--port", "9000"]));
            assert!(sup.defer_sent(&name, spec, true));
        }
        other => panic!("unexpected: {:?}", other),
    }
    assert_eq!(pid_of(&sup, "svc"), None);
    assert!(sup.is_awaited(&name("svc")));
    match sup.completed(&name("svc")) {
        Next::Respawn { spec } => assert_eq!(spec.argv, words(&["myserver", "--port", "9000"])),
        Next::Retire => panic!("svc is still wanted"),
    }
    sup.respawned(&name("svc"), Some(200));
    assert_eq!(pid_of(&sup, "svc"), Some(200));
    match sup.completed(&name("svc")) {
        Next::Respawn { spec } => assert_eq!(spec.argv, words(&["myserver", "--port", "9000"])),
        Next::Retire => panic!("svc is still wanted"),
    }
}

#[test]
fn failed_launch_at_startup_drops_the_name() {
    let cfg = config(&[("bad", "/no/such/binary"), ("good", "sleep 100")]);
    let mut sup = Supervisor::new();
    for action in sup.plan_reload(&cfg) {
        match action {
            Action::Start { name, spec } => {
                let pid = if name == "bad" { None } else { Some(7) };
                sup.started(name, spec, pid);
            }
            other => panic!("unexpected: {:?}", other),
        }
    }
    assert!(sup.lookup(&name("bad")).is_none());
    assert!(!sup.is_awaited(&name("bad")));
    assert_eq!(pid_of(&sup, "good"), Some(7));
    assert!(sup.is_awaited(&name("good")));
    assert_eq!(sup.len(), 1);
}

#[test]
fn identical_reload_asks_for_nothing() {
    let cfg = config(&[("a", "sleep 100"), ("b", "echo 'x y'")]);
    let sup = running(&cfg);
    assert!(sup.plan_reload(&cfg).is_empty());
    let reordered = config(&[("b", "echo \"x y\""), ("a", "sleep   100")]);
    assert!(sup.plan_reload(&reordered).is_empty());
}

#[test]
fn removed_name_is_retired_when_its_process_ends() {
    let mut sup = running(&config(&[("a", "sleep 100")]));
    let plan = sup.plan_reload(&Config::new());
    assert_eq!(plan.len(), 1);
    assert!(matches!(&plan[0], Action::Stop { name, pid: Some(100) } if name == "a"));
    assert!(sup.stop_sent(&name("a"), true));
    assert_eq!(sup.len(), 0);
    assert!(!sup.is_finished());
    assert!(matches!(sup.completed(&name("a")), Next::Retire));
    assert!(sup.is_finished());
}

#[test]
fn added_name_is_started_in_the_same_reload() {
    let mut sup = running(&config(&[("a", "sleep 100")]));
    let plan = sup.plan_reload(&config(&[("a", "sleep 100"), ("n", "sleep 5")]));
    assert_eq!(plan.len(), 1);
    match plan.into_iter().next().unwrap() {
        Action::Start { name, spec } => {
            assert_eq!(name, "n");
            assert_eq!(spec.argv, words(&["sleep", "5"]));
            sup.started(name, spec, Some(55));
        }
        other => panic!("unexpected: {:?}", other),
    }
    assert_eq!(pid_of(&sup, "n"), Some(55));
    assert_eq!(pid_of(&sup, "a"), Some(100));
    assert_eq!(sup.len(), 2);
}

#[test]
fn failed_restart_leaves_the_entry_without_a_process() {
    let cfg = config(&[("n", "sleep 5")]);
    let mut sup = running(&cfg);
    assert!(matches!(sup.completed(&name("n")), Next::Respawn { .. }));
    sup.respawned(&name("n"), None);
    assert_eq!(sup.len(), 1);
    assert_eq!(argv_of(&sup, "n"), words(&["sleep", "5"]));
    assert!(!sup.is_awaited(&name("n")));
    assert!(sup.is_finished());
    assert!(sup.plan_reload(&cfg).is_empty());
}

#[test]
fn undelivered_stop_leaves_the_entry() {
    let mut sup = running(&config(&[("a", "sleep 100")]));
    assert!(!sup.stop_sent(&name("a"), false));
    assert_eq!(pid_of(&sup, "a"), Some(100));
    assert_eq!(argv_of(&sup, "a"), words(&["sleep", "100"]));
    assert!(matches!(sup.completed(&name("a")), Next::Respawn { .. }));
}

#[test]
fn undelivered_update_leaves_the_entry() {
    let mut sup = running(&config(&[("a", "sleep 100")]));
    let staged = sup.defer_sent(&name("a"), CmdSpec { argv: words(&["sleep", "200"]) }, false);
    assert!(!staged);
    assert_eq!(pid_of(&sup, "a"), Some(100));
    assert_eq!(argv_of(&sup, "a"), words(&["sleep", "100"]));
}

#[test]
fn entry_without_a_process_is_not_signalled() {
    let mut sup = running(&config(&[("a", "sleep 100")]));
    assert!(sup.defer_sent(&name("a"), CmdSpec { argv: words(&["sleep", "200"]) }, true));
    assert_eq!(pid_of(&sup, "a"), None);

    let plan = sup.plan_reload(&Config::new());
    assert!(matches!(&plan[0], Action::Stop { name, pid: None } if name == "a"));
    assert!(!sup.stop_sent(&name("a"), false));
    assert!(!sup.stop_sent(&name("a"), true));
    assert_eq!(sup.len(), 1);

    let plan = sup.plan_reload(&config(&[("a", "sleep 300")]));
    assert!(matches!(&plan[0], Action::Defer { name, pid: None, .. } if name == "a"));
    assert!(sup.defer_sent(&name("a"), CmdSpec { argv: words(&["sleep", "300"]) }, false));
    assert_eq!(argv_of(&sup, "a"), words(&["sleep", "300"]));
}

#[test]
fn actions_come_as_stops_then_starts_then_updates() {
    let mut sup = running(&config(&[
        ("keep", "sleep 1"),
        ("change", "sleep 2"),
        ("drop", "sleep 3"),
        ("gone", "sleep 4"),
    ]));
    let plan = sup.plan_reload(&config(&[
        ("new", "sleep 5"),
        ("change", "sleep 20"),
        ("keep", "sleep 1"),
        ("newer", "sleep 6"),
    ]));
    let seen: Vec<String> = plan
        .iter()
        .map(|a| match a {
            Action::Stop { name, pid } => format!("stop {} {:?}", name, pid),
            Action::Start { name, spec } => format!("start {} {:?}", name, spec.argv),
            Action::Defer { name, pid, spec } => format!("defer {} {:?} {:?}", name, pid, spec.argv),
        })
        .collect();
    assert_eq!(
        seen,
        vec![
            "stop drop Some(102)".to_string(),
            "stop gone Some(103)".to_string(),
            "start new [\"sleep\", \"5\"]".to_string(),
            "start newer [\"sleep\", \"6\"]".to_string(),
            "defer change Some(101) [\"sleep\", \"20\"]".to_string(),
        ]
    );
    assert!(sup.stop_sent(&name("drop"), true));
    assert_eq!(sup.len(), 3);
    assert_eq!(pid_of(&sup, "gone"), Some(103));
}

#[test]
fn started_replaces_an_entry_of_the_same_name() {
    let mut sup = running(&config(&[("a", "sleep 100"), ("b", "sleep 100")]));
    sup.started(name("a"), CmdSpec { argv: words(&["sleep", "7"]) }, Some(9));
    assert_eq!(sup.len(), 2);
    assert_eq!(pid_of(&sup, "a"), Some(9));
    assert_eq!(argv_of(&sup, "a"), words(&["sleep", "7"]));
    assert!(matches!(sup.completed(&name("a")), Next::Respawn { .. }));
    assert!(sup.is_awaited(&name("a")));
    assert!(matches!(sup.completed(&name("a")), Next::Respawn { .. }));
    assert!(!sup.is_awaited(&name("a")));
}

#[test]
fn failed_wait_forgets_the_process_and_keeps_the_entry() {
    let mut sup = running(&config(&[("a", "sleep 100")]));
    sup.wait_failed(&name("a"));
    assert!(!sup.is_awaited(&name("a")));
    assert_eq!(pid_of(&sup, "a"), Some(100));
    assert!(sup.is_finished());
}

#[test]
fn unknown_names_change_nothing() {
    let mut sup = running(&config(&[("a", "sleep 100")]));
    assert!(!sup.stop_sent(&name("x"), true));
    assert!(!sup.defer_sent(&name("x"), CmdSpec { argv: words(&["true"]) }, true));
    assert!(matches!(sup.completed(&name("x")), Next::Retire));
    assert_eq!(sup.len(), 1);
    assert!(sup.is_awaited(&name("a")));
}

#[test]
fn successful_reload_reaches_the_configuration() {
    let mut sup = running(&config(&[
        ("keep", "sleep 1"),
        ("change", "sleep 2"),
        ("drop", "sleep 3"),
    ]));
    let wanted = config(&[("new", "sleep 5"), ("change", "sleep 20"), ("keep", "sleep 1")]);
    let mut pid = 500;
    for action in sup.plan_reload(&wanted) {
        match action {
            Action::Stop { name, .. } => {
                sup.stop_sent(&name, true);
            }
            Action::Start { name, spec } => {
                sup.started(name, spec, Some(pid));
                pid += 1;
            }
            Action::Defer { name, spec, .. } => {
                sup.defer_sent(&name, spec, true);
            }
        }
    }
    assert_eq!(sup.len(), 3);
    assert!(sup.lookup(&name("drop")).is_none());
    assert_eq!(argv_of(&sup, "keep"), words(&["sleep", "1"]));
    assert_eq!(pid_of(&sup, "keep"), Some(100));
    assert_eq!(argv_of(&sup, "change"), words(&["sleep", "20"]));
    assert_eq!(pid_of(&sup, "change"), None);
    assert_eq!(argv_of(&sup, "new"), words(&["sleep", "5"]));
    assert_eq!(pid_of(&sup, "new"), Some(500));
    assert!(sup.plan_reload(&wanted).is_empty());
}

#[test]
fn restart_keeps_one_process_for_the_name() {
    let mut sup = running(&config(&[("a", "sleep 1")]));
    for round in 0..3 {
        assert!(matches!(sup.completed(&name("a")), Next::Respawn { .. }));
        assert!(!sup.is_awaited(&name("a")));
        sup.respawned(&name("a"), Some(200 + round));
        assert!(sup.is_awaited(&name("a")));
    }
    assert!(matches!(sup.completed(&name("a")), Next::Respawn { .. }));
    assert!(sup.is_finished());
}
