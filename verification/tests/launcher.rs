use boss::service::{Boss, ClientProcess, Demand, Served};

fn boss() -> Boss {
    Boss {
        listen_addr: "127.0.0.1:8080".to_string(),
        clients: vec![
            ("/alpha".to_string(), ClientProcess { launch_cmd: "sleep  5".to_string(), pid: None }),
            (
                "/beta".to_string(),
                ClientProcess { launch_cmd: "myserver --port 8000".to_string(), pid: Some(42) },
            ),
            ("/alpha".to_string(), ClientProcess { launch_cmd: "never used".to_string(), pid: None }),
        ],
    }
}

#[test]
fn request_for_a_stopped_client_asks_for_a_launch() {
    let b = boss();
    match b.request(&"/alpha".to_string()) {
        Demand::Launch { argv } => assert_eq!(argv, vec!["sleep".to_string(), "5".to_string()]),
        other => panic!("unexpected: {:?}", other),
    }
}

#[test]
fn request_for_a_running_client_gives_its_process() {
    let b = boss();
    assert!(matches!(b.request(&"/beta".to_string()), Demand::Running { pid: 42 }));
}

#[test]
fn request_for_an_unknown_client_says_so() {
    let b = boss();
    assert!(matches!(b.request(&"/gamma".to_string()), Demand::Unknown));
}

#[test]
fn launch_and_end_are_noted_on_the_first_client_of_the_name() {
    let mut b = boss();
    assert!(b.launched(&"/alpha".to_string(), 77));
    assert_eq!(b.clients[0].1.pid, Some(77));
    assert_eq!(b.clients[2].1.pid, None);
    assert!(matches!(b.request(&"/alpha".to_string()), Demand::Running { pid: 77 }));
    assert!(b.terminated(&"/alpha".to_string()));
    assert_eq!(b.clients[0].1.pid, None);
    assert!(matches!(b.request(&"/alpha".to_string()), Demand::Launch { .. }));
    assert_eq!(b.listen_addr, "127.0.0.1:8080");
}

#[test]
fn notes_on_unknown_clients_change_nothing() {
    let mut b = boss();
    assert!(!b.launched(&"/gamma".to_string(), 1));
    assert!(!b.terminated(&"/gamma".to_string()));
    assert_eq!(b.clients.len(), 3);
    assert_eq!(b.clients[1].1.pid, Some(42));
}

#[test]
fn blank_command_line_has_no_words() {
    let b = Boss {
        listen_addr: String::new(),
        clients: vec![("/x".to_string(), ClientProcess { launch_cmd: " \t ".to_string(), pid: None })],
    };
    match b.request(&"/x".to_string()) {
        Demand::Launch { argv } => assert!(argv.is_empty()),
        other => panic!("unexpected: {:?}", other),
    }
}

#[test]
fn answers_have_their_status_and_text() {
    let name = "/gamma".to_string();
    assert_eq!(Served::Available.status(), 200);
    assert_eq!(Served::Available.body(&name), "available\n");
    assert_eq!(Served::LaunchFailed.status(), 500);
    assert_eq!(Served::LaunchFailed.body(&name), "couldn't start");
    assert_eq!(Served::NotFound.status(), 404);
    assert_eq!(Served::NotFound.body(&name), "no client \"/gamma\"");
}
