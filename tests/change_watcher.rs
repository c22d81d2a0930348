use imget::change_watcher::{WatchAction, WatchCommand, WatchSession};

fn cmd(watch: bool, recursive: bool, path: &str) -> WatchCommand {
    WatchCommand { watch, recursive, path: path.to_string() }
}

/// Decides a command and records it, as a watcher that accepts every action.
fn apply(s: &mut WatchSession, c: WatchCommand) -> Option<WatchAction> {
    let action = s.handle_command(&c);
    if action.is_some() {
        s.commit(c);
    }
    action
}

fn paths(v: &[&str]) -> Vec<String> {
    v.iter().map(|s| s.to_string()).collect()
}

#[test]
fn scenario_watch_then_unwatch() {
    let mut s = WatchSession::new();
    match apply(&mut s, cmd(true, true, "/tmp/x")) {
        Some(WatchAction::Watch { path, recursive }) => {
            assert_eq!(path, "/tmp/x");
            assert!(recursive);
        }
        _ => panic!("expected a watch action"),
    }
    let batch = s.deliver(paths(&["/tmp/x/new.txt"])).unwrap();
    let got: Vec<&str> = batch.changes.iter().map(|c| c.path.as_str()).collect();
    assert_eq!(got, vec!["/tmp/x/new.txt"]);

    match apply(&mut s, cmd(false, false, "/tmp/x")) {
        Some(WatchAction::Unwatch { path }) => assert_eq!(path, "/tmp/x"),
        _ => panic!("expected an unwatch action"),
    }
    assert_eq!(s.registrations().len(), 0);
    // a batch made before the unwatch and still pending is forwarded whole
    let late = s.deliver(paths(&["/tmp/x/other.txt"])).unwrap();
    assert_eq!(late.changes.len(), 1);
}

#[test]
fn whole_batch_is_forwarded() {
    let mut s = WatchSession::new();
    apply(&mut s, cmd(true, false, "/w"));
    let b = s.deliver(paths(&["/w/a", "/w/d/b", "/w"])).unwrap();
    let got: Vec<&str> = b.changes.iter().map(|c| c.path.as_str()).collect();
    assert_eq!(got, vec!["/w/a", "/w/d/b", "/w"]);
    assert_eq!(s.deliver(vec![]).unwrap().changes.len(), 0);
}

#[test]
fn refused_watch_is_not_recorded() {
    let mut s = WatchSession::new();
    let c = cmd(true, true, "/missing");
    assert!(matches!(s.handle_command(&c), Some(WatchAction::Watch { .. })));
    // the watcher refused it: nothing is committed
    assert_eq!(s.registrations().len(), 0);
}

#[test]
fn watching_again_replaces_the_registration() {
    let mut s = WatchSession::new();
    apply(&mut s, cmd(true, false, "/w"));
    apply(&mut s, cmd(true, true, "/w"));
    assert_eq!(s.registrations(), vec![("/w".to_string(), true)]);
    assert!(s.deliver(paths(&["/w/d/b"])).is_some());
}

#[test]
fn closed_session_delivers_nothing() {
    let mut s = WatchSession::new();
    apply(&mut s, cmd(true, true, "/w"));
    s.close();
    assert!(s.deliver(paths(&["/w/a"])).is_none());
    assert!(apply(&mut s, cmd(true, true, "/w")).is_none());
    assert_eq!(s.registrations().len(), 0);
}
