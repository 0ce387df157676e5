use lgui::platform::window_registry::{ClosePolicy, CloseOutcome, WindowRecord, WindowRegistry};

fn record(id: &str, owner: Option<&str>, close_policy: ClosePolicy) -> WindowRecord {
    WindowRecord {
        id: id.to_string(),
        owner: owner.map(str::to_string),
        visible: true,
        owner_suppressed: false,
        close_policy,
    }
}

fn registry() -> WindowRegistry {
    let mut windows = WindowRegistry::new();
    windows.register(record("main", None, ClosePolicy::Exit));
    windows.register(record("chat", Some("main"), ClosePolicy::Exit));
    windows.register(record("popup", Some("chat"), ClosePolicy::Hide));
    windows.register(record("other", None, ClosePolicy::Notify));
    windows
}

fn shown(windows: &WindowRegistry, id: &str) -> bool {
    let record = windows.get(id).unwrap();
    record.visible && !record.owner_suppressed
}

#[test]
fn hiding_an_owner_hides_every_window_it_owns() {
    let mut windows = registry();
    assert_eq!(windows.set_window_visibility("main", false), vec!["chat".to_string(), "popup".to_string()]);
    assert!(!shown(&windows, "main"));
    assert!(!shown(&windows, "chat"));
    assert!(!shown(&windows, "popup"));
    assert!(shown(&windows, "other"));
    assert!(windows.show_existing("main"));
    assert!(shown(&windows, "main"));
    assert!(shown(&windows, "chat"));
    assert!(shown(&windows, "popup"));
    assert!(!windows.show_existing("missing"));
}

#[test]
fn a_hidden_child_stays_hidden_when_its_owner_returns() {
    let mut windows = registry();
    windows.set_window_visibility("chat", false);
    assert!(!shown(&windows, "popup"));
    windows.set_window_visibility("main", false);
    windows.set_window_visibility("main", true);
    assert!(!shown(&windows, "chat"));
}

#[test]
fn close_requests_follow_each_window_policy() {
    let mut windows = registry();
    assert!(matches!(windows.request_close("missing"), CloseOutcome::Missing));
    assert!(matches!(windows.request_close("other"), CloseOutcome::Notify));
    assert_eq!(windows.len(), 4);
    match windows.request_close("popup") {
        CloseOutcome::Hidden(owned) => assert!(owned.is_empty()),
        other => panic!("unexpected outcome {other:?}"),
    }
    assert!(!shown(&windows, "popup"));
    match windows.request_close("chat") {
        CloseOutcome::Closed(ids) => assert_eq!(ids, vec!["chat".to_string(), "popup".to_string()]),
        other => panic!("unexpected outcome {other:?}"),
    }
    assert_eq!(windows.len(), 2);
    assert!(windows.get("popup").is_none());
    assert_eq!(windows.remove_window("main"), vec!["main".to_string()]);
    assert!(windows.remove_window("main").is_empty());
    assert_eq!(windows.len(), 1);
}

#[test]
fn suppression_reports_the_owned_windows_in_order() {
    let mut windows = registry();
    assert_eq!(windows.suppress_owned_windows("chat", true), vec!["popup".to_string()]);
    assert!(!shown(&windows, "popup"));
    assert!(windows.suppress_owned_windows("other", true).is_empty());
}
