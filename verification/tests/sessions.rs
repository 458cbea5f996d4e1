use sync_sessions::entry::SessionLogEntry;
use sync_sessions::json::Json;
use sync_sessions::merge::collect_session;
use sync_sessions::select::select_entries;

fn entry(session: &str, uuid: Option<&str>, time: u64, display: Option<&str>) -> SessionLogEntry {
    SessionLogEntry {
        display: display.map(|d| d.to_string()),
        pasted_contents: Json::Null,
        message: None,
        timestamp: Some(Json::Unsigned(time)),
        project: None,
        cwd: None,
        session_id: Some(session.to_string()),
        agent_id: None,
        entry_type: Some("user".to_string()),
        data: None,
        uuid: uuid.map(|u| u.to_string()),
        parent_tool_use_id: None,
        is_sidechain: false,
        tool_use_result: None,
    }
}

fn bash(parent: Option<&str>, uuid: Option<&str>, output: &str) -> SessionLogEntry {
    SessionLogEntry {
        entry_type: Some("progress".to_string()),
        data: Some(Json::Object(vec![
            ("type".to_string(), Json::Text("bash_progress".to_string())),
            ("output".to_string(), Json::Text(output.to_string())),
        ])),
        parent_tool_use_id: parent.map(|p| p.to_string()),
        ..entry("s", uuid, 0, None)
    }
}

fn displays(entries: &[SessionLogEntry]) -> Vec<String> {
    entries.iter().map(|e| e.get_display().unwrap_or_default()).collect()
}

#[test]
fn entries_of_other_sessions_are_left_out() {
    let mut nobody = entry("s", Some("3"), 3, Some("c"));
    nobody.session_id = None;
    let all = vec![
        entry("s", Some("1"), 1, Some("a")),
        entry("t", Some("2"), 2, Some("b")),
        nobody,
        entry("s", Some("4"), 4, Some("d")),
    ];
    assert_eq!(displays(&collect_session("s", all)), vec!["a", "d"]);
    assert_eq!(collect_session("s", Vec::new()).len(), 0);
}

#[test]
fn entries_are_sorted_by_time_and_stay_in_order_within_one_time() {
    let all = vec![
        entry("s", Some("1"), 30, Some("a")),
        entry("s", Some("2"), 10, Some("b")),
        entry("s", Some("3"), 20, Some("c")),
        entry("s", Some("4"), 10, Some("d")),
        entry("s", Some("5"), 0, Some("e")),
        entry("s", Some("6"), 30, Some("f")),
    ];
    assert_eq!(displays(&collect_session("s", all)), vec!["e", "b", "d", "c", "a", "f"]);
}

#[test]
fn entries_known_by_the_same_are_taken_once() {
    let mut assistant = entry("s", None, 5, Some("d"));
    assistant.entry_type = Some("assistant".to_string());
    let mut untyped = entry("s", None, 5, Some("e"));
    untyped.entry_type = None;
    let all = vec![
        entry("s", Some("1"), 9, Some("a")),
        entry("s", Some("1"), 1, Some("b")),
        entry("t", Some("2"), 1, Some("x")),
        entry("s", Some("2"), 6, Some("y")),
        entry("s", None, 5, Some("c")),
        entry("s", None, 5, Some("again")),
        assistant,
        untyped,
        entry("s", Some("5:user"), 7, Some("named like a time")),
    ];
    assert_eq!(displays(&collect_session("s", all)), vec!["c", "d", "e", "y", "a"]);
}

fn mixed() -> Vec<SessionLogEntry> {
    vec![
        entry("s", Some("1"), 30, Some("a")),
        entry("t", Some("1"), 10, Some("b")),
        entry("s", None, 20, Some("c")),
        entry("s", Some("2"), 20, Some("d")),
    ]
}

#[test]
fn a_log_that_is_read_twice_changes_nothing() {
    let mut twice = mixed();
    twice.extend(mixed());
    assert_eq!(
        displays(&collect_session("s", twice)),
        displays(&collect_session("s", mixed()))
    );
}

#[test]
fn a_collected_session_stays_as_it_is() {
    let once = collect_session("s", mixed());
    let expected = displays(&once);
    assert_eq!(displays(&collect_session("s", once)), expected);
}

#[test]
fn first_progress_report_is_kept() {
    let entries = vec![
        bash(Some("t1"), Some("u1"), "a"),
        bash(Some("t1"), Some("u2"), "ab"),
        bash(Some("t2"), Some("u1"), "c"),
        bash(None, Some("t1"), "d"),
        bash(None, Some("u3"), "e"),
        bash(None, Some("u3"), "f"),
        bash(None, None, "g"),
        bash(None, None, "h"),
        bash(Some("7"), None, "i"),
    ];
    assert_eq!(select_entries(&entries), vec![0, 2, 4, 6, 7]);
}

#[test]
fn content_is_shown_once_for_each_type() {
    let mut assistant = entry("s", Some("3"), 3, Some("a"));
    assistant.entry_type = Some("assistant".to_string());
    let entries = vec![
        entry("s", Some("1"), 1, Some("a")),
        entry("s", Some("2"), 2, Some("a")),
        assistant,
        entry("s", Some("4"), 4, None),
        entry("s", Some("5"), 5, None),
        entry("s", Some("6"), 6, Some("")),
        entry("s", Some("7"), 7, Some("")),
    ];
    assert_eq!(select_entries(&entries), vec![0, 2, 3, 4, 5]);
}

#[test]
fn later_progress_does_not_hide_its_content() {
    let entries = vec![
        bash(Some("t1"), None, "a"),
        bash(Some("t1"), None, "b"),
        bash(Some("t2"), None, "b"),
        bash(Some("t3"), None, "a"),
    ];
    assert_eq!(select_entries(&entries), vec![0, 2]);
}

#[test]
fn type_and_text_make_up_the_content() {
    let mut a = entry("s", None, 1, Some("c"));
    a.entry_type = Some("a:b".to_string());
    let mut b = entry("s", None, 2, Some("b:c"));
    b.entry_type = Some("a".to_string());
    assert_eq!(a.get_content_key().as_deref(), Some("a:b:c"));
    assert_eq!(select_entries(&[a, b]), vec![0]);
}
