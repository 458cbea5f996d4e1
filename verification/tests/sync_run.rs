use sync_sessions::entry::SessionLogEntry;
use sync_sessions::index::{index_content, IndexRow};
use sync_sessions::json::Json;
use sync_sessions::sync::{add_sessions, get_session_ids, needs_reading, record_lines};

#[test]
fn only_changed_logs_are_read() {
    assert!(needs_reading(None, 5, 7));
    assert!(!needs_reading(Some((5, 7)), 5, 7));
    assert!(needs_reading(Some((4, 7)), 5, 7));
    assert!(needs_reading(Some((5, 8)), 5, 7));
    assert!(needs_reading(Some((7, 5)), 5, 7));
}

#[test]
fn blank_lines_hold_no_entry() {
    assert_eq!(
        record_lines("{\"a\":1}\n\n  \t\r\n{\"b\":2}\r\n\u{3000}\n {\"c\":3}"),
        vec!["{\"a\":1}", "{\"b\":2}", " {\"c\":3}"]
    );
    assert!(record_lines("").is_empty());
}

#[test]
fn records_of_two_logs_one_below_the_other() {
    let logs = ["", "\n", "{\"a\":1}", "{\"a\":1}\n", "{\"a\":1}\r\n\n{\"b\":2}\r\n", "x\n \r", "\r"];
    for log in logs {
        for more in logs {
            let mut both = record_lines(log);
            both.extend(record_lines(more));
            assert_eq!(record_lines(&format!("{}\n{}", log, more)), both);
            if log.is_empty() || log.ends_with('\n') {
                assert_eq!(record_lines(&format!("{}{}", log, more)), both);
            }
        }
    }
    for log in ["{}\r", "x\n\n{}\r", "{}\r\r", "x\r\r\n{}\r"] {
        for more in logs {
            let mut both = record_lines(log);
            assert_eq!(both.last_mut().unwrap().pop(), Some('\r'));
            both.extend(record_lines(more));
            assert_eq!(record_lines(&format!("{}\n{}", log, more)), both);
        }
    }
}

fn entry(session_id: Option<&str>) -> SessionLogEntry {
    SessionLogEntry {
        display: None,
        pasted_contents: Json::Null,
        message: None,
        timestamp: None,
        project: None,
        cwd: None,
        session_id: session_id.map(|s| s.to_string()),
        agent_id: None,
        entry_type: None,
        data: None,
        uuid: None,
        parent_tool_use_id: None,
        is_sidechain: false,
        tool_use_result: None,
    }
}

#[test]
fn sessions_of_a_log() {
    let entries =
        vec![entry(Some("b")), entry(None), entry(Some("")), entry(Some("a")), entry(Some("b"))];
    assert_eq!(get_session_ids(&entries), vec!["b", "a"]);
    assert!(get_session_ids(&[]).is_empty());
}

#[test]
fn sessions_are_added_once() {
    let mut affected = vec!["x".to_string(), "b".to_string()];
    add_sessions(&mut affected, &vec!["a".to_string(), "b".to_string(), "a".to_string()]);
    assert_eq!(affected, vec!["x", "b", "a"]);
    add_sessions(&mut affected, &Vec::new());
    assert_eq!(affected.len(), 3);
}

#[test]
fn index_of_all_sessions() {
    let rows = vec![
        IndexRow {
            session_id: "s1".to_string(),
            project: Some("p".to_string()),
            output_path: Some("sessions/s1.md".to_string()),
        },
        IndexRow { session_id: "s2".to_string(), project: None, output_path: None },
    ];
    assert_eq!(
        index_content(&rows, "Sessions Index", "now"),
        "# Sessions Index\n\nGenerated: now\n\n## Sessions\n\n\
         - [s1](sessions/s1.md) - p\n- [s2]() - unknown"
    );
    assert_eq!(
        index_content(&Vec::new(), "T", "now"),
        "# T\n\nGenerated: now\n\n## Sessions\n"
    );
}
