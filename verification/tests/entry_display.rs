use sync_sessions::entry::{format_tool_use, unsigned_millis, SessionLogEntry};
use sync_sessions::json::Json;
use sync_sessions::json_text::to_compact_text;

fn to_json(value: serde_json::Value) -> Json {
    match value {
        serde_json::Value::Null => Json::Null,
        serde_json::Value::Bool(b) => Json::Bool(b),
        serde_json::Value::Number(n) => Json::from_number(n),
        serde_json::Value::String(s) => Json::Text(s),
        serde_json::Value::Array(items) => Json::Array(items.into_iter().map(to_json).collect()),
        serde_json::Value::Object(members) => {
            Json::Object(members.into_iter().map(|(name, v)| (name, to_json(v))).collect())
        }
    }
}

fn json(text: &str) -> Json {
    to_json(serde_json::from_str(text).unwrap())
}

fn entry() -> SessionLogEntry {
    SessionLogEntry {
        display: None,
        pasted_contents: Json::Null,
        message: None,
        timestamp: None,
        project: None,
        cwd: None,
        session_id: None,
        agent_id: None,
        entry_type: None,
        data: None,
        uuid: None,
        parent_tool_use_id: None,
        is_sidechain: false,
        tool_use_result: None,
    }
}

fn of_type(entry_type: &str) -> SessionLogEntry {
    SessionLogEntry { entry_type: Some(entry_type.to_string()), ..entry() }
}

fn shown(message: &str) -> Option<String> {
    SessionLogEntry { message: Some(json(message)), ..of_type("assistant") }.get_display()
}

fn progress(data: &str) -> Option<String> {
    SessionLogEntry { data: Some(json(data)), ..of_type("progress") }.get_display()
}

fn result(value: &str) -> Option<String> {
    SessionLogEntry { tool_use_result: Some(json(value)), ..of_type("user") }.get_display()
}

#[test]
fn display_comes_first() {
    let e = SessionLogEntry {
        display: Some("given".to_string()),
        message: Some(json(r#"{"content":"other"}"#)),
        ..of_type("progress")
    };
    assert_eq!(e.get_display().as_deref(), Some("given"));
    let e = SessionLogEntry { display: Some(String::new()), ..entry() };
    assert_eq!(e.get_display().as_deref(), Some(""));
}

#[test]
fn progress_shows_its_output() {
    assert_eq!(
        progress(r#"{"type":"bash_progress","output":"some","fullOutput":"all"}"#).as_deref(),
        Some("all")
    );
    assert_eq!(
        progress(r#"{"type":"bash_progress","output":"some"}"#).as_deref(),
        Some("some")
    );
    assert_eq!(progress(r#"{"type":"bash_progress","output":"some","fullOutput":1}"#), None);
    assert_eq!(progress(r#"{"type":"bash_progress","output":""}"#), None);
    assert_eq!(progress(r#"{"type":"hook_progress","output":"some"}"#), None);
    assert_eq!(progress(r#"["bash_progress"]"#), None);
    assert_eq!(of_type("progress").get_display(), None);
}

#[test]
fn progress_hides_its_message() {
    let e = SessionLogEntry { message: Some(json(r#"{"content":"x"}"#)), ..of_type("progress") };
    assert_eq!(e.get_display(), None);
}

#[test]
fn message_with_text_content() {
    assert_eq!(shown(r#"{"content":"hello"}"#).as_deref(), Some("hello"));
    assert_eq!(shown(r#"{"content":""}"#).as_deref(), Some(""));
    assert_eq!(shown(r#"{"content":7}"#), None);
    assert_eq!(shown(r#"{"role":"user"}"#), None);
    assert_eq!(shown(r#""content""#), None);
}

#[test]
fn message_with_blocks() {
    assert_eq!(
        shown(
            r#"{"content":[{"type":"text","text":"one"},{"type":"text","text":""},
                {"type":"image"},{"text":"untyped"},{"type":"text","text":"two"}]}"#
        )
        .as_deref(),
        Some("one\n\ntwo")
    );
    assert_eq!(shown(r#"{"content":[]}"#), None);
    assert_eq!(shown(r#"{"content":[{"type":"text"}]}"#), None);
}

#[test]
fn tool_use_shows_name_and_compact_input() {
    assert_eq!(
        shown(
            r#"{"content":[{"type":"tool_use","name":"Bash",
                "input":{ "b" : [1, -2, 1.50, true, null], "a": "q\"uote\n" }}]}"#
        )
        .as_deref(),
        Some("> **Tool: Bash** `{\"a\":\"q\\\"uote\\n\",\"b\":[1,-2,1.5,true,null]}`")
    );
    assert_eq!(
        shown(r#"{"content":[{"type":"tool_use"}]}"#).as_deref(),
        Some("> **Tool: unknown** ``")
    );
    assert_eq!(
        shown(r#"{"content":[{"type":"tool_use","name":3,"input":null}]}"#).as_deref(),
        Some("> **Tool: unknown** `null`")
    );
}

#[test]
fn line_of_a_tool_use() {
    assert_eq!(format_tool_use("Read", "{\"p\":1}"), "> **Tool: Read** `{\"p\":1}`");
    assert_eq!(format_tool_use("", ""), "> **Tool: ** ``");
}

#[test]
fn later_member_of_one_name_counts() {
    let input = Json::Object(vec![
        ("k".to_string(), Json::Unsigned(1)),
        ("k".to_string(), Json::Unsigned(2)),
    ]);
    assert!(matches!(input.get("k"), Some(Json::Unsigned(2))));
    assert!(input.get("other").is_none());
    assert_eq!(sync_sessions::json_text::to_compact_text(&input), "{\"k\":2}");
}

#[test]
fn tool_result_is_quoted_in_full() {
    assert_eq!(
        shown(r#"{"content":[{"type":"tool_result","content":"a\nb\r\n\nc\n"}]}"#).as_deref(),
        Some("> a\n> b\n> \n> c")
    );
    assert_eq!(
        shown(
            r#"{"content":[{"type":"tool_result","content":
                [{"text":"x\ny"},{"text":""},{"image":1},{"text":"z"}]}]}"#
        )
        .as_deref(),
        Some("> x\n> y\n\n> z")
    );
    assert_eq!(shown(r#"{"content":[{"type":"tool_result","content":""}]}"#), None);
    assert_eq!(shown(r#"{"content":[{"type":"tool_result","content":{"text":"x"}}]}"#), None);
    assert_eq!(shown(r#"{"content":[{"type":"tool_result"}]}"#), None);
    let long: String = "0123456789\n".repeat(500);
    let text = format!("{{\"content\":[{{\"type\":\"tool_result\",\"content\":{}}}]}}",
        serde_json::to_string(&long).unwrap());
    assert_eq!(shown(&text).unwrap().lines().count(), 500);
}

#[test]
fn numbers_as_they_were_parsed() {
    for text in ["0", "7", "18446744073709551615"] {
        match json(text) {
            Json::Unsigned(n) => assert_eq!(n.to_string(), text),
            other => panic!("{:?}", other),
        }
    }
    for text in ["-1", "1.5", "7.0", "18446744073709551616"] {
        match json(text) {
            Json::OtherNumber(n) => assert_eq!(n.as_u64(), None),
            other => panic!("{:?}", other),
        }
    }
    for text in ["7", "-1", "1.5"] {
        assert_eq!(to_compact_text(&json(text)), text);
    }
}

#[test]
fn quotations_keep_every_line() {
    for text in ["a", "a\nb", "a\r\nb", "a\r\r\nb", "\n", "a\n\n", "a\r"] {
        let quoted = serde_json::to_string(text).unwrap();
        for (start, shown) in [
            ("> [Error] ", result(&quoted)),
            ("> ", result(&format!("{{\"stdout\":{}}}", quoted))),
            ("> [stderr] ", result(&format!("{{\"stderr\":{}}}", quoted))),
        ] {
            let shown = shown.unwrap();
            let pieces: Vec<&str> = shown.split('\n').collect();
            let lines: Vec<&str> = text.lines().collect();
            assert_eq!(pieces.len(), lines.len());
            for (k, line) in lines.iter().enumerate() {
                let mark = if k == 0 { start } else { "> " };
                assert_eq!(pieces[k], format!("{}{}", mark, line));
            }
        }
    }
}

#[test]
fn recorded_result_of_a_tool() {
    assert_eq!(result(r#""no\nway""#).as_deref(), Some("> [Error] no\n> way"));
    assert_eq!(result(r#""a\nb""#).as_deref(), Some("> [Error] a\n> b"));
    assert_eq!(result(r#""a\r\n\nb\n""#).as_deref(), Some("> [Error] a\n> \n> b"));
    assert_eq!(result(r#""one""#).as_deref(), Some("> [Error] one"));
    assert_eq!(result(r#""""#), None);
    assert_eq!(
        result(r#"{"stdout":"a\nb","stderr":"c\nd"}"#).as_deref(),
        Some("> a\n> b\n\n> [stderr] c\n> d")
    );
    assert_eq!(result(r#"{"stdout":"","stderr":"c"}"#).as_deref(), Some("> [stderr] c"));
    assert_eq!(result(r#"{"stdout":"a"}"#).as_deref(), Some("> a"));
    assert_eq!(result(r#"{"stdout":1}"#), None);
    assert_eq!(result("[1]"), None);
    assert_eq!(entry().get_display(), None);
}

#[test]
fn message_comes_before_recorded_result() {
    let e = SessionLogEntry {
        message: Some(json(r#"{"content":"m"}"#)),
        tool_use_result: Some(json(r#""r""#)),
        ..of_type("user")
    };
    assert_eq!(e.get_display().as_deref(), Some("m"));
    let e = SessionLogEntry {
        message: Some(json(r#"{"content":[]}"#)),
        tool_use_result: Some(json(r#""r""#)),
        ..of_type("user")
    };
    assert_eq!(e.get_display().as_deref(), Some("> [Error] r"));
}

fn millis(timestamp: &str) -> u64 {
    SessionLogEntry { timestamp: Some(json(timestamp)), ..entry() }.get_timestamp_millis()
}

#[test]
fn timestamps() {
    assert_eq!(millis("1773585045123"), 1773585045123);
    assert_eq!(millis("18446744073709551615"), u64::MAX);
    assert_eq!(millis("-5"), 0);
    assert_eq!(millis("1.5"), 0);
    assert_eq!(millis("true"), 0);
    assert_eq!(millis("null"), 0);
    assert_eq!(millis(r#""2026-03-15T14:30:45.123Z""#), 1773585045123);
    assert_eq!(millis(r#""2026-03-15T16:30:45+02:00""#), 1773585045000);
    assert_eq!(millis(r#""1969-12-31T23:59:59.999Z""#), u64::MAX);
    assert_eq!(millis(r#""yesterday""#), 0);
    assert_eq!(entry().get_timestamp_millis(), 0);
}

#[test]
fn parsed_millis_wrap_around() {
    assert_eq!(unsigned_millis(None), 0);
    assert_eq!(unsigned_millis(Some(7)), 7);
    assert_eq!(unsigned_millis(Some(i64::MAX)), 9223372036854775807);
    assert_eq!(unsigned_millis(Some(-1)), u64::MAX);
    assert_eq!(unsigned_millis(Some(i64::MIN)), 9223372036854775808);
}
