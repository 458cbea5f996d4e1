use sync_sessions::clock::{
    format_date, format_date_at, format_time, format_time_at, LAST_INSTANT,
};
use sync_sessions::entry::SessionLogEntry;
use sync_sessions::json::Json;
use sync_sessions::markdown::{
    convert_session_to_markdown, get_agent_ids, render_session, try_convert_session, Stamp,
};
use sync_sessions::note::build_note;
use sync_sessions::select::select_entries;

fn entry(kind: &str, time: &str, display: Option<&str>) -> SessionLogEntry {
    SessionLogEntry {
        display: display.map(|d| d.to_string()),
        pasted_contents: Json::Null,
        message: None,
        timestamp: Some(Json::Text(time.to_string())),
        project: None,
        cwd: None,
        session_id: Some("abc123def456".to_string()),
        agent_id: None,
        entry_type: Some(kind.to_string()),
        data: None,
        uuid: Some(format!("{}{}", kind, time)),
        parent_tool_use_id: None,
        is_sidechain: false,
        tool_use_result: None,
    }
}

fn stamps(entries: &[SessionLogEntry], places: &[usize]) -> Vec<Stamp> {
    let stamp = |i: &usize| {
        let millis = entries[*i].get_timestamp_millis();
        Stamp { date: format_date_at(millis, 0), time: format_time_at(millis, 0) }
    };
    places.iter().map(stamp).collect()
}

fn example() -> Vec<SessionLogEntry> {
    let mut entries = vec![
        entry("user", "2026-03-15T14:30:45Z", Some("Implement feature X with error handling")),
        entry(
            "assistant",
            "2026-03-15T14:31:02Z",
            Some("I'll start by examining the codebase structure."),
        ),
        entry("progress", "2026-03-15T14:31:15Z", Some("> Scanned 42 files in src/")),
        entry("user", "2026-03-15T14:32:10Z", Some("Add validation logic")),
        entry(
            "assistant",
            "2026-03-15T14:32:45Z",
            Some(
                "Here's the validation function:\n> ```rust\n> fn validate_input(input: &str) \
                 -> Result<bool> {\n>   ...\n> }\n> ```",
            ),
        ),
        entry(
            "progress",
            "2026-03-15T14:33:00Z",
            Some("> [stderr] warning: unused variable\n> [stdout] Build succeeded"),
        ),
    ];
    entries[0].cwd = Some("/Users/username/projects/my-project".to_string());
    entries
}

const EXAMPLE: &str = "---
date: 2026-03-15
time: 14:30:45
datetime: 2026-03-15 14:30:45
project: my-project
cwd: /Users/username/projects/my-project
summary: Implement feature X with error handling
---

# Session: abc123def456

**Project:** my-project
**Generated:** 2026-03-15 15:45:32.123456789 UTC

## 2026-03-15

### 14:30:45
**User:** Implement feature X with error handling

### 14:31:02
**Assistant:** I'll start by examining the codebase structure.

### 14:31:15
**Output:** > Scanned 42 files in src/

### 14:32:10
**User:** Add validation logic

### 14:32:45
**Assistant:** Here's the validation function:
> ```rust
> fn validate_input(input: &str) -> Result<bool> {
>   ...
> }
> ```

### 14:33:00
**Output:** > [stderr] warning: unused variable
> [stdout] Build succeeded

";

#[test]
fn note_on_the_example_session() {
    let entries = example();
    let places = select_entries(&entries);
    let stamps = stamps(&entries, &places);
    let note = render_session(
        &entries,
        &places,
        &stamps,
        Some("my-project"),
        "2026-03-15 15:45:32.123456789 UTC",
    );
    assert_eq!(note, EXAMPLE);
}

#[test]
fn days_are_in_order_and_entries_without_display_leave_only_their_day() {
    let mut entries = vec![
        entry("summary", "2026-03-16T10:00:00Z", Some("late")),
        entry("user", "2026-03-15T09:00:00Z", Some("/clear")),
        entry("system", "2026-03-14T09:00:00Z", None),
        entry("assistant", "2026-03-15T08:00:00Z", Some("early")),
    ];
    entries[0].session_id = None;
    entries[1].agent_id = Some("zeta".to_string());
    entries[2].agent_id = Some("alpha".to_string());
    entries[3].agent_id = Some("zeta".to_string());
    let places = select_entries(&entries);
    let stamps = stamps(&entries, &places);
    let note = render_session(&entries, &places, &stamps, None, "now");
    assert_eq!(
        note,
        "---\ndate: 2026-03-16\ntime: 10:00:00\ndatetime: 2026-03-16 10:00:00\n\
         project: unknown\ncwd: \nsummary: \n---\n\n\
         # Session: unknown\n\n**Project:** unknown\n**Subagents:** alpha, zeta\n\
         **Generated:** now\n\n\
         ## 2026-03-14\n\n\
         ## 2026-03-15\n\n### 09:00:00\n**User:** /clear\n\n### 08:00:00\n**Assistant:** early\n\n\
         ## 2026-03-16\n\n### 10:00:00\nlate\n\n"
    );
}

#[test]
fn agents_without_a_name_are_left_out() {
    let mut entries = example();
    entries[1].agent_id = Some(String::new());
    assert!(get_agent_ids(&entries).is_empty());
    entries[2].agent_id = Some("b".to_string());
    entries[3].agent_id = Some("a".to_string());
    entries[4].agent_id = Some("b".to_string());
    assert_eq!(get_agent_ids(&entries), vec!["a", "b"]);
}

fn rendered(entries: &[SessionLogEntry]) -> String {
    let places = select_entries(entries);
    render_session(entries, &places, &stamps(entries, &places), Some("p"), "now")
}

fn with_more() -> Vec<SessionLogEntry> {
    let mut entries = example();
    entries.push(entry("system", "2026-03-17T10:00:00Z", None));
    entries[1].agent_id = Some("beta".to_string());
    for parent in ["tool", "tool", "other"] {
        let mut report = entry("progress", "2026-03-18T10:00:00Z", None);
        report.data = Some(Json::Object(vec![
            ("type".to_string(), Json::Text("bash_progress".to_string())),
            ("output".to_string(), Json::Text(format!("out of {}", parent))),
        ]));
        report.parent_tool_use_id = Some(parent.to_string());
        entries.push(report);
    }
    entries
}

#[test]
fn repeated_entries_leave_the_note_as_it_is() {
    let once = rendered(&with_more());
    assert!(once.contains("## 2026-03-17\n\n## 2026-03-18\n\n"));
    let mut twice = with_more();
    let mut again = with_more();
    again.reverse();
    twice.extend(again);
    twice.push(with_more().remove(6));
    assert_eq!(rendered(&twice), once);

    let mut changed = with_more();
    changed.push(entry("user", "2026-03-18T11:00:00Z", Some("more")));
    assert_ne!(rendered(&changed), once);
}

#[test]
fn no_entries_no_note() {
    assert_eq!(render_session(&[], &Vec::new(), &Vec::new(), None, "now"), "");
    assert_eq!(convert_session_to_markdown(&[], &Vec::new(), "/p"), "");
    assert_eq!(try_convert_session(&[], &Vec::new(), "/p").as_deref(), Some(""));
}

#[test]
fn conversion_uses_the_clock_of_this_machine() {
    let entries = example();
    let note = convert_session_to_markdown(&entries, &Vec::new(), "/p");
    let millis = entries[5].get_timestamp_millis();
    assert!(note.contains(&format!("## {}\n\n", format_date(millis))));
    assert!(note.contains(&format!("### {}\n**Output:** > [stderr]", format_time(millis))));
    assert!(note.contains("\nproject: my-project\n"));
    assert!(!note.contains("**Generated:** \n"));
    let year = note.split("**Generated:** ").nth(1).unwrap();
    assert!(year[..4].parse::<u32>().unwrap() >= 2024);
}

#[test]
fn times_out_of_range_give_no_note() {
    let mut entries = example();
    entries[3].timestamp = Some(Json::Unsigned(LAST_INSTANT));
    assert!(try_convert_session(&entries, &Vec::new(), "/p").is_some());
    entries[3].timestamp = Some(Json::Unsigned(LAST_INSTANT + 1));
    assert_eq!(try_convert_session(&entries, &Vec::new(), "/p"), None);
    entries[3].timestamp = Some(Json::Text("1969-12-31T23:59:59Z".to_string()));
    assert_eq!(try_convert_session(&entries, &Vec::new(), "/p"), None);
}

#[test]
fn times_of_entries_that_are_not_kept_do_not_matter() {
    let mut entries = example();
    let mut again = entry("user", "2026-03-15T14:30:46Z", Some("Add validation logic"));
    again.timestamp = Some(Json::Unsigned(u64::MAX));
    entries.push(again);
    assert!(try_convert_session(&entries, &Vec::new(), "/p").is_some());
}

#[test]
fn note_and_record_of_a_session() {
    let mut entries = example();
    for e in &mut entries {
        e.session_id = Some("a/b".to_string());
        e.cwd = None;
    }
    entries.reverse();
    entries.push(entry("user", "2020-01-01T00:00:00Z", Some("other session")));
    let first = entries[5].get_timestamp_millis();
    let logs = vec!["/p/-Users-u-my-project/x.jsonl".to_string()];
    let note = build_note("a/b", entries, &logs, "/p").unwrap();
    assert_eq!(note.file_name, "a_b.md");
    assert_eq!(note.output_path, "sessions/a_b.md");
    assert_eq!(note.project.as_deref(), Some("my-project"));
    assert_eq!(note.entry_count, 6);
    assert_eq!(note.summary.as_deref(), Some("Implement feature X with error handling"));
    let moment = format!("{} {}", format_date(first), format_time(first));
    assert_eq!(note.datetime, Some(moment.clone()));
    let head = format!(
        "---\ndate: {}\ntime: {}\ndatetime: {}\n",
        format_date(first),
        format_time(first),
        moment
    );
    assert!(note.markdown.starts_with(&head));
    assert!(note.markdown.contains("# Session: a/b\n\n**Project:** my-project\n"));
    assert!(!note.markdown.contains("other session"));

    let empty = build_note("nobody", Vec::new(), &Vec::new(), "/p").unwrap();
    assert_eq!(empty.markdown, "");
    assert_eq!(empty.entry_count, 0);
    assert_eq!(empty.datetime, None);
    assert_eq!(empty.project, None);

    let mut far = entry("user", "x", Some("far"));
    far.timestamp = Some(Json::Unsigned(u64::MAX));
    assert!(build_note("abc123def456", vec![far], &Vec::new(), "/p").is_none());
}
