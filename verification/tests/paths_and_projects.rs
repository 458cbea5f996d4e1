use std::path::Path;
use sync_sessions::entry::SessionLogEntry;
use sync_sessions::json::Json;
use sync_sessions::paths::{
    get_file_name, get_project_name, get_safe_id, is_log_path, note_file_name, note_path,
    strip_home,
};
use sync_sessions::project::{get_project_of_log, get_session_project};

const PATHS: [&str; 24] = [
    "", "/", ".", "..", "./", "../", "a", "a/", "a//", "/a", "/a/b", "/a/b/", "a/.", "a/./", "a/..",
    "a/../", "./a", "././.", "/.", "/..", "a/b/../..", "a/.b", "a/b.jsonl", "żółć/요약.jsonl",
];

#[test]
fn names_as_in_the_standard_library() {
    for p in PATHS {
        let expected = Path::new(p).file_name().map(|n| n.to_str().unwrap().to_string());
        assert_eq!(get_file_name(p), expected, "{:?}", p);
        assert_eq!(get_project_name(p), expected.unwrap_or("unknown".to_string()), "{:?}", p);
    }
}

#[test]
fn slash_after_a_path_changes_nothing() {
    for p in PATHS {
        assert_eq!(get_project_name(&format!("{}/", p)), get_project_name(p));
        assert_eq!(get_project_name(&format!("{}/.", p)), get_project_name(p));
    }
}

#[test]
fn project_is_the_final_component() {
    for name in ["my-project", "a", "...", ".hidden", "unknown", "요약"] {
        assert_eq!(get_project_name(name), name);
        for p in PATHS {
            assert_eq!(get_project_name(&format!("{}/{}", p, name)), name);
        }
    }
}

#[test]
fn logs_by_extension() {
    let more = ["x.jsonl", ".jsonl", "..jsonl", "a.jsonl/", "a.jsonl/.", "jsonl", "a.json",
        "a.jsonl.bak", "a/.jsonl", "a.b.jsonl", "a.JSONL", "a.jsonl/.."];
    for p in PATHS.into_iter().chain(more) {
        let expected = Path::new(p).extension().and_then(|e| e.to_str()) == Some("jsonl");
        assert_eq!(is_log_path(p), expected, "{:?}", p);
    }
}

#[test]
fn home_is_split_off() {
    assert_eq!(strip_home("~/notes/x").as_deref(), Some("notes/x"));
    assert_eq!(strip_home("~/").as_deref(), Some(""));
    assert_eq!(strip_home("~"), None);
    assert_eq!(strip_home("~me/x"), None);
    assert_eq!(strip_home("/a/~/b"), None);
}

#[test]
fn session_ids_as_file_names() {
    assert_eq!(get_safe_id("a/b//c"), "a_b__c");
    assert_eq!(get_safe_id("plain-id"), "plain-id");
    assert_eq!(note_file_name("a/b"), "a_b.md");
    assert_eq!(note_path("a/b"), "sessions/a_b.md");
}

#[test]
fn project_of_a_log() {
    let dir = "/home/me/.logs/projects";
    let of = |log: &str| get_project_of_log(&format!("{}/{}", dir, log), dir);
    assert_eq!(of("-Users-username-my-project/session.jsonl").as_deref(), Some("my-project"));
    assert_eq!(of("-Users-username-project-1/session-2.jsonl").as_deref(), Some("project-1"));
    assert_eq!(of("-Users-username-p/sub/deep/s.jsonl").as_deref(), Some("p"));
    assert_eq!(of("-tmp/s.jsonl").as_deref(), Some("tmp"));
    assert_eq!(of("-srv-data/s.jsonl").as_deref(), Some("data"));
    assert_eq!(of("plain/s.jsonl").as_deref(), Some("plain"));
    assert_eq!(of("-/s.jsonl"), None);
    assert_eq!(of("s.jsonl"), None);
    assert_eq!(get_project_of_log("/elsewhere/-a-b-c/s.jsonl", dir), None);
}

fn entry(project: Option<&str>, cwd: Option<&str>) -> SessionLogEntry {
    SessionLogEntry {
        display: None,
        pasted_contents: Json::Null,
        message: None,
        timestamp: None,
        project: project.map(|p| p.to_string()),
        cwd: cwd.map(|p| p.to_string()),
        session_id: None,
        agent_id: None,
        entry_type: None,
        data: None,
        uuid: None,
        parent_tool_use_id: None,
        is_sidechain: false,
        tool_use_result: None,
    }
}

#[test]
fn project_of_a_session() {
    let logs = vec!["/p/s.jsonl".to_string(), "/p/-Users-u-from-log/s.jsonl".to_string()];
    let of = |entries: &[SessionLogEntry]| get_session_project(entries, &logs, "/p");
    assert_eq!(of(&[entry(Some("/x/one"), Some("/x/two"))]).as_deref(), Some("one"));
    assert_eq!(of(&[entry(None, Some("/x/two"))]).as_deref(), Some("two"));
    assert_eq!(
        of(&[entry(None, None), entry(None, Some("/x/two")), entry(Some("/x/one"), None)])
            .as_deref(),
        Some("two")
    );
    assert_eq!(of(&[entry(Some("/"), None)]).as_deref(), Some("unknown"));
    assert_eq!(of(&[entry(None, None)]).as_deref(), Some("from-log"));
    assert_eq!(of(&[]).as_deref(), Some("from-log"));
    assert_eq!(get_session_project(&[entry(None, None)], &Vec::new(), "/p"), None);
}
