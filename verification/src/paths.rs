//! Paths of projects, logs and notes.

use vstd::prelude::*;

use crate::entry::chars_of;
use crate::text::from_chars;
use crate::text::same_text;
use crate::text::starts_with;
use crate::text::to_chars;

verus! {

/// Where the part of a path after its last slash starts.
pub open spec fn name_start(path: Seq<char>) -> int
    decreases path.len(),
{
    if path.len() == 0 {
        0
    } else if path.last() == '/' {
        path.len() as int
    } else {
        name_start(path.drop_last())
    }
}

/// The part of a path after its last slash starts inside the path or at its end.
pub proof fn lemma_name_start(path: Seq<char>)
    ensures
        0 <= name_start(path) <= path.len(),
        name_start(path) > 0 ==> path[name_start(path) - 1] == '/',
        forall|i: int| name_start(path) <= i < path.len() ==> path[i] != '/',
    decreases path.len(),
{
    if path.len() > 0 && path.last() != '/' {
        lemma_name_start(path.drop_last());
        assert forall|i: int| name_start(path) <= i < path.len() implies path[i] != '/' by {
            if i < path.len() - 1 {
                assert(path.drop_last()[i] == path[i]);
            }
        }
    }
}

/// The last component of a path. Empty components and those that say "here" are passed over.
pub open spec fn last_component(path: Seq<char>) -> Option<Seq<char>>
    decreases path.len(),
{
    let start = name_start(path);
    let name = path.skip(start);
    if name.len() > 0 && name != "."@ {
        Some(name)
    } else if 0 < start <= path.len() {
        last_component(path.take(start - 1))
    } else {
        None
    }
}

/// The name of the file or directory that a path leads to, unless the path ends with a step
/// up or names nothing.
pub open spec fn file_name(path: Seq<char>) -> Option<Seq<char>> {
    match last_component(path) {
        Some(name) => if name == ".."@ {
            None
        } else {
            Some(name)
        },
        None => None,
    }
}

/// The name of a project by the path of its directory.
pub open spec fn project_name(path: Seq<char>) -> Seq<char> {
    match file_name(path) {
        Some(name) => name,
        None => "unknown"@,
    }
}

/// Finds the last component of a path.
fn get_last_component(path: &str) -> (component: Option<String>)
    ensures
        chars_of(component) == last_component(path@),
{
    let chars = to_chars(path);
    let mut end: usize = chars.len();
    assert(chars@.take(end as int) =~= path@);
    loop
        invariant
            end <= chars@.len(),
            last_component(path@) == last_component(chars@.take(end as int)),
        decreases end,
    {
        let ghost head = chars@.take(end as int);
        let mut start: usize = end;
        assert(chars@.take(start as int) =~= head);
        while start > 0 && chars[start - 1] != '/'
            invariant
                start <= end <= chars@.len(),
                name_start(head) == name_start(chars@.take(start as int)),
            decreases start,
        {
            assert(chars@.take(start as int).drop_last() =~= chars@.take(start - 1));
            start = start - 1;
        }
        assert(name_start(head) == start);
        let name = from_chars(chars.as_slice(), start, end);
        assert(head.skip(start as int) =~= name@);
        if start < end && !same_text(name.as_str(), ".") {
            return Some(name);
        }
        if start == 0 {
            return None;
        }
        assert(head.take(start - 1) =~= chars@.take(start - 1));
        end = start - 1;
    }
}

/// Finds the name of the file or directory that a path leads to.
pub fn get_file_name(path: &str) -> (name: Option<String>)
    ensures
        chars_of(name) == file_name(path@),
{
    match get_last_component(path) {
        Some(name) => if same_text(name.as_str(), "..") {
            None
        } else {
            Some(name)
        },
        None => None,
    }
}

/// The name of a project: the last component of its path, or `unknown` where there is none.
pub fn get_project_name(project_path: &str) -> (name: String)
    ensures
        name@ == project_name(project_path@),
{
    match get_file_name(project_path) {
        Some(name) => name,
        None => "unknown".to_owned(),
    }
}

/// Whether a path leads to a log: the name has the extension `jsonl`, and something before it.
pub open spec fn leads_to_log(path: Seq<char>) -> bool {
    match file_name(path) {
        Some(name) => name.len() > ".jsonl"@.len() && ".jsonl"@.is_suffix_of(name),
        None => false,
    }
}

/// Tells the paths of logs from other paths.
pub fn is_log_path(path: &str) -> (is: bool)
    ensures
        is == leads_to_log(path@),
{
    match get_file_name(path) {
        Some(name) => {
            let chars = to_chars(name.as_str());
            proof {
                reveal_strlit(".jsonl");
            }
            if chars.len() <= 6 {
                return false;
            }
            let n: usize = chars.len();
            let tail = from_chars(chars.as_slice(), n - 6, n);
            same_text(tail.as_str(), ".jsonl")
        },
        None => false,
    }
}

/// What follows the home directory in a path that starts with `~/`.
pub open spec fn after_home(path: Seq<char>) -> Option<Seq<char>> {
    if "~/"@.is_prefix_of(path) {
        Some(path.skip(2))
    } else {
        None
    }
}

/// Splits off the home directory: the rest of a path that starts with `~/`, nothing for any
/// other path.
pub fn strip_home(path: &str) -> (rest: Option<String>)
    ensures
        chars_of(rest) == after_home(path@),
{
    if starts_with(path, "~/") {
        proof {
            reveal_strlit("~/");
        }
        let chars = to_chars(path);
        assert(chars@.subrange(2, chars@.len() as int) =~= path@.skip(2));
        Some(from_chars(chars.as_slice(), 2, chars.len()))
    } else {
        None
    }
}

/// A session identifier that can be a file name: `_` in place of every `/`.
pub open spec fn safe_id(session_id: Seq<char>) -> Seq<char> {
    Seq::new(
        session_id.len(),
        |i: int| if session_id[i] == '/' {
            '_'
        } else {
            session_id[i]
        },
    )
}

/// Makes a session identifier fit for a file name.
pub fn get_safe_id(session_id: &str) -> (safe: String)
    ensures
        safe@ == safe_id(session_id@),
{
    let mut safe = String::new();
    for c in it: session_id.chars()
        invariant
            it.seq() == session_id@,
            safe@ == safe_id(session_id@).take(it.index() as int),
    {
        let ghost n = it.index() as int;
        safe.push(
            if c == '/' {
                '_'
            } else {
                c
            },
        );
        assert(safe_id(session_id@).take(n + 1) =~= safe_id(session_id@).take(n).push(
            safe_id(session_id@)[n],
        ));
    }
    assert(safe_id(session_id@).take(session_id@.len() as int) =~= safe_id(session_id@));
    safe
}

/// The name of the file that holds the note on a session.
pub fn note_file_name(session_id: &str) -> (name: String)
    ensures
        name@ == safe_id(session_id@) + ".md"@,
{
    let mut name = get_safe_id(session_id);
    name.append(".md");
    name
}

/// The path of the note on a session, from the vault.
pub fn note_path(session_id: &str) -> (path: String)
    ensures
        path@ == "sessions/"@ + safe_id(session_id@) + ".md"@,
{
    let mut path = "sessions/".to_owned();
    path.append(get_safe_id(session_id).as_str());
    path.append(".md");
    path
}

} // verus!
