//! The project of a session.

use vstd::prelude::*;

use crate::entry::chars_of;
use crate::entry::SessionLogEntry;
use crate::paths::get_project_name;
use crate::paths::project_name;
use crate::text::from_chars;
use crate::text::starts_with;
use crate::text::to_chars;

verus! {

/// The directory that an entry was made in: that of its project, else its working directory.
pub open spec fn place_of(entry: SessionLogEntry) -> Option<Seq<char>> {
    match entry.project {
        Some(p) => Some(p@),
        None => chars_of(entry.cwd),
    }
}

/// What the first entry that tells anything tells.
pub open spec fn first_told(
    entries: Seq<SessionLogEntry>,
    told: spec_fn(SessionLogEntry) -> Option<Seq<char>>,
) -> Option<Seq<char>>
    decreases entries.len(),
{
    if entries.len() == 0 {
        None
    } else if told(entries[0]) is Some {
        told(entries[0])
    } else {
        first_told(entries.drop_first(), told)
    }
}

/// The directory that the first entry that tells one was made in.
pub open spec fn first_place(entries: Seq<SessionLogEntry>) -> Option<Seq<char>> {
    first_told(entries, |entry: SessionLogEntry| place_of(entry))
}

/// The working directory of the first entry that tells one.
pub open spec fn first_cwd(entries: Seq<SessionLogEntry>) -> Option<Seq<char>> {
    first_told(entries, |entry: SessionLogEntry| chars_of(entry.cwd))
}

/// How many characters stand before the first `mark`.
pub open spec fn distance(text: Seq<char>, mark: char) -> nat
    decreases text.len(),
{
    if text.len() == 0 || text[0] == mark {
        0
    } else {
        1 + distance(text.drop_first(), mark)
    }
}

/// What follows the first `-`; the whole text where there is none.
pub open spec fn after_dash(text: Seq<char>) -> Seq<char> {
    if distance(text, '-') < text.len() {
        text.skip(distance(text, '-') as int + 1)
    } else {
        text
    }
}

/// The project that a directory of logs is named after. The name is the path of the project
/// with `-` for `/`: a leading `-` is the root, two segments lead to the directory of a user,
/// and what follows is the project, whose own name may hold a `-`.
pub open spec fn encoded_project(directory: Seq<char>) -> Seq<char> {
    let path = if directory.len() > 0 && directory[0] == '-' {
        directory.drop_first()
    } else {
        directory
    };
    after_dash(after_dash(path))
}

/// The project that the directory of a log is named after; nothing where the log is not in a
/// directory below that of the projects, or the name holds no project.
pub open spec fn project_of_log(log_path: Seq<char>, projects_dir: Seq<char>) -> Option<Seq<char>> {
    let start = projects_dir + "/"@;
    let below = log_path.skip(start.len() as int);
    let end = distance(below, '/');
    if start.is_prefix_of(log_path) && end < below.len() && encoded_project(
        below.take(end as int),
    ).len() > 0 {
        Some(encoded_project(below.take(end as int)))
    } else {
        None
    }
}

/// The project that the first of the logs that tells one is named after.
pub open spec fn project_of_logs(
    log_paths: Seq<String>,
    projects_dir: Seq<char>,
) -> Option<Seq<char>>
    decreases log_paths.len(),
{
    if log_paths.len() == 0 {
        None
    } else if project_of_log(log_paths[0]@, projects_dir) is Some {
        project_of_log(log_paths[0]@, projects_dir)
    } else {
        project_of_logs(log_paths.drop_first(), projects_dir)
    }
}

/// The project of a session: by its entries, else by the logs that hold them.
pub open spec fn session_project(
    entries: Seq<SessionLogEntry>,
    log_paths: Seq<String>,
    projects_dir: Seq<char>,
) -> Option<Seq<char>> {
    match first_place(entries) {
        Some(place) => Some(project_name(place)),
        None => project_of_logs(log_paths, projects_dir),
    }
}

/// Finds the first `mark` in the characters from `from` on; their end where there is none.
fn find(chars: &Vec<char>, from: usize, mark: char) -> (place: usize)
    requires
        from <= chars@.len(),
    ensures
        from <= place <= chars@.len(),
        place == from + distance(chars@.skip(from as int), mark),
{
    let mut i: usize = from;
    while i < chars.len() && chars[i] != mark
        invariant
            from <= i <= chars@.len(),
            from + distance(chars@.skip(from as int), mark) == i + distance(
                chars@.skip(i as int),
                mark,
            ),
        decreases chars@.len() - i,
    {
        assert(chars@.skip(i as int).drop_first() =~= chars@.skip(i + 1));
        i = i + 1;
    }
    i
}

/// Finds where what follows the first `-` between `from` and `to` starts; `from` where there
/// is none.
fn skip_dash(chars: &Vec<char>, from: usize, to: usize) -> (start: usize)
    requires
        from <= to <= chars@.len(),
    ensures
        from <= start <= to,
        chars@.subrange(start as int, to as int) == after_dash(
            chars@.subrange(from as int, to as int),
        ),
{
    let ghost text = chars@.subrange(from as int, to as int);
    let mut i: usize = from;
    assert(chars@.subrange(i as int, to as int) =~= text);
    while i < to && chars[i] != '-'
        invariant
            from <= i <= to <= chars@.len(),
            text == chars@.subrange(from as int, to as int),
            from + distance(text, '-') == i + distance(
                chars@.subrange(i as int, to as int),
                '-',
            ),
        decreases to - i,
    {
        assert(chars@.subrange(i as int, to as int).drop_first() =~= chars@.subrange(
            i + 1,
            to as int,
        ));
        i = i + 1;
    }
    if i < to {
        assert(text.skip(i - from + 1) =~= chars@.subrange(i + 1, to as int));
        i + 1
    } else {
        from
    }
}

/// The project that the directory of a log is named after.
pub fn get_project_of_log(log_path: &str, projects_dir: &str) -> (project: Option<String>)
    ensures
        chars_of(project) == project_of_log(log_path@, projects_dir@),
{
    let mut start = projects_dir.to_owned();
    start.append("/");
    if !starts_with(log_path, start.as_str()) {
        return None;
    }
    let chars = to_chars(log_path);
    let from: usize = to_chars(start.as_str()).len();
    let to: usize = find(&chars, from, '/');
    if to >= chars.len() {
        return None;
    }
    let ghost directory = chars@.subrange(from as int, to as int);
    assert(chars@.skip(from as int).take(to - from) =~= directory);
    let root: usize = if from < to && chars[from] == '-' {
        from + 1
    } else {
        from
    };
    assert(directory.len() > 0 && directory[0] == '-' ==> directory.drop_first()
        =~= chars@.subrange(root as int, to as int));
    let home: usize = skip_dash(&chars, root, to);
    let name: usize = skip_dash(&chars, home, to);
    if name < to {
        Some(from_chars(chars.as_slice(), name, to))
    } else {
        None
    }
}

/// The directory that the first entry that tells one was made in.
fn get_first_place(entries: &[SessionLogEntry]) -> (place: Option<&str>)
    ensures
        first_place(entries@) == match place {
            Some(p) => Some(p@),
            None => None,
        },
{
    let mut i: usize = 0;
    assert(entries@.skip(0) =~= entries@);
    while i < entries.len()
        invariant
            i <= entries@.len(),
            first_place(entries@) == first_place(entries@.skip(i as int)),
        decreases entries@.len() - i,
    {
        if let Some(project) = &entries[i].project {
            return Some(project.as_str());
        }
        if let Some(cwd) = &entries[i].cwd {
            return Some(cwd.as_str());
        }
        assert(entries@.skip(i as int).drop_first() =~= entries@.skip(i + 1));
        i = i + 1;
    }
    None
}

/// The working directory of the first entry that tells one.
pub fn get_first_cwd(entries: &[SessionLogEntry]) -> (cwd: Option<&str>)
    ensures
        first_cwd(entries@) == match cwd {
            Some(p) => Some(p@),
            None => None,
        },
{
    let mut i: usize = 0;
    assert(entries@.skip(0) =~= entries@);
    while i < entries.len()
        invariant
            i <= entries@.len(),
            first_cwd(entries@) == first_cwd(entries@.skip(i as int)),
        decreases entries@.len() - i,
    {
        if let Some(cwd) = &entries[i].cwd {
            return Some(cwd.as_str());
        }
        assert(entries@.skip(i as int).drop_first() =~= entries@.skip(i + 1));
        i = i + 1;
    }
    None
}

/// The project of a session: the name of the directory of the first entry that tells one, else
/// the project that the directory of its logs is named after.
pub fn get_session_project(
    entries: &[SessionLogEntry],
    log_paths: &Vec<String>,
    projects_dir: &str,
) -> (project: Option<String>)
    ensures
        chars_of(project) == session_project(entries@, log_paths@, projects_dir@),
{
    if let Some(place) = get_first_place(entries) {
        return Some(get_project_name(place));
    }
    let mut i: usize = 0;
    assert(log_paths@.skip(0) =~= log_paths@);
    while i < log_paths.len()
        invariant
            i <= log_paths@.len(),
            first_place(entries@) is None,
            project_of_logs(log_paths@, projects_dir@) == project_of_logs(
                log_paths@.skip(i as int),
                projects_dir@,
            ),
        decreases log_paths@.len() - i,
    {
        let project = get_project_of_log(log_paths[i].as_str(), projects_dir);
        if project.is_some() {
            return project;
        }
        assert(log_paths@.skip(i as int).drop_first() =~= log_paths@.skip(i + 1));
        i = i + 1;
    }
    None
}

} // verus!
