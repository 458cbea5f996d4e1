//! What holds of the properties of a session: its summary, its working directory, its project
//! and its agents.

use vstd::prelude::*;

use crate::entry::chars_of;
use crate::entry::display_of;
use crate::entry::SessionLogEntry;
use crate::laws_of_display::is_of_type;
use crate::laws_of_text::is_one_line;
use crate::laws_of_text::law_lines_are_lines;
use crate::laws_of_text::law_trimmed;
use crate::laws_of_text::lemma_first_line;
use crate::markdown::agent_ids;
use crate::markdown::agent_ids_before;
use crate::order::ascending;
use crate::order::lemma_sorted_distinct;
use crate::paths::project_name;
use crate::project::after_dash;
use crate::project::distance;
use crate::project::encoded_project;
use crate::project::first_cwd;
use crate::project::first_told;
use crate::project::place_of;
use crate::project::project_of_log;
use crate::project::project_of_logs;
use crate::project::session_project;
use crate::summary::is_noise;
use crate::summary::summary_of;
use crate::summary::summary_of_entry;
use crate::summary::summary_of_message;
use crate::text::is_white_space;
use crate::text::line_len;
use crate::text::lines_of;
use crate::text::trimmed;
use crate::text::without_cr;

verus! {

/// What is told first is what the first entry that tells anything tells.
proof fn lemma_first_told(
    entries: Seq<SessionLogEntry>,
    told: spec_fn(SessionLogEntry) -> Option<Seq<char>>,
    i: int,
)
    requires
        0 <= i <= entries.len(),
        forall|j: int| 0 <= j < i ==> told(#[trigger] entries[j]) is None,
        i < entries.len() ==> told(entries[i]) is Some,
    ensures
        first_told(entries, told) == (if i < entries.len() {
            told(entries[i])
        } else {
            None
        }),
    decreases i,
{
    if i > 0 {
        let rest = entries.drop_first();
        assert(told(entries[0]) is None);
        assert forall|j: int| 0 <= j < i - 1 implies told(#[trigger] rest[j]) is None by {
            assert(rest[j] == entries[j + 1]);
        }
        lemma_first_told(rest, told, i - 1);
    }
}

/// Whether a text starts with a tag, or with what a tool, the system or a table puts there.
pub open spec fn is_not_written(text: Seq<char>) -> bool {
    ||| "<command"@.is_prefix_of(text)
    ||| "<local-command"@.is_prefix_of(text)
    ||| "<bash-"@.is_prefix_of(text)
    ||| text[0] == '>'
    ||| text[0] == '/'
    ||| text[0] == '|'
    ||| "You are"@.is_prefix_of(text)
    ||| "Base directory"@.is_prefix_of(text)
    ||| "Warmup"@.is_prefix_of(text)
    ||| "요약할 텍스트:"@.is_prefix_of(text)
    ||| text[0] == '<' && text.contains('>')
}

/// Whether an entry is a message of the user that says something: of type `user`, and what is
/// shown of it is neither blank nor noise.
pub open spec fn is_real_message(entry: SessionLogEntry) -> bool {
    &&& is_of_type(entry, "user"@)
    &&& display_of(entry) matches Some(shown) && trimmed(shown).len() > 0 && !is_not_written(
        trimmed(shown),
    )
}

/// Whether a text is the start of another one: of its first line, at most a hundred characters,
/// and no fewer than there are.
pub open spec fn is_start_of(start: Seq<char>, text: Seq<char>) -> bool {
    &&& 0 < start.len() <= 100
    &&& start.is_prefix_of(text)
    &&& is_one_line(start)
    &&& {
        let n = start.len() as int;
        ||| n == 100
        ||| n == text.len()
        ||| text[n] == '\n'
        ||| n + 1 < text.len() && text[n] == '\r' && text[n + 1] == '\n'
    }
}

/// The noise that is left out, by what it starts with.
proof fn lemma_noise(text: Seq<char>)
    requires
        text.len() > 0,
    ensures
        is_noise(text) == is_not_written(text),
{
    reveal_strlit(">");
    reveal_strlit("/");
    reveal_strlit("|");
    assert(">"@.is_prefix_of(text) == (text[0] == '>')) by {
        assert(text.subrange(0, 1) =~= seq![text[0]]);
        assert(">"@ =~= seq!['>']);
        assert(seq![text[0]][0] == text[0] && seq!['>'][0] == '>');
    }
    assert("/"@.is_prefix_of(text) == (text[0] == '/')) by {
        assert(text.subrange(0, 1) =~= seq![text[0]]);
        assert("/"@ =~= seq!['/']);
        assert(seq![text[0]][0] == text[0] && seq!['/'][0] == '/');
    }
    assert("|"@.is_prefix_of(text) == (text[0] == '|')) by {
        assert(text.subrange(0, 1) =~= seq![text[0]]);
        assert("|"@ =~= seq!['|']);
        assert(seq![text[0]][0] == text[0] && seq!['|'][0] == '|');
    }
}

/// The first line of a trimmed text, cut short, is its start.
proof fn lemma_start(message: Seq<char>)
    requires
        trimmed(message).len() > 0,
        !is_not_written(trimmed(message)),
    ensures
        summary_of_message(message) is Some,
        is_start_of(summary_of_message(message)->0, trimmed(message)),
{
    let text = trimmed(message);
    lemma_noise(text);
    lemma_first_line(text);
    law_trimmed(message);
    law_lines_are_lines(text);
    let n = line_len(text) as int;
    if n == 0 {
        assert(text[0] == '\n');
        assert(is_white_space('\n'));
    }
    let line = lines_of(text)[0];
    if n < text.len() {
        assert(line == without_cr(text.take(n)));
        if n == 1 && text[0] == '\r' {
            assert(is_white_space('\r'));
        }
        if text.take(n).last() == '\r' {
            assert(text[n - 1] == '\r');
        }
    }
    assert(line =~= text.subrange(0, line.len() as int));
    let start = summary_of_message(message)->0;
    assert(start =~= text.subrange(0, start.len() as int));
    assert(is_one_line(line));
    assert forall|i: int| 0 <= i < start.len() implies start[i] != '\n' by {
        assert(start[i] == line[i]);
    }
}

/// What an entry gives a summary of is a message of the user that says something.
proof fn lemma_real_message(entry: SessionLogEntry)
    ensures
        summary_of_entry(entry) is Some <==> is_real_message(entry),
        is_real_message(entry) ==> is_start_of(
            summary_of_entry(entry)->0,
            trimmed(display_of(entry)->0),
        ),
{
    if let Some(shown) = display_of(entry) {
        if trimmed(shown).len() > 0 {
            lemma_noise(trimmed(shown));
            if !is_not_written(trimmed(shown)) {
                lemma_start(shown);
            }
        }
    }
}

/// The summary of a session is the start of the first message of the user that says something,
/// wherever the entry holds what is shown of it.
pub proof fn law_summary_is_first_message(entries: Seq<SessionLogEntry>, i: int)
    requires
        0 <= i < entries.len(),
        is_real_message(entries[i]),
        forall|j: int| 0 <= j < i ==> !is_real_message(#[trigger] entries[j]),
    ensures
        summary_of(entries) is Some,
        is_start_of(summary_of(entries)->0, trimmed(display_of(entries[i])->0)),
{
    let told = |entry: SessionLogEntry| summary_of_entry(entry);
    assert forall|j: int| 0 <= j < i implies told(#[trigger] entries[j]) is None by {
        lemma_real_message(entries[j]);
    }
    lemma_real_message(entries[i]);
    lemma_first_told(entries, told, i);
}

/// A session in which the user says nothing has no summary.
pub proof fn law_no_summary(entries: Seq<SessionLogEntry>)
    requires
        forall|j: int| 0 <= j < entries.len() ==> !is_real_message(#[trigger] entries[j]),
    ensures
        summary_of(entries) is None,
{
    let told = |entry: SessionLogEntry| summary_of_entry(entry);
    assert forall|j: int| 0 <= j < entries.len() implies told(#[trigger] entries[j]) is None by {
        lemma_real_message(entries[j]);
    }
    lemma_first_told(entries, told, entries.len() as int);
}

/// The working directory of a session is that of the first entry that tells one.
pub proof fn law_working_directory(entries: Seq<SessionLogEntry>, i: int)
    requires
        0 <= i <= entries.len(),
        forall|j: int| 0 <= j < i ==> (#[trigger] entries[j]).cwd is None,
        i < entries.len() ==> entries[i].cwd is Some,
    ensures
        i < entries.len() ==> first_cwd(entries) == Some(entries[i].cwd->0@),
        i == entries.len() ==> first_cwd(entries) is None,
{
    let told = |entry: SessionLogEntry| chars_of(entry.cwd);
    assert forall|j: int| 0 <= j < i implies told(#[trigger] entries[j]) is None by {
        assert(entries[j].cwd is None);
    }
    lemma_first_told(entries, told, i);
}

/// The project of a session is named after the directory of the first entry that tells one: that
/// of its project, else its working directory. The logs have no part in it.
pub proof fn law_project_of_entries(
    entries: Seq<SessionLogEntry>,
    log_paths: Seq<String>,
    projects_dir: Seq<char>,
    i: int,
)
    requires
        0 <= i < entries.len(),
        forall|j: int|
            0 <= j < i ==> (#[trigger] entries[j]).project is None && entries[j].cwd is None,
    ensures
        entries[i].project matches Some(path) ==> session_project(entries, log_paths, projects_dir)
            == Some(project_name(path@)),
        entries[i].project is None ==> (entries[i].cwd matches Some(path) ==> session_project(
            entries,
            log_paths,
            projects_dir,
        ) == Some(project_name(path@))),
{
    let told = |entry: SessionLogEntry| place_of(entry);
    assert forall|j: int| 0 <= j < i implies told(#[trigger] entries[j]) is None by {
        assert(entries[j].cwd is None);
    }
    if place_of(entries[i]) is Some {
        lemma_first_told(entries, told, i);
    }
}

/// The project that the logs are named after is the one of the first that tells one.
proof fn lemma_project_of_logs(log_paths: Seq<String>, projects_dir: Seq<char>, l: int)
    requires
        0 <= l <= log_paths.len(),
        forall|j: int|
            0 <= j < l ==> project_of_log((#[trigger] log_paths[j])@, projects_dir) is None,
        l < log_paths.len() ==> project_of_log(log_paths[l]@, projects_dir) is Some,
    ensures
        project_of_logs(log_paths, projects_dir) == (if l < log_paths.len() {
            project_of_log(log_paths[l]@, projects_dir)
        } else {
            None
        }),
    decreases l,
{
    if l > 0 {
        let rest = log_paths.drop_first();
        assert(project_of_log(log_paths[0]@, projects_dir) is None);
        assert forall|j: int| 0 <= j < l - 1 implies project_of_log(
            (#[trigger] rest[j])@,
            projects_dir,
        ) is None by {
            assert(rest[j] == log_paths[j + 1]);
        }
        lemma_project_of_logs(rest, projects_dir, l - 1);
    }
}

/// Where no entry tells a directory, the project is the one that the first log that tells one is
/// named after.
pub proof fn law_project_of_logs(
    entries: Seq<SessionLogEntry>,
    log_paths: Seq<String>,
    projects_dir: Seq<char>,
    l: int,
)
    requires
        forall|j: int|
            0 <= j < entries.len() ==> (#[trigger] entries[j]).project is None && entries[j].cwd
                is None,
        0 <= l <= log_paths.len(),
        forall|j: int|
            0 <= j < l ==> project_of_log((#[trigger] log_paths[j])@, projects_dir) is None,
        l < log_paths.len() ==> project_of_log(log_paths[l]@, projects_dir) is Some,
    ensures
        session_project(entries, log_paths, projects_dir) == (if l < log_paths.len() {
            project_of_log(log_paths[l]@, projects_dir)
        } else {
            None
        }),
{
    let told = |entry: SessionLogEntry| place_of(entry);
    assert forall|j: int| 0 <= j < entries.len() implies told(#[trigger] entries[j]) is None by {
        assert(entries[j].cwd is None);
    }
    lemma_first_told(entries, told, entries.len() as int);
    lemma_project_of_logs(log_paths, projects_dir, l);
}

/// The first mark of a text stands behind what holds none.
proof fn lemma_distance(before: Seq<char>, mark: char, after: Seq<char>)
    requires
        !before.contains(mark),
    ensures
        distance(before + seq![mark] + after, mark) == before.len(),
        distance(before, mark) == before.len(),
    decreases before.len(),
{
    let whole = before + seq![mark] + after;
    if before.len() > 0 {
        let rest = before.drop_first();
        assert(before.contains(before[0]));
        assert(whole[0] == before[0]);
        if rest.contains(mark) {
            let k = choose|k: int| 0 <= k < rest.len() && rest[k] == mark;
            assert(before[k + 1] == mark);
        }
        lemma_distance(rest, mark, after);
        assert(whole.drop_first() =~= rest + seq![mark] + after);
    }
}

/// What follows a first dash.
proof fn lemma_after_dash(before: Seq<char>, after: Seq<char>)
    requires
        !before.contains('-'),
    ensures
        after_dash(before + seq!['-'] + after) == after,
        after_dash(before) == before,
{
    lemma_distance(before, '-', after);
    let whole = before + seq!['-'] + after;
    assert(whole.skip(before.len() as int + 1) =~= after);
}

/// The project that a log is named after, by the directory that it is in.
proof fn lemma_log_in_directory(projects_dir: Seq<char>, directory: Seq<char>, rest: Seq<char>)
    requires
        !directory.contains('/'),
    ensures
        project_of_log(projects_dir + "/"@ + directory + "/"@ + rest, projects_dir) == (
        if encoded_project(directory).len() > 0 {
            Some(encoded_project(directory))
        } else {
            None
        }),
{
    reveal_strlit("/");
    let path = projects_dir + "/"@ + directory + "/"@ + rest;
    let start = projects_dir + "/"@;
    let below = path.skip(start.len() as int);
    assert(path.subrange(0, start.len() as int) =~= start);
    assert("/"@ =~= seq!['/']);
    assert(below =~= directory + seq!['/'] + rest);
    lemma_distance(directory, '/', rest);
    assert(below.take(directory.len() as int) =~= directory);
}

/// Two texts without a slash, and a dash between them, hold no slash.
proof fn lemma_no_slash(a: Seq<char>, b: Seq<char>)
    requires
        !a.contains('/'),
        !b.contains('/'),
    ensures
        !(a + seq!['-'] + b).contains('/'),
{
    let whole = a + seq!['-'] + b;
    assert forall|i: int| 0 <= i < whole.len() implies whole[i] != '/' by {
        if i < a.len() {
            assert(a.contains(a[i]));
        } else if i > a.len() {
            assert(b.contains(b[i - a.len() - 1]));
        }
    }
}

/// The project that a log is named after, by what follows the dash for the root.
proof fn lemma_rooted_log(projects_dir: Seq<char>, name: Seq<char>, rest: Seq<char>)
    requires
        !name.contains('/'),
        after_dash(after_dash(name)).len() > 0,
    ensures
        project_of_log(projects_dir + "/-"@ + name + "/"@ + rest, projects_dir) == Some(
            after_dash(after_dash(name)),
        ),
{
    reveal_strlit("/");
    reveal_strlit("/-");
    let none = Seq::<char>::empty();
    let directory = none + seq!['-'] + name;
    lemma_no_slash(none, name);
    assert(directory.drop_first() =~= name);
    lemma_log_in_directory(projects_dir, directory, rest);
    assert(projects_dir + "/-"@ + name + "/"@ + rest =~= projects_dir + "/"@ + directory + "/"@
        + rest);
}

/// The directory of a log is named after the path of the project, with a dash for every slash:
/// a leading dash for the root, the directory of all users, the user, and the project, whose own
/// name may hold dashes.
pub proof fn law_project_of_log(
    projects_dir: Seq<char>,
    users: Seq<char>,
    user: Seq<char>,
    project: Seq<char>,
    rest: Seq<char>,
)
    requires
        !users.contains('-') && !users.contains('/'),
        !user.contains('-') && !user.contains('/'),
        project.len() > 0 && !project.contains('/'),
    ensures
        project_of_log(
            projects_dir + "/-"@ + (users + "-"@ + (user + "-"@ + project)) + "/"@ + rest,
            projects_dir,
        ) == Some(project),
        users.len() > 0 ==> project_of_log(
            projects_dir + "/"@ + (users + "-"@ + (user + "-"@ + project)) + "/"@ + rest,
            projects_dir,
        ) == Some(project),
{
    reveal_strlit("-");
    assert("-"@ =~= seq!['-']);
    let inner = user + seq!['-'] + project;
    let name = users + seq!['-'] + inner;
    lemma_no_slash(user, project);
    lemma_no_slash(users, inner);
    lemma_after_dash(users, inner);
    lemma_after_dash(user, project);
    lemma_rooted_log(projects_dir, name, rest);
    if users.len() > 0 {
        assert(users.contains(users[0]));
        assert(name[0] == users[0]);
        lemma_log_in_directory(projects_dir, name, rest);
    }
}

/// A project that is not below the directory of a user is what follows the last dash of a name
/// with at most two of them.
pub proof fn law_project_of_short_path(
    projects_dir: Seq<char>,
    first: Seq<char>,
    project: Seq<char>,
    rest: Seq<char>,
)
    requires
        !first.contains('-') && !first.contains('/'),
        project.len() > 0 && !project.contains('-') && !project.contains('/'),
    ensures
        project_of_log(
            projects_dir + "/-"@ + (first + "-"@ + project) + "/"@ + rest,
            projects_dir,
        ) == Some(project),
        project_of_log(projects_dir + "/-"@ + project + "/"@ + rest, projects_dir) == Some(project),
{
    reveal_strlit("-");
    assert("-"@ =~= seq!['-']);
    lemma_no_slash(first, project);
    lemma_after_dash(first, project);
    lemma_after_dash(project, project);
    lemma_rooted_log(projects_dir, first + seq!['-'] + project, rest);
    lemma_rooted_log(projects_dir, project, rest);
}

/// A log that is not in a directory below that of the projects tells no project.
pub proof fn law_log_elsewhere(projects_dir: Seq<char>, path: Seq<char>, file: Seq<char>)
    requires
        !(projects_dir + "/"@).is_prefix_of(path),
        !file.contains('/'),
    ensures
        project_of_log(path, projects_dir) is None,
        project_of_log(projects_dir + "/"@ + file, projects_dir) is None,
{
    let start = projects_dir + "/"@;
    assert((start + file).skip(start.len() as int) =~= file);
    lemma_distance(file, '/', file);
}

/// The agents of a session: those that an entry names by a name that is not empty, each once, in
/// the order of their names.
pub proof fn law_agents(entries: Seq<SessionLogEntry>)
    ensures
        ascending(agent_ids(entries)),
        forall|t: Seq<char>| #[trigger]
            agent_ids(entries).contains(t) <==> t.len() > 0 && exists|i: int|
                0 <= i < entries.len() && ((#[trigger] entries[i]).agent_id matches Some(id) && id@
                    == t),
{
    lemma_sorted_distinct(agent_ids_before(entries, entries.len()));
    lemma_agents(entries, entries.len());
    assert forall|t: Seq<char>| #[trigger]
        agent_ids(entries).contains(t) <==> t.len() > 0 && exists|i: int|
            0 <= i < entries.len() && ((#[trigger] entries[i]).agent_id matches Some(id) && id@
                == t) by {
        assert(agent_ids_before(entries, entries.len()).contains(t) <==> agent_ids(
            entries,
        ).contains(t));
    }
}

/// The agents of the first `n` entries.
proof fn lemma_agents(entries: Seq<SessionLogEntry>, n: nat)
    requires
        n <= entries.len(),
    ensures
        forall|t: Seq<char>| #[trigger]
            agent_ids_before(entries, n).contains(t) <==> t.len() > 0 && exists|i: int|
                0 <= i < n && ((#[trigger] entries[i]).agent_id matches Some(id) && id@ == t),
    decreases n,
{
    broadcast use vstd::seq_lib::lemma_seq_contains_after_push;

    if n > 0 {
        let before = agent_ids_before(entries, (n - 1) as nat);
        let out = agent_ids_before(entries, n);
        lemma_agents(entries, (n - 1) as nat);
        assert forall|t: Seq<char>| #[trigger] out.contains(t) <==> t.len() > 0 && exists|i: int|
            0 <= i < n && ((#[trigger] entries[i]).agent_id matches Some(id) && id@ == t) by {
            if out.contains(t) && !before.contains(t) {
                assert(entries[n - 1].agent_id matches Some(id) && id@ == t);
            }
            if before.contains(t) {
                let i = choose|i: int|
                    0 <= i < n - 1 && ((#[trigger] entries[i]).agent_id matches Some(id) && id@
                        == t);
                assert(entries[i].agent_id matches Some(id) && id@ == t);
            }
            if t.len() > 0 && exists|i: int|
                0 <= i < n && ((#[trigger] entries[i]).agent_id matches Some(id) && id@ == t) {
                let i = choose|i: int|
                    0 <= i < n && ((#[trigger] entries[i]).agent_id matches Some(id) && id@ == t);
                if i < n - 1 {
                    assert(before.contains(t));
                }
            }
        }
    }
}

} // verus!
