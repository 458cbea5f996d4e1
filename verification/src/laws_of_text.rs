//! What holds of the texts that the library writes.

use vstd::prelude::*;
use vstd::seq_lib::lemma_seq_contains_after_push;

use crate::entry::block_parts;
use crate::entry::chars_of;
use crate::entry::display_of;
use crate::entry::message_parts;
use crate::entry::quoted;
use crate::entry::stderr_part;
use crate::entry::tool_use_result_display;
use crate::entry::SessionLogEntry;
use crate::index::index_head;
use crate::index::index_line;
use crate::index::index_lines;
use crate::index::IndexRow;
use crate::json::member;
use crate::json::Json;
use crate::markdown::day_entries;
use crate::markdown::day_section;
use crate::markdown::day_sections;
use crate::markdown::entry_section;
use crate::markdown::note;
use crate::markdown::stamp_dates;
use crate::markdown::Stamp;
use crate::order::lemma_sorted_distinct;
use crate::order::precedes;
use crate::order::sorted_distinct;
use crate::paths::after_home;
use crate::paths::last_component;
use crate::paths::leads_to_log;
use crate::paths::lemma_name_start;
use crate::paths::name_start;
use crate::paths::project_name;
use crate::paths::safe_id;
use crate::summary::is_noise;
use crate::summary::is_tagged;
use crate::summary::summary_of;
use crate::summary::summary_of_entry;
use crate::summary::summary_of_message;
use crate::summary::truncated;
use crate::summary::SUMMARY_LEN;
use crate::sync::session_ids;
use crate::sync::session_ids_before;
use crate::sync::united;
use crate::sync::with_new;
use crate::text::concatenation;
use crate::text::decimal;
use crate::text::digit;
use crate::text::is_white_space;
use crate::text::joined;
use crate::text::lemma_line_len;
use crate::text::line_len;
use crate::text::lines_of;
use crate::text::trimmed;
use crate::text::trimmed_end;
use crate::text::trimmed_start;
use crate::text::without_cr;

verus! {

/// Whether a text holds no line feed.
pub open spec fn is_one_line(text: Seq<char>) -> bool {
    forall|i: int| 0 <= i < text.len() ==> text[i] != '\n'
}

/// The first line of a text ends before the first line feed, or with the text.
pub(crate) proof fn lemma_first_line(text: Seq<char>)
    ensures
        line_len(text) <= text.len(),
        forall|i: int| 0 <= i < line_len(text) ==> text[i] != '\n',
        line_len(text) < text.len() ==> text[line_len(text) as int] == '\n',
    decreases text.len(),
{
    if text.len() > 0 && text[0] != '\n' {
        let rest = text.drop_first();
        lemma_first_line(rest);
        assert forall|i: int| 0 <= i < line_len(text) implies text[i] != '\n' by {
            if i > 0 {
                assert(rest[i - 1] == text[i]);
            }
        }
        if line_len(text) < text.len() {
            assert(rest[line_len(rest) as int] == text[line_len(text) as int]);
        }
    }
}

/// No line of a text holds a line feed.
pub proof fn law_lines_are_lines(text: Seq<char>)
    ensures
        forall|k: int| 0 <= k < lines_of(text).len() ==> is_one_line(#[trigger] lines_of(text)[k]),
    decreases text.len(),
{
    if text.len() > 0 {
        lemma_first_line(text);
        let n = line_len(text) as int;
        if n < text.len() {
            let rest = text.skip(n + 1);
            law_lines_are_lines(rest);
            let first = without_cr(text.take(n));
            assert forall|i: int| 0 <= i < first.len() implies first[i] != '\n' by {
                assert(first[i] == text[i]);
            }
            assert forall|k: int| 0 <= k < lines_of(text).len() implies is_one_line(
                #[trigger] lines_of(text)[k],
            ) by {
                if k > 0 {
                    assert(lines_of(text)[k] == lines_of(rest)[k - 1]);
                }
            }
        }
    }
}

/// The pieces of a text between its line feeds.
pub open spec fn pieces(text: Seq<char>) -> Seq<Seq<char>>
    decreases text.len(),
{
    if line_len(text) >= text.len() {
        seq![text]
    } else {
        seq![text.take(line_len(text) as int)] + pieces(text.skip(line_len(text) as int + 1))
    }
}

/// A line after a text and a line feed is one piece more.
proof fn lemma_pieces_push(text: Seq<char>, line: Seq<char>)
    requires
        is_one_line(line),
    ensures
        pieces(text + seq!['\n'] + line) == pieces(text).push(line),
    decreases text.len(),
{
    let all = text + seq!['\n'] + line;
    lemma_first_line(text);
    let n = line_len(text) as int;
    assert forall|i: int| 0 <= i < n implies all[i] != '\n' by {
        assert(all[i] == text[i]);
    }
    assert(all[n] == '\n');
    lemma_line_len(all, n);
    assert(all.take(n) =~= text.take(n));
    if n == text.len() {
        assert(text.take(n) =~= text);
        assert(all.skip(n + 1) =~= line);
        lemma_line_len(line, line.len() as int);
        assert(pieces(line) == seq![line]);
        assert(pieces(text) == seq![text]);
        assert(seq![text] + seq![line] =~= seq![text].push(line));
    } else {
        let rest = text.skip(n + 1);
        lemma_pieces_push(rest, line);
        assert(all.skip(n + 1) =~= rest + seq!['\n'] + line);
        let first = seq![text.take(n)];
        assert(first + pieces(rest).push(line) =~= (first + pieces(rest)).push(line));
    }
}

/// Parts are joined with the separator between every two of them, and nowhere else.
pub proof fn law_joined(parts: Seq<Seq<char>>, part: Seq<char>, separator: Seq<char>)
    ensures
        joined(Seq::empty(), separator) == Seq::<char>::empty(),
        joined(seq![part], separator) == part,
        parts.len() > 0 ==> joined(parts.push(part), separator) == joined(parts, separator)
            + separator + part,
{
    reveal_with_fuel(concatenation, 2);
    let one = seq![part];
    assert(one.drop_last() =~= Seq::empty());
    assert(concatenation(one) =~= part);
    assert(parts.push(part).drop_last() =~= parts);
}

/// A text without a line feed is one piece, and the pieces of two texts with a line feed between
/// them are the pieces of both.
pub proof fn law_pieces(text: Seq<char>, more: Seq<char>)
    ensures
        is_one_line(text) ==> pieces(text) == seq![text],
        pieces(text + seq!['\n'] + more) == pieces(text) + pieces(more),
    decreases text.len(),
{
    let all = text + seq!['\n'] + more;
    lemma_first_line(text);
    if is_one_line(text) {
        lemma_line_len(text, text.len() as int);
    }
    let n = line_len(text) as int;
    assert forall|i: int| 0 <= i < n implies all[i] != '\n' by {
        assert(all[i] == text[i]);
    }
    assert(all[n] == '\n');
    lemma_line_len(all, n);
    assert(all.take(n) =~= text.take(n));
    if n == text.len() {
        assert(text.take(n) =~= text);
        assert(all.skip(n + 1) =~= more);
        assert(pieces(text) == seq![text]);
    } else {
        let rest = text.skip(n + 1);
        law_pieces(rest, more);
        assert(all.skip(n + 1) =~= rest + seq!['\n'] + more);
        let first = seq![text.take(n)];
        assert(first + (pieces(rest) + pieces(more)) =~= (first + pieces(rest)) + pieces(more));
    }
}

/// One line is a line as it is where nothing follows it; where a line feed follows it, without a
/// carriage return before that. An empty text has no lines.
pub proof fn law_one_line(text: Seq<char>)
    requires
        is_one_line(text),
    ensures
        text.len() == 0 ==> lines_of(text) == Seq::<Seq<char>>::empty(),
        text.len() > 0 ==> lines_of(text) == seq![text],
        text.len() > 0 && text.last() == '\r' ==> lines_of(text.push('\n')) == seq![
            text.drop_last(),
        ],
        text.len() == 0 || text.last() != '\r' ==> lines_of(text.push('\n')) == seq![text],
{
    lemma_line_len(text, text.len() as int);
    let all = text.push('\n');
    let n = text.len() as int;
    assert forall|i: int| 0 <= i < n implies all[i] != '\n' by {
        assert(all[i] == text[i]);
    }
    lemma_line_len(all, n);
    assert(all.take(n) =~= text);
    assert(all.skip(n + 1) =~= Seq::empty());
    assert(lines_of(all.skip(n + 1)) =~= Seq::empty());
    assert(lines_of(all) =~= seq![without_cr(text)]);
}

/// The lines, the first one after the given start and each other one after a `> `.
pub open spec fn marked(start: Seq<char>, lines: Seq<Seq<char>>) -> Seq<Seq<char>> {
    Seq::new(
        lines.len(),
        |k: int|
            if k == 0 {
                start + lines[k]
            } else {
                "> "@ + lines[k]
            },
    )
}

/// Lines that are joined to a quotation are its pieces, each after its mark.
proof fn lemma_pieces_of_quotation(start: Seq<char>, lines: Seq<Seq<char>>)
    requires
        is_one_line(start),
        lines.len() > 0,
        forall|k: int| 0 <= k < lines.len() ==> is_one_line(#[trigger] lines[k]),
    ensures
        pieces(start + joined(lines, "\n> "@)) == marked(start, lines),
    decreases lines.len(),
{
    reveal_with_fuel(concatenation, 2);
    reveal_strlit("> ");
    reveal_strlit("\n> ");
    let rest = lines.drop_last();
    assert(is_one_line(lines[lines.len() - 1]));
    if lines.len() == 1 {
        let line = start + lines[0];
        assert(rest =~= Seq::empty());
        assert(concatenation(lines) =~= lines[0]);
        assert forall|i: int| 0 <= i < line.len() implies line[i] != '\n' by {
            if i >= start.len() {
                assert(line[i] == lines[0][i - start.len()]);
            }
        }
        lemma_line_len(line, line.len() as int);
        assert(seq![line] =~= marked(start, lines));
    } else {
        let line = "> "@ + lines.last();
        assert forall|k: int| 0 <= k < rest.len() implies is_one_line(#[trigger] rest[k]) by {
            assert(rest[k] == lines[k]);
        }
        lemma_pieces_of_quotation(start, rest);
        assert forall|i: int| 0 <= i < line.len() implies line[i] != '\n' by {
            if i >= 2 {
                assert(line[i] == lines.last()[i - 2]);
            }
        }
        let inner = start + joined(rest, "\n> "@);
        lemma_pieces_push(inner, line);
        assert(inner + seq!['\n'] + line =~= start + joined(lines, "\n> "@));
        assert(marked(start, rest).push(line) =~= marked(start, lines));
    }
}

/// A quotation in full: the pieces between its line feeds are the lines of the quoted text, none
/// of them cut short, the first one after the start of the quotation and each other one after a
/// `> `.
pub proof fn law_quotation_in_full(start: Seq<char>, text: Seq<char>)
    requires
        is_one_line(start),
        text.len() > 0,
    ensures
        pieces(start + joined(lines_of(text), "\n> "@)) == marked(start, lines_of(text)),
{
    law_lines_are_lines(text);
    lemma_pieces_of_quotation(start, lines_of(text));
}

/// The quotations that are shown of a tool are in full: its output, its errors, and the error
/// that it is.
pub proof fn law_tool_result_in_full(text: String)
    requires
        text@.len() > 0,
    ensures
        pieces(quoted(text@)) == marked("> "@, lines_of(text@)),
        stderr_part(Some(text@)).len() == 1,
        pieces(stderr_part(Some(text@))[0]) == marked("> [stderr] "@, lines_of(text@)),
        tool_use_result_display(Some(Json::Text(text))) is Some,
        pieces(tool_use_result_display(Some(Json::Text(text)))->0) == marked(
            "> [Error] "@,
            lines_of(text@),
        ),
{
    reveal_strlit("> ");
    reveal_strlit("> [stderr] ");
    reveal_strlit("> [Error] ");
    law_quotation_in_full("> "@, text@);
    law_quotation_in_full("> [stderr] "@, text@);
    law_quotation_in_full("> [Error] "@, text@);
}

/// Whether a text stands in another one as it is.
pub open spec fn stands_in(part: Seq<char>, whole: Seq<char>) -> bool {
    exists|before: Seq<char>, after: Seq<char>| whole == #[trigger] (before + part + after)
}

/// What stands in a text stands in every text that goes on from it, or leads to it.
proof fn lemma_stands_in(part: Seq<char>, whole: Seq<char>, head: Seq<char>, tail: Seq<char>)
    requires
        stands_in(part, whole),
    ensures
        stands_in(part, head + whole + tail),
{
    let (before, after) = choose|before: Seq<char>, after: Seq<char>|
        whole == #[trigger] (before + part + after);
    assert(head + whole + tail =~= (head + before) + part + (after + tail));
}

/// Every text stands in itself.
proof fn lemma_stands_in_itself(part: Seq<char>)
    ensures
        stands_in(part, part),
{
    assert(part =~= Seq::<char>::empty() + part + Seq::<char>::empty());
}

/// Every part stands in what the parts are joined to.
proof fn lemma_part_in_joined(parts: Seq<Seq<char>>, separator: Seq<char>, k: int)
    requires
        0 <= k < parts.len(),
    ensures
        stands_in(parts[k], joined(parts, separator)),
    decreases parts.len(),
{
    reveal_with_fuel(concatenation, 2);
    let rest = parts.drop_last();
    let none = Seq::<char>::empty();
    lemma_stands_in_itself(parts[k]);
    if parts.len() == 1 {
        assert(rest =~= Seq::empty());
        assert(concatenation(parts) =~= parts[k]);
    } else if k == parts.len() - 1 {
        let head = joined(rest, separator) + separator;
        lemma_stands_in(parts[k], parts[k], head, none);
        assert(head + parts[k] + none =~= joined(parts, separator));
    } else {
        lemma_part_in_joined(rest, separator, k);
        assert(rest[k] == parts[k]);
        lemma_stands_in(parts[k], joined(rest, separator), none, separator + parts.last());
        assert(none + joined(rest, separator) + (separator + parts.last()) =~= joined(
            parts,
            separator,
        ));
    }
}

/// What a block of a message shows is among what the message shows.
proof fn lemma_block_in_message(blocks: Seq<Json>, b: int, p: int)
    requires
        0 <= b < blocks.len(),
        0 <= p < block_parts(blocks[b]).len(),
    ensures
        exists|k: int|
            0 <= k < message_parts(blocks).len() && #[trigger] message_parts(blocks)[k]
                == block_parts(blocks[b])[p],
    decreases blocks.len(),
{
    let rest = blocks.drop_last();
    if b == blocks.len() - 1 {
        let k = message_parts(rest).len() + p;
        assert(message_parts(blocks)[k] == block_parts(blocks[b])[p]);
    } else {
        assert(rest[b] == blocks[b]);
        lemma_block_in_message(rest, b, p);
        let k = choose|k: int|
            0 <= k < message_parts(rest).len() && #[trigger] message_parts(rest)[k]
                == block_parts(blocks[b])[p];
        assert(message_parts(blocks)[k] == block_parts(blocks[b])[p]);
    }
}

/// An entry shows all of what the blocks of its message show: the texts, the uses of tools and
/// the results of tools, none of them cut short.
pub proof fn law_message_in_full(entry: SessionLogEntry, blocks: Vec<Json>, b: int, p: int)
    requires
        entry.display is None,
        chars_of(entry.entry_type) != Some("progress"@),
        entry.message is Some,
        member(entry.message->0, "content"@) == Some(Json::Array(blocks)),
        0 <= b < blocks@.len(),
        0 <= p < block_parts(blocks@[b]).len(),
    ensures
        display_of(entry) is Some,
        stands_in(block_parts(blocks@[b])[p], display_of(entry)->0),
{
    lemma_block_in_message(blocks@, b, p);
    let k = choose|k: int|
        0 <= k < message_parts(blocks@).len() && #[trigger] message_parts(blocks@)[k]
            == block_parts(blocks@[b])[p];
    lemma_part_in_joined(message_parts(blocks@), "\n\n"@, k);
}

/// What the note says of an entry stands among what it says of the entry's day.
proof fn lemma_entry_in_day(
    entries: Seq<SessionLogEntry>,
    places: Seq<usize>,
    stamps: Seq<Stamp>,
    k: int,
    n: nat,
)
    requires
        0 <= k < n,
    ensures
        stands_in(
            entry_section(entries[places[k] as int], stamps[k].time@),
            day_entries(entries, places, stamps, stamps[k].date@, n),
        ),
    decreases n,
{
    let date = stamps[k].date@;
    let section = entry_section(entries[places[k] as int], stamps[k].time@);
    let before = day_entries(entries, places, stamps, date, (n - 1) as nat);
    let none = Seq::<char>::empty();
    if k == n - 1 {
        lemma_stands_in_itself(section);
        lemma_stands_in(section, section, before, none);
        assert(before + section + none =~= before + section);
    } else {
        lemma_entry_in_day(entries, places, stamps, k, (n - 1) as nat);
        let last = entry_section(entries[places[n - 1] as int], stamps[n - 1].time@);
        lemma_stands_in(section, before, none, last);
        assert(none + before + last =~= before + last);
    }
}

/// What the note says of a day stands among what it says of the days.
proof fn lemma_day_in_days(
    entries: Seq<SessionLogEntry>,
    places: Seq<usize>,
    stamps: Seq<Stamp>,
    dates: Seq<Seq<char>>,
    d: int,
)
    requires
        0 <= d < dates.len(),
    ensures
        stands_in(
            day_section(entries, places, stamps, dates[d]),
            day_sections(entries, places, stamps, dates),
        ),
    decreases dates.len(),
{
    let rest = dates.drop_last();
    let before = day_sections(entries, places, stamps, rest);
    let section = day_section(entries, places, stamps, dates[d]);
    let none = Seq::<char>::empty();
    if d == dates.len() - 1 {
        lemma_stands_in_itself(section);
        lemma_stands_in(section, section, before, none);
        assert(before + section + none =~= before + section);
    } else {
        lemma_day_in_days(entries, places, stamps, rest, d);
        assert(rest[d] == dates[d]);
        let last = day_section(entries, places, stamps, dates.last());
        lemma_stands_in(section, before, none, last);
        assert(none + before + last =~= before + last);
    }
}

/// What stands in a part stands in the whole.
pub(crate) proof fn lemma_stands_in_transitive(part: Seq<char>, middle: Seq<char>, whole: Seq<char>)
    requires
        stands_in(part, middle),
        stands_in(middle, whole),
    ensures
        stands_in(part, whole),
{
    let (before, after) = choose|before: Seq<char>, after: Seq<char>|
        whole == #[trigger] (before + middle + after);
    lemma_stands_in(part, middle, before, after);
}

/// The note shows every entry that was chosen, in full, under its date.
pub proof fn law_note_in_full(
    entries: Seq<SessionLogEntry>,
    places: Seq<usize>,
    stamps: Seq<Stamp>,
    project: Option<Seq<char>>,
    generated: Seq<char>,
    k: int,
)
    requires
        entries.len() > 0,
        places.len() == stamps.len(),
        0 <= k < places.len(),
    ensures
        stands_in(
            entry_section(entries[places[k] as int], stamps[k].time@),
            day_section(entries, places, stamps, stamps[k].date@),
        ),
        stands_in(
            day_section(entries, places, stamps, stamps[k].date@),
            note(entries, places, stamps, project, generated),
        ),
        stands_in(
            entry_section(entries[places[k] as int], stamps[k].time@),
            note(entries, places, stamps, project, generated),
        ),
{
    let date = stamps[k].date@;
    let section = entry_section(entries[places[k] as int], stamps[k].time@);
    let none = Seq::<char>::empty();
    lemma_entry_in_day(entries, places, stamps, k, places.len());
    let inner = day_entries(entries, places, stamps, date, places.len());
    let head = "## "@ + date + "\n\n"@;
    lemma_stands_in(section, inner, head, none);
    assert(head + inner + none =~= day_section(entries, places, stamps, date));
    let dates = sorted_distinct(stamp_dates(stamps));
    lemma_sorted_distinct(stamp_dates(stamps));
    assert(stamp_dates(stamps)[k] == date);
    assert(stamp_dates(stamps).contains(date));
    assert(dates.contains(date));
    let d = choose|d: int| 0 <= d < dates.len() && dates[d] == date;
    lemma_day_in_days(entries, places, stamps, dates, d);
    let days = day_sections(entries, places, stamps, dates);
    let whole = note(entries, places, stamps, project, generated);
    let start = whole.take(whole.len() - days.len());
    lemma_stands_in(day_section(entries, places, stamps, date), days, start, none);
    assert(start + days + none =~= whole);
    lemma_stands_in_transitive(section, day_section(entries, places, stamps, date), whole);
}

/// A file name made of a session identifier has a `_` for every slash and holds no slash, and an
/// identifier without one stays as it is.
pub proof fn law_safe_id(session_id: Seq<char>)
    ensures
        forall|i: int|
            0 <= i < session_id.len() ==> #[trigger] safe_id(session_id)[i] == (if session_id[i]
                == '/' {
                '_'
            } else {
                session_id[i]
            }),
        !safe_id(session_id).contains('/'),
        safe_id(session_id).len() == session_id.len(),
        !session_id.contains('/') ==> safe_id(session_id) == session_id,
{
    if !session_id.contains('/') {
        assert forall|i: int| 0 <= i < session_id.len() implies session_id[i] != '/' by {}
        assert(safe_id(session_id) =~= session_id);
    }
}

/// The last component of a path holds no slash, is not empty and does not say "here".
proof fn lemma_last_component(path: Seq<char>)
    ensures
        last_component(path) matches Some(name) ==> name.len() > 0 && !name.contains('/') && name
            != "."@,
    decreases path.len(),
{
    lemma_name_start(path);
    let start = name_start(path);
    let name = path.skip(start);
    if name.len() > 0 && name != "."@ {
        assert forall|i: int| 0 <= i < name.len() implies name[i] != '/' by {
            assert(name[i] == path[start + i]);
        }
    } else if start > 0 {
        lemma_last_component(path.take(start - 1));
    }
}

/// A path that goes on with a slash and a text without one has its last part there.
proof fn lemma_last_part(directory: Seq<char>, name: Seq<char>)
    requires
        !name.contains('/'),
    ensures
        name_start(directory + seq!['/'] + name) == directory.len() + 1,
        (directory + seq!['/'] + name).skip(directory.len() as int + 1) == name,
        (directory + seq!['/'] + name).take(directory.len() as int) == directory,
{
    let path = directory + seq!['/'] + name;
    lemma_name_start(path);
    assert(path[directory.len() as int] == '/');
    let start = name_start(path);
    if start > directory.len() + 1 {
        assert(name[start - 1 - directory.len() - 1] == '/');
    }
    assert(path.skip(directory.len() as int + 1) =~= name);
    assert(path.take(directory.len() as int) =~= directory);
}

/// The name of a project holds no slash, is not empty and says neither "here" nor "up", and a
/// slash after the path, with or without a `.` after it, does not change it.
pub proof fn law_project_name(path: Seq<char>)
    ensures
        project_name(path).len() > 0,
        !project_name(path).contains('/'),
        project_name(path) != "."@,
        project_name(path) != ".."@,
        project_name(path + "/"@) == project_name(path),
        project_name(path + "/."@) == project_name(path),
{
    reveal_strlit("unknown");
    reveal_strlit(".");
    reveal_strlit("..");
    reveal_strlit("/");
    reveal_strlit("/.");
    lemma_last_component(path);
    let none = Seq::<char>::empty();
    lemma_last_part(path, none);
    assert(path + "/"@ =~= path + seq!['/'] + none);
    lemma_last_part(path, "."@);
    assert(path + "/."@ =~= path + seq!['/'] + "."@);
}

/// The name of a project is the final component of the path of its directory.
pub proof fn law_project_is_final_component(directory: Seq<char>, name: Seq<char>)
    requires
        name.len() > 0,
        !name.contains('/'),
        name != "."@,
        name != ".."@,
    ensures
        project_name(directory + "/"@ + name) == name,
        project_name(name) == name,
{
    reveal_strlit("/");
    lemma_last_part(directory, name);
    assert(directory + "/"@ + name =~= directory + seq!['/'] + name);
    lemma_name_start(name);
    let start = name_start(name);
    if start > 0 {
        assert(name.contains(name[start - 1]));
    }
    assert(name.skip(0) =~= name);
}

/// The sessions of a list of entries: no empty identifier, none twice, and none left out.
pub proof fn law_session_ids(entries: Seq<SessionLogEntry>)
    ensures
        session_ids(entries).no_duplicates(),
        forall|t: Seq<char>| #[trigger]
            session_ids(entries).contains(t) <==> t.len() > 0 && exists|i: int|
                0 <= i < entries.len() && chars_of((#[trigger] entries[i]).session_id) == Some(t),
{
    lemma_session_ids(entries, entries.len());
}

/// The sessions of the first `n` entries: no empty identifier, none twice, and none left out.
proof fn lemma_session_ids(entries: Seq<SessionLogEntry>, n: nat)
    requires
        n <= entries.len(),
    ensures
        session_ids_before(entries, n).no_duplicates(),
        forall|t: Seq<char>| #[trigger]
            session_ids_before(entries, n).contains(t) <==> t.len() > 0 && exists|i: int|
                0 <= i < n && chars_of((#[trigger] entries[i]).session_id) == Some(t),
    decreases n,
{
    if n > 0 {
        let before = session_ids_before(entries, (n - 1) as nat);
        let out = session_ids_before(entries, n);
        lemma_session_ids(entries, (n - 1) as nat);
        let last = entries[n - 1];
        match chars_of(last.session_id) {
            Some(id) => {
                if id.len() > 0 {
                    lemma_with_new(before, id);
                }
            },
            None => {},
        }
        assert forall|t: Seq<char>| #[trigger] out.contains(t) <==> t.len() > 0 && exists|i: int|
            0 <= i < n && chars_of((#[trigger] entries[i]).session_id) == Some(t) by {
            if out.contains(t) && !before.contains(t) {
                assert(chars_of(entries[n - 1].session_id) == Some(t));
            }
            if before.contains(t) {
                let i = choose|i: int|
                    0 <= i < n - 1 && chars_of((#[trigger] entries[i]).session_id) == Some(t);
                assert(chars_of(entries[i].session_id) == Some(t));
            }
            if t.len() > 0 && exists|i: int|
                0 <= i < n && chars_of((#[trigger] entries[i]).session_id) == Some(t) {
                let i = choose|i: int|
                    0 <= i < n && chars_of((#[trigger] entries[i]).session_id) == Some(t);
                if i < n - 1 {
                    assert(before.contains(t));
                }
            }
        }
    }
}

/// A list with a text that is new to it holds that text and those that it held before, and
/// none twice if it held none twice.
proof fn lemma_with_new(list: Seq<Seq<char>>, text: Seq<char>)
    ensures
        forall|t: Seq<char>| #[trigger]
            with_new(list, text).contains(t) <==> (list.contains(t) || t == text),
        list.no_duplicates() ==> with_new(list, text).no_duplicates(),
{
    broadcast use vstd::seq_lib::lemma_seq_contains_after_push;

}

/// The sessions that a run has to write again: those that it had, and those that were added,
/// none twice.
pub proof fn law_united(list: Seq<Seq<char>>, more: Seq<Seq<char>>)
    requires
        list.no_duplicates(),
    ensures
        united(list, more).no_duplicates(),
        forall|t: Seq<char>| #[trigger]
            united(list, more).contains(t) <==> (list.contains(t) || more.contains(t)),
    decreases more.len(),
{
    if more.len() > 0 {
        let rest = more.drop_last();
        law_united(list, rest);
        lemma_with_new(united(list, rest), more.last());
        assert forall|t: Seq<char>| #[trigger] united(list, more).contains(t) <==> (list.contains(t)
            || more.contains(t)) by {
            assert(united(list, rest).contains(t) <==> (list.contains(t) || rest.contains(t)));
            assert(rest.push(more.last()) =~= more);
            lemma_seq_contains_after_push(rest, more.last(), t);
        }
    }
}

/// The text without white space at its start is the text from some place on, and starts with
/// no white space.
proof fn lemma_trimmed_start(text: Seq<char>)
    ensures
        trimmed_start(text).len() > 0 ==> !is_white_space(trimmed_start(text)[0]),
    decreases text.len(),
{
    if text.len() > 0 && is_white_space(text[0]) {
        lemma_trimmed_start(text.drop_first());
    }
}

/// The text without white space at its end is the text up to some place.
proof fn lemma_trimmed_end(text: Seq<char>)
    ensures
        trimmed_end(text).is_prefix_of(text),
    decreases text.len(),
{
    if text.len() > 0 && is_white_space(text.last()) {
        lemma_trimmed_end(text.drop_last());
        let out = trimmed_end(text);
        assert(text.drop_last().subrange(0, out.len() as int) =~= text.subrange(
            0,
            out.len() as int,
        ));
    } else {
        assert(text =~= text.subrange(0, text.len() as int));
    }
}

/// A start of a text that is no noise is no noise.
proof fn lemma_noise_of_start(start: Seq<char>, text: Seq<char>)
    requires
        start.is_prefix_of(text),
        is_noise(start),
    ensures
        is_noise(text),
{
    lemma_prefix_of_start("<command"@, start, text);
    lemma_prefix_of_start("<local-command"@, start, text);
    lemma_prefix_of_start("<bash-"@, start, text);
    lemma_prefix_of_start(">"@, start, text);
    lemma_prefix_of_start("/"@, start, text);
    lemma_prefix_of_start("You are"@, start, text);
    lemma_prefix_of_start("Base directory"@, start, text);
    lemma_prefix_of_start("Warmup"@, start, text);
    lemma_prefix_of_start("요약할 텍스트:"@, start, text);
    lemma_prefix_of_start("|"@, start, text);
    if is_tagged(start) {
        let k = choose|k: int| 0 <= k < start.len() && start[k] == '>';
        assert(text.subrange(0, start.len() as int)[k] == text[k]);
        assert(text.subrange(0, start.len() as int)[0] == text[0]);
    }
}

/// A text that starts a start of another one starts that one.
proof fn lemma_prefix_of_start(prefix: Seq<char>, start: Seq<char>, text: Seq<char>)
    requires
        start.is_prefix_of(text),
    ensures
        prefix.is_prefix_of(start) ==> prefix.is_prefix_of(text),
{
    if prefix.is_prefix_of(start) {
        let n = prefix.len() as int;
        assert(start == text.subrange(0, start.len() as int));
        assert(start.subrange(0, n) =~= text.subrange(0, n));
    }
}

/// A summary that a message gives is one line, not empty, not too long, and no noise.
proof fn lemma_summary_of_message(message: Seq<char>)
    ensures
        summary_of_message(message) matches Some(s) ==> 0 < s.len() <= SUMMARY_LEN && is_one_line(
            s,
        ) && !is_noise(s),
{
    let start = trimmed_start(message);
    let text = trimmed(message);
    lemma_trimmed_start(message);
    lemma_trimmed_end(start);
    if text.len() > 0 {
        assert(start.subrange(0, text.len() as int)[0] == start[0]);
        assert(text[0] == start[0]);
        lemma_first_line(text);
        law_lines_are_lines(text);
        let n = line_len(text) as int;
        assert(n > 0);
        let line = lines_of(text)[0];
        if n < text.len() {
            assert(line == without_cr(text.take(n)));
            if n == 1 {
                assert(text.take(n).last() == text[0]);
            }
        }
        assert(line.len() > 0);
        assert(line =~= text.subrange(0, line.len() as int));
        let s = truncated(line, SUMMARY_LEN as nat);
        assert(s =~= text.subrange(0, s.len() as int));
        assert(is_one_line(line));
        if is_noise(s) {
            lemma_noise_of_start(s, text);
        }
    }
}

/// The summary of a session is one line, not empty, at most a hundred characters, and no noise.
pub proof fn law_summary(entries: Seq<SessionLogEntry>)
    ensures
        summary_of(entries) matches Some(s) ==> 0 < s.len() <= SUMMARY_LEN && is_one_line(s)
            && !is_noise(s),
    decreases entries.len(),
{
    if entries.len() > 0 {
        match display_of(entries[0]) {
            Some(shown) => lemma_summary_of_message(shown),
            None => {},
        }
        if summary_of_entry(entries[0]) is None {
            law_summary(entries.drop_first());
        }
    }
}

/// A text is trimmed of all white space at its two ends, and of nothing else.
pub proof fn law_trimmed(text: Seq<char>)
    ensures
        exists|a: int, b: int|
            {
                &&& 0 <= a <= b <= text.len()
                &&& trimmed(text) == #[trigger] text.subrange(a, b)
                &&& forall|i: int|
                    0 <= i < a || b <= i < text.len() ==> is_white_space(#[trigger] text[i])
            },
        trimmed(text).len() > 0 ==> !is_white_space(trimmed(text)[0]) && !is_white_space(
            trimmed(text).last(),
        ),
{
    let start = trimmed_start(text);
    let a = text.len() - start.len();
    lemma_cut_start(text);
    lemma_cut_end(start);
    lemma_trimmed_start(text);
    lemma_trimmed_end(start);
    let b = a + trimmed(text).len();
    assert(trimmed(text) =~= text.subrange(a, b)) by {
        assert(start == text.skip(a));
        assert(trimmed(text) == start.take(trimmed(text).len() as int));
    }
    assert forall|i: int| 0 <= i < a || b <= i < text.len() implies is_white_space(
        #[trigger] text[i],
    ) by {
        if b <= i {
            assert(start[i - a] == text[i]);
        }
    }
    if trimmed(text).len() > 0 {
        assert(trimmed(text)[0] == start[0]);
    }
}

/// What is cut off at the start of a text is white space.
proof fn lemma_cut_start(text: Seq<char>)
    ensures
        trimmed_start(text).len() <= text.len(),
        trimmed_start(text) == text.skip(text.len() - trimmed_start(text).len()),
        forall|i: int|
            0 <= i < text.len() - trimmed_start(text).len() ==> is_white_space(#[trigger] text[i]),
    decreases text.len(),
{
    if text.len() > 0 && is_white_space(text[0]) {
        let rest = text.drop_first();
        lemma_cut_start(rest);
        let cut = text.len() - trimmed_start(text).len();
        assert(rest.skip(cut - 1) =~= text.skip(cut));
        assert forall|i: int| 0 <= i < cut implies is_white_space(#[trigger] text[i]) by {
            if i > 0 {
                assert(rest[i - 1] == text[i]);
            }
        }
    } else {
        assert(text.skip(0) =~= text);
    }
}

/// What is cut off at the end of a text is white space.
proof fn lemma_cut_end(text: Seq<char>)
    ensures
        trimmed_end(text).len() <= text.len(),
        trimmed_end(text) == text.take(trimmed_end(text).len() as int),
        forall|i: int|
            trimmed_end(text).len() <= i < text.len() ==> is_white_space(#[trigger] text[i]),
        trimmed_end(text).len() > 0 ==> !is_white_space(trimmed_end(text).last()),
    decreases text.len(),
{
    if text.len() > 0 && is_white_space(text.last()) {
        let rest = text.drop_last();
        lemma_cut_end(rest);
        let n = trimmed_end(text).len() as int;
        assert(rest.take(n) =~= text.take(n));
        assert forall|i: int| n <= i < text.len() implies is_white_space(#[trigger] text[i]) by {
            if i < rest.len() {
                assert(rest[i] == text[i]);
            }
        }
    } else {
        assert(text.take(text.len() as int) =~= text);
    }
}

/// Decimal numbers: a digit for a number below ten, and one digit more for ten times as much.
pub proof fn law_decimal(n: nat, d: nat)
    requires
        d < 10,
    ensures
        decimal(d) == seq![('0' as u32 + d) as char],
        n > 0 ==> decimal(10 * n + d) == decimal(n) + decimal(d),
{
    let digits = seq!['0', '1', '2', '3', '4', '5', '6', '7', '8', '9'];
    assert(digits[0] == '0' && digits[1] == '1' && digits[2] == '2' && digits[3] == '3' && digits[4]
        == '4' && digits[5] == '5' && digits[6] == '6' && digits[7] == '7' && digits[8] == '8'
        && digits[9] == '9');
    assert((10 * n + d) / 10 == n);
    assert((10 * n + d) % 10 == d);
    assert(decimal(n).push(digit(d)) =~= decimal(n) + seq![digit(d)]);
}

/// The order of texts goes by the first characters in which they differ, and a text stands
/// before every one that goes on from it.
pub proof fn law_order_of_texts(start: Seq<char>, a: Seq<char>, b: Seq<char>)
    ensures
        precedes(start + a, start + b) == precedes(a, b),
        a.len() > 0 && b.len() > 0 && a[0] != b[0] ==> precedes(a, b) == (a[0] < b[0]),
        precedes(start, start + b) == (b.len() > 0),
    decreases start.len(),
{
    let none = Seq::<char>::empty();
    assert(start + none =~= start);
    if start.len() == 0 {
        assert(start + a =~= a);
        assert(start + b =~= b);
    } else {
        let rest = start.drop_first();
        law_order_of_texts(rest, a, b);
        assert((start + a).drop_first() =~= rest + a);
        assert((start + b).drop_first() =~= rest + b);
    }
}

/// A log is known by its extension: a file is one where `.jsonl` follows something in its name.
pub proof fn law_log_path(directory: Seq<char>, stem: Seq<char>, name: Seq<char>)
    requires
        stem.len() > 0,
        !stem.contains('/'),
        !name.contains('/'),
        !(".jsonl"@.is_suffix_of(name) && name.len() > ".jsonl"@.len()),
    ensures
        leads_to_log(directory + "/"@ + stem + ".jsonl"@),
        leads_to_log(stem + ".jsonl"@),
        name.len() > 0 && name != "."@ ==> !leads_to_log(directory + "/"@ + name),
{
    reveal_strlit("/");
    reveal_strlit(".");
    reveal_strlit("..");
    reveal_strlit(".jsonl");
    let file = stem + ".jsonl"@;
    assert forall|i: int| 0 <= i < file.len() implies file[i] != '/' by {
        if i < stem.len() {
            assert(stem.contains(stem[i]));
        }
    }
    assert(file.len() > 6);
    assert(file.subrange(file.len() - 6, file.len() as int) =~= ".jsonl"@);
    assert(directory + "/"@ + stem + ".jsonl"@ =~= directory + seq!['/'] + file);
    lemma_last_part(directory, file);
    lemma_name_start(file);
    let start = name_start(file);
    assert(start == 0);
    assert(file.skip(0) =~= file);
    assert(directory + "/"@ + name =~= directory + seq!['/'] + name);
    lemma_last_part(directory, name);
}

/// The home directory is split off where a path starts with `~/`, and nowhere else.
pub proof fn law_home(rest: Seq<char>, path: Seq<char>)
    requires
        !(path.len() >= 2 && path[0] == '~' && path[1] == '/'),
    ensures
        after_home("~/"@ + rest) == Some(rest),
        after_home(path) is None,
{
    reveal_strlit("~/");
    let whole = "~/"@ + rest;
    assert(whole.subrange(0, 2) =~= "~/"@);
    assert(whole.skip(2) =~= rest);
    if "~/"@.is_prefix_of(path) {
        assert(path.subrange(0, 2)[0] == path[0]);
        assert(path.subrange(0, 2)[1] == path[1]);
    }
}

/// A further entry adds its session at the end, where it names one that is not there.
pub proof fn law_session_ids_grow(entries: Seq<SessionLogEntry>, entry: SessionLogEntry)
    ensures
        session_ids(Seq::empty()) == Seq::<Seq<char>>::empty(),
        session_ids(entries.push(entry)) == match entry.session_id {
            Some(id) => if id@.len() > 0 && !session_ids(entries).contains(id@) {
                session_ids(entries).push(id@)
            } else {
                session_ids(entries)
            },
            None => session_ids(entries),
        },
{
    lemma_ids_of_start(entries, entry, entries.len());
}

/// A further entry has no part in the sessions of those before it.
proof fn lemma_ids_of_start(entries: Seq<SessionLogEntry>, entry: SessionLogEntry, n: nat)
    requires
        n <= entries.len(),
    ensures
        session_ids_before(entries.push(entry), n) == session_ids_before(entries, n),
    decreases n,
{
    if n > 0 {
        lemma_ids_of_start(entries, entry, (n - 1) as nat);
    }
}

/// A further session is added at the end, where it is not there.
pub proof fn law_united_grows(list: Seq<Seq<char>>, more: Seq<Seq<char>>, id: Seq<char>)
    ensures
        united(list, Seq::empty()) == list,
        united(list, more.push(id)) == (if united(list, more).contains(id) {
            united(list, more)
        } else {
            united(list, more).push(id)
        }),
{
    assert(more.push(id).drop_last() =~= more);
}

/// The index without sessions is its head.
pub proof fn law_index_head(title: Seq<char>, generated: Seq<char>)
    ensures
        joined(index_head(title, generated) + index_lines(Seq::empty()), "\n"@) == "# "@ + title
            + "\n\nGenerated: "@ + generated + "\n\n## Sessions\n"@,
{
    reveal_strlit("\n");
    reveal_strlit("# ");
    reveal_strlit("Generated: ");
    reveal_strlit("\n\nGenerated: ");
    reveal_strlit("## Sessions");
    reveal_strlit("\n\n## Sessions\n");
    let none = Seq::<char>::empty();
    let a = "# "@ + title;
    let b = "Generated: "@ + generated;
    let c = "## Sessions"@;
    let gap = "\n"@;
    let one = seq![a];
    let two = one.push(none);
    let three = two.push(b);
    let four = three.push(none);
    let five = four.push(c);
    let six = five.push(none);
    law_joined(one, a, gap);
    law_joined(one, none, gap);
    law_joined(two, b, gap);
    law_joined(three, none, gap);
    law_joined(four, c, gap);
    law_joined(five, none, gap);
    assert(index_head(title, generated) + index_lines(Seq::empty()) =~= six);
    assert(joined(six, gap) =~= "# "@ + title + "\n\nGenerated: "@ + generated
        + "\n\n## Sessions\n"@);
}

/// A further session is a further line of the index: a link to its note, and its project.
pub proof fn law_index_grows(
    rows: Seq<IndexRow>,
    row: IndexRow,
    title: Seq<char>,
    generated: Seq<char>,
)
    ensures
        joined(index_head(title, generated) + index_lines(rows.push(row)), "\n"@) == joined(
            index_head(title, generated) + index_lines(rows),
            "\n"@,
        ) + "\n- ["@ + row.session_id@ + "]("@ + match row.output_path {
            Some(path) => path@,
            None => Seq::empty(),
        } + ") - "@ + match row.project {
            Some(project) => project@,
            None => "unknown"@,
        },
{
    reveal_strlit("\n");
    reveal_strlit("- [");
    reveal_strlit("\n- [");
    let before = index_head(title, generated) + index_lines(rows);
    let line = index_line(row);
    assert(index_head(title, generated) + index_lines(rows.push(row)) =~= before.push(line));
    law_joined(before, line, "\n"@);
    let path = match row.output_path {
        Some(path) => path@,
        None => Seq::empty(),
    };
    let project = match row.project {
        Some(project) => project@,
        None => "unknown"@,
    };
    let start = joined(before, "\n"@);
    assert(start + "\n"@ + line =~= start + "\n- ["@ + row.session_id@ + "]("@ + path + ") - "@
        + project);
}

} // verus!
