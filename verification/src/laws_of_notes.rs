//! What holds of the notes that the library makes, and of the logs that it reads.

use vstd::prelude::*;
use vstd::seq_lib::lemma_seq_contains_after_push;

use crate::calendar::lemma_dates_in_order;
use crate::calendar::LAST_DAY_OF_9999;
use crate::clock::date_at;
use crate::clock::is_offset;
use crate::clock::local_day;
use crate::clock::time_at;
use crate::clock::LAST_INSTANT;
use crate::entry::chars_of;
use crate::entry::display_of;
use crate::entry::is_bash_progress;
use crate::entry::timestamp_millis;
use crate::entry::SessionLogEntry;
use crate::laws::law_by_time_sorts;
use crate::laws_of_selection::is_first_known;
use crate::laws_of_selection::is_report;
use crate::laws_of_selection::is_superfluous;
use crate::laws_of_selection::kind_of;
use crate::laws_of_selection::law_collected_belongs;
use crate::laws_of_selection::law_dropped_for_a_reason;
use crate::laws_of_selection::law_first_collected;
use crate::laws_of_selection::lemma_entry_place;
use crate::laws_of_text::is_one_line;
use crate::laws_of_text::law_note_in_full;
use crate::laws_of_text::law_one_line;
use crate::laws_of_text::lemma_first_line;
use crate::laws_of_text::lemma_stands_in_transitive;
use crate::laws_of_text::stands_in;
use crate::markdown::agent_ids;
use crate::markdown::agent_ids_before;
use crate::markdown::agents_line;
use crate::markdown::are_stamps;
use crate::markdown::day_entries;
use crate::markdown::day_section;
use crate::markdown::day_sections;
use crate::markdown::entry_section;
use crate::markdown::is_note;
use crate::markdown::is_stamp_at;
use crate::markdown::is_stamp_of;
use crate::markdown::is_stamped_note;
use crate::markdown::note;
use crate::markdown::stamp_dates;
use crate::markdown::times_fit;
use crate::markdown::Stamp;
use crate::merge::by_time;
use crate::merge::distinct_before;
use crate::merge::distinct_entries;
use crate::merge::session_entries;
use crate::note::first_moment;
use crate::note::is_note_on;
use crate::note::SessionNote;
use crate::order::ascending;
use crate::order::lemma_precedes_irreflexive;
use crate::order::lemma_precedes_transitive;
use crate::order::lemma_sorted_distinct;
use crate::order::precedes;
use crate::order::sorted_distinct;
use crate::order::with_text;
use crate::paths::safe_id;
use crate::project::first_cwd;
use crate::project::first_told;
use crate::project::place_of;
use crate::project::session_project;
use crate::select::content_key;
use crate::select::is_kept;
use crate::select::is_later_progress;
use crate::select::kept;
use crate::select::kept_before;
use crate::select::lemma_first_kept;
use crate::select::lemma_kept_before;
use crate::select::progress_key;
use crate::select::repeats_content;
use crate::summary::summary_of;
use crate::summary::summary_of_entry;
use crate::sync::not_blank;
use crate::text::is_blank;
use crate::text::is_white_space;
use crate::text::joined;
use crate::text::lemma_line_len;
use crate::text::line_len;
use crate::text::lines_of;
use crate::text::trimmed_end;
use crate::text::without_cr;

verus! {

/// The order of dates as texts is the order of time: the date of a later instant on the same
/// clock is the same or stands after the earlier one, and it is the same only on the same day.
/// Left out are the days after the year 9999, whose dates start with a `+`.
pub proof fn law_dates_in_order(earlier: u64, later: u64, offset: int)
    requires
        is_offset(offset),
        earlier <= later,
        local_day(later, offset) <= LAST_DAY_OF_9999,
    ensures
        local_day(earlier, offset) == local_day(later, offset) ==> date_at(earlier, offset)
            == date_at(later, offset),
        local_day(earlier, offset) != local_day(later, offset) ==> date_at(earlier, offset)
            != date_at(later, offset) && precedes(date_at(earlier, offset), date_at(later, offset)),
{
    let m = local_day(earlier, offset);
    let n = local_day(later, offset);
    assert(-1 <= m <= n);
    if m != n {
        lemma_dates_in_order(m, n);
        lemma_precedes_irreflexive(date_at(earlier, offset));
    }
}

/// The lines of a log that ends with a line feed and of what is appended to it are the lines of
/// both.
pub proof fn law_lines_of_two(log: Seq<char>, more: Seq<char>)
    requires
        log.len() > 0 ==> log.last() == '\n',
    ensures
        lines_of(log + more) == lines_of(log) + lines_of(more),
    decreases log.len(),
{
    let all = log + more;
    if log.len() == 0 {
        assert(all =~= more);
        assert(lines_of(log) + lines_of(more) =~= lines_of(more));
    } else {
        lemma_first_line(log);
        let n = line_len(log) as int;
        assert(n < log.len());
        assert forall|i: int| 0 <= i < n implies all[i] != '\n' by {
            assert(all[i] == log[i]);
        }
        assert(all[n] == log[n]);
        lemma_line_len(all, n);
        let rest = log.skip(n + 1);
        if rest.len() > 0 {
            assert(rest.last() == log.last());
        }
        law_lines_of_two(rest, more);
        assert(all.take(n) =~= log.take(n));
        assert(all.skip(n + 1) =~= rest + more);
        let first = seq![without_cr(log.take(n))];
        assert(first + (lines_of(rest) + lines_of(more)) =~= (first + lines_of(rest)) + lines_of(
            more,
        ));
    }
}

/// The lines that are not blank, of two lists one after the other.
proof fn lemma_not_blank(lines: Seq<Seq<char>>, more: Seq<Seq<char>>)
    ensures
        not_blank(lines + more) == not_blank(lines) + not_blank(more),
    decreases more.len(),
{
    if more.len() == 0 {
        assert(lines + more =~= lines);
    } else {
        let rest = more.drop_last();
        lemma_not_blank(lines, rest);
        assert((lines + more).drop_last() =~= lines + rest);
        assert((lines + more).last() == more.last());
    }
}

/// The records of a log: the lines that are not blank.
pub open spec fn records_of(log: Seq<char>) -> Seq<Seq<char>> {
    not_blank(lines_of(log))
}

/// Whether the last line of a log is a record and ends with a carriage return of its own.
pub open spec fn ends_in_return(log: Seq<char>) -> bool {
    log.len() > 0 && log.last() == '\r' && !is_blank(lines_of(log).last())
}

/// The records of a log that goes on after a line feed. The line feed takes a carriage return
/// before it away.
pub open spec fn records_of_ended(log: Seq<char>) -> Seq<Seq<char>> {
    if ends_in_return(log) {
        records_of(log).drop_last().push(without_cr(records_of(log).last()))
    } else {
        records_of(log)
    }
}

/// The last line of a log that does not end with a line feed ends with the log.
proof fn lemma_last_line(log: Seq<char>)
    requires
        log.len() > 0,
        log.last() != '\n',
    ensures
        lines_of(log).len() > 0,
        lines_of(log).last().len() > 0,
        lines_of(log).last().last() == log.last(),
    decreases log.len(),
{
    lemma_first_line(log);
    let n = line_len(log) as int;
    if n < log.len() {
        let rest = log.skip(n + 1);
        assert(n + 1 < log.len());
        assert(rest.last() == log.last());
        lemma_last_line(rest);
        assert(lines_of(log).last() == lines_of(rest).last());
    }
}

/// A line feed at the end of a log adds no line but a blank one, and takes at most a carriage
/// return away.
proof fn lemma_ended_log(log: Seq<char>)
    ensures
        records_of(log.push('\n')) == records_of_ended(log),
    decreases log.len(),
{
    reveal_with_fuel(not_blank, 2);
    let all = log.push('\n');
    lemma_first_line(log);
    let n = line_len(log) as int;
    assert forall|i: int| 0 <= i < n implies all[i] != '\n' by {
        assert(all[i] == log[i]);
    }
    lemma_line_len(all, n);
    let rest = log.skip(n + 1);
    assert(all.take(n) =~= log.take(n));
    if n == log.len() {
        let line = without_cr(log);
        assert(all.take(n) =~= log);
        assert(all.skip(n + 1) =~= Seq::empty());
        assert(lines_of(all.skip(n + 1)) =~= Seq::empty());
        assert(lines_of(all) =~= seq![line]);
        assert(seq![line].drop_last() =~= Seq::empty());
        if log.len() > 0 {
            assert(lines_of(log) == seq![log]);
            assert(seq![log].drop_last() =~= Seq::empty());
            if log.last() == '\r' {
                assert(is_white_space('\r'));
                assert(is_blank(line) == is_blank(log)) by {
                    if is_blank(line) {
                        assert forall|i: int| 0 <= i < log.len() implies is_white_space(
                            #[trigger] log[i],
                        ) by {
                            if i < line.len() {
                                assert(is_white_space(line[i]));
                            }
                        }
                    }
                    if is_blank(log) {
                        assert forall|i: int| 0 <= i < line.len() implies is_white_space(
                            #[trigger] line[i],
                        ) by {
                            assert(is_white_space(log[i]));
                        }
                    }
                }
            }
            assert(Seq::<Seq<char>>::empty().push(log).drop_last() =~= Seq::empty());
        } else {
            assert(is_blank(line));
        }
    } else {
        lemma_ended_log(rest);
        assert(all.skip(n + 1) =~= rest.push('\n'));
        let first = seq![without_cr(log.take(n))];
        lemma_not_blank(first, lines_of(rest));
        lemma_not_blank(first, lines_of(rest.push('\n')));
        if rest.len() > 0 {
            assert(rest.last() == log.last());
        }
        if rest.len() > 0 && rest.last() == '\r' {
            lemma_last_line(rest);
            assert(lines_of(log).last() == lines_of(rest).last());
        }
        if ends_in_return(log) {
            let before = not_blank(first);
            let after = records_of(rest);
            assert(after.len() > 0);
            assert((before + after).drop_last() =~= before + after.drop_last());
            assert((before + after).last() == after.last());
        }
    }
}

/// The records of two logs, one below the other, are the records of the first and then those of
/// the second. Where the first one ends with a record and a carriage return after it, that
/// record loses the carriage return and nothing else. So the records are the same but for white
/// space at their end.
pub proof fn law_records_of_two(log: Seq<char>, more: Seq<char>)
    ensures
        !ends_in_return(log) ==> records_of(log + seq!['\n'] + more) == records_of(log)
            + records_of(more),
        ends_in_return(log) ==> {
            &&& records_of(log).len() > 0
            &&& records_of(log).last().len() > 0
            &&& records_of(log).last().last() == '\r'
            &&& records_of(log + seq!['\n'] + more) == records_of(log).drop_last().push(
                records_of(log).last().drop_last(),
            ) + records_of(more)
        },
        records_of(log + seq!['\n'] + more).len() == records_of(log).len() + records_of(more).len(),
        forall|k: int|
            0 <= k < records_of(log).len() + records_of(more).len() ==> trimmed_end(
                #[trigger] records_of(log + seq!['\n'] + more)[k],
            ) == trimmed_end((records_of(log) + records_of(more))[k]),
{
    let ended = log.push('\n');
    assert(log + seq!['\n'] + more =~= ended + more);
    law_lines_of_two(ended, more);
    lemma_not_blank(lines_of(ended), lines_of(more));
    lemma_ended_log(log);
    if ends_in_return(log) {
        lemma_last_line(log);
        let last = records_of(log).last();
        assert(last == lines_of(log).last());
        assert(is_white_space('\r'));
        assert(trimmed_end(last) == trimmed_end(last.drop_last()));
    }
}

/// A log of one line has that line as its only record, unless all of it is white space.
pub proof fn law_record_of_line(line: Seq<char>)
    requires
        is_one_line(line),
    ensures
        (exists|i: int| 0 <= i < line.len() && !is_white_space(#[trigger] line[i])) ==> records_of(
            line,
        ) == seq![line],
        (forall|i: int| 0 <= i < line.len() ==> is_white_space(#[trigger] line[i])) ==> records_of(
            line,
        ) == Seq::<Seq<char>>::empty(),
{
    reveal_with_fuel(not_blank, 2);
    law_one_line(line);
    if line.len() > 0 {
        let lines = seq![line];
        assert(lines.drop_last() =~= Seq::empty());
        assert(lines.last() == line);
        if !is_blank(line) {
            assert(records_of(line) =~= seq![line]);
        }
    }
}

/// Whether every stamp is the one of its kept entry on a clock that is `zone` of an instant
/// ahead of UTC at that instant.
pub open spec fn stamped_by(
    entries: Seq<SessionLogEntry>,
    stamps: Seq<Stamp>,
    zone: spec_fn(u64) -> int,
) -> bool {
    &&& stamps.len() == kept(entries).len()
    &&& forall|k: int|
        0 <= k < stamps.len() ==> is_stamp_at(
            #[trigger] stamps[k],
            timestamp_millis(entries[kept(entries)[k] as int]),
            zone(timestamp_millis(entries[kept(entries)[k] as int])),
        )
}

/// The days of a note come in the order of time: where one date is listed before another one,
/// the entries under it are of an earlier day. Left out are the days after the year 9999.
pub proof fn law_days_in_order(
    entries: Seq<SessionLogEntry>,
    stamps: Seq<Stamp>,
    offset: int,
    j: int,
    k: int,
    a: int,
    b: int,
)
    requires
        is_offset(offset),
        stamped_by(entries, stamps, |millis: u64| offset),
        0 <= j < stamps.len(),
        0 <= k < stamps.len(),
        0 <= a < b < sorted_distinct(stamp_dates(stamps)).len(),
        stamps[j].date@ == sorted_distinct(stamp_dates(stamps))[a],
        stamps[k].date@ == sorted_distinct(stamp_dates(stamps))[b],
        local_day(timestamp_millis(entries[kept(entries)[j] as int]), offset) <= LAST_DAY_OF_9999,
    ensures
        local_day(timestamp_millis(entries[kept(entries)[j] as int]), offset) < local_day(
            timestamp_millis(entries[kept(entries)[k] as int]),
            offset,
        ),
{
    let first = timestamp_millis(entries[kept(entries)[j] as int]);
    let second = timestamp_millis(entries[kept(entries)[k] as int]);
    lemma_sorted_distinct(stamp_dates(stamps));
    assert(is_stamp_at(stamps[j], first, offset));
    assert(is_stamp_at(stamps[k], second, offset));
    assert(precedes(stamps[j].date@, stamps[k].date@));
    lemma_precedes_irreflexive(stamps[j].date@);
    if local_day(second, offset) <= local_day(first, offset) {
        if second <= first {
            law_dates_in_order(second, first, offset);
        }
        if precedes(stamps[k].date@, stamps[j].date@) {
            lemma_precedes_transitive(stamps[j].date@, stamps[k].date@, stamps[j].date@);
        }
    }
}

/// Whether a report of progress names what it belongs to.
pub open spec fn is_named(entry: SessionLogEntry) -> bool {
    entry.parent_tool_use_id is Some || entry.uuid is Some
}

/// Whether the entry is one of those that are there. A copy of a progress report that is
/// superfluous is one only where the report names what it belongs to.
pub open spec fn is_copy(entries: Seq<SessionLogEntry>, entry: SessionLogEntry) -> bool {
    exists|j: int|
        0 <= j < entries.len() && #[trigger] entries[j] == entry && (is_later_progress(entries, j)
            ==> is_named(entry))
}

/// What comes after an entry has no part in whether it is kept.
proof fn lemma_kept_prefix(
    entries: Seq<SessionLogEntry>,
    more: Seq<SessionLogEntry>,
    i: int,
)
    requires
        0 <= i < entries.len(),
    ensures
        is_later_progress(entries + more, i) == is_later_progress(entries, i),
        is_kept(entries + more, i) == is_kept(entries, i),
{
    let all = entries + more;
    assert forall|j: int| 0 <= j <= i implies is_later_progress(all, j) == is_later_progress(
        entries,
        j,
    ) by {
        assert(all[j] == entries[j]);
        if is_later_progress(all, j) {
            let p = choose|p: int|
                0 <= p < j && is_bash_progress(#[trigger] all[p]) && progress_key(all, p)
                    == progress_key(all, j);
            assert(all[p] == entries[p]);
        }
        if is_later_progress(entries, j) {
            let p = choose|p: int|
                0 <= p < j && is_bash_progress(#[trigger] entries[p]) && progress_key(entries, p)
                    == progress_key(entries, j);
            assert(all[p] == entries[p]);
        }
    }
    assert(all[i] == entries[i]);
    if repeats_content(all, i) {
        let p = choose|p: int|
            0 <= p < i && !is_later_progress(all, p) && content_key(#[trigger] all[p])
                == content_key(all[i]);
        assert(all[p] == entries[p]);
        assert(!is_later_progress(entries, p));
    }
    if repeats_content(entries, i) {
        let p = choose|p: int|
            0 <= p < i && !is_later_progress(entries, p) && content_key(#[trigger] entries[p])
                == content_key(entries[i]);
        assert(all[p] == entries[p]);
        assert(!is_later_progress(all, p));
    }
}

/// What comes after the first `n` entries has no part in which of them are kept.
proof fn lemma_kept_before_prefix(
    entries: Seq<SessionLogEntry>,
    more: Seq<SessionLogEntry>,
    n: nat,
)
    requires
        n <= entries.len(),
    ensures
        kept_before(entries + more, n) == kept_before(entries, n),
    decreases n,
{
    if n > 0 {
        lemma_kept_before_prefix(entries, more, (n - 1) as nat);
        lemma_kept_prefix(entries, more, n - 1);
    }
}

/// Whether an entry shows nothing and is a copy of one that is kept.
spec fn is_silent_copy(entries: Seq<SessionLogEntry>, entry: SessionLogEntry) -> bool {
    &&& display_of(entry) is None
    &&& exists|k: int|
        0 <= k < kept(entries).len() && entries[#[trigger] kept(entries)[k] as int] == entry
}

/// A copy that is kept shows nothing, and what it is a copy of is kept too.
proof fn lemma_kept_copy(entries: Seq<SessionLogEntry>, more: Seq<SessionLogEntry>, i: int)
    requires
        (entries + more).len() <= usize::MAX,
        entries.len() <= i < entries.len() + more.len(),
        is_copy(entries, (entries + more)[i]),
        is_kept(entries + more, i),
    ensures
        is_silent_copy(entries, (entries + more)[i]),
{
    let all = entries + more;
    let entry = all[i];
    let j = choose|j: int|
        0 <= j < entries.len() && #[trigger] entries[j] == entry && (is_later_progress(entries, j)
            ==> is_named(entry));
    assert(all[j] == entry);
    lemma_kept_prefix(entries, more, j);
    if is_later_progress(entries, j) {
        assert(progress_key(all, j) == progress_key(all, i));
        assert(is_later_progress(all, i));
    }
    if content_key(entry) is Some {
        assert(content_key(all[j]) == content_key(all[i]));
        assert(repeats_content(all, i));
    }
    assert(is_kept(entries, j));
    lemma_kept_before(entries, entries.len());
    assert(kept_before(entries, entries.len()).contains(j as usize));
    let k = choose|k: int| 0 <= k < kept(entries).len() && kept(entries)[k] == j as usize;
    assert(entries[kept(entries)[k] as int] == entry);
}

/// Copies that come after the entries add nothing that is shown to those that are kept.
proof fn lemma_kept_copies(entries: Seq<SessionLogEntry>, more: Seq<SessionLogEntry>, n: nat)
    requires
        (entries + more).len() <= usize::MAX,
        forall|m: int| 0 <= m < more.len() ==> is_copy(entries, #[trigger] more[m]),
        entries.len() <= n <= entries.len() + more.len(),
    ensures
        kept_before(entries + more, n).len() >= kept(entries).len(),
        kept_before(entries + more, n).take(kept(entries).len() as int) == kept(entries),
        forall|k: int|
            kept(entries).len() <= k < kept_before(entries + more, n).len() ==> is_silent_copy(
                entries,
                (entries + more)[#[trigger] kept_before(entries + more, n)[k] as int],
            ),
    decreases n,
{
    let all = entries + more;
    let out = kept_before(all, n);
    let len = kept(entries).len() as int;
    if n == entries.len() {
        lemma_kept_before_prefix(entries, more, n);
        assert(out.take(len) =~= kept(entries));
    } else {
        let before = kept_before(all, (n - 1) as nat);
        lemma_kept_copies(entries, more, (n - 1) as nat);
        assert(all[n - 1] == more[n - 1 - entries.len()]);
        if is_kept(all, n - 1) {
            lemma_kept_copy(entries, more, n - 1);
            assert(out.take(len) =~= before.take(len));
            assert forall|k: int| len <= k < out.len() implies is_silent_copy(
                entries,
                all[#[trigger] out[k] as int],
            ) by {
                if k < before.len() {
                    assert(out[k] == before[k]);
                }
            }
        }
    }
}

/// A text that a list in order holds is not added to it.
proof fn lemma_with_known_text(sorted: Seq<Seq<char>>, text: Seq<char>)
    requires
        ascending(sorted),
        sorted.contains(text),
    ensures
        with_text(sorted, text) == sorted,
    decreases sorted.len(),
{
    let k = choose|k: int| 0 <= k < sorted.len() && sorted[k] == text;
    if k > 0 {
        assert(precedes(sorted[0], sorted[k]));
        let rest = sorted.drop_first();
        assert(rest[k - 1] == text);
        assert forall|i: int, j: int| 0 <= i < j < rest.len() implies precedes(
            #[trigger] rest[i],
            #[trigger] rest[j],
        ) by {
            assert(precedes(sorted[i + 1], sorted[j + 1]));
        }
        lemma_with_known_text(rest, text);
        assert(seq![sorted[0]] + rest =~= sorted);
    } else {
        lemma_precedes_irreflexive(text);
    }
}

/// Texts that a list holds add nothing to its different texts.
proof fn lemma_distinct_copies(texts: Seq<Seq<char>>, more: Seq<Seq<char>>)
    requires
        forall|m: int| 0 <= m < more.len() ==> texts.contains(#[trigger] more[m]),
    ensures
        sorted_distinct(texts + more) == sorted_distinct(texts),
    decreases more.len(),
{
    if more.len() == 0 {
        assert(texts + more =~= texts);
    } else {
        let rest = more.drop_last();
        assert forall|m: int| 0 <= m < rest.len() implies texts.contains(#[trigger] rest[m]) by {
            assert(rest[m] == more[m]);
        }
        lemma_distinct_copies(texts, rest);
        assert((texts + more).drop_last() =~= texts + rest);
        assert((texts + more).last() == more.last());
        lemma_sorted_distinct(texts);
        assert(texts.contains(more[more.len() - 1]));
        lemma_with_known_text(sorted_distinct(texts), more.last());
    }
}

/// Nothing is told where no entry tells anything.
proof fn lemma_nothing_told(
    entries: Seq<SessionLogEntry>,
    told: spec_fn(SessionLogEntry) -> Option<Seq<char>>,
)
    ensures
        first_told(entries, told) is None <==> (forall|i: int|
            0 <= i < entries.len() ==> told(#[trigger] entries[i]) is None),
    decreases entries.len(),
{
    if entries.len() > 0 {
        let rest = entries.drop_first();
        lemma_nothing_told(rest, told);
        if first_told(entries, told) is None {
            assert forall|i: int| 0 <= i < entries.len() implies told(
                #[trigger] entries[i],
            ) is None by {
                if i > 0 {
                    assert(rest[i - 1] == entries[i]);
                }
            }
        }
        if forall|i: int| 0 <= i < entries.len() ==> told(#[trigger] entries[i]) is None {
            assert forall|i: int| 0 <= i < rest.len() implies told(#[trigger] rest[i]) is None by {
                assert(rest[i] == entries[i + 1]);
            }
            assert(told(entries[0]) is None);
        }
    }
}

/// What is told first stays so, whatever comes after it.
proof fn lemma_told_before(
    entries: Seq<SessionLogEntry>,
    more: Seq<SessionLogEntry>,
    told: spec_fn(SessionLogEntry) -> Option<Seq<char>>,
)
    requires
        first_told(entries, told) is Some,
    ensures
        first_told(entries + more, told) == first_told(entries, told),
    decreases entries.len(),
{
    let all = entries + more;
    assert(all[0] == entries[0]);
    if told(entries[0]) is None {
        lemma_told_before(entries.drop_first(), more, told);
        assert(all.drop_first() =~= entries.drop_first() + more);
    }
}

/// Copies do not change what is told first.
proof fn lemma_told_copies(
    entries: Seq<SessionLogEntry>,
    more: Seq<SessionLogEntry>,
    told: spec_fn(SessionLogEntry) -> Option<Seq<char>>,
)
    requires
        forall|m: int| 0 <= m < more.len() ==> is_copy(entries, #[trigger] more[m]),
    ensures
        first_told(entries + more, told) == first_told(entries, told),
{
    let all = entries + more;
    if first_told(entries, told) is Some {
        lemma_told_before(entries, more, told);
    } else {
        lemma_nothing_told(entries, told);
        assert forall|i: int| 0 <= i < all.len() implies told(#[trigger] all[i]) is None by {
            if i < entries.len() {
                assert(all[i] == entries[i]);
            } else {
                assert(is_copy(entries, more[i - entries.len()]));
                let j = choose|j: int|
                    0 <= j < entries.len() && #[trigger] entries[j] == all[i];
                assert(told(entries[j]) is None);
            }
        }
        lemma_nothing_told(all, told);
    }
}

/// The agents of the first `n` entries are there.
proof fn lemma_agent_there(entries: Seq<SessionLogEntry>, n: nat, j: int, id: Seq<char>)
    requires
        0 <= j < n <= entries.len(),
        chars_of(entries[j].agent_id) == Some(id),
        id.len() > 0,
    ensures
        agent_ids_before(entries, n).contains(id),
    decreases n,
{
    let before = agent_ids_before(entries, (n - 1) as nat);
    if j < n - 1 {
        lemma_agent_there(entries, (n - 1) as nat, j, id);
    }
    match chars_of(entries[n - 1].agent_id) {
        Some(last) => lemma_seq_contains_after_push(before, last, id),
        None => {},
    }
}

/// Copies bring no agents.
proof fn lemma_agents_of_copies(
    entries: Seq<SessionLogEntry>,
    more: Seq<SessionLogEntry>,
    n: nat,
)
    requires
        forall|m: int| 0 <= m < more.len() ==> is_copy(entries, #[trigger] more[m]),
        n <= entries.len() + more.len(),
    ensures
        n <= entries.len() ==> agent_ids_before(entries + more, n) == agent_ids_before(entries, n),
        n >= entries.len() ==> sorted_distinct(agent_ids_before(entries + more, n)) == agent_ids(
            entries,
        ),
    decreases n,
{
    let all = entries + more;
    if n > 0 {
        lemma_agents_of_copies(entries, more, (n - 1) as nat);
        if n <= entries.len() {
            assert(all[n - 1] == entries[n - 1]);
        } else {
            let entry = more[n - 1 - entries.len()];
            assert(all[n - 1] == entry);
            assert(is_copy(entries, entry));
            let j = choose|j: int| 0 <= j < entries.len() && #[trigger] entries[j] == entry;
            let before = agent_ids_before(all, (n - 1) as nat);
            match chars_of(entry.agent_id) {
                Some(id) => if id.len() > 0 {
                    lemma_agent_there(entries, entries.len(), j, id);
                    lemma_sorted_distinct(agent_ids_before(entries, entries.len()));
                    assert(agent_ids(entries).contains(id));
                    lemma_with_known_text(agent_ids(entries), id);
                    assert(before.push(id).drop_last() =~= before);
                },
                None => {},
            }
        }
    }
}

/// What the note says of a day rests on the entries and their dates and times, and entries that
/// show nothing add nothing to it.
proof fn lemma_day_of_copies(
    entries: Seq<SessionLogEntry>,
    more: Seq<SessionLogEntry>,
    stamps: Seq<Stamp>,
    all_stamps: Seq<Stamp>,
    date: Seq<char>,
    n: nat,
)
    requires
        kept(entries).len() == stamps.len() <= all_stamps.len() == kept(entries + more).len(),
        forall|k: int|
            0 <= k < stamps.len() ==> {
                &&& (#[trigger] all_stamps[k]).date@ == stamps[k].date@
                &&& all_stamps[k].time@ == stamps[k].time@
                &&& (entries + more)[kept(entries + more)[k] as int]
                    == entries[kept(entries)[k] as int]
            },
        forall|k: int|
            stamps.len() <= k < all_stamps.len() ==> display_of(
                (entries + more)[#[trigger] kept(entries + more)[k] as int],
            ) is None,
        n <= all_stamps.len(),
    ensures
        day_entries(entries + more, kept(entries + more), all_stamps, date, n) == day_entries(
            entries,
            kept(entries),
            stamps,
            date,
            if n <= stamps.len() {
                n
            } else {
                stamps.len()
            },
        ),
    decreases n,
{
    if n > 0 {
        lemma_day_of_copies(entries, more, stamps, all_stamps, date, (n - 1) as nat);
        let all = entries + more;
        let places = kept(all);
        if n <= stamps.len() {
            assert(all_stamps[n - 1].date@ == stamps[n - 1].date@);
        } else {
            assert(display_of(all[places[n - 1] as int]) is None);
            let before = day_entries(all, places, all_stamps, date, (n - 1) as nat);
            assert(before + Seq::<char>::empty() =~= before);
        }
    }
}

/// What the note says of the days rests on what it says of each.
proof fn lemma_days_of_copies(
    entries: Seq<SessionLogEntry>,
    more: Seq<SessionLogEntry>,
    stamps: Seq<Stamp>,
    all_stamps: Seq<Stamp>,
    dates: Seq<Seq<char>>,
)
    requires
        kept(entries).len() == stamps.len() <= all_stamps.len() == kept(entries + more).len(),
        forall|k: int|
            0 <= k < stamps.len() ==> {
                &&& (#[trigger] all_stamps[k]).date@ == stamps[k].date@
                &&& all_stamps[k].time@ == stamps[k].time@
                &&& (entries + more)[kept(entries + more)[k] as int]
                    == entries[kept(entries)[k] as int]
            },
        forall|k: int|
            stamps.len() <= k < all_stamps.len() ==> display_of(
                (entries + more)[#[trigger] kept(entries + more)[k] as int],
            ) is None,
    ensures
        day_sections(entries + more, kept(entries + more), all_stamps, dates) == day_sections(
            entries,
            kept(entries),
            stamps,
            dates,
        ),
    decreases dates.len(),
{
    if dates.len() > 0 {
        lemma_days_of_copies(entries, more, stamps, all_stamps, dates.drop_last());
        lemma_day_of_copies(
            entries,
            more,
            stamps,
            all_stamps,
            dates.last(),
            all_stamps.len(),
        );
    }
}

/// Entries that only repeat earlier ones change nothing in a note that is made on the same clock
/// and at the same time. Left out are the copies of a progress report that names nothing it
/// belongs to, and is superfluous only because its place is what another one names.
pub proof fn law_repeats_leave_note(
    entries: Seq<SessionLogEntry>,
    more: Seq<SessionLogEntry>,
    stamps: Seq<Stamp>,
    all_stamps: Seq<Stamp>,
    zone: spec_fn(u64) -> int,
    log_paths: Seq<String>,
    projects_dir: Seq<char>,
    generated: Seq<char>,
)
    requires
        (entries + more).len() <= usize::MAX,
        forall|m: int| 0 <= m < more.len() ==> is_copy(entries, #[trigger] more[m]),
        stamped_by(entries, stamps, zone),
        stamped_by(entries + more, all_stamps, zone),
    ensures
        note(
            entries + more,
            kept(entries + more),
            all_stamps,
            session_project(entries + more, log_paths, projects_dir),
            generated,
        ) == note(
            entries,
            kept(entries),
            stamps,
            session_project(entries, log_paths, projects_dir),
            generated,
        ),
{
    let all = entries + more;
    if entries.len() == 0 {
        if more.len() > 0 {
            assert(is_copy(entries, more[0]));
        }
    } else {
        let len = kept(entries).len();
        lemma_kept_copies(entries, more, all.len());
        lemma_kept_before(entries, entries.len());
        assert forall|k: int| 0 <= k < len implies {
            &&& (#[trigger] all_stamps[k]).date@ == stamps[k].date@
            &&& all_stamps[k].time@ == stamps[k].time@
            &&& all[kept(all)[k] as int] == entries[kept(entries)[k] as int]
        } by {
            assert(kept(all).take(len as int)[k] == kept(all)[k]);
            assert(kept_before(entries, entries.len())[k] < entries.len());
            let millis = timestamp_millis(entries[kept(entries)[k] as int]);
            assert(is_stamp_at(stamps[k], millis, zone(millis)));
            assert(is_stamp_at(all_stamps[k], millis, zone(millis)));
        }
        let dates = stamp_dates(stamps);
        let later = stamp_dates(all_stamps).skip(len as int);
        assert(stamp_dates(all_stamps) =~= dates + later);
        assert forall|m: int| 0 <= m < later.len() implies dates.contains(#[trigger] later[m]) by {
            let place = kept(all)[len + m];
            assert(is_silent_copy(entries, all[place as int]));
            let k = choose|k: int|
                0 <= k < kept(entries).len() && entries[#[trigger] kept(entries)[k] as int]
                    == all[place as int];
            let millis = timestamp_millis(all[place as int]);
            assert(is_stamp_at(all_stamps[len + m], millis, zone(millis)));
            assert(is_stamp_at(stamps[k], millis, zone(millis)));
            assert(dates[k] == later[m]);
        }
        lemma_distinct_copies(dates, later);
        lemma_days_of_copies(entries, more, stamps, all_stamps, sorted_distinct(dates));
        lemma_first_kept(entries);
        assert(all_stamps[0].date@ == stamps[0].date@);
        lemma_agents_of_copies(entries, more, all.len());
        assert(all[0] == entries[0]);
        lemma_told_copies(entries, more, |entry: SessionLogEntry| place_of(entry));
        lemma_told_copies(entries, more, |entry: SessionLogEntry| chars_of(entry.cwd));
        lemma_told_copies(entries, more, |entry: SessionLogEntry| summary_of_entry(entry));
    }
}

/// What stands before what an entry shows: who says it.
pub open spec fn speaker(entry: SessionLogEntry) -> Seq<char> {
    match entry.entry_type {
        Some(t) => if t@ == "user"@ {
            "**User:** "@
        } else if t@ == "assistant"@ {
            "**Assistant:** "@
        } else if t@ == "progress"@ {
            "**Output:** "@
        } else {
            Seq::empty()
        },
        None => Seq::empty(),
    }
}

/// What an entry shows, all of it, under its time and after who says it.
pub open spec fn told_at(entry: SessionLogEntry, time: Seq<char>, shown: Seq<char>) -> Seq<char> {
    "### "@ + time + "\n"@ + speaker(entry) + shown + "\n\n"@
}

/// The note shows every chosen entry of which something is shown: the date and the time of its
/// stamp, who says it, and all of the text.
pub proof fn law_entry_in_note(
    entries: Seq<SessionLogEntry>,
    places: Seq<usize>,
    stamps: Seq<Stamp>,
    project: Option<Seq<char>>,
    generated: Seq<char>,
    k: int,
    shown: Seq<char>,
)
    requires
        entries.len() > 0,
        places.len() == stamps.len(),
        0 <= k < places.len(),
        display_of(entries[places[k] as int]) == Some(shown),
    ensures
        stands_in("## "@ + stamps[k].date@ + "\n\n"@, note(entries, places, stamps, project, generated)),
        stands_in(
            told_at(entries[places[k] as int], stamps[k].time@, shown),
            note(entries, places, stamps, project, generated),
        ),
        stands_in(shown, note(entries, places, stamps, project, generated)),
{
    let entry = entries[places[k] as int];
    let time = stamps[k].time@;
    let date = stamps[k].date@;
    let whole = note(entries, places, stamps, project, generated);
    let none = Seq::<char>::empty();
    law_note_in_full(entries, places, stamps, project, generated, k);
    let section = told_at(entry, time, shown);
    assert(entry_section(entry, time) =~= section);
    let head = "### "@ + time + "\n"@ + speaker(entry);
    assert(stands_in(shown, section)) by {
        assert(section =~= head + shown + "\n\n"@);
    }
    lemma_stands_in_transitive(shown, section, whole);
    let day = day_section(entries, places, stamps, date);
    let heading = "## "@ + date + "\n\n"@;
    assert(stands_in(heading, day)) by {
        let after = day_entries(entries, places, stamps, date, places.len());
        assert(day =~= none + heading + after);
    }
    lemma_stands_in_transitive(heading, day, whole);
}

/// What the note says of an entry that is told first on its day, or after others.
pub open spec fn told_of(entry: SessionLogEntry, time: Seq<char>) -> Seq<char> {
    match display_of(entry) {
        Some(shown) => told_at(entry, time, shown),
        None => Seq::empty(),
    }
}

/// What the note says of an entry.
proof fn lemma_told_of(entry: SessionLogEntry, time: Seq<char>)
    ensures
        entry_section(entry, time) == told_of(entry, time),
{
}

/// Whether one of the stamps has the given date.
pub open spec fn has_date(stamps: Seq<Stamp>, date: Seq<char>) -> bool {
    exists|k: int| 0 <= k < stamps.len() && (#[trigger] stamps[k]).date@ == date
}

/// A further entry has no part in what the note says of those before it.
proof fn lemma_day_before(
    entries: Seq<SessionLogEntry>,
    places: Seq<usize>,
    stamps: Seq<Stamp>,
    place: usize,
    stamp: Stamp,
    date: Seq<char>,
    n: nat,
)
    requires
        places.len() == stamps.len(),
        n <= places.len(),
    ensures
        day_entries(entries, places.push(place), stamps.push(stamp), date, n) == day_entries(
            entries,
            places,
            stamps,
            date,
            n,
        ),
    decreases n,
{
    if n > 0 {
        lemma_day_before(entries, places, stamps, place, stamp, date, (n - 1) as nat);
    }
}

/// Nothing is said of a day that no stamp has.
proof fn lemma_no_day(
    entries: Seq<SessionLogEntry>,
    places: Seq<usize>,
    stamps: Seq<Stamp>,
    date: Seq<char>,
    n: nat,
)
    requires
        n <= stamps.len(),
        !has_date(stamps, date),
    ensures
        day_entries(entries, places, stamps, date, n) == Seq::<char>::empty(),
    decreases n,
{
    if n > 0 {
        lemma_no_day(entries, places, stamps, date, (n - 1) as nat);
    }
}

/// Days that a further entry is not of stay as they are.
proof fn lemma_days_before(
    entries: Seq<SessionLogEntry>,
    places: Seq<usize>,
    stamps: Seq<Stamp>,
    place: usize,
    stamp: Stamp,
    dates: Seq<Seq<char>>,
)
    requires
        places.len() == stamps.len(),
        !dates.contains(stamp.date@),
    ensures
        day_sections(entries, places.push(place), stamps.push(stamp), dates) == day_sections(
            entries,
            places,
            stamps,
            dates,
        ),
    decreases dates.len(),
{
    if dates.len() > 0 {
        let rest = dates.drop_last();
        let date = dates.last();
        assert(dates[dates.len() - 1] == date);
        assert forall|i: int| 0 <= i < rest.len() implies rest[i] != stamp.date@ by {
            assert(dates[i] == rest[i]);
        }
        lemma_days_before(entries, places, stamps, place, stamp, rest);
        lemma_day_before(entries, places, stamps, place, stamp, date, places.len());
    }
}

/// A text that comes after all others is put at the end.
proof fn lemma_with_last_text(sorted: Seq<Seq<char>>, text: Seq<char>)
    requires
        forall|i: int| 0 <= i < sorted.len() ==> precedes(#[trigger] sorted[i], text),
    ensures
        with_text(sorted, text) == sorted.push(text),
    decreases sorted.len(),
{
    if sorted.len() > 0 {
        let rest = sorted.drop_first();
        assert forall|i: int| 0 <= i < rest.len() implies precedes(#[trigger] rest[i], text) by {
            assert(rest[i] == sorted[i + 1]);
        }
        assert(precedes(sorted[0], text));
        lemma_with_last_text(rest, text);
        assert(seq![sorted[0]] + rest.push(text) =~= sorted.push(text));
    } else {
        assert(sorted.push(text) =~= seq![text]);
    }
}

/// A further entry that is not of an earlier day is told at the end of the note: under the date
/// that is there, or under its own where it is the first of its day. What was there stays.
pub proof fn law_note_grows(
    entries: Seq<SessionLogEntry>,
    places: Seq<usize>,
    stamps: Seq<Stamp>,
    place: usize,
    stamp: Stamp,
    project: Option<Seq<char>>,
    generated: Seq<char>,
)
    requires
        entries.len() > 0,
        0 < places.len() == stamps.len(),
        forall|k: int|
            0 <= k < stamps.len() ==> (#[trigger] stamps[k]).date@ == stamp.date@ || precedes(
                stamps[k].date@,
                stamp.date@,
            ),
    ensures
        note(entries, places.push(place), stamps.push(stamp), project, generated) == note(
            entries,
            places,
            stamps,
            project,
            generated,
        ) + (if has_date(stamps, stamp.date@) {
            Seq::empty()
        } else {
            "## "@ + stamp.date@ + "\n\n"@
        }) + told_of(entries[place as int], stamp.time@),
{
    let date = stamp.date@;
    let more_places = places.push(place);
    let more_stamps = stamps.push(stamp);
    let all = stamp_dates(stamps);
    let dates = sorted_distinct(all);
    let told = told_of(entries[place as int], stamp.time@);
    lemma_told_of(entries[place as int], stamp.time@);
    assert(stamp_dates(more_stamps) =~= all.push(date));
    assert(all.push(date).drop_last() =~= all);
    let more_dates = with_text(dates, date);
    assert(sorted_distinct(stamp_dates(more_stamps)) == more_dates);
    lemma_sorted_distinct(all);
    assert forall|i: int| 0 <= i < dates.len() implies #[trigger] dates[i] == date || precedes(
        dates[i],
        date,
    ) by {
        assert(dates.contains(dates[i]));
        let k = choose|k: int| 0 <= k < all.len() && all[k] == dates[i];
        assert(stamps[k].date@ == dates[i]);
    }
    assert(dates.contains(date) <==> has_date(stamps, date)) by {
        if dates.contains(date) {
            let k = choose|k: int| 0 <= k < all.len() && all[k] == date;
            assert(stamps[k].date@ == date);
        }
        if has_date(stamps, date) {
            let k = choose|k: int| 0 <= k < stamps.len() && (#[trigger] stamps[k]).date@ == date;
            assert(all[k] == date);
        }
    }
    lemma_day_before(entries, places, stamps, place, stamp, date, places.len());
    let inner = day_entries(entries, places, stamps, date, places.len());
    assert(day_entries(entries, more_places, more_stamps, date, more_places.len()) == inner + told);
    let start = note(entries, places, stamps, project, generated);
    let days = day_sections(entries, places, stamps, dates);
    let head = start.take(start.len() - days.len());
    assert(start =~= head + days);
    let more_days = day_sections(entries, more_places, more_stamps, more_dates);
    let more = note(entries, more_places, more_stamps, project, generated);
    assert(more =~= head + more_days) by {
        assert(more_stamps[0] == stamps[0]);
    }
    if has_date(stamps, date) {
        lemma_with_known_text(dates, date);
        let i = choose|i: int| 0 <= i < dates.len() && dates[i] == date;
        if i < dates.len() - 1 {
            let last = dates[dates.len() - 1];
            assert(precedes(dates[i], last));
            if last != date {
                lemma_precedes_transitive(date, last, date);
            }
            lemma_precedes_irreflexive(date);
        }
        let rest = dates.drop_last();
        assert forall|j: int| 0 <= j < rest.len() implies rest[j] != date by {
            assert(precedes(dates[j], dates[dates.len() - 1]));
            lemma_precedes_irreflexive(date);
            assert(rest[j] == dates[j]);
        }
        lemma_days_before(entries, places, stamps, place, stamp, rest);
        assert(more_days =~= days + told);
        assert(more =~= start + Seq::<char>::empty() + told);
    } else {
        assert forall|i: int| 0 <= i < dates.len() implies precedes(#[trigger] dates[i], date) by {
            assert(dates.contains(dates[i]));
        }
        lemma_with_last_text(dates, date);
        assert(more_dates.drop_last() =~= dates);
        lemma_days_before(entries, places, stamps, place, stamp, dates);
        lemma_no_day(entries, places, stamps, date, places.len());
        assert(more_days =~= days + ("## "@ + date + "\n\n"@ + told));
        assert(more =~= start + ("## "@ + date + "\n\n"@) + told);
    }
}

/// The line that lists agents, where there is any.
pub open spec fn agents_told(agents: Seq<Seq<char>>) -> Seq<char> {
    if agents.len() == 0 {
        Seq::empty()
    } else {
        "**Subagents:** "@ + joined(agents, ", "@) + "\n"@
    }
}

/// A text, or another one where there is none.
pub open spec fn or_else(text: Option<Seq<char>>, other: Seq<char>) -> Seq<char> {
    match text {
        Some(t) => t,
        None => other,
    }
}

/// What a note on a session begins with: its properties, which are those of its first stamp, its
/// project, its working directory and its summary, and its heading.
pub open spec fn beginning(
    entries: Seq<SessionLogEntry>,
    stamp: Stamp,
    project: Option<Seq<char>>,
    generated: Seq<char>,
) -> Seq<char> {
    let id = match entries[0].session_id {
        Some(id) => id@,
        None => "unknown"@,
    };
    ("---\ndate: "@ + stamp.date@ + "\ntime: "@ + stamp.time@ + "\ndatetime: "@ + stamp.date@ + " "@
        + stamp.time@ + "\nproject: "@ + or_else(project, "unknown"@) + "\ncwd: "@ + or_else(
        first_cwd(entries),
        Seq::empty(),
    ) + "\nsummary: "@ + or_else(summary_of(entries), Seq::empty()) + "\n---\n\n"@) + (
    "# Session: "@ + id + "\n\n**Project:** "@ + or_else(project, "unknown"@) + "\n"@
        + agents_told(agent_ids(entries)) + "**Generated:** "@ + generated + "\n\n"@)
}

/// The note on a session of which one entry is chosen: its properties, its heading, and the
/// entry under its date.
pub proof fn law_note_of_one(
    entries: Seq<SessionLogEntry>,
    place: usize,
    stamp: Stamp,
    project: Option<Seq<char>>,
    generated: Seq<char>,
)
    requires
        entries.len() > 0,
    ensures
        note(entries, seq![place], seq![stamp], project, generated) == beginning(
            entries,
            stamp,
            project,
            generated,
        ) + ("## "@ + stamp.date@ + "\n\n"@ + told_of(entries[place as int], stamp.time@)),
{
    let stamps = seq![stamp];
    let places = seq![place];
    let date = stamp.date@;
    let none = Seq::<char>::empty();
    reveal_with_fuel(day_sections, 2);
    reveal_with_fuel(day_entries, 2);
    reveal_with_fuel(sorted_distinct, 2);
    lemma_told_of(entries[place as int], stamp.time@);
    let all = stamp_dates(stamps);
    assert(all =~= seq![date]);
    assert(all.drop_last() =~= Seq::empty());
    let dates = sorted_distinct(all);
    assert(dates =~= seq![date]);
    assert(dates.drop_last() =~= Seq::empty());
    let told = told_of(entries[place as int], stamp.time@);
    assert(day_entries(entries, places, stamps, date, 1) =~= told);
    assert(day_sections(entries, places, stamps, dates) =~= "## "@ + date + "\n\n"@ + told);
}

/// A note on a session begins with its properties and its heading, whatever is chosen of it.
pub proof fn law_note_begins(
    entries: Seq<SessionLogEntry>,
    places: Seq<usize>,
    stamps: Seq<Stamp>,
    project: Option<Seq<char>>,
    generated: Seq<char>,
)
    requires
        entries.len() > 0,
        0 < places.len() == stamps.len(),
    ensures
        beginning(entries, stamps[0], project, generated).is_prefix_of(
            note(entries, places, stamps, project, generated),
        ),
{
    let days = day_sections(entries, places, stamps, sorted_distinct(stamp_dates(stamps)));
    assert(agents_line(entries) =~= agents_told(agent_ids(entries)));
    let start = beginning(entries, stamps[0], project, generated);
    let whole = note(entries, places, stamps, project, generated);
    assert(whole =~= start + days);
    assert(whole.subrange(0, start.len() as int) =~= start);
}

/// A note that was converted shows every entry that is kept under its local date and at its
/// local time, both at one distance from UTC of less than a day.
pub proof fn law_converted_note(
    text: Seq<char>,
    entries: Seq<SessionLogEntry>,
    project: Option<Seq<char>>,
    k: int,
    shown: Seq<char>,
)
    requires
        0 < entries.len() <= usize::MAX,
        is_note(text, entries, project),
        0 <= k < kept(entries).len(),
        display_of(entries[kept(entries)[k] as int]) == Some(shown),
    ensures
        exists|offset: int|
            {
                &&& -86_400 < offset < 86_400
                &&& stands_in(
                    "## "@ + #[trigger] date_at(
                        timestamp_millis(entries[kept(entries)[k] as int]),
                        offset,
                    ) + "\n\n"@,
                    text,
                )
                &&& stands_in(
                    told_at(
                        entries[kept(entries)[k] as int],
                        time_at(timestamp_millis(entries[kept(entries)[k] as int]), offset),
                        shown,
                    ),
                    text,
                )
            },
        stands_in(shown, text),
{
    let stamps = choose|stamps: Seq<Stamp>|
        are_stamps(entries, stamps) && #[trigger] is_stamped_note(text, entries, stamps, project);
    let generated = choose|generated: Seq<char>|
        text == #[trigger] note(entries, kept(entries), stamps, project, generated);
    law_entry_in_note(entries, kept(entries), stamps, project, generated, k, shown);
    let millis = timestamp_millis(entries[kept(entries)[k] as int]);
    assert(is_stamp_of(stamps[k], millis));
    let offset = choose|offset: int|
        is_offset(offset) && #[trigger] is_stamp_at(stamps[k], millis, offset);
    assert(stamps[k].date@ == date_at(millis, offset));
}

/// The note that is made on a session shows the text of every entry of the session: of every
/// entry that names the session, is no report of progress, and is the first one known by its
/// key. Left out are sessions in which the name of a type holds a colon.
pub proof fn law_session_in_note(
    all: Seq<SessionLogEntry>,
    session_id: Seq<char>,
    note: SessionNote,
    project: Option<Seq<char>>,
    i: int,
    shown: Seq<char>,
)
    requires
        all.len() <= usize::MAX,
        is_note_on(note, session_id, session_entries(all, session_id), project),
        0 <= i < all.len(),
        is_first_known(all, session_id, i),
        display_of(all[i]) == Some(shown),
        !is_report(all[i]),
        forall|j: int| 0 <= j < all.len() ==> !kind_of(#[trigger] all[j]).contains(':'),
    ensures
        stands_in(shown, note.markdown@),
{
    let entries = session_entries(all, session_id);
    law_first_collected(all, session_id, i);
    lemma_session_len(all, session_id);
    let p = choose|p: int| 0 <= p < entries.len() && entries[p] == all[i];
    let stamps = choose|stamps: Seq<Stamp>|
        {
            &&& are_stamps(entries, stamps)
            &&& #[trigger] is_stamped_note(note.markdown@, entries, stamps, project)
            &&& match note.datetime {
                Some(d) => entries.len() > 0 && d@ == first_moment(stamps),
                None => entries.len() == 0,
            }
        };
    assert(is_note(note.markdown@, entries, project));
    assert(!is_superfluous(entries, p));
    if kept(entries).contains(p as usize) {
        let k = choose|k: int| 0 <= k < kept(entries).len() && kept(entries)[k] == p as usize;
        law_converted_note(note.markdown@, entries, project, k, shown);
    } else {
        law_dropped_for_a_reason(entries, p);
        let k = choose|k: int|
            0 <= k < kept(entries).len() && #[trigger] kept(entries)[k] < p && {
                let other = entries[kept(entries)[k] as int];
                &&& display_of(other) is Some
                &&& kind_of(other) + ":"@ + display_of(other)->0 == kind_of(entries[p]) + ":"@
                    + display_of(entries[p])->0
                &&& kind_of(other) == kind_of(entries[p]) || (!kind_of(other).contains(':')
                    && !kind_of(entries[p]).contains(':')) ==> kind_of(other) == kind_of(
                    entries[p],
                ) && display_of(other) == display_of(entries[p])
            };
        let q = kept(entries)[k] as int;
        law_collected_belongs(all, session_id, q, q);
        let j = choose|j: int| 0 <= j < all.len() && all[j] == entries[q];
        assert(!kind_of(all[j]).contains(':'));
        law_converted_note(note.markdown@, entries, project, k, shown);
    }
}

/// A session has no more entries than there are.
proof fn lemma_session_len(all: Seq<SessionLogEntry>, session_id: Seq<char>)
    ensures
        session_entries(all, session_id).len() <= all.len(),
{
    lemma_distinct_len(all, session_id, all.len());
    lemma_by_time_len(distinct_entries(all, session_id));
}

/// There are no more distinct entries than entries.
proof fn lemma_distinct_len(all: Seq<SessionLogEntry>, session_id: Seq<char>, n: nat)
    ensures
        distinct_before(all, session_id, n).len() <= n,
    decreases n,
{
    if n > 0 {
        lemma_distinct_len(all, session_id, (n - 1) as nat);
    }
}

/// Sorting by time keeps the number of entries.
proof fn lemma_by_time_len(entries: Seq<SessionLogEntry>)
    ensures
        by_time(entries).len() == entries.len(),
    decreases entries.len(),
{
    if entries.len() > 0 {
        lemma_by_time_len(entries.drop_last());
        law_by_time_sorts(entries.drop_last());
        lemma_entry_place(by_time(entries.drop_last()), entries.last());
    }
}

/// What is recorded of a note is what stands in it: its name is made of the identifier of the
/// session, and its date and time, its project and its summary are those of its properties.
pub proof fn law_record_of_note(
    note: SessionNote,
    session_id: Seq<char>,
    entries: Seq<SessionLogEntry>,
    project: Option<Seq<char>>,
)
    requires
        entries.len() <= usize::MAX,
        is_note_on(note, session_id, entries, project),
    ensures
        note.file_name@ == safe_id(session_id) + ".md"@,
        note.output_path@ == "sessions/"@ + note.file_name@,
        note.entry_count == entries.len(),
        entries.len() == 0 ==> note.markdown@.len() == 0 && note.datetime is None,
        entries.len() > 0 ==> note.datetime is Some && stands_in(
            "\ndatetime: "@ + note.datetime->0@ + "\nproject: "@,
            note.markdown@,
        ),
        note.project is Some <==> project is Some,
        project matches Some(name) ==> note.project->0@ == name,
        entries.len() > 0 ==> (note.project matches Some(name) ==> stands_in(
            "\nproject: "@ + name@ + "\ncwd: "@,
            note.markdown@,
        ) && stands_in("\n\n**Project:** "@ + name@ + "\n"@, note.markdown@)),
        note.summary is Some <==> summary_of(entries) is Some,
        summary_of(entries) matches Some(summary) ==> note.summary->0@ == summary,
        entries.len() > 0 ==> (note.summary matches Some(summary) ==> stands_in(
            "\nsummary: "@ + summary@ + "\n---\n\n"@,
            note.markdown@,
        )),
{
    let text = note.markdown@;
    let stamps = choose|stamps: Seq<Stamp>|
        {
            &&& are_stamps(entries, stamps)
            &&& #[trigger] is_stamped_note(text, entries, stamps, project)
            &&& match note.datetime {
                Some(d) => entries.len() > 0 && d@ == first_moment(stamps),
                None => entries.len() == 0,
            }
        };
    let generated = choose|generated: Seq<char>|
        text == #[trigger] crate::markdown::note(
            entries,
            kept(entries),
            stamps,
            project,
            generated,
        );
    assert("sessions/"@ + safe_id(session_id) + ".md"@ =~= "sessions/"@ + (safe_id(session_id)
        + ".md"@));
    if entries.len() > 0 {
        lemma_first_kept(entries);
        law_note_begins(entries, kept(entries), stamps, project, generated);
        let start = beginning(entries, stamps[0], project, generated);
        lemma_start_stands_in(start, text);
        lemma_parts_of_beginning(entries, stamps[0], project, generated);
        let name = or_else(project, "unknown"@);
        let summary = or_else(summary_of(entries), Seq::empty());
        let moment = first_moment(stamps);
        lemma_stands_in_transitive("\ndatetime: "@ + moment + "\nproject: "@, start, text);
        lemma_stands_in_transitive("\nproject: "@ + name + "\ncwd: "@, start, text);
        lemma_stands_in_transitive("\n\n**Project:** "@ + name + "\n"@, start, text);
        lemma_stands_in_transitive("\nsummary: "@ + summary + "\n---\n\n"@, start, text);
    }
}

/// A start of a text stands in it.
proof fn lemma_start_stands_in(start: Seq<char>, text: Seq<char>)
    requires
        start.is_prefix_of(text),
    ensures
        stands_in(start, text),
{
    let none = Seq::<char>::empty();
    assert(text =~= none + start + text.skip(start.len() as int));
}

/// What stands in a text stands in every text that goes on from it.
proof fn lemma_goes_on(part: Seq<char>, whole: Seq<char>, tail: Seq<char>)
    requires
        stands_in(part, whole),
    ensures
        stands_in(part, whole + tail),
{
    lemma_start_stands_in_more(whole, tail);
    lemma_stands_in_transitive(part, whole, whole + tail);
}

/// A text stands in every text that goes on from it, or leads to it.
proof fn lemma_start_stands_in_more(whole: Seq<char>, tail: Seq<char>)
    ensures
        stands_in(whole, whole + tail),
        stands_in(tail, whole + tail),
{
    let none = Seq::<char>::empty();
    assert(whole + tail =~= none + whole + tail);
    assert(whole + tail =~= whole + tail + none);
}

/// Three texts after another one, taken together.
proof fn lemma_three_parts(start: Seq<char>, a: Seq<char>, b: Seq<char>, c: Seq<char>)
    ensures
        start + a + b + c == start + (a + b + c),
        stands_in(a + b + c, start + a + b + c),
{
    assert(start + a + b + c =~= start + (a + b + c));
    lemma_start_stands_in_more(start, a + b + c);
}

/// The date and the time, the project and the summary stand in the beginning of a note.
proof fn lemma_parts_of_beginning(
    entries: Seq<SessionLogEntry>,
    stamp: Stamp,
    project: Option<Seq<char>>,
    generated: Seq<char>,
)
    ensures
        stands_in(
            "\ndatetime: "@ + (stamp.date@ + " "@ + stamp.time@) + "\nproject: "@,
            beginning(entries, stamp, project, generated),
        ),
        stands_in(
            "\nproject: "@ + or_else(project, "unknown"@) + "\ncwd: "@,
            beginning(entries, stamp, project, generated),
        ),
        stands_in(
            "\nsummary: "@ + or_else(summary_of(entries), Seq::empty()) + "\n---\n\n"@,
            beginning(entries, stamp, project, generated),
        ),
        stands_in(
            "\n\n**Project:** "@ + or_else(project, "unknown"@) + "\n"@,
            beginning(entries, stamp, project, generated),
        ),
{
    let name = or_else(project, "unknown"@);
    let cwd = or_else(first_cwd(entries), Seq::empty());
    let summary = or_else(summary_of(entries), Seq::empty());
    let id = match entries[0].session_id {
        Some(id) => id@,
        None => "unknown"@,
    };
    let d0 = "---\ndate: "@ + stamp.date@ + "\ntime: "@ + stamp.time@;
    let d1 = d0 + "\ndatetime: "@ + stamp.date@ + " "@ + stamp.time@;
    let d2 = d1 + "\nproject: "@;
    let d3 = d2 + name;
    let d4 = d3 + "\ncwd: "@;
    let d5 = d4 + cwd;
    let d8 = d5 + "\nsummary: "@ + summary + "\n---\n\n"@;
    let t1 = "# Session: "@ + id + "\n\n**Project:** "@ + name + "\n"@;
    let t2 = t1 + agents_told(agent_ids(entries));
    let t3 = t2 + "**Generated:** "@;
    let t4 = t3 + generated;
    let t5 = t4 + "\n\n"@;
    assert(beginning(entries, stamp, project, generated) == d8 + t5);

    let moment = stamp.date@ + " "@ + stamp.time@;
    let first = "\ndatetime: "@ + moment + "\nproject: "@;
    lemma_three_parts(d0 + "\ndatetime: "@, stamp.date@, " "@, stamp.time@);
    assert(d1 == d0 + "\ndatetime: "@ + moment);
    lemma_three_parts(d0, "\ndatetime: "@, moment, "\nproject: "@);
    lemma_goes_on(first, d2, name);
    lemma_goes_on(first, d3, "\ncwd: "@);
    let second = "\nproject: "@ + name + "\ncwd: "@;
    lemma_three_parts(d1, "\nproject: "@, name, "\ncwd: "@);
    let tail = "\nsummary: "@ + summary + "\n---\n\n"@;
    lemma_three_parts(d5, "\nsummary: "@, summary, "\n---\n\n"@);
    lemma_goes_on(first, d4, cwd);
    lemma_goes_on(first, d5, tail);
    lemma_goes_on(first, d8, t5);
    lemma_goes_on(second, d4, cwd);
    lemma_goes_on(second, d5, tail);
    lemma_goes_on(second, d8, t5);
    lemma_goes_on(tail, d8, t5);

    let third = "\n\n**Project:** "@ + name + "\n"@;
    lemma_three_parts("# Session: "@ + id, "\n\n**Project:** "@, name, "\n"@);
    lemma_goes_on(third, t1, agents_told(agent_ids(entries)));
    lemma_goes_on(third, t2, "**Generated:** "@);
    lemma_goes_on(third, t3, generated);
    lemma_goes_on(third, t4, "\n\n"@);
    lemma_start_stands_in_more(d8, t5);
    lemma_stands_in_transitive(third, t5, d8 + t5);
}

/// The times of a session fit where none of them is after the year 262142, and only where none of
/// those that are kept is.
pub proof fn law_times_fit(entries: Seq<SessionLogEntry>, k: int)
    requires
        entries.len() <= usize::MAX,
        0 <= k < kept(entries).len(),
    ensures
        (forall|i: int|
            0 <= i < entries.len() ==> timestamp_millis(#[trigger] entries[i])
                <= 8_210_266_876_799_999) ==> times_fit(entries),
        timestamp_millis(entries[kept(entries)[k] as int]) > 8_210_266_876_799_999 ==> !times_fit(
            entries,
        ),
{
    lemma_kept_before(entries, entries.len());
    if forall|i: int|
        0 <= i < entries.len() ==> timestamp_millis(#[trigger] entries[i])
            <= 8_210_266_876_799_999 {
        assert forall|j: int| 0 <= j < kept(entries).len() implies timestamp_millis(
            entries[#[trigger] kept(entries)[j] as int],
        ) <= LAST_INSTANT by {
            assert(kept_before(entries, entries.len())[j] < entries.len());
        }
    }
}

} // verus!
