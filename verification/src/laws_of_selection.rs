//! What holds of the entries that are collected for a session and of those that are shown.

use vstd::prelude::*;

use crate::entry::display_of;
use crate::entry::is_bash_progress;
use crate::entry::timestamp_millis;
use crate::entry::SessionLogEntry;
use crate::laws::in_time_order;
use crate::laws::law_by_time_sorts;
use crate::laws::law_content_kept;
use crate::laws::law_content_once;
use crate::laws::law_session_complete;
use crate::laws::law_session_distinct;
use crate::laws::law_session_in_order;
use crate::laws_of_display::lemma_reports;
use crate::laws_of_display::reports;
use crate::merge::belongs;
use crate::merge::by_time;
use crate::merge::distinct_before;
use crate::merge::distinct_entries;
use crate::merge::entry_key;
use crate::merge::is_duplicate;
use crate::merge::session_entries;
use crate::merge::with_entry;
use crate::select::content_key;
use crate::select::is_kept;
use crate::select::is_later_progress;
use crate::select::kept;
use crate::select::kept_before;
use crate::select::lemma_kept_before;
use crate::select::progress_key;
use crate::text::decimal;

verus! {

/// The name of the type of an entry; empty where it has none.
pub open spec fn kind_of(entry: SessionLogEntry) -> Seq<char> {
    match entry.entry_type {
        Some(t) => t@,
        None => Seq::empty(),
    }
}

/// Whether an entry is a report of the progress of a shell command.
pub open spec fn is_report(entry: SessionLogEntry) -> bool {
    entry.data matches Some(data) && reports(entry, data)
}

/// Whether the name is the one of the thing that an entry reports on: the use of a tool, else
/// the entry itself, by its identifier or, for want of one, by its place.
pub open spec fn reports_on(entry: SessionLogEntry, place: int, name: Seq<char>) -> bool {
    match (entry.parent_tool_use_id, entry.uuid) {
        (Some(parent), _) => parent@ == name,
        (None, Some(id)) => id@ == name,
        (None, None) => decimal(place as nat) == name,
    }
}

/// Whether an earlier report is on the same thing.
pub open spec fn is_superfluous(entries: Seq<SessionLogEntry>, i: int) -> bool {
    is_report(entries[i]) && exists|j: int, name: Seq<char>|
        {
            &&& 0 <= j < i
            &&& is_report(entries[j])
            &&& #[trigger] reports_on(entries[j], j, name)
            &&& reports_on(entries[i], i, name)
        }
}

/// A later report by its fields.
proof fn lemma_superfluous(entries: Seq<SessionLogEntry>, i: int)
    requires
        0 <= i < entries.len(),
    ensures
        is_superfluous(entries, i) <==> is_later_progress(entries, i),
{
    lemma_reports(entries[i]);
    let key = progress_key(entries, i);
    assert(reports_on(entries[i], i, key));
    if is_superfluous(entries, i) {
        let (j, name) = choose|j: int, name: Seq<char>|
            {
                &&& 0 <= j < i
                &&& is_report(entries[j])
                &&& #[trigger] reports_on(entries[j], j, name)
                &&& reports_on(entries[i], i, name)
            };
        lemma_reports(entries[j]);
        assert(progress_key(entries, j) == name);
        assert(is_bash_progress(entries[j]));
    }
    if is_later_progress(entries, i) {
        let j = choose|j: int|
            0 <= j < i && is_bash_progress(#[trigger] entries[j]) && progress_key(
                entries,
                j,
            ) == progress_key(entries, i);
        lemma_reports(entries[j]);
        assert(reports_on(entries[j], j, key));
    }
}

/// Entries are shown in the order in which they are, each once.
pub proof fn law_shown_in_order(entries: Seq<SessionLogEntry>, j: int, k: int)
    requires
        entries.len() <= usize::MAX,
        0 <= j < k < kept(entries).len(),
    ensures
        kept(entries)[j] < kept(entries)[k] < entries.len(),
{
    lemma_kept_before(entries, entries.len());
}

/// Of the reports on one use of a tool, or with one identifier, none but the first is shown.
pub proof fn law_later_report_dropped(
    entries: Seq<SessionLogEntry>,
    j: int,
    i: int,
    name: Seq<char>,
)
    requires
        entries.len() <= usize::MAX,
        0 <= j < i < entries.len(),
        is_report(entries[j]),
        is_report(entries[i]),
        reports_on(entries[j], j, name),
        reports_on(entries[i], i, name),
    ensures
        !kept(entries).contains(i as usize),
{
    assert(is_superfluous(entries, i));
    lemma_superfluous(entries, i);
    lemma_kept_before(entries, entries.len());
    if kept(entries).contains(i as usize) {
        let k = choose|k: int| 0 <= k < kept(entries).len() && kept(entries)[k] == i as usize;
        assert(is_kept(entries, kept_before(entries, entries.len())[k] as int));
    }
}

/// No two entries of one type that are shown show the same text.
pub proof fn law_shown_once(entries: Seq<SessionLogEntry>, j: int, k: int)
    requires
        entries.len() <= usize::MAX,
        0 <= j < k < kept(entries).len(),
        kind_of(entries[kept(entries)[j] as int]) == kind_of(entries[kept(entries)[k] as int]),
        display_of(entries[kept(entries)[k] as int]) is Some,
    ensures
        display_of(entries[kept(entries)[j] as int]) != display_of(
            entries[kept(entries)[k] as int],
        ),
{
    law_content_once(entries, j, k);
}

/// Texts before a colon that they do not hold, and texts after it, are told apart.
proof fn lemma_colon(a: Seq<char>, x: Seq<char>, b: Seq<char>, y: Seq<char>)
    requires
        a + ":"@ + x == b + ":"@ + y,
        a.len() == b.len() || (!a.contains(':') && !b.contains(':')),
    ensures
        a == b,
        x == y,
{
    reveal_strlit(":");
    let whole = a + ":"@ + x;
    assert(whole == b + ":"@ + y);
    assert(whole[a.len() as int] == ':');
    assert(whole[b.len() as int] == ':');
    if a.len() < b.len() {
        assert(b[a.len() as int] == whole[a.len() as int]);
        assert(b.contains(':'));
    }
    if b.len() < a.len() {
        assert(a[b.len() as int] == whole[b.len() as int]);
        assert(a.contains(':'));
    }
    assert(a =~= whole.take(a.len() as int));
    assert(b =~= whole.take(b.len() as int));
    assert(x =~= whole.skip(a.len() as int + 1));
    assert(y =~= whole.skip(b.len() as int + 1));
}

/// An entry is left out only as a later report, or where an earlier entry that is shown has the
/// same type and shows the same text, all of it. Types and texts are compared with a colon
/// between them: only where a type holds a colon itself can two entries of different types be
/// taken for the same.
pub proof fn law_dropped_for_a_reason(entries: Seq<SessionLogEntry>, i: int)
    requires
        entries.len() <= usize::MAX,
        0 <= i < entries.len(),
        !kept(entries).contains(i as usize),
        !is_superfluous(entries, i),
    ensures
        display_of(entries[i]) is Some,
        exists|k: int|
            0 <= k < kept(entries).len() && #[trigger] kept(entries)[k] < i && {
                let other = entries[kept(entries)[k] as int];
                &&& display_of(other) is Some
                &&& kind_of(other) + ":"@ + display_of(other)->0 == kind_of(entries[i]) + ":"@
                    + display_of(entries[i])->0
                &&& kind_of(other) == kind_of(entries[i]) || (!kind_of(other).contains(':')
                    && !kind_of(entries[i]).contains(':')) ==> kind_of(other) == kind_of(
                    entries[i],
                ) && display_of(other) == display_of(entries[i])
            },
{
    lemma_superfluous(entries, i);
    lemma_kept_before(entries, entries.len());
    if is_kept(entries, i) {
        assert(kept_before(entries, entries.len()).contains(i as usize));
    }
    assert(content_key(entries[i]) is Some);
    law_content_kept(entries, i);
    let k = choose|k: int|
        0 <= k < kept(entries).len() && #[trigger] kept(entries)[k] <= i && content_key(
            entries[kept(entries)[k] as int],
        ) == content_key(entries[i]);
    let other = entries[kept(entries)[k] as int];
    if kept(entries)[k] == i {
        assert(kept(entries)[k] == i as usize);
        assert(kept(entries).contains(i as usize));
    }
    if kind_of(other) == kind_of(entries[i]) || (!kind_of(other).contains(':')
        && !kind_of(entries[i]).contains(':')) {
        lemma_colon(
            kind_of(other),
            display_of(other)->0,
            kind_of(entries[i]),
            display_of(entries[i])->0,
        );
    }
}

/// Entries of different text are told apart: an entry that is no later report, and shows
/// what no earlier entry shows, is shown.
pub proof fn law_new_text_shown(entries: Seq<SessionLogEntry>, i: int)
    requires
        entries.len() <= usize::MAX,
        0 <= i < entries.len(),
        !is_superfluous(entries, i),
        forall|j: int| 0 <= j < entries.len() ==> !kind_of(#[trigger] entries[j]).contains(':'),
        forall|j: int|
            0 <= j < i ==> kind_of(#[trigger] entries[j]) != kind_of(entries[i]) || display_of(
                entries[j],
            ) != display_of(entries[i]),
    ensures
        kept(entries).contains(i as usize),
{
    if !kept(entries).contains(i as usize) {
        law_dropped_for_a_reason(entries, i);
        let k = choose|k: int|
            0 <= k < kept(entries).len() && #[trigger] kept(entries)[k] < i && {
                let other = entries[kept(entries)[k] as int];
                &&& display_of(other) is Some
                &&& kind_of(other) + ":"@ + display_of(other)->0 == kind_of(entries[i]) + ":"@
                    + display_of(entries[i])->0
                &&& kind_of(other) == kind_of(entries[i]) || (!kind_of(other).contains(':')
                    && !kind_of(entries[i]).contains(':')) ==> kind_of(other) == kind_of(
                    entries[i],
                ) && display_of(other) == display_of(entries[i])
            };
        assert(!kind_of(entries[kept(entries)[k] as int]).contains(':'));
    }
}

/// Whether an entry names the given session, whatever else it holds.
pub open spec fn names_session(entry: SessionLogEntry, session_id: Seq<char>) -> bool {
    entry.session_id matches Some(id) && id@ == session_id
}

/// Whether an entry is known by the given key: its identifier, else its time and its type.
pub open spec fn is_known_by(entry: SessionLogEntry, key: Seq<char>) -> bool {
    match entry.uuid {
        Some(id) => id@ == key,
        None => decimal(timestamp_millis(entry) as nat) + ":"@ + kind_of(entry) == key,
    }
}

/// Every entry that names the session is collected, or one that is known by the same.
pub proof fn law_every_entry_collected(
    entries: Seq<SessionLogEntry>,
    session_id: Seq<char>,
    i: int,
    key: Seq<char>,
)
    requires
        0 <= i < entries.len(),
        names_session(entries[i], session_id),
        is_known_by(entries[i], key),
    ensures
        exists|k: int|
            0 <= k < session_entries(entries, session_id).len() && is_known_by(
                #[trigger] session_entries(entries, session_id)[k],
                key,
            ),
{
    law_session_complete(entries, session_id, i);
    let k = choose|k: int|
        0 <= k < session_entries(entries, session_id).len() && entry_key(
            #[trigger] session_entries(entries, session_id)[k],
        ) == entry_key(entries[i]);
    assert(is_known_by(session_entries(entries, session_id)[k], key));
}

/// No two of the collected entries are known by the same.
pub proof fn law_collected_once(
    entries: Seq<SessionLogEntry>,
    session_id: Seq<char>,
    j: int,
    k: int,
    key: Seq<char>,
)
    requires
        0 <= j < k < session_entries(entries, session_id).len(),
        is_known_by(session_entries(entries, session_id)[j], key),
    ensures
        !is_known_by(session_entries(entries, session_id)[k], key),
{
    law_session_distinct(entries, session_id);
    let out = session_entries(entries, session_id);
    assert(entry_key(out[j]) != entry_key(out[k]));
}

/// What is collected was there, and names the session; a later one is not earlier in time.
pub proof fn law_collected_belongs(
    entries: Seq<SessionLogEntry>,
    session_id: Seq<char>,
    j: int,
    k: int,
)
    requires
        0 <= j <= k < session_entries(entries, session_id).len(),
    ensures
        entries.contains(session_entries(entries, session_id)[k]),
        names_session(session_entries(entries, session_id)[k], session_id),
        timestamp_millis(session_entries(entries, session_id)[j]) <= timestamp_millis(
            session_entries(entries, session_id)[k],
        ),
{
    law_session_in_order(entries, session_id);
    let out = session_entries(entries, session_id);
    assert(belongs(out[k], session_id));
}

/// Whether an entry names the session, and no earlier one that does is known by the same.
pub open spec fn is_first_known(
    entries: Seq<SessionLogEntry>,
    session_id: Seq<char>,
    i: int,
) -> bool {
    &&& names_session(entries[i], session_id)
    &&& forall|j: int, key: Seq<char>|
        0 <= j < i && names_session(entries[j], session_id) && #[trigger] is_known_by(
            entries[j],
            key,
        ) ==> !is_known_by(entries[i], key)
}

/// The first entry of its key is no repeat.
proof fn lemma_first_known(entries: Seq<SessionLogEntry>, session_id: Seq<char>, i: int)
    requires
        is_first_known(entries, session_id, i),
    ensures
        belongs(entries[i], session_id),
        !is_duplicate(entries, session_id, i),
{
    if is_duplicate(entries, session_id, i) {
        let j = choose|j: int|
            0 <= j < i && belongs(#[trigger] entries[j], session_id) && entry_key(entries[j])
                == entry_key(entries[i]);
        assert(is_known_by(entries[j], entry_key(entries[i])));
    }
}

/// The first entry of its key has its place among the distinct ones, after those that come
/// before it.
proof fn lemma_distinct_place(
    entries: Seq<SessionLogEntry>,
    session_id: Seq<char>,
    i: int,
    n: nat,
)
    requires
        0 <= i < n <= entries.len(),
        belongs(entries[i], session_id),
        !is_duplicate(entries, session_id, i),
    ensures
        distinct_before(entries, session_id, i as nat).len() < distinct_before(
            entries,
            session_id,
            n,
        ).len(),
        distinct_before(entries, session_id, n)[distinct_before(
            entries,
            session_id,
            i as nat,
        ).len() as int] == entries[i],
    decreases n,
{
    if i < n - 1 {
        lemma_distinct_place(entries, session_id, i, (n - 1) as nat);
    }
}

/// An entry that is put into a list in the order of time is put somewhere, and comes after all
/// that are not later.
pub(crate) proof fn lemma_entry_place(sorted: Seq<SessionLogEntry>, entry: SessionLogEntry) -> (n: int)
    requires
        in_time_order(sorted),
    ensures
        0 <= n <= sorted.len(),
        with_entry(sorted, entry) == sorted.insert(n, entry),
        forall|i: int|
            0 <= i < sorted.len() && timestamp_millis(#[trigger] sorted[i]) <= timestamp_millis(
                entry,
            ) ==> i < n,
    decreases sorted.len(),
{
    if sorted.len() == 0 || timestamp_millis(sorted.last()) <= timestamp_millis(entry) {
        assert(sorted.insert(sorted.len() as int, entry) =~= sorted.push(entry));
        sorted.len() as int
    } else {
        let rest = sorted.drop_last();
        assert forall|i: int, j: int| 0 <= i < j < rest.len() implies timestamp_millis(
            #[trigger] rest[i],
        ) <= timestamp_millis(#[trigger] rest[j]) by {
            assert(timestamp_millis(sorted[i]) <= timestamp_millis(sorted[j]));
        }
        let n = lemma_entry_place(rest, entry);
        assert(rest.insert(n, entry).push(sorted.last()) =~= sorted.insert(n, entry));
        assert forall|i: int|
            0 <= i < sorted.len() && timestamp_millis(#[trigger] sorted[i]) <= timestamp_millis(
                entry,
            ) implies i < n by {
            if i < rest.len() {
                assert(rest[i] == sorted[i]);
            }
        }
        n
    }
}

/// Sorting by time leaves two entries in their order where the later one is not earlier in time.
proof fn lemma_by_time_order(list: Seq<SessionLogEntry>, p: int, q: int) -> (places: (int, int))
    requires
        0 <= p < q < list.len(),
        timestamp_millis(list[p]) <= timestamp_millis(list[q]),
    ensures
        0 <= places.0 < places.1 < by_time(list).len(),
        by_time(list)[places.0] == list[p],
        by_time(list)[places.1] == list[q],
    decreases list.len(),
{
    let rest = list.drop_last();
    let sorted = by_time(rest);
    law_by_time_sorts(rest);
    let n = lemma_entry_place(sorted, list.last());
    assert(by_time(list) == sorted.insert(n, list.last()));
    if q < rest.len() {
        let (a, b) = lemma_by_time_order(rest, p, q);
        let a2: int = if a < n {
            a
        } else {
            a + 1
        };
        let b2: int = if b < n {
            b
        } else {
            b + 1
        };
        assert(by_time(list)[a2] == list[p]);
        assert(by_time(list)[b2] == list[q]);
        (a2, b2)
    } else {
        assert(rest[p] == list[p]);
        assert(rest.contains(list[p]));
        assert(sorted.contains(list[p]));
        let a = choose|a: int| 0 <= a < sorted.len() && sorted[a] == list[p];
        assert(a < n);
        (a, n)
    }
}

/// Of the entries that are known by the same the first one is collected.
pub proof fn law_first_collected(
    entries: Seq<SessionLogEntry>,
    session_id: Seq<char>,
    i: int,
)
    requires
        0 <= i < entries.len(),
        is_first_known(entries, session_id, i),
    ensures
        session_entries(entries, session_id).contains(entries[i]),
{
    lemma_first_known(entries, session_id, i);
    lemma_distinct_place(entries, session_id, i, entries.len());
    let found = distinct_entries(entries, session_id);
    assert(found.contains(entries[i]));
    law_by_time_sorts(found);
}

/// Collected entries stay in the order in which they were found, unless their times say
/// otherwise.
pub proof fn law_collected_in_order(
    entries: Seq<SessionLogEntry>,
    session_id: Seq<char>,
    i: int,
    j: int,
)
    requires
        0 <= i < j < entries.len(),
        is_first_known(entries, session_id, i),
        is_first_known(entries, session_id, j),
        timestamp_millis(entries[i]) <= timestamp_millis(entries[j]),
    ensures
        exists|a: int, b: int|
            0 <= a < b < session_entries(entries, session_id).len()
                && #[trigger] session_entries(entries, session_id)[a] == entries[i]
                && #[trigger] session_entries(entries, session_id)[b] == entries[j],
{
    lemma_first_known(entries, session_id, i);
    lemma_first_known(entries, session_id, j);
    lemma_distinct_place(entries, session_id, i, entries.len());
    lemma_distinct_place(entries, session_id, j, entries.len());
    lemma_distinct_place(entries, session_id, i, j as nat);
    let found = distinct_entries(entries, session_id);
    let p = distinct_before(entries, session_id, i as nat).len() as int;
    let q = distinct_before(entries, session_id, j as nat).len() as int;
    let (a, b) = lemma_by_time_order(found, p, q);
    assert(session_entries(entries, session_id)[a] == entries[i]);
    assert(session_entries(entries, session_id)[b] == entries[j]);
}

} // verus!
