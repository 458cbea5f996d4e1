//! What holds of the library as a whole.

use vstd::prelude::*;
use vstd::seq_lib::lemma_seq_contains_after_push;

use crate::entry::chars_of;
use crate::entry::is_bash_progress;
use crate::entry::timestamp_millis;
use crate::entry::SessionLogEntry;
use crate::merge::belongs;
use crate::merge::by_time;
use crate::merge::distinct_before;
use crate::merge::distinct_entries;
use crate::merge::entry_key;
use crate::merge::is_duplicate;
use crate::merge::session_entries;
use crate::merge::with_entry;
use crate::select::content_key;
use crate::select::is_kept;
use crate::select::is_later_progress;
use crate::select::kept;
use crate::select::kept_before;
use crate::select::lemma_kept_before;
use crate::select::progress_key;
use crate::select::repeats_content;

verus! {

/// No two kept entries of one type show the same.
pub proof fn law_content_once(entries: Seq<SessionLogEntry>, j: int, k: int)
    requires
        entries.len() <= usize::MAX,
        0 <= j < k < kept(entries).len(),
        content_key(entries[kept(entries)[k] as int]) is Some,
    ensures
        content_key(entries[kept(entries)[j] as int]) != content_key(
            entries[kept(entries)[k] as int],
        ),
{
    lemma_kept_before(entries, entries.len());
    let earlier = kept(entries)[j];
    let later = kept(entries)[k];
    assert(is_kept(entries, earlier as int));
    assert(is_kept(entries, later as int));
}

/// Of the progress reports on one thing at most one is kept.
pub proof fn law_one_progress_report(entries: Seq<SessionLogEntry>, j: int, k: int)
    requires
        entries.len() <= usize::MAX,
        0 <= j < k < kept(entries).len(),
        is_bash_progress(entries[kept(entries)[j] as int]),
        is_bash_progress(entries[kept(entries)[k] as int]),
    ensures
        progress_key(entries, kept(entries)[j] as int) != progress_key(
            entries,
            kept(entries)[k] as int,
        ),
{
    lemma_kept_before(entries, entries.len());
    let earlier = kept(entries)[j];
    let later = kept(entries)[k];
    assert(is_kept(entries, later as int));
}

/// A progress report that is kept is the first one on its thing.
pub proof fn law_first_progress_report(entries: Seq<SessionLogEntry>, k: int, i: int)
    requires
        entries.len() <= usize::MAX,
        0 <= k < kept(entries).len(),
        is_bash_progress(entries[kept(entries)[k] as int]),
        0 <= i < entries.len(),
        is_bash_progress(entries[i]),
        progress_key(entries, i) == progress_key(entries, kept(entries)[k] as int),
    ensures
        kept(entries)[k] <= i,
{
    lemma_kept_before(entries, entries.len());
    assert(is_kept(entries, kept(entries)[k] as int));
}

/// What an entry shows is kept, in the entry or in an earlier one of its type, unless the entry
/// is a later progress report.
pub proof fn law_content_kept(entries: Seq<SessionLogEntry>, i: int)
    requires
        entries.len() <= usize::MAX,
        0 <= i < entries.len(),
        content_key(entries[i]) is Some,
        !is_later_progress(entries, i),
    ensures
        exists|k: int|
            0 <= k < kept(entries).len() && #[trigger] kept(entries)[k] <= i && content_key(
                entries[kept(entries)[k] as int],
            ) == content_key(entries[i]),
    decreases i,
{
    if repeats_content(entries, i) {
        let j = choose|j: int|
            0 <= j < i && !is_later_progress(entries, j) && content_key(#[trigger] entries[j])
                == content_key(entries[i]);
        law_content_kept(entries, j);
        let k = choose|k: int|
            0 <= k < kept(entries).len() && #[trigger] kept(entries)[k] <= j && content_key(
                entries[kept(entries)[k] as int],
            ) == content_key(entries[j]);
        assert(kept(entries)[k] <= i);
    } else {
        lemma_kept_before(entries, entries.len());
        assert(kept_before(entries, entries.len()).contains(i as usize));
        let k = choose|k: int| 0 <= k < kept(entries).len() && kept(entries)[k] == i as usize;
        assert(kept(entries)[k] <= i);
    }
}

/// Whether no entry is earlier than one before it.
pub open spec fn in_time_order(entries: Seq<SessionLogEntry>) -> bool {
    forall|i: int, j: int|
        0 <= i < j < entries.len() ==> timestamp_millis(#[trigger] entries[i])
            <= timestamp_millis(#[trigger] entries[j])
}

/// Whether no two entries are known by the same.
pub open spec fn are_distinct(entries: Seq<SessionLogEntry>) -> bool {
    forall|i: int, j: int|
        0 <= i < j < entries.len() ==> entry_key(#[trigger] entries[i]) != entry_key(
            #[trigger] entries[j],
        )
}

/// The entries of one time, in their order.
pub open spec fn at_time(entries: Seq<SessionLogEntry>, time: u64) -> Seq<SessionLogEntry>
    decreases entries.len(),
{
    if entries.len() == 0 {
        Seq::empty()
    } else if timestamp_millis(entries.last()) == time {
        at_time(entries.drop_last(), time).push(entries.last())
    } else {
        at_time(entries.drop_last(), time)
    }
}

/// An entry that is put into a list in the order of time is one more in it and keeps that
/// order.
proof fn lemma_with_entry_order(sorted: Seq<SessionLogEntry>, entry: SessionLogEntry)
    requires
        in_time_order(sorted),
    ensures
        in_time_order(with_entry(sorted, entry)),
        with_entry(sorted, entry).to_multiset() == sorted.to_multiset().insert(entry),
        forall|e: SessionLogEntry| #[trigger]
            with_entry(sorted, entry).contains(e) <==> (sorted.contains(e) || e == entry),
    decreases sorted.len(),
{
    broadcast use vstd::seq_lib::group_to_multiset_ensures;

    let out = with_entry(sorted, entry);
    if sorted.len() == 0 || timestamp_millis(sorted.last()) <= timestamp_millis(entry) {
        assert forall|e: SessionLogEntry| #[trigger] out.contains(e) <==> (sorted.contains(e) || e
            == entry) by {
            lemma_seq_contains_after_push(sorted, entry, e);
        }
        assert forall|i: int, j: int| 0 <= i < j < out.len() implies timestamp_millis(
            #[trigger] out[i],
        ) <= timestamp_millis(#[trigger] out[j]) by {
            if j == sorted.len() && i < sorted.len() - 1 {
                assert(timestamp_millis(sorted[i]) <= timestamp_millis(sorted[sorted.len() - 1]));
            }
        }
    } else {
        let rest = sorted.drop_last();
        let last = sorted.last();
        assert forall|i: int, j: int| 0 <= i < j < rest.len() implies timestamp_millis(
            #[trigger] rest[i],
        ) <= timestamp_millis(#[trigger] rest[j]) by {
            assert(timestamp_millis(sorted[i]) <= timestamp_millis(sorted[j]));
        }
        lemma_with_entry_order(rest, entry);
        let inner = with_entry(rest, entry);
        assert(sorted =~= rest.push(last));
        assert(out.to_multiset() =~= sorted.to_multiset().insert(entry));
        assert forall|e: SessionLogEntry| #[trigger] out.contains(e) <==> (sorted.contains(e) || e
            == entry) by {
            lemma_seq_contains_after_push(inner, last, e);
            lemma_seq_contains_after_push(rest, last, e);
            assert(inner.contains(e) <==> (rest.contains(e) || e == entry));
        }
        assert forall|i: int, j: int| 0 <= i < j < out.len() implies timestamp_millis(
            #[trigger] out[i],
        ) <= timestamp_millis(#[trigger] out[j]) by {
            if j < inner.len() {
                assert(timestamp_millis(inner[i]) <= timestamp_millis(inner[j]));
            } else {
                assert(inner.contains(inner[i]));
                if inner[i] != entry {
                    assert(rest.contains(inner[i]));
                    let k = choose|k: int| 0 <= k < rest.len() && rest[k] == inner[i];
                    assert(timestamp_millis(sorted[k]) <= timestamp_millis(
                        sorted[sorted.len() - 1],
                    ));
                }
            }
        }
    }
}

/// Sorting by time keeps all entries and puts none before an earlier one.
pub proof fn law_by_time_sorts(entries: Seq<SessionLogEntry>)
    ensures
        in_time_order(by_time(entries)),
        by_time(entries).to_multiset() == entries.to_multiset(),
        forall|e: SessionLogEntry| #[trigger] by_time(entries).contains(e) <==> entries.contains(e),
    decreases entries.len(),
{
    broadcast use vstd::seq_lib::group_to_multiset_ensures;

    if entries.len() > 0 {
        let rest = entries.drop_last();
        law_by_time_sorts(rest);
        lemma_with_entry_order(by_time(rest), entries.last());
        assert(entries =~= rest.push(entries.last()));
        assert forall|e: SessionLogEntry| #[trigger] by_time(entries).contains(
            e,
        ) <==> entries.contains(e) by {
            lemma_seq_contains_after_push(rest, entries.last(), e);
            assert(by_time(rest).contains(e) <==> rest.contains(e));
        }
    }
}

/// An entry that is put into a list comes after the entries of its time, and moves none of
/// them.
proof fn lemma_with_entry_stable(
    sorted: Seq<SessionLogEntry>,
    entry: SessionLogEntry,
    time: u64,
)
    ensures
        at_time(with_entry(sorted, entry), time) == at_time(sorted.push(entry), time),
    decreases sorted.len(),
{
    reveal_with_fuel(at_time, 3);
    assert(sorted.push(entry).drop_last() =~= sorted);
    if sorted.len() > 0 && timestamp_millis(sorted.last()) > timestamp_millis(entry) {
        let rest = sorted.drop_last();
        lemma_with_entry_stable(rest, entry, time);
        assert(rest.push(entry).drop_last() =~= rest);
        let inner = with_entry(rest, entry);
        assert(inner.push(sorted.last()).drop_last() =~= inner);
    }
}

/// Sorting by time leaves the entries of one time in the order in which they were.
pub proof fn law_by_time_stable(entries: Seq<SessionLogEntry>, time: u64)
    ensures
        at_time(by_time(entries), time) == at_time(entries, time),
    decreases entries.len(),
{
    if entries.len() > 0 {
        let rest = entries.drop_last();
        law_by_time_stable(rest, time);
        lemma_with_entry_stable(by_time(rest), entries.last(), time);
        assert(by_time(rest).push(entries.last()).drop_last() =~= by_time(rest));
    }
}

/// The distinct entries of a session: all of the session, no two known by the same, and every
/// entry of the session known by what one of them is known by.
proof fn lemma_distinct_before(entries: Seq<SessionLogEntry>, session_id: Seq<char>, n: nat)
    requires
        n <= entries.len(),
    ensures
        forall|k: int|
            0 <= k < distinct_before(entries, session_id, n).len() ==> {
                &&& belongs(#[trigger] distinct_before(entries, session_id, n)[k], session_id)
                &&& exists|i: int|
                    0 <= i < n && #[trigger] entries[i] == distinct_before(
                        entries,
                        session_id,
                        n,
                    )[k]
            },
        are_distinct(distinct_before(entries, session_id, n)),
        forall|i: int|
            0 <= i < n && belongs(#[trigger] entries[i], session_id) ==> exists|k: int|
                0 <= k < distinct_before(entries, session_id, n).len() && entry_key(
                    #[trigger] distinct_before(entries, session_id, n)[k],
                ) == entry_key(entries[i]),
    decreases n,
{
    if n > 0 {
        let before = distinct_before(entries, session_id, (n - 1) as nat);
        let out = distinct_before(entries, session_id, n);
        let entry = entries[n - 1];
        lemma_distinct_before(entries, session_id, (n - 1) as nat);
        assert forall|k: int| 0 <= k < out.len() implies belongs(#[trigger] out[k], session_id)
            && exists|i: int| 0 <= i < n && #[trigger] entries[i] == out[k] by {
            if k < before.len() {
                assert(out[k] == before[k]);
                let i = choose|i: int| 0 <= i < n - 1 && #[trigger] entries[i] == before[k];
                assert(entries[i] == out[k]);
            } else {
                assert(entries[n - 1] == out[k]);
            }
        }
        assert forall|i: int, j: int| 0 <= i < j < out.len() implies entry_key(#[trigger] out[i])
            != entry_key(#[trigger] out[j]) by {
            assert(out[i] == before[i]);
            if j < before.len() {
                assert(out[j] == before[j]);
            } else {
                let m = choose|m: int| 0 <= m < n - 1 && #[trigger] entries[m] == before[i];
                assert(belongs(before[i], session_id));
                assert(belongs(entries[m], session_id));
                assert(!is_duplicate(entries, session_id, n - 1));
            }
        }
        assert forall|i: int| 0 <= i < n && belongs(#[trigger] entries[i], session_id) implies exists|
            k: int,
        |
            0 <= k < out.len() && entry_key(#[trigger] out[k]) == entry_key(entries[i]) by {
            if i < n - 1 {
                let k = choose|k: int|
                    0 <= k < before.len() && entry_key(#[trigger] before[k]) == entry_key(
                        entries[i],
                    );
                assert(out[k] == before[k]);
            } else if is_duplicate(entries, session_id, n - 1) {
                let j = choose|j: int|
                    0 <= j < n - 1 && belongs(#[trigger] entries[j], session_id) && entry_key(
                        entries[j],
                    ) == entry_key(entries[n - 1]);
                let k = choose|k: int|
                    0 <= k < before.len() && entry_key(#[trigger] before[k]) == entry_key(
                        entries[j],
                    );
                assert(out[k] == before[k]);
            } else {
                assert(out[before.len() as int] == entry);
            }
        }
    }
}

/// A collected session is in the order of time, and every entry of it is one of the session
/// that was there.
pub proof fn law_session_in_order(entries: Seq<SessionLogEntry>, session_id: Seq<char>)
    ensures
        in_time_order(session_entries(entries, session_id)),
        forall|k: int|
            0 <= k < session_entries(entries, session_id).len() ==> {
                &&& belongs(#[trigger] session_entries(entries, session_id)[k], session_id)
                &&& entries.contains(session_entries(entries, session_id)[k])
            },
{
    let found = distinct_entries(entries, session_id);
    let out = session_entries(entries, session_id);
    lemma_distinct_before(entries, session_id, entries.len());
    law_by_time_sorts(found);
    assert forall|k: int| 0 <= k < out.len() implies belongs(#[trigger] out[k], session_id)
        && entries.contains(out[k]) by {
        assert(out.contains(out[k]));
        assert(found.contains(out[k]));
        let m = choose|m: int| 0 <= m < found.len() && found[m] == out[k];
        let i = choose|i: int| 0 <= i < entries.len() && #[trigger] entries[i] == found[m];
        assert(entries[i] == out[k]);
    }
}

/// An entry whose key none of the others has is put among them.
proof fn lemma_with_entry_distinct(sorted: Seq<SessionLogEntry>, entry: SessionLogEntry)
    requires
        in_time_order(sorted),
        are_distinct(sorted.push(entry)),
    ensures
        are_distinct(with_entry(sorted, entry)),
    decreases sorted.len(),
{
    if sorted.len() > 0 && timestamp_millis(sorted.last()) > timestamp_millis(entry) {
        let rest = sorted.drop_last();
        let last = sorted.last();
        let all = sorted.push(entry);
        let shorter = rest.push(entry);
        assert forall|i: int, j: int| 0 <= i < j < shorter.len() implies entry_key(
            #[trigger] shorter[i],
        ) != entry_key(#[trigger] shorter[j]) by {
            let there = if j < rest.len() {
                j
            } else {
                all.len() - 1
            };
            assert(all[i] == shorter[i]);
            assert(all[there] == shorter[j]);
        }
        assert forall|i: int, j: int| 0 <= i < j < rest.len() implies timestamp_millis(
            #[trigger] rest[i],
        ) <= timestamp_millis(#[trigger] rest[j]) by {
            assert(timestamp_millis(sorted[i]) <= timestamp_millis(sorted[j]));
        }
        lemma_with_entry_distinct(rest, entry);
        lemma_with_entry_order(rest, entry);
        let inner = with_entry(rest, entry);
        let out = with_entry(sorted, entry);
        assert forall|i: int, j: int| 0 <= i < j < out.len() implies entry_key(#[trigger] out[i])
            != entry_key(#[trigger] out[j]) by {
            if j < inner.len() {
                assert(inner[i] == out[i] && inner[j] == out[j]);
            } else {
                assert(inner.contains(inner[i]));
                if inner[i] == entry {
                    assert(all[sorted.len() - 1] == last && all[sorted.len() as int] == entry);
                } else {
                    let k = choose|k: int| 0 <= k < rest.len() && rest[k] == inner[i];
                    assert(all[k] == inner[i] && all[sorted.len() - 1] == last);
                }
            }
        }
    }
}

/// Sorting by time keeps distinct entries distinct.
proof fn lemma_by_time_distinct(entries: Seq<SessionLogEntry>)
    requires
        are_distinct(entries),
    ensures
        are_distinct(by_time(entries)),
    decreases entries.len(),
{
    if entries.len() > 0 {
        let rest = entries.drop_last();
        let last = entries.last();
        assert forall|i: int, j: int| 0 <= i < j < rest.len() implies entry_key(#[trigger] rest[i])
            != entry_key(#[trigger] rest[j]) by {
            assert(entries[i] == rest[i] && entries[j] == rest[j]);
        }
        lemma_by_time_distinct(rest);
        law_by_time_sorts(rest);
        let sorted = by_time(rest);
        let all = sorted.push(last);
        assert forall|i: int, j: int| 0 <= i < j < all.len() implies entry_key(#[trigger] all[i])
            != entry_key(#[trigger] all[j]) by {
            if j < sorted.len() {
                assert(sorted[i] == all[i] && sorted[j] == all[j]);
            } else {
                assert(sorted.contains(sorted[i]));
                let k = choose|k: int| 0 <= k < rest.len() && rest[k] == sorted[i];
                assert(entries[k] == sorted[i] && entries[entries.len() - 1] == last);
            }
        }
        lemma_with_entry_distinct(sorted, last);
    }
}

/// No two entries of a collected session are known by the same.
pub proof fn law_session_distinct(entries: Seq<SessionLogEntry>, session_id: Seq<char>)
    ensures
        are_distinct(session_entries(entries, session_id)),
{
    lemma_distinct_before(entries, session_id, entries.len());
    lemma_by_time_distinct(distinct_entries(entries, session_id));
}

/// Every entry of the session is in the collected session, or one that is known by the same.
pub proof fn law_session_complete(
    entries: Seq<SessionLogEntry>,
    session_id: Seq<char>,
    i: int,
)
    requires
        0 <= i < entries.len(),
        chars_of(entries[i].session_id) == Some(session_id),
    ensures
        exists|k: int|
            0 <= k < session_entries(entries, session_id).len() && entry_key(
                #[trigger] session_entries(entries, session_id)[k],
            ) == entry_key(entries[i]),
{
    let found = distinct_entries(entries, session_id);
    let out = session_entries(entries, session_id);
    lemma_distinct_before(entries, session_id, entries.len());
    law_by_time_sorts(found);
    let m = choose|m: int|
        0 <= m < found.len() && entry_key(#[trigger] found[m]) == entry_key(entries[i]);
    assert(found.contains(found[m]));
    assert(out.contains(found[m]));
    let k = choose|k: int| 0 <= k < out.len() && out[k] == found[m];
    assert(entry_key(out[k]) == entry_key(entries[i]));
}

/// What comes after the first `n` entries has no part in what is distinct among them.
proof fn lemma_distinct_prefix(
    entries: Seq<SessionLogEntry>,
    more: Seq<SessionLogEntry>,
    session_id: Seq<char>,
    n: nat,
)
    requires
        n <= entries.len(),
    ensures
        distinct_before(entries + more, session_id, n) == distinct_before(entries, session_id, n),
    decreases n,
{
    if n > 0 {
        lemma_distinct_prefix(entries, more, session_id, (n - 1) as nat);
        let all = entries + more;
        assert(all[n - 1] == entries[n - 1]);
        assert(is_duplicate(all, session_id, n - 1) == is_duplicate(entries, session_id, n - 1)) by {
            if is_duplicate(all, session_id, n - 1) {
                let j = choose|j: int|
                    0 <= j < n - 1 && belongs(#[trigger] all[j], session_id) && entry_key(all[j])
                        == entry_key(all[n - 1]);
                assert(entries[j] == all[j]);
            }
            if is_duplicate(entries, session_id, n - 1) {
                let j = choose|j: int|
                    0 <= j < n - 1 && belongs(#[trigger] entries[j], session_id) && entry_key(
                        entries[j],
                    ) == entry_key(entries[n - 1]);
                assert(entries[j] == all[j]);
            }
        }
    }
}

/// Whether every entry of the session among `more` is known by what one of `entries` is known
/// by.
pub open spec fn adds_nothing(
    entries: Seq<SessionLogEntry>,
    more: Seq<SessionLogEntry>,
    session_id: Seq<char>,
) -> bool {
    forall|m: int|
        0 <= m < more.len() && belongs(#[trigger] more[m], session_id) ==> exists|i: int|
            0 <= i < entries.len() && belongs(#[trigger] entries[i], session_id) && entry_key(
                entries[i],
            ) == entry_key(more[m])
}

/// Entries that only repeat earlier ones change nothing: a log that is read again, or that is
/// copied to another place, leaves a session as it is.
pub proof fn law_repeats_change_nothing(
    entries: Seq<SessionLogEntry>,
    more: Seq<SessionLogEntry>,
    session_id: Seq<char>,
)
    requires
        adds_nothing(entries, more, session_id),
    ensures
        session_entries(entries + more, session_id) == session_entries(entries, session_id),
{
    lemma_distinct_repeats(entries, more, session_id, (entries + more).len());
}

/// Entries that only repeat earlier ones are none of the distinct ones.
proof fn lemma_distinct_repeats(
    entries: Seq<SessionLogEntry>,
    more: Seq<SessionLogEntry>,
    session_id: Seq<char>,
    n: nat,
)
    requires
        adds_nothing(entries, more, session_id),
        entries.len() <= n <= entries.len() + more.len(),
    ensures
        distinct_before(entries + more, session_id, n) == distinct_entries(entries, session_id),
    decreases n,
{
    let all = entries + more;
    if n == entries.len() {
        lemma_distinct_prefix(entries, more, session_id, n);
    } else {
        lemma_distinct_repeats(entries, more, session_id, (n - 1) as nat);
        let m = n - 1 - entries.len();
        assert(all[n - 1] == more[m]);
        if belongs(more[m], session_id) {
            let i = choose|i: int|
                0 <= i < entries.len() && belongs(#[trigger] entries[i], session_id) && entry_key(
                    entries[i],
                ) == entry_key(more[m]);
            assert(all[i] == entries[i]);
            assert(is_duplicate(all, session_id, n - 1));
        }
    }
}

/// Distinct entries of the session are all of the distinct ones.
proof fn lemma_distinct_all(entries: Seq<SessionLogEntry>, session_id: Seq<char>, n: nat)
    requires
        n <= entries.len(),
        are_distinct(entries),
        forall|i: int| 0 <= i < entries.len() ==> belongs(#[trigger] entries[i], session_id),
    ensures
        distinct_before(entries, session_id, n) == entries.take(n as int),
    decreases n,
{
    if n > 0 {
        lemma_distinct_all(entries, session_id, (n - 1) as nat);
        assert(!is_duplicate(entries, session_id, n - 1));
        assert(entries.take(n as int) =~= entries.take(n - 1).push(entries[n - 1]));
    } else {
        assert(entries.take(0) =~= Seq::empty());
    }
}

/// Entries in the order of time are sorted already.
proof fn lemma_by_time_sorted(entries: Seq<SessionLogEntry>)
    requires
        in_time_order(entries),
    ensures
        by_time(entries) == entries,
    decreases entries.len(),
{
    if entries.len() > 0 {
        let rest = entries.drop_last();
        assert forall|i: int, j: int| 0 <= i < j < rest.len() implies timestamp_millis(
            #[trigger] rest[i],
        ) <= timestamp_millis(#[trigger] rest[j]) by {
            assert(entries[i] == rest[i] && entries[j] == rest[j]);
        }
        lemma_by_time_sorted(rest);
        if rest.len() > 0 {
            assert(timestamp_millis(entries[entries.len() - 2]) <= timestamp_millis(
                entries[entries.len() - 1],
            ));
        }
        assert(rest.push(entries.last()) =~= entries);
    } else {
        assert(entries =~= Seq::empty());
    }
}

/// A collected session, collected again, stays as it is.
pub proof fn law_session_settled(entries: Seq<SessionLogEntry>, session_id: Seq<char>)
    ensures
        session_entries(session_entries(entries, session_id), session_id) == session_entries(
            entries,
            session_id,
        ),
{
    let out = session_entries(entries, session_id);
    law_session_in_order(entries, session_id);
    law_session_distinct(entries, session_id);
    lemma_distinct_all(out, session_id, out.len());
    assert(out.take(out.len() as int) =~= out);
    lemma_by_time_sorted(out);
}

} // verus!
