//! The entries of one session, collected from the logs that hold them.

use vstd::hash_set::StringHashSet;
use vstd::prelude::*;

use crate::entry::chars_of;
use crate::entry::timestamp_millis;
use crate::entry::SessionLogEntry;
use crate::select::type_of;
use crate::text::decimal;
use crate::text::same_text;
use crate::text::to_decimal;

verus! {

/// Whether the entry is one of the given session.
pub open spec fn belongs(entry: SessionLogEntry, session_id: Seq<char>) -> bool {
    chars_of(entry.session_id) == Some(session_id)
}

/// What an entry is known by: its identifier, else its time and its type.
pub open spec fn entry_key(entry: SessionLogEntry) -> Seq<char> {
    match entry.uuid {
        Some(id) => id@,
        None => decimal(timestamp_millis(entry) as nat) + ":"@ + type_of(entry),
    }
}

/// Whether an earlier entry of the session is known by the same.
pub open spec fn is_duplicate(
    entries: Seq<SessionLogEntry>,
    session_id: Seq<char>,
    i: int,
) -> bool {
    exists|j: int|
        0 <= j < i && belongs(#[trigger] entries[j], session_id) && entry_key(entries[j])
            == entry_key(entries[i])
}

/// The entries of the session among the first `n`, each once.
pub open spec fn distinct_before(
    entries: Seq<SessionLogEntry>,
    session_id: Seq<char>,
    n: nat,
) -> Seq<SessionLogEntry>
    decreases n,
{
    if n == 0 {
        Seq::empty()
    } else {
        let before = distinct_before(entries, session_id, (n - 1) as nat);
        if belongs(entries[n - 1], session_id) && !is_duplicate(entries, session_id, n - 1) {
            before.push(entries[n - 1])
        } else {
            before
        }
    }
}

/// The entries of the session, each once, in the order in which they were found.
pub open spec fn distinct_entries(
    entries: Seq<SessionLogEntry>,
    session_id: Seq<char>,
) -> Seq<SessionLogEntry> {
    distinct_before(entries, session_id, entries.len())
}

/// The list with one more entry in it, before the later ones at its end.
pub open spec fn with_entry(
    sorted: Seq<SessionLogEntry>,
    entry: SessionLogEntry,
) -> Seq<SessionLogEntry>
    decreases sorted.len(),
{
    if sorted.len() == 0 || timestamp_millis(sorted.last()) <= timestamp_millis(entry) {
        sorted.push(entry)
    } else {
        with_entry(sorted.drop_last(), entry).push(sorted.last())
    }
}

/// The entries by time; those of one time in the order in which they were.
pub open spec fn by_time(entries: Seq<SessionLogEntry>) -> Seq<SessionLogEntry>
    decreases entries.len(),
{
    if entries.len() == 0 {
        Seq::empty()
    } else {
        with_entry(by_time(entries.drop_last()), entries.last())
    }
}

/// The entries of the session, each once, by time.
pub open spec fn session_entries(
    entries: Seq<SessionLogEntry>,
    session_id: Seq<char>,
) -> Seq<SessionLogEntry> {
    by_time(distinct_entries(entries, session_id))
}

impl SessionLogEntry {
    /// Whether the entry is one of the given session.
    pub fn is_of_session(&self, session_id: &str) -> (is: bool)
        ensures
            is == belongs(*self, session_id@),
    {
        match &self.session_id {
            Some(id) => same_text(id.as_str(), session_id),
            None => false,
        }
    }

    /// What the entry is known by: its identifier, else its time and its type.
    pub fn get_key(&self) -> (key: String)
        ensures
            key@ == entry_key(*self),
    {
        match &self.uuid {
            Some(id) => id.clone(),
            None => {
                let mut key = to_decimal(self.get_timestamp_millis());
                key.append(":");
                match &self.entry_type {
                    Some(t) => key.append(t.as_str()),
                    None => {
                        assert(key@ + Seq::<char>::empty() =~= key@);
                    },
                }
                key
            },
        }
    }
}

/// Entries that are all later than the new one come after it.
proof fn lemma_with_entry(sorted: Seq<SessionLogEntry>, entry: SessionLogEntry, n: int)
    requires
        0 <= n <= sorted.len(),
        forall|i: int|
            n <= i < sorted.len() ==> timestamp_millis(#[trigger] sorted[i]) > timestamp_millis(
                entry,
            ),
        n > 0 ==> timestamp_millis(sorted[n - 1]) <= timestamp_millis(entry),
    ensures
        with_entry(sorted, entry) == sorted.insert(n, entry),
    decreases sorted.len(),
{
    if n < sorted.len() {
        let rest = sorted.drop_last();
        assert forall|i: int| n <= i < rest.len() implies timestamp_millis(#[trigger] rest[i])
            > timestamp_millis(entry) by {
            assert(rest[i] == sorted[i]);
        }
        lemma_with_entry(rest, entry, n);
        assert(timestamp_millis(sorted[sorted.len() - 1]) > timestamp_millis(entry));
        assert(rest.insert(n, entry).push(sorted.last()) =~= sorted.insert(n, entry));
    } else {
        assert(sorted.insert(n, entry) =~= sorted.push(entry));
    }
}

/// Collects the entries of a session: each once, by time, and those of one time in the order in
/// which they were found.
pub fn collect_session(session_id: &str, entries: Vec<SessionLogEntry>) -> (collected: Vec<
    SessionLogEntry,
>)
    ensures
        collected@ == session_entries(entries@, session_id@),
{
    let ghost all = entries@;
    let ghost id = session_id@;
    let mut collected: Vec<SessionLogEntry> = Vec::new();
    let mut times: Vec<u64> = Vec::new();
    let mut known = StringHashSet::new();
    for entry in it: entries.into_iter()
        invariant
            it.seq() == all,
            id == session_id@,
            collected@ == by_time(distinct_before(all, id, it.index() as nat)),
            times@.len() == collected@.len(),
            forall|k: int|
                0 <= k < collected@.len() ==> #[trigger] times@[k] == timestamp_millis(
                    collected@[k],
                ),
            forall|key: Seq<char>| #[trigger]
                known@.contains(key) <==> exists|j: int|
                    0 <= j < it.index() && belongs(#[trigger] all[j], id) && entry_key(all[j])
                        == key,
    {
        let ghost n = it.index() as int;
        let ghost known_before = known@;
        assert(entry == all[n]);
        if entry.is_of_session(session_id) {
            let key = entry.get_key();
            let ghost k = key@;
            if known.insert(key) {
                assert(!is_duplicate(all, id, n));
                let time: u64 = entry.get_timestamp_millis();
                let mut place: usize = collected.len();
                while place > 0 && times[place - 1] > time
                    invariant
                        place <= collected@.len(),
                        times@.len() == collected@.len(),
                        forall|k: int|
                            0 <= k < collected@.len() ==> #[trigger] times@[k]
                                == timestamp_millis(collected@[k]),
                        forall|k: int|
                            place <= k < collected@.len() ==> timestamp_millis(
                                #[trigger] collected@[k],
                            ) > time,
                    decreases place,
                {
                    assert(times@[place - 1] == timestamp_millis(collected@[place - 1]));
                    place = place - 1;
                }
                proof {
                    lemma_with_entry(collected@, entry, place as int);
                    let found = distinct_before(all, id, n as nat).push(entry);
                    assert(found.drop_last() =~= distinct_before(all, id, n as nat));
                }
                times.insert(place, time);
                collected.insert(place, entry);
            } else {
                assert(is_duplicate(all, id, n));
            }
        }
        proof {
            assert forall|key: Seq<char>| #[trigger] known@.contains(key) <==> exists|j: int|
                0 <= j < n + 1 && belongs(#[trigger] all[j], id) && entry_key(all[j]) == key by {
                if known@.contains(key) && !known_before.contains(key) {
                    assert(belongs(all[n], id));
                }
            }
        }
    }
    collected
}

} // verus!
