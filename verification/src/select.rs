//! Which entries of a session are shown.

use vstd::hash_set::StringHashSet;
use vstd::prelude::*;

use crate::entry::chars_of;
use crate::entry::display_of;
use crate::entry::is_bash_progress;
use crate::entry::SessionLogEntry;
use crate::text::decimal;
use crate::text::to_decimal;

verus! {

/// The type of an entry, empty where it has none.
pub open spec fn type_of(entry: SessionLogEntry) -> Seq<char> {
    match entry.entry_type {
        Some(t) => t@,
        None => Seq::empty(),
    }
}

/// What a progress report belongs to: the use of a tool, else the entry itself by its
/// identifier or its place.
pub open spec fn progress_key(entries: Seq<SessionLogEntry>, i: int) -> Seq<char> {
    match chars_of(entries[i].parent_tool_use_id) {
        Some(id) => id,
        None => match chars_of(entries[i].uuid) {
            Some(id) => id,
            None => decimal(i as nat),
        },
    }
}

/// Whether the entry is a progress report that an earlier one on the same thing makes
/// superfluous.
pub open spec fn is_later_progress(entries: Seq<SessionLogEntry>, i: int) -> bool {
    &&& is_bash_progress(entries[i])
    &&& exists|j: int|
        0 <= j < i && is_bash_progress(#[trigger] entries[j]) && progress_key(entries, j)
            == progress_key(entries, i)
}

/// The type of an entry and what is shown of it, where anything is.
pub open spec fn content_key(entry: SessionLogEntry) -> Option<Seq<char>> {
    match display_of(entry) {
        Some(shown) => Some(type_of(entry) + ":"@ + shown),
        None => None,
    }
}

/// Whether the entry shows what an earlier one shows.
pub open spec fn repeats_content(entries: Seq<SessionLogEntry>, i: int) -> bool {
    &&& content_key(entries[i]) is Some
    &&& exists|j: int|
        0 <= j < i && !is_later_progress(entries, j) && content_key(#[trigger] entries[j])
            == content_key(entries[i])
}

/// Whether the entry is kept.
pub open spec fn is_kept(entries: Seq<SessionLogEntry>, i: int) -> bool {
    !is_later_progress(entries, i) && !repeats_content(entries, i)
}

/// The places of the kept entries among the first `n`.
pub open spec fn kept_before(entries: Seq<SessionLogEntry>, n: nat) -> Seq<usize>
    decreases n,
{
    if n == 0 {
        Seq::empty()
    } else if is_kept(entries, n - 1) {
        kept_before(entries, (n - 1) as nat).push((n - 1) as usize)
    } else {
        kept_before(entries, (n - 1) as nat)
    }
}

/// The places of the kept entries.
pub open spec fn kept(entries: Seq<SessionLogEntry>) -> Seq<usize> {
    kept_before(entries, entries.len())
}

/// What a progress report belongs to.
fn key_of_progress(entry: &SessionLogEntry, i: usize) -> (key: String)
    ensures
        key@ == match chars_of(entry.parent_tool_use_id) {
            Some(id) => id,
            None => match chars_of(entry.uuid) {
                Some(id) => id,
                None => decimal(i as nat),
            },
        },
{
    match &entry.parent_tool_use_id {
        Some(id) => id.clone(),
        None => match &entry.uuid {
            Some(id) => id.clone(),
            None => to_decimal(i as u64),
        },
    }
}

impl SessionLogEntry {
    /// The type of the entry and what is shown of it, where anything is.
    pub fn get_content_key(&self) -> (key: Option<String>)
        ensures
            chars_of(key) == content_key(*self),
    {
        match self.get_display() {
            Some(shown) => {
                let mut key = match &self.entry_type {
                    Some(t) => t.clone(),
                    None => String::new(),
                };
                key.append(":");
                key.append(shown.as_str());
                Some(key)
            },
            None => None,
        }
    }
}

/// Selects the entries that are shown: of the progress reports on one thing the first one, and
/// of the entries of one type that show the same the first one.
pub fn select_entries(entries: &[SessionLogEntry]) -> (places: Vec<usize>)
    ensures
        places@ == kept(entries@),
{
    let mut places: Vec<usize> = Vec::new();
    let mut reported = StringHashSet::new();
    let mut shown = StringHashSet::new();
    let mut i: usize = 0;
    while i < entries.len()
        invariant
            i <= entries@.len(),
            places@ == kept_before(entries@, i as nat),
            forall|key: Seq<char>| #[trigger]
                reported@.contains(key) <==> exists|j: int|
                    0 <= j < i && is_bash_progress(#[trigger] entries@[j]) && progress_key(
                        entries@,
                        j,
                    ) == key,
            forall|key: Seq<char>| #[trigger]
                shown@.contains(key) <==> exists|j: int|
                    0 <= j < i && !is_later_progress(entries@, j) && content_key(
                        #[trigger] entries@[j],
                    ) == Some(key),
        decreases entries@.len() - i,
    {
        let entry = &entries[i];
        let ghost reported_before = reported@;
        let ghost shown_before = shown@;
        let mut keep = true;
        if entry.is_bash_progress() {
            let key = key_of_progress(entry, i);
            let ghost k = key@;
            keep = reported.insert(key);
            assert(k == progress_key(entries@, i as int));
            assert(keep == !is_later_progress(entries@, i as int));
        }
        let ghost first = keep;
        if keep {
            if let Some(key) = entry.get_content_key() {
                let ghost k = key@;
                keep = shown.insert(key);
                assert(content_key(entries@[i as int]) == Some(k));
                assert(keep == !repeats_content(entries@, i as int));
            }
        }
        if keep {
            places.push(i);
        }
        proof {
            assert(keep == is_kept(entries@, i as int));
            assert forall|key: Seq<char>| #[trigger] reported@.contains(key) <==> exists|j: int|
                0 <= j < i + 1 && is_bash_progress(#[trigger] entries@[j]) && progress_key(
                    entries@,
                    j,
                ) == key by {
                if reported@.contains(key) && !reported_before.contains(key) {
                    assert(is_bash_progress(entries@[i as int]));
                }
            }
            assert forall|key: Seq<char>| #[trigger] shown@.contains(key) <==> exists|j: int|
                0 <= j < i + 1 && !is_later_progress(entries@, j) && content_key(
                    #[trigger] entries@[j],
                ) == Some(key) by {
                if shown@.contains(key) && !shown_before.contains(key) {
                    assert(content_key(entries@[i as int]) == Some(key));
                }
            }
        }
        i = i + 1;
    }
    places
}

/// The places of the kept entries: in order, each of an entry that is kept, and none left out.
pub proof fn lemma_kept_before(entries: Seq<SessionLogEntry>, n: nat)
    requires
        n <= entries.len() <= usize::MAX,
    ensures
        forall|k: int|
            0 <= k < kept_before(entries, n).len() ==> {
                &&& #[trigger] kept_before(entries, n)[k] < n
                &&& is_kept(entries, kept_before(entries, n)[k] as int)
            },
        forall|j: int, k: int|
            0 <= j < k < kept_before(entries, n).len() ==> #[trigger] kept_before(entries, n)[j]
                < #[trigger] kept_before(entries, n)[k],
        forall|i: int|
            0 <= i < n && is_kept(entries, i) ==> #[trigger] kept_before(entries, n).contains(
                i as usize,
            ),
    decreases n,
{
    if n > 0 {
        let before = kept_before(entries, (n - 1) as nat);
        lemma_kept_before(entries, (n - 1) as nat);
        assert forall|i: int| 0 <= i < n && is_kept(entries, i) implies #[trigger] kept_before(
            entries,
            n,
        ).contains(i as usize) by {
            if i == n - 1 {
                assert(kept_before(entries, n)[before.len() as int] == i as usize);
            } else {
                assert(before.contains(i as usize));
                let k = choose|k: int| 0 <= k < before.len() && before[k] == i as usize;
                assert(kept_before(entries, n)[k] == i as usize);
            }
        }
    }
}

/// The first entry of a session is kept, and comes first.
pub proof fn lemma_first_kept(entries: Seq<SessionLogEntry>)
    requires
        0 < entries.len() <= usize::MAX,
    ensures
        is_kept(entries, 0),
        kept(entries).len() > 0,
        kept(entries)[0] == 0,
{
    lemma_kept_before(entries, entries.len());
    assert(is_kept(entries, 0));
    let first: int = 0;
    assert(kept_before(entries, entries.len()).contains(first as usize));
    let k = choose|k: int| 0 <= k < kept(entries).len() && kept(entries)[k] == 0usize;
    if k > 0 {
        assert(kept(entries)[0] < kept(entries)[k]);
    }
}

} // verus!
