//! What a run has to read and to write again.

use vstd::hash_set::StringHashSet;
use vstd::prelude::*;

use crate::entry::chars_of;
use crate::entry::SessionLogEntry;
use crate::text::blank;
use crate::text::is_blank;
use crate::text::lines;
use crate::text::lines_of;
use crate::text::views;

verus! {

/// Whether a log has to be read: nothing was recorded of it, or its time of modification or its
/// size is another than the recorded one.
pub fn needs_reading(record: Option<(i64, i64)>, mtime: i64, size: i64) -> (needs: bool)
    ensures
        needs == (record != Some((mtime, size))),
{
    match record {
        Some((recorded_mtime, recorded_size)) => recorded_mtime != mtime || recorded_size != size,
        None => true,
    }
}

/// The lines that are not blank.
pub open spec fn not_blank(all: Seq<Seq<char>>) -> Seq<Seq<char>>
    decreases all.len(),
{
    if all.len() == 0 {
        Seq::empty()
    } else if is_blank(all.last()) {
        not_blank(all.drop_last())
    } else {
        not_blank(all.drop_last()).push(all.last())
    }
}

/// The lines of a log that hold an entry: those that are not blank.
pub fn record_lines(contents: &str) -> (records: Vec<String>)
    ensures
        views(records@) == not_blank(lines_of(contents@)),
{
    let mut records: Vec<String> = Vec::new();
    let all = lines(contents);
    let ghost texts = views(all@);
    assert(views(records@) =~= not_blank(texts.take(0)));
    for line in it: all.into_iter()
        invariant
            texts == views(it.seq()),
            views(records@) == not_blank(texts.take(it.index() as int)),
    {
        let ghost n = it.index() as int;
        let ghost before = records@;
        assert(texts.take(n + 1).drop_last() =~= texts.take(n));
        assert(texts[n] == line@);
        if !blank(line.as_str()) {
            records.push(line);
            assert(views(records@) =~= views(before).push(line@));
        }
    }
    assert(texts.take(texts.len() as int) =~= texts);
    records
}

/// The list with one more text at its end, unless it is there already.
pub open spec fn with_new(list: Seq<Seq<char>>, text: Seq<char>) -> Seq<Seq<char>> {
    if list.contains(text) {
        list
    } else {
        list.push(text)
    }
}

/// The sessions of the first `n` entries, each once, in the order in which they were found.
pub open spec fn session_ids_before(entries: Seq<SessionLogEntry>, n: nat) -> Seq<Seq<char>>
    decreases n,
{
    if n == 0 {
        Seq::empty()
    } else {
        let before = session_ids_before(entries, (n - 1) as nat);
        match chars_of(entries[n - 1].session_id) {
            Some(id) => if id.len() > 0 {
                with_new(before, id)
            } else {
                before
            },
            None => before,
        }
    }
}

/// The sessions of the entries, each once, in the order in which they were found. An empty
/// identifier names no session.
pub open spec fn session_ids(entries: Seq<SessionLogEntry>) -> Seq<Seq<char>> {
    session_ids_before(entries, entries.len())
}

/// The first list, and what the second one adds to it.
pub open spec fn united(list: Seq<Seq<char>>, more: Seq<Seq<char>>) -> Seq<Seq<char>>
    decreases more.len(),
{
    if more.len() == 0 {
        list
    } else {
        with_new(united(list, more.drop_last()), more.last())
    }
}

/// Lists the sessions that the entries belong to, each once.
pub fn get_session_ids(entries: &[SessionLogEntry]) -> (ids: Vec<String>)
    ensures
        views(ids@) == session_ids(entries@),
{
    let mut ids: Vec<String> = Vec::new();
    let mut known = StringHashSet::new();
    let mut i: usize = 0;
    assert(views(ids@) =~= Seq::empty());
    while i < entries.len()
        invariant
            i <= entries@.len(),
            views(ids@) == session_ids_before(entries@, i as nat),
            forall|t: Seq<char>| #[trigger] known@.contains(t) <==> views(ids@).contains(t),
        decreases entries@.len() - i,
    {
        if let Some(id) = &entries[i].session_id {
            if !id.as_str().is_empty() {
                let ghost before = ids@;
                if known.insert(id.clone()) {
                    ids.push(id.clone());
                    proof {
                        broadcast use vstd::seq_lib::lemma_seq_contains_after_push;

                        assert(views(ids@) =~= views(before).push(id@));
                    }
                }
            }
        }
        i = i + 1;
    }
    ids
}

/// Adds the sessions that are new to those that a run has to write again.
pub fn add_sessions(affected: &mut Vec<String>, ids: &Vec<String>)
    ensures
        views(final(affected)@) == united(views(old(affected)@), views(ids@)),
{
    let ghost start = views(affected@);
    let ghost more = views(ids@);
    let mut known = StringHashSet::new();
    let mut k: usize = 0;
    while k < affected.len()
        invariant
            k <= affected@.len(),
            affected@ == old(affected)@,
            start == views(affected@),
            forall|t: Seq<char>| #[trigger]
                known@.contains(t) <==> exists|j: int| 0 <= j < k && #[trigger] start[j] == t,
        decreases affected@.len() - k,
    {
        assert(start[k as int] == affected@[k as int]@);
        let ghost before = known@;
        let text = affected[k].clone();
        known.insert(text);
        assert forall|t: Seq<char>| #[trigger] known@.contains(t) <==> exists|j: int|
            0 <= j < k + 1 && #[trigger] start[j] == t by {
            if known@.contains(t) && !before.contains(t) {
                assert(start[k as int] == t);
            }
        }
        k = k + 1;
    }
    let mut i: usize = 0;
    assert(more.take(0) =~= Seq::empty());
    while i < ids.len()
        invariant
            i <= ids@.len(),
            more == views(ids@),
            views(affected@) == united(start, more.take(i as int)),
            forall|t: Seq<char>| #[trigger] known@.contains(t) <==> views(affected@).contains(t),
        decreases ids@.len() - i,
    {
        let ghost before = affected@;
        assert(more.take(i + 1).drop_last() =~= more.take(i as int));
        assert(more.take(i + 1).last() == ids@[i as int]@);
        let id = ids[i].clone();
        let ghost t = id@;
        if known.insert(id) {
            affected.push(ids[i].clone());
            proof {
                broadcast use vstd::seq_lib::lemma_seq_contains_after_push;

                assert(views(affected@) =~= views(before).push(t));
            }
        }
        i = i + 1;
    }
    assert(more.take(ids@.len() as int) =~= more);
}

} // verus!
