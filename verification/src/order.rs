//! The order of texts, and lists of texts in that order.

use vstd::prelude::*;
use vstd::seq_lib::lemma_seq_contains_after_push;

use crate::text::same_text;
use crate::text::to_chars;
use crate::text::views;

verus! {

/// Whether `a` stands before `b` in the order of texts: at the first character in which they
/// differ `a` has the smaller one, or `a` ends where `b` goes on.
pub open spec fn precedes(a: Seq<char>, b: Seq<char>) -> bool
    decreases a.len(),
{
    if b.len() == 0 {
        false
    } else if a.len() == 0 {
        true
    } else if a[0] == b[0] {
        precedes(a.drop_first(), b.drop_first())
    } else {
        a[0] < b[0]
    }
}

/// Whether every text of the list stands before those that follow it.
pub open spec fn ascending(texts: Seq<Seq<char>>) -> bool {
    forall|i: int, j: int| 0 <= i < j < texts.len() ==> precedes(#[trigger] texts[i], #[trigger] texts[j])
}

/// No text stands before itself.
pub proof fn lemma_precedes_irreflexive(a: Seq<char>)
    ensures
        !precedes(a, a),
    decreases a.len(),
{
    if a.len() > 0 {
        lemma_precedes_irreflexive(a.drop_first());
    }
}

/// A text that stands before another stands before all that follow that one.
pub proof fn lemma_precedes_transitive(a: Seq<char>, b: Seq<char>, c: Seq<char>)
    requires
        precedes(a, b),
        precedes(b, c),
    ensures
        precedes(a, c),
    decreases a.len(),
{
    if a.len() > 0 && a[0] == b[0] && b[0] == c[0] {
        lemma_precedes_transitive(a.drop_first(), b.drop_first(), c.drop_first());
    }
}

/// Of two different texts one stands before the other.
pub proof fn lemma_precedes_total(a: Seq<char>, b: Seq<char>)
    requires
        a != b,
    ensures
        precedes(a, b) || precedes(b, a),
    decreases a.len(),
{
    if a.len() > 0 && b.len() > 0 && a[0] == b[0] {
        if a.drop_first() == b.drop_first() {
            assert(a =~= seq![a[0]] + a.drop_first());
            assert(b =~= seq![b[0]] + b.drop_first());
        }
        lemma_precedes_total(a.drop_first(), b.drop_first());
    } else if a.len() == 0 && b.len() == 0 {
        assert(a =~= b);
    }
}

/// Whether `a` stands before `b`.
pub fn text_precedes(a: &str, b: &str) -> (before: bool)
    ensures
        before == precedes(a@, b@),
{
    let x = to_chars(a);
    let y = to_chars(b);
    let mut i: usize = 0;
    assert(x@.skip(0) =~= x@);
    assert(y@.skip(0) =~= y@);
    while i < x.len() && i < y.len() && x[i] == y[i]
        invariant
            i <= x@.len(),
            i <= y@.len(),
            precedes(x@, y@) == precedes(x@.skip(i as int), y@.skip(i as int)),
        decreases x@.len() - i,
    {
        assert(x@.skip(i as int).drop_first() =~= x@.skip(i + 1));
        assert(y@.skip(i as int).drop_first() =~= y@.skip(i + 1));
        i = i + 1;
    }
    if i >= y.len() {
        return false;
    }
    if i >= x.len() {
        return true;
    }
    x[i] < y[i]
}

/// The list with one more text in it, at its place in the order, unless it is there already.
pub open spec fn with_text(sorted: Seq<Seq<char>>, text: Seq<char>) -> Seq<Seq<char>>
    decreases sorted.len(),
{
    if sorted.len() == 0 {
        seq![text]
    } else if precedes(sorted[0], text) {
        seq![sorted[0]] + with_text(sorted.drop_first(), text)
    } else if sorted[0] == text {
        sorted
    } else {
        seq![text] + sorted
    }
}

/// The different texts of a list, in order.
pub open spec fn sorted_distinct(texts: Seq<Seq<char>>) -> Seq<Seq<char>>
    decreases texts.len(),
{
    if texts.len() == 0 {
        Seq::empty()
    } else {
        with_text(sorted_distinct(texts.drop_last()), texts.last())
    }
}

/// A list in order stays so, and holds one text more.
pub proof fn lemma_with_text(sorted: Seq<Seq<char>>, text: Seq<char>)
    requires
        ascending(sorted),
    ensures
        ascending(with_text(sorted, text)),
        forall|t: Seq<char>| #[trigger]
            with_text(sorted, text).contains(t) <==> (sorted.contains(t) || t == text),
    decreases sorted.len(),
{
    let out = with_text(sorted, text);
    if sorted.len() == 0 {
        assert(out[0] == text);
    } else if precedes(sorted[0], text) {
        let rest = sorted.drop_first();
        assert forall|i: int, j: int| 0 <= i < j < rest.len() implies precedes(
            #[trigger] rest[i],
            #[trigger] rest[j],
        ) by {
            assert(precedes(sorted[i + 1], sorted[j + 1]));
        }
        lemma_with_text(rest, text);
        let tail = with_text(rest, text);
        assert forall|i: int, j: int| 0 <= i < j < out.len() implies precedes(
            #[trigger] out[i],
            #[trigger] out[j],
        ) by {
            if i == 0 {
                assert(tail.contains(tail[j - 1]));
                if tail[j - 1] != text {
                    assert(rest.contains(tail[j - 1]));
                    let k = choose|k: int| 0 <= k < rest.len() && rest[k] == tail[j - 1];
                    assert(sorted[k + 1] == tail[j - 1]);
                    assert(precedes(sorted[0], sorted[k + 1]));
                }
            } else {
                assert(precedes(tail[i - 1], tail[j - 1]));
            }
        }
        assert forall|t: Seq<char>| #[trigger] out.contains(t) <==> (sorted.contains(t) || t == text) by {
            if out.contains(t) {
                let k = choose|k: int| 0 <= k < out.len() && out[k] == t;
                if k > 0 {
                    assert(tail[k - 1] == t);
                    assert(tail.contains(t));
                    if t != text {
                        let m = choose|m: int| 0 <= m < rest.len() && rest[m] == t;
                        assert(sorted[m + 1] == t);
                    }
                } else {
                    assert(sorted[0] == t);
                }
            }
            if sorted.contains(t) {
                let k = choose|k: int| 0 <= k < sorted.len() && sorted[k] == t;
                if k > 0 {
                    assert(rest[k - 1] == t);
                    assert(tail.contains(t));
                    let m = choose|m: int| 0 <= m < tail.len() && tail[m] == t;
                    assert(out[m + 1] == t);
                } else {
                    assert(out[0] == t);
                }
            }
            if t == text {
                assert(tail.contains(t));
                let m = choose|m: int| 0 <= m < tail.len() && tail[m] == t;
                assert(out[m + 1] == t);
            }
        }
    } else if sorted[0] == text {
        assert(sorted.contains(text));
    } else {
        lemma_precedes_total(sorted[0], text);
        assert forall|i: int, j: int| 0 <= i < j < out.len() implies precedes(
            #[trigger] out[i],
            #[trigger] out[j],
        ) by {
            if i == 0 {
                if j > 1 {
                    assert(precedes(sorted[0], sorted[j - 1]));
                    lemma_precedes_transitive(text, sorted[0], sorted[j - 1]);
                }
            } else {
                assert(precedes(sorted[i - 1], sorted[j - 1]));
            }
        }
        assert forall|t: Seq<char>| #[trigger] out.contains(t) <==> (sorted.contains(t) || t == text) by {
            if sorted.contains(t) {
                let k = choose|k: int| 0 <= k < sorted.len() && sorted[k] == t;
                assert(out[k + 1] == t);
            }
            if t == text {
                assert(out[0] == t);
            }
            if out.contains(t) && t != text {
                let k = choose|k: int| 0 <= k < out.len() && out[k] == t;
                assert(sorted[k - 1] == t);
            }
        }
    }
}

/// The different texts of a list, in order: each stands before those that follow it, and they
/// are the texts of the list and no others.
pub proof fn lemma_sorted_distinct(texts: Seq<Seq<char>>)
    ensures
        ascending(sorted_distinct(texts)),
        forall|t: Seq<char>| #[trigger] sorted_distinct(texts).contains(t) <==> texts.contains(t),
    decreases texts.len(),
{
    if texts.len() > 0 {
        let rest = texts.drop_last();
        lemma_sorted_distinct(rest);
        lemma_with_text(sorted_distinct(rest), texts.last());
        assert forall|t: Seq<char>| #[trigger] sorted_distinct(texts).contains(t) <==> texts.contains(
            t,
        ) by {
            assert(rest.push(texts.last()) =~= texts);
            lemma_seq_contains_after_push(rest, texts.last(), t);
        }
    }
}

/// Texts that all stand before the new one keep their places.
proof fn lemma_with_text_after(sorted: Seq<Seq<char>>, text: Seq<char>, n: int)
    requires
        0 <= n <= sorted.len(),
        forall|i: int| 0 <= i < n ==> precedes(#[trigger] sorted[i], text),
    ensures
        with_text(sorted, text) == sorted.take(n) + with_text(sorted.skip(n), text),
    decreases n,
{
    if n == 0 {
        assert(sorted.skip(0) =~= sorted);
        assert(sorted.take(0) + with_text(sorted, text) =~= with_text(sorted, text));
    } else {
        let rest = sorted.drop_first();
        assert forall|i: int| 0 <= i < n - 1 implies precedes(#[trigger] rest[i], text) by {
            assert(rest[i] == sorted[i + 1]);
        }
        lemma_with_text_after(rest, text, n - 1);
        assert(precedes(sorted[0], text));
        assert(rest.skip(n - 1) =~= sorted.skip(n));
        assert(seq![sorted[0]] + (rest.take(n - 1) + with_text(sorted.skip(n), text))
            =~= sorted.take(n) + with_text(sorted.skip(n), text));
    }
}

/// Puts one more text at its place in a list in order, unless it is there already.
pub fn insert_text(sorted: &mut Vec<String>, text: &str)
    requires
        ascending(views(old(sorted)@)),
    ensures
        views(final(sorted)@) == with_text(views(old(sorted)@), text@),
        ascending(views(final(sorted)@)),
{
    let ghost before = views(sorted@);
    proof {
        lemma_with_text(before, text@);
    }
    let mut i: usize = 0;
    while i < sorted.len() && text_precedes(sorted[i].as_str(), text)
        invariant
            i <= sorted@.len(),
            views(sorted@) == before,
            sorted@ == old(sorted)@,
            forall|k: int| 0 <= k < i ==> precedes(#[trigger] before[k], text@),
        decreases sorted@.len() - i,
    {
        assert(before[i as int] == sorted@[i as int]@);
        i = i + 1;
    }
    proof {
        lemma_with_text_after(before, text@, i as int);
        if i < sorted@.len() {
            assert(before.skip(i as int)[0] == before[i as int]);
        }
    }
    if i < sorted.len() && same_text(sorted[i].as_str(), text) {
        assert(before.take(i as int) + before.skip(i as int) =~= before);
        return ;
    }
    sorted.insert(i, text.to_owned());
    proof {
        assert(views(sorted@) =~= before.take(i as int) + (seq![text@] + before.skip(i as int)));
        if i >= before.len() {
            assert(before.skip(i as int) =~= Seq::empty());
            assert(seq![text@] + before.skip(i as int) =~= seq![text@]);
        }
    }
}

} // verus!
