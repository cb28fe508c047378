//! Small facts about sequences of characters and names, shared by the
//! translator's contracts: prefix growth of append-only buffers, and
//! patterns standing at fixed places in a text.

use vstd::prelude::*;

verus! {

/// The views of a sequence of names.
pub open spec fn views_of(names: Seq<String>) -> Seq<Seq<char>> {
    names.map_values(|s: String| s@)
}

/// `now` is `before` with zero or more elements appended: what was
/// collected is never dropped or reordered.
pub open spec fn grows<T>(now: Seq<T>, before: Seq<T>) -> bool {
    &&& before.len() <= now.len()
    &&& now.subrange(0, before.len() as int) == before
}

/// `now` ends with `tail`.
pub open spec fn ends_with(now: Seq<char>, tail: Seq<char>) -> bool {
    &&& tail.len() <= now.len()
    &&& now.subrange(now.len() - tail.len(), now.len() as int) == tail
}

/// `pat` stands in `text` at position `k`.
pub open spec fn contains_at(text: Seq<char>, pat: Seq<char>, k: int) -> bool {
    &&& 0 <= k
    &&& k + pat.len() <= text.len()
    &&& text.subrange(k, k + pat.len()) == pat
}

/// Taking the whole of a sequence as a subrange gives the sequence back.
pub broadcast proof fn lemma_subrange_full<T>(s: Seq<T>)
    ensures
        #[trigger] s.subrange(0, s.len() as int) == s,
{
    assert(s.subrange(0, s.len() as int) =~= s);
}

/// Equal sequences grow from one another.
pub proof fn lemma_grows_eq<T>(now: Seq<T>, before: Seq<T>)
    requires
        now == before,
    ensures
        grows(now, before),
{
    assert(now.subrange(0, before.len() as int) =~= before);
}

pub broadcast proof fn lemma_grows_refl<T>(a: Seq<T>)
    ensures
        #[trigger] grows(a, a),
{
    assert(a.subrange(0, a.len() as int) =~= a);
}

pub broadcast proof fn lemma_grows_concat<T>(a: Seq<T>, x: Seq<T>)
    ensures
        #[trigger] grows(a + x, a),
{
    assert((a + x).subrange(0, a.len() as int) =~= a);
}

pub broadcast proof fn lemma_grows_push<T>(a: Seq<T>, x: T)
    ensures
        #[trigger] grows(a.push(x), a),
{
    assert(a.push(x).subrange(0, a.len() as int) =~= a);
}

pub proof fn lemma_grows_trans<T>(c: Seq<T>, b: Seq<T>, a: Seq<T>)
    requires
        grows(c, b),
        grows(b, a),
    ensures
        grows(c, a),
{
    assert forall|i: int| 0 <= i < a.len() implies c[i] == a[i] by {
        assert(b.subrange(0, a.len() as int)[i] == a[i]);
        assert(c.subrange(0, b.len() as int)[i] == b[i]);
    }
    assert(c.subrange(0, a.len() as int) =~= a);
}

/// An element of a list is still an element after the list grows.
pub proof fn lemma_grows_contains<T>(now: Seq<T>, before: Seq<T>, x: T)
    requires
        grows(now, before),
        before.contains(x),
    ensures
        now.contains(x),
{
    let i = choose|i: int| 0 <= i < before.len() && before[i] == x;
    assert(now.subrange(0, before.len() as int)[i] == before[i]);
    assert(now[i] == x);
}

/// A grown buffer is the old buffer followed by exactly its new suffix.
pub proof fn lemma_grows_split(now: Seq<char>, before: Seq<char>)
    requires
        grows(now, before),
    ensures
        now == before + now.subrange(before.len() as int, now.len() as int),
{
    assert forall|i: int| 0 <= i < before.len() implies now[i] == before[i] by {
        assert(now.subrange(0, before.len() as int)[i] == before[i]);
    }
    assert(now =~= before + now.subrange(before.len() as int, now.len() as int));
}

/// Appending text never dislodges a pattern that already stands in it.
pub proof fn lemma_grows_preserves_contains_at(
    now: Seq<char>,
    before: Seq<char>,
    pat: Seq<char>,
    k: int,
)
    requires
        grows(now, before),
        contains_at(before, pat, k),
    ensures
        contains_at(now, pat, k),
{
    assert forall|i: int| 0 <= i < pat.len() implies now.subrange(k, k + pat.len())[i] == pat[i] by {
        assert(before.subrange(k, k + pat.len())[i] == pat[i]);
        assert(now.subrange(0, before.len() as int)[k + i] == before[k + i]);
    }
    assert(now.subrange(k, k + pat.len()) =~= pat);
}

/// A pattern appended at the end of a text stands in the result.
pub proof fn lemma_contains_at_end(before: Seq<char>, pat: Seq<char>)
    ensures
        contains_at(before + pat, pat, before.len() as int),
{
    assert((before + pat).subrange(before.len() as int, before.len() + pat.len() as int) =~= pat);
}

} // verus!
