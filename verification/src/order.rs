//! Orders for sorting: the lexicographic order of texts, and insertion into
//! a sequence that is kept sorted by any total preorder.

use vstd::prelude::*;

verus! {

/// Whether text `a` stands at or before text `b` in the lexicographic order
/// of their characters' code points: a text stands before each of its
/// extensions, and otherwise the first differing character decides.
pub open spec fn lex_le(a: Seq<char>, b: Seq<char>) -> bool
    decreases a.len(),
{
    if a.len() == 0 {
        true
    } else if b.len() == 0 {
        false
    } else if a[0] != b[0] {
        (a[0] as int) < (b[0] as int)
    } else {
        lex_le(a.drop_first(), b.drop_first())
    }
}

/// Any two texts are ordered one way or the other.
pub proof fn lemma_lex_le_total(a: Seq<char>, b: Seq<char>)
    ensures
        lex_le(a, b) || lex_le(b, a),
    decreases a.len(),
{
    if a.len() > 0 && b.len() > 0 && a[0] == b[0] {
        lemma_lex_le_total(a.drop_first(), b.drop_first());
    }
}

/// The lexicographic order is transitive.
pub proof fn lemma_lex_le_transitive(a: Seq<char>, b: Seq<char>, c: Seq<char>)
    requires
        lex_le(a, b),
        lex_le(b, c),
    ensures
        lex_le(a, c),
    decreases a.len(),
{
    if a.len() > 0 && b.len() > 0 && c.len() > 0 && a[0] == b[0] && b[0] == c[0] {
        lemma_lex_le_transitive(a.drop_first(), b.drop_first(), c.drop_first());
    }
}

/// Decides the lexicographic order of two texts.
pub fn text_precedes(a: &Vec<char>, b: &Vec<char>) -> (at_or_before: bool)
    ensures
        at_or_before == lex_le(a@, b@),
{
    let mut i: usize = 0;
    assert(a@.skip(0) =~= a@ && b@.skip(0) =~= b@);
    while i < a.len() && i < b.len() && a[i] == b[i]
        invariant
            i <= a.len(),
            i <= b.len(),
            lex_le(a@, b@) == lex_le(a@.skip(i as int), b@.skip(i as int)),
        decreases a.len() - i,
    {
        assert(a@.skip(i as int).drop_first() =~= a@.skip(i + 1));
        assert(b@.skip(i as int).drop_first() =~= b@.skip(i + 1));
        i += 1;
    }
    if i >= a.len() {
        true
    } else if i >= b.len() {
        false
    } else {
        a[i] < b[i]
    }
}

/// A key by which items are sorted: values with a total preorder.
pub trait Rank: Sized {
    /// Whether `self` may stand before `other` in sorted order.
    spec fn before(&self, other: &Self) -> bool;

    /// Of any two keys one may stand before the other.
    proof fn lemma_before_total(a: &Self, b: &Self)
        ensures
            a.before(b) || b.before(a),
    ;

    /// What may stand before a key may stand before all that the key may
    /// stand before.
    proof fn lemma_before_transitive(a: &Self, b: &Self, c: &Self)
        requires
            a.before(b),
            b.before(c),
        ensures
            a.before(c),
    ;

    /// Decides `before`.
    fn precedes(&self, other: &Self) -> (may: bool)
        ensures
            may == self.before(other),
    ;
}

/// Whether each key may stand before all that follow it.
pub open spec fn ranks_sorted<K: Rank>(ranks: Seq<K>) -> bool {
    forall|i: int, j: int| 0 <= i < j < ranks.len() ==> (#[trigger] ranks[i]).before(#[trigger] &ranks[j])
}

/// Where to insert `rank` into sorted `ranks` to keep them sorted: behind
/// every key that may stand before it, so that equal keys keep the order in
/// which they came.
pub fn insert_position<K: Rank>(ranks: &Vec<K>, rank: &K) -> (position: usize)
    requires
        ranks_sorted(ranks@),
    ensures
        position <= ranks.len(),
        ranks_sorted(ranks@.insert(position as int, *rank)),
        forall|j: int| 0 <= j < position ==> (#[trigger] ranks[j]).before(rank),
        forall|j: int| position <= j < ranks.len() ==> !(#[trigger] ranks[j]).before(rank),
{
    let mut position: usize = ranks.len();
    while position > 0 && !ranks[position - 1].precedes(rank)
        invariant
            position <= ranks.len(),
            forall|j: int| position <= j < ranks.len() ==> !(#[trigger] ranks[j]).before(rank),
        decreases position,
    {
        position -= 1;
    }
    proof {
        let after = ranks@.insert(position as int, *rank);
        assert forall|j: int| 0 <= j < position implies (#[trigger] ranks[j]).before(rank) by {
            if j < position - 1 {
                K::lemma_before_transitive(&ranks[j], &ranks[position - 1], rank);
            }
        }
        assert forall|i: int, j: int| 0 <= i < j < after.len() implies (#[trigger] after[i]).before(
            #[trigger] &after[j],
        ) by {
            if j == position {
                assert(after[i] == ranks[i]);
            } else if i == position {
                assert(after[j] == ranks[j - 1]);
                K::lemma_before_total(rank, &ranks[j - 1]);
            } else {
                let oi = if i < position { i } else { i - 1 };
                let oj = if j < position { j } else { j - 1 };
                assert(after[i] == ranks[oi]);
                assert(after[j] == ranks[oj]);
            }
        }
    }
    position
}

} // verus!
