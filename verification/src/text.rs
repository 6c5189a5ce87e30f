//! Strings as sequences of characters: their order, and walking them.

use std::str::Chars;
use vstd::prelude::*;
use vstd::std_specs::iter::IteratorSpec;

verus! {

/// The lexicographic order of strings by code point. It is the order in which
/// `str` compares, since UTF-8 keeps the order of the code points.
pub open spec fn str_lt(a: Seq<char>, b: Seq<char>) -> bool
    decreases a.len(),
{
    if b.len() == 0 {
        false
    } else if a.len() == 0 {
        true
    } else if a[0] != b[0] {
        a[0] < b[0]
    } else {
        str_lt(a.drop_first(), b.drop_first())
    }
}

/// How one string stands to another in the order `str_lt`.
#[derive(Clone, Copy, Debug, PartialEq, Eq, Structural)]
pub enum Rank {
    Lower,
    Equal,
    Higher,
}

/// How `a` stands to `b`.
pub open spec fn rank_of(a: Seq<char>, b: Seq<char>) -> Rank {
    if a == b {
        Rank::Equal
    } else if str_lt(a, b) {
        Rank::Lower
    } else {
        Rank::Higher
    }
}

/// No string comes before itself.
pub proof fn lemma_str_lt_irreflexive(a: Seq<char>)
    ensures
        !str_lt(a, a),
    decreases a.len(),
{
    if a.len() > 0 {
        lemma_str_lt_irreflexive(a.drop_first());
    }
}

/// What comes before a string comes before what that string comes before.
pub proof fn lemma_str_lt_transitive(a: Seq<char>, b: Seq<char>, c: Seq<char>)
    requires
        str_lt(a, b),
        str_lt(b, c),
    ensures
        str_lt(a, c),
    decreases a.len(),
{
    if a.len() > 0 && a[0] == b[0] && b[0] == c[0] {
        lemma_str_lt_transitive(a.drop_first(), b.drop_first(), c.drop_first());
    }
}

/// Of two different strings one comes before the other, and only one.
pub proof fn lemma_str_lt_total(a: Seq<char>, b: Seq<char>)
    ensures
        a == b || str_lt(a, b) || str_lt(b, a),
        !(str_lt(a, b) && str_lt(b, a)),
    decreases a.len(),
{
    if a.len() > 0 && b.len() > 0 && a[0] == b[0] {
        lemma_str_lt_total(a.drop_first(), b.drop_first());
        lemma_same_head(a, b);
    } else if a.len() == 0 && b.len() == 0 {
        assert(a =~= b);
    }
}

/// Strings with the same first character are equal where the rest is.
proof fn lemma_same_head(a: Seq<char>, b: Seq<char>)
    requires
        a.len() > 0,
        b.len() > 0,
        a[0] == b[0],
    ensures
        (a == b) == (a.drop_first() == b.drop_first()),
{
    if a.drop_first() == b.drop_first() {
        assert(a =~= seq![a[0]] + a.drop_first());
        assert(b =~= seq![b[0]] + b.drop_first());
    }
}

/// Takes the next character off an iterator over a string.
pub(crate) fn next_char(it: &mut Chars<'_>) -> (r: Option<char>)
    ensures
        match r {
            Some(c) => (*old(it)).remaining().len() > 0 && c == (*old(it)).remaining()[0]
                && (*final(it)).remaining() == (*old(it)).remaining().drop_first(),
            None => (*old(it)).remaining().len() == 0 && (*final(it)).remaining() == (*old(
                it,
            )).remaining(),
        },
        (*old(it)).decrease() is Some ==> (*final(it)).decrease() is Some,
        r is Some && (*old(it)).decrease() is Some ==> decreases_to!((*old(it)).decrease()->0 => (*final(it)).decrease()->0),
{
    it.next()
}

/// Compares two strings in one pass over both.
pub fn rank(a: &str, b: &str) -> (r: Rank)
    ensures
        r == rank_of(a@, b@),
{
    let mut ia = a.chars();
    let mut ib = b.chars();
    loop
        invariant
            (a@ == b@) == (ia.remaining() == ib.remaining()),
            str_lt(a@, b@) == str_lt(ia.remaining(), ib.remaining()),
            ia.decrease() is Some,
        decreases ia.decrease()->0,
    {
        let ghost ra = ia.remaining();
        let ghost rb = ib.remaining();
        let x = next_char(&mut ia);
        let y = next_char(&mut ib);
        match (x, y) {
            (None, None) => {
                assert(ra =~= rb);
                return Rank::Equal;
            },
            (None, Some(_)) => {
                return Rank::Lower;
            },
            (Some(_), None) => {
                return Rank::Higher;
            },
            (Some(ca), Some(cb)) => {
                if ca < cb {
                    return Rank::Lower;
                } else if ca > cb {
                    return Rank::Higher;
                }
                assert((ra == rb) == (ra.drop_first() == rb.drop_first())) by {
                    lemma_same_head(ra, rb);
                }
            },
        }
    }
}

} // verus!
