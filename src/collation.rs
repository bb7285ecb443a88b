//! The dictionary collation on byte strings: ASCII-folded lexicographic order,
//! with the unfolded bytes as a tie-break.
use std::cmp::Ordering;
use vstd::prelude::*;

verus! {

/// ASCII lower-casing of one byte; bytes outside `A..=Z` are kept.
pub open spec fn fold(b: u8) -> u8 {
    if 65 <= b && b <= 90 {
        (b + 32) as u8
    } else {
        b
    }
}

/// Every byte of `s` lower-cased.
pub open spec fn fold_all(s: Seq<u8>) -> Seq<u8> {
    s.map_values(|b: u8| fold(b))
}

/// Lexicographic order of `a` and `b` from position `i` on; a proper prefix
/// is smaller.
pub open spec fn lex_at(a: Seq<u8>, b: Seq<u8>, i: int) -> Ordering
    decreases a.len() - i,
{
    if i >= a.len() && i >= b.len() {
        Ordering::Equal
    } else if i >= a.len() {
        Ordering::Less
    } else if i >= b.len() {
        Ordering::Greater
    } else if a[i] < b[i] {
        Ordering::Less
    } else if a[i] > b[i] {
        Ordering::Greater
    } else {
        lex_at(a, b, i + 1)
    }
}

/// Lexicographic order of two byte strings.
pub open spec fn lex(a: Seq<u8>, b: Seq<u8>) -> Ordering {
    lex_at(a, b, 0)
}

/// The dictionary collation: the folded strings decide; where they are equal,
/// `ignore_case` makes the strings equal, and otherwise the unfolded bytes decide.
#[verifier::opaque]
pub open spec fn dict_order(a: Seq<u8>, b: Seq<u8>, ignore_case: bool) -> Ordering {
    match lex(fold_all(a), fold_all(b)) {
        Ordering::Equal => if ignore_case {
            Ordering::Equal
        } else {
            lex(a, b)
        },
        o => o,
    }
}

/// `o` with `Less` and `Greater` swapped.
pub open spec fn flip(o: Ordering) -> Ordering {
    match o {
        Ordering::Less => Ordering::Greater,
        Ordering::Greater => Ordering::Less,
        Ordering::Equal => Ordering::Equal,
    }
}

/// The rank of an ordering: `Less < Equal < Greater`.
pub open spec fn rank(o: Ordering) -> int {
    match o {
        Ordering::Less => -1,
        Ordering::Equal => 0,
        Ordering::Greater => 1,
    }
}

pub proof fn lemma_lex_at_equal(a: Seq<u8>, b: Seq<u8>, i: int)
    requires
        0 <= i <= a.len(),
        i <= b.len(),
    ensures
        (lex_at(a, b, i) == Ordering::Equal) <==> (a.len() == b.len() && forall|j: int|
            i <= j < a.len() ==> a[j] == b[j]),
    decreases a.len() - i,
{
    if i < a.len() && i < b.len() && a[i] == b[i] {
        lemma_lex_at_equal(a, b, i + 1);
    }
}

pub proof fn lemma_lex_at_flip(a: Seq<u8>, b: Seq<u8>, i: int)
    ensures
        lex_at(a, b, i) == flip(lex_at(b, a, i)),
    decreases a.len() - i,
{
    if i < a.len() && i < b.len() && a[i] == b[i] {
        lemma_lex_at_flip(a, b, i + 1);
    }
}

pub proof fn lemma_lex_at_trans(a: Seq<u8>, b: Seq<u8>, c: Seq<u8>, i: int)
    requires
        lex_at(a, b, i) != Ordering::Greater,
        lex_at(b, c, i) != Ordering::Greater,
    ensures
        lex_at(a, c, i) != Ordering::Greater,
        (lex_at(a, b, i) == Ordering::Less || lex_at(b, c, i) == Ordering::Less) ==> lex_at(a, c, i)
            == Ordering::Less,
    decreases a.len() - i,
{
    if i < a.len() && i < b.len() && i < c.len() && a[i] == b[i] && b[i] == c[i] {
        lemma_lex_at_trans(a, b, c, i + 1);
    }
}

/// Two strings are equal in the dictionary collation, with case kept, exactly
/// when they are the same string.
pub proof fn lemma_order_equal(a: Seq<u8>, b: Seq<u8>)
    ensures
        (dict_order(a, b, false) == Ordering::Equal) <==> a == b,
{
    reveal(dict_order);
    lemma_lex_at_equal(a, b, 0);
    lemma_lex_at_equal(fold_all(a), fold_all(b), 0);
    if a == b {
        assert(fold_all(a) == fold_all(b));
    }
    if dict_order(a, b, false) == Ordering::Equal {
        assert(a =~= b);
    }
}

/// Swapping the arguments flips the result.
pub proof fn lemma_order_flip(a: Seq<u8>, b: Seq<u8>, ignore_case: bool)
    ensures
        dict_order(a, b, ignore_case) == flip(dict_order(b, a, ignore_case)),
{
    reveal(dict_order);
    lemma_lex_at_flip(a, b, 0);
    lemma_lex_at_flip(fold_all(a), fold_all(b), 0);
}

/// The collation is transitive, and strict where either step is strict.
pub proof fn lemma_order_trans(a: Seq<u8>, b: Seq<u8>, c: Seq<u8>, ignore_case: bool)
    requires
        dict_order(a, b, ignore_case) != Ordering::Greater,
        dict_order(b, c, ignore_case) != Ordering::Greater,
    ensures
        dict_order(a, c, ignore_case) != Ordering::Greater,
        (dict_order(a, b, ignore_case) == Ordering::Less || dict_order(b, c, ignore_case)
            == Ordering::Less) ==> dict_order(a, c, ignore_case) == Ordering::Less,
{
    reveal(dict_order);
    let (fa, fb, fc) = (fold_all(a), fold_all(b), fold_all(c));
    lemma_lex_at_trans(fa, fb, fc, 0);
    lemma_lex_at_equal(fa, fb, 0);
    lemma_lex_at_equal(fb, fc, 0);
    lemma_lex_at_equal(fa, fc, 0);
    if lex(fa, fb) == Ordering::Equal {
        assert(fa =~= fb);
    }
    if lex(fb, fc) == Ordering::Equal {
        assert(fb =~= fc);
    }
    if lex(fa, fb) == Ordering::Equal && lex(fb, fc) == Ordering::Equal && !ignore_case {
        lemma_lex_at_trans(a, b, c, 0);
    }
}

/// An order that keeps case refines the one that ignores it: a string below
/// another with case kept is not above it with case ignored.
pub proof fn lemma_order_refines(a: Seq<u8>, b: Seq<u8>)
    ensures
        dict_order(a, b, false) == Ordering::Less ==> dict_order(a, b, true) != Ordering::Greater,
        dict_order(a, b, true) == Ordering::Less ==> dict_order(a, b, false) == Ordering::Less,
        dict_order(a, b, true) == Ordering::Greater ==> dict_order(a, b, false)
            == Ordering::Greater,
        dict_order(a, b, false) == Ordering::Equal ==> dict_order(a, b, true) == Ordering::Equal,
{
    reveal(dict_order);
}

} // verus!
