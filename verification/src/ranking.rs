//! The rank of a blank in a presentation: longer blanks rank first, and
//! among blanks of one length, lexicographically greater cuts rank first.

use crate::blank::{Ledger, PipeBlank};
use vstd::prelude::*;

verus! {

/// `a` is lexicographically less than `b`: at the first position where the
/// two differ `a` holds the smaller length, or `a` ends there and `b` goes on.
pub open spec fn lex_less(a: Seq<u32>, b: Seq<u32>) -> bool
    decreases a.len(),
{
    if b.len() == 0 {
        false
    } else if a.len() == 0 {
        true
    } else if a.first() != b.first() {
        a.first() < b.first()
    } else {
        lex_less(a.drop_first(), b.drop_first())
    }
}

/// Of two different sequences one is lexicographically less than the other.
pub proof fn lex_less_is_total(a: Seq<u32>, b: Seq<u32>)
    ensures
        lex_less(a, b) || lex_less(b, a) || a == b,
    decreases a.len(),
{
    if a.len() == 0 || b.len() == 0 {
        if a.len() == 0 && b.len() == 0 {
            assert(a =~= b);
        }
    } else if a.first() == b.first() {
        let x = a.drop_first();
        let y = b.drop_first();
        lex_less_is_total(x, y);
        if x == y {
            assert forall|i: int| 0 <= i < a.len() implies a[i] == b[i] by {
                if i > 0 {
                    assert(a[i] == x[i - 1]);
                    assert(b[i] == y[i - 1]);
                }
            }
            assert(a.len() == x.len() + 1);
            assert(b.len() == y.len() + 1);
            assert(a =~= b);
        }
    }
}

/// No sequence is lexicographically less than one that is less than it.
pub proof fn lex_less_is_asymmetric(a: Seq<u32>, b: Seq<u32>)
    ensures
        !(lex_less(a, b) && lex_less(b, a)),
    decreases a.len(),
{
    if a.len() > 0 && b.len() > 0 && a.first() == b.first() {
        lex_less_is_asymmetric(a.drop_first(), b.drop_first());
    }
}

/// A sequence that lies between two others in neither direction does not
/// exist: if `a` is less than `c`, any `b` is greater than `a` or less than `c`.
pub proof fn lex_less_splits(a: Seq<u32>, b: Seq<u32>, c: Seq<u32>)
    requires
        lex_less(a, c),
    ensures
        lex_less(a, b) || lex_less(b, c),
    decreases a.len(),
{
    if a.len() > 0 && b.len() > 0 && a.first() == b.first() && b.first() == c.first() {
        lex_less_splits(a.drop_first(), b.drop_first(), c.drop_first());
    }
}

/// `a` is presented before `b`: it is the longer blank, or of the same
/// length with the lexicographically greater cuts.
pub open spec fn comes_before(a: Ledger, b: Ledger) -> bool {
    a.original_size > b.original_size || (a.original_size == b.original_size && lex_less(
        b.cuts,
        a.cuts,
    ))
}

/// The order of presentation does not tell `a` and `b` apart.
pub open spec fn tied(a: Ledger, b: Ledger) -> bool {
    a.original_size == b.original_size && a.cuts == b.cuts
}

/// Two ledgers are tied exactly when neither comes before the other.
pub proof fn tied_means_neither_first(a: Ledger, b: Ledger)
    ensures
        tied(a, b) <==> !comes_before(a, b) && !comes_before(b, a),
{
    lex_less_is_total(a.cuts, b.cuts);
    lex_less_is_asymmetric(a.cuts, b.cuts);
}

/// If `a` comes before `b`, then `b` does not come before `a`.
pub proof fn comes_before_is_asymmetric(a: Ledger, b: Ledger)
    ensures
        !(comes_before(a, b) && comes_before(b, a)),
{
    lex_less_is_asymmetric(a.cuts, b.cuts);
}

/// If `a` comes before `c`, any `b` comes after `a` or before `c`.
pub proof fn comes_before_splits(a: Ledger, b: Ledger, c: Ledger)
    requires
        comes_before(a, c),
    ensures
        comes_before(a, b) || comes_before(b, c),
{
    if a.original_size == c.original_size && b.original_size == a.original_size {
        lex_less_splits(c.cuts, b.cuts, a.cuts);
    }
}

/// Whether `a` is lexicographically less than `b`.
fn cuts_less(a: &Vec<u32>, b: &Vec<u32>) -> (less: bool)
    ensures
        less == lex_less(a@, b@),
{
    let mut i: usize = 0;
    proof {
        assert(a@.skip(0) == a@);
        assert(b@.skip(0) == b@);
    }
    while i < a.len() && i < b.len()
        invariant
            i <= a.len(),
            i <= b.len(),
            lex_less(a@, b@) == lex_less(a@.skip(i as int), b@.skip(i as int)),
        decreases a.len() - i,
    {
        proof {
            assert(a@.skip(i as int).drop_first() == a@.skip(i + 1));
            assert(b@.skip(i as int).drop_first() == b@.skip(i + 1));
        }
        if a[i] != b[i] {
            return a[i] < b[i];
        }
        i += 1;
    }
    i < b.len()
}

/// Whether `a` is presented before `b`.
pub fn precedes(a: &PipeBlank, b: &PipeBlank) -> (first: bool)
    ensures
        first == comes_before(a@, b@),
{
    if a.original_size != b.original_size {
        a.original_size > b.original_size
    } else {
        cuts_less(&b.cuts, &a.cuts)
    }
}

} // verus!
