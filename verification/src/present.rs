//! The presentation of a row of blanks: the blanks in the order of their
//! rank, blanks of equal rank as they stood.

use crate::blank::{all_balanced, ledgers, Ledger, PipeBlank};
use crate::cutting::{allocation, allocation_ignores_arrangement};
use crate::ranking::{
    comes_before, comes_before_is_asymmetric, comes_before_splits, precedes, tied,
    tied_means_neither_first,
};
use vstd::prelude::*;

verus! {

/// The test for being tied with `key`.
pub open spec fn tied_with(key: Ledger) -> spec_fn(Ledger) -> bool {
    |other: Ledger| tied(other, key)
}

/// The ledgers of `row` that are tied with `key`, in the order of `row`.
pub open spec fn ties(row: Seq<Ledger>, key: Ledger) -> Seq<Ledger> {
    row.filter(tied_with(key))
}

/// No ledger of `row` stands behind one that it comes before.
pub open spec fn in_presentation_order(row: Seq<Ledger>) -> bool {
    forall|i: int, j: int|
        0 <= i < j < row.len() ==> !comes_before(#[trigger] row[j], #[trigger] row[i])
}

/// `arranged` presents `row`: it holds the same ledgers, in the order of
/// presentation, and ledgers that are tied stand as they stood in `row`.
pub open spec fn is_presentation_of(row: Seq<Ledger>, arranged: Seq<Ledger>) -> bool {
    &&& in_presentation_order(arranged)
    &&& arranged.to_multiset() == row.to_multiset()
    &&& forall|key: Ledger| #[trigger] ties(arranged, key) == ties(row, key)
}

/// Two rows in the order of presentation that hold the same ledgers, with
/// tied ledgers standing alike in both, are the same row.
pub proof fn same_order_same_row(a: Seq<Ledger>, b: Seq<Ledger>)
    requires
        in_presentation_order(a),
        in_presentation_order(b),
        a.to_multiset() == b.to_multiset(),
        forall|key: Ledger| #[trigger] ties(a, key) == ties(b, key),
    ensures
        a == b,
    decreases a.len(),
{
    broadcast use vstd::seq_lib::group_to_multiset_ensures;
    broadcast use vstd::multiset::group_multiset_axioms;

    assert(a.len() == b.len()) by {
        vstd::seq_lib::to_multiset_len(a);
        vstd::seq_lib::to_multiset_len(b);
    }
    if a.len() == 0 {
        assert(a =~= b);
    } else {
        let x = a.last();
        let y = b.last();
        let a0 = a.drop_last();
        let b0 = b.drop_last();
        assert(a == a0.push(x));
        assert(b == b0.push(y));
        assert(tied(x, y)) by {
            assert(a.contains(x));
            assert(b.contains(x)) by {
                vstd::seq_lib::to_multiset_contains(a, x);
                vstd::seq_lib::to_multiset_contains(b, x);
            }
            let j = choose|j: int| 0 <= j < b.len() && b[j] == x;
            assert(!comes_before(y, x)) by {
                if j < b.len() - 1 {
                    assert(!comes_before(b[b.len() - 1], b[j]));
                } else {
                    comes_before_is_asymmetric(x, x);
                }
            }
            assert(b.contains(y));
            assert(a.contains(y)) by {
                vstd::seq_lib::to_multiset_contains(a, y);
                vstd::seq_lib::to_multiset_contains(b, y);
            }
            let i = choose|i: int| 0 <= i < a.len() && a[i] == y;
            assert(!comes_before(x, y)) by {
                if i < a.len() - 1 {
                    assert(!comes_before(a[a.len() - 1], a[i]));
                } else {
                    comes_before_is_asymmetric(x, x);
                }
            }
            tied_means_neither_first(x, y);
        }
        assert(x == y) by {
            a0.lemma_filter_push(x, tied_with(x));
            b0.lemma_filter_push(y, tied_with(x));
            assert(ties(a, x) == ties(b, x));
            assert(ties(a, x).last() == x);
            assert(ties(b, x).last() == y);
        }
        assert(a0.to_multiset() =~= b0.to_multiset()) by {
            assert(a0.to_multiset() =~= a.to_multiset().remove(x));
            assert(b0.to_multiset() =~= b.to_multiset().remove(x));
        }
        assert forall|key: Ledger| #[trigger] ties(a0, key) == ties(b0, key) by {
            a0.lemma_filter_push(x, tied_with(key));
            b0.lemma_filter_push(x, tied_with(key));
            assert(ties(a, key) == ties(b, key));
            if tied(x, key) {
                assert(ties(a0, key) == ties(a, key).drop_last());
                assert(ties(b0, key) == ties(b, key).drop_last());
            }
        }
        assert(in_presentation_order(a0)) by {
            assert forall|i: int, j: int| 0 <= i < j < a0.len() implies !comes_before(
                #[trigger] a0[j],
                #[trigger] a0[i],
            ) by {
                assert(!comes_before(a[j], a[i]));
            }
        }
        assert(in_presentation_order(b0)) by {
            assert forall|i: int, j: int| 0 <= i < j < b0.len() implies !comes_before(
                #[trigger] b0[j],
                #[trigger] b0[i],
            ) by {
                assert(!comes_before(b[j], b[i]));
            }
        }
        same_order_same_row(a0, b0);
    }
}

/// A row has one presentation only.
pub proof fn presentation_is_unique(row: Seq<Ledger>, a: Seq<Ledger>, b: Seq<Ledger>)
    requires
        is_presentation_of(row, a),
        is_presentation_of(row, b),
    ensures
        a == b,
{
    assert forall|key: Ledger| #[trigger] ties(a, key) == ties(b, key) by {
        assert(ties(a, key) == ties(row, key));
        assert(ties(b, key) == ties(row, key));
    }
    same_order_same_row(a, b);
}

/// Presenting a presentation changes nothing.
pub proof fn presentation_is_idempotent(row: Seq<Ledger>, once: Seq<Ledger>, twice: Seq<Ledger>)
    requires
        is_presentation_of(row, once),
        is_presentation_of(once, twice),
    ensures
        twice == once,
{
    same_order_same_row(twice, once);
}

/// Where only `value` passes a test, what passes the test in a row is
/// `value`, as often as the row holds it.
proof fn filter_of_one_value(row: Seq<Ledger>, test: spec_fn(Ledger) -> bool, value: Ledger)
    requires
        forall|i: int| 0 <= i < row.len() ==> (test(#[trigger] row[i]) <==> row[i] == value),
    ensures
        row.filter(test) == Seq::new(row.to_multiset().count(value), |i: int| value),
    decreases row.len(),
{
    broadcast use vstd::multiset::group_multiset_axioms;

    if row.len() == 0 {
        row.to_multiset_ensures();
        vstd::multiset::lemma_multiset_empty_len(row.to_multiset());
        row.lemma_filter_len(test);
        assert(row.filter(test) =~= Seq::new(0, |i: int| value));
    } else {
        let rest = row.drop_last();
        let last = row.last();
        assert(row == rest.push(last));
        assert forall|i: int| 0 <= i < rest.len() implies (test(#[trigger] rest[i]) <==> rest[i]
            == value) by {
            assert(rest[i] == row[i]);
        }
        filter_of_one_value(rest, test, value);
        rest.lemma_filter_push(last, test);
        vstd::seq_lib::to_multiset_build(rest, last);
        assert(row.filter(test) =~= Seq::new(row.to_multiset().count(value), |i: int| value));
    }
}

/// Balanced ledgers that are tied are equal, so a row of balanced ledgers is
/// presented by any arrangement of it that is in the order of presentation.
pub proof fn presentation_of_balanced(row: Seq<Ledger>, arranged: Seq<Ledger>)
    requires
        all_balanced(row),
        in_presentation_order(arranged),
        arranged.to_multiset() == row.to_multiset(),
    ensures
        is_presentation_of(row, arranged),
{
    assert forall|j: int| 0 <= j < arranged.len() implies (#[trigger] arranged[j]).balanced() by {
        assert(arranged.contains(arranged[j]));
        vstd::seq_lib::to_multiset_contains(arranged, arranged[j]);
        vstd::seq_lib::to_multiset_contains(row, arranged[j]);
        let i = choose|i: int| 0 <= i < row.len() && row[i] == arranged[j];
        assert(row[i].balanced());
    }
    assert forall|key: Ledger| #[trigger] ties(arranged, key) == ties(row, key) by {
        let test = tied_with(key);
        if exists|i: int| 0 <= i < row.len() && test(#[trigger] row[i]) {
            let i = choose|i: int| 0 <= i < row.len() && test(#[trigger] row[i]);
            let value = row[i];
            assert(value.balanced());
            assert forall|k: int| 0 <= k < row.len() implies (test(#[trigger] row[k]) <==> row[k]
                == value) by {
                assert(row[k].balanced());
            }
            assert forall|k: int| 0 <= k < arranged.len() implies (test(#[trigger] arranged[k])
                <==> arranged[k] == value) by {
                assert(arranged[k].balanced());
            }
            filter_of_one_value(row, test, value);
            filter_of_one_value(arranged, test, value);
        } else {
            assert(row.all(|other: Ledger| !test(other)));
            row.lemma_all_neg_filter_empty(test);
            assert(arranged.all(|other: Ledger| !test(other))) by {
                assert forall|k: int| 0 <= k < arranged.len() implies !test(
                    #[trigger] arranged[k],
                ) by {
                    assert(arranged.contains(arranged[k]));
                    vstd::seq_lib::to_multiset_contains(arranged, arranged[k]);
                    vstd::seq_lib::to_multiset_contains(row, arranged[k]);
                    let i = choose|i: int| 0 <= i < row.len() && row[i] == arranged[k];
                    assert(!test(row[i]));
                }
            }
            arranged.lemma_all_neg_filter_empty(test);
            assert(ties(arranged, key) =~= ties(row, key));
        }
    }
}

/// Given the same blanks in another order, and the same requests in another
/// order, the allocation is presented as the same row.
pub proof fn presentation_ignores_arrangement(
    blanks: Seq<u32>,
    requests: Seq<u32>,
    other_blanks: Seq<u32>,
    other_requests: Seq<u32>,
    shown: Seq<Ledger>,
    other_shown: Seq<Ledger>,
)
    requires
        blanks.to_multiset() == other_blanks.to_multiset(),
        requests.to_multiset() == other_requests.to_multiset(),
        is_presentation_of(allocation(blanks, requests).ledgers, shown),
        is_presentation_of(allocation(other_blanks, other_requests).ledgers, other_shown),
    ensures
        shown == other_shown,
{
    allocation_ignores_arrangement(blanks, requests, other_blanks, other_requests);
    presentation_is_unique(allocation(blanks, requests).ledgers, shown, other_shown);
}

/// The ledgers tied with `key` in two rows put end to end are those of the
/// first row, then those of the second.
proof fn ties_of_joined(a: Seq<Ledger>, b: Seq<Ledger>, key: Ledger)
    ensures
        ties(a + b, key) == ties(a, key) + ties(b, key),
{
    Seq::filter_distributes_over_add(a, b, tied_with(key));
}

/// A row in which no ledger is tied with `key` has no ties with it.
proof fn ties_of_strangers(row: Seq<Ledger>, key: Ledger)
    requires
        forall|i: int| 0 <= i < row.len() ==> !tied(#[trigger] row[i], key),
    ensures
        ties(row, key) == Seq::<Ledger>::empty(),
{
    let test = tied_with(key);
    assert(row.all(|other: Ledger| !test(other)));
    row.lemma_all_neg_filter_empty(test);
    assert(ties(row, key) =~= Seq::<Ledger>::empty());
}

/// The presentation of two rows put end to end is the presentation of their
/// presentations put end to end.
proof fn presentation_of_parts(
    a: Seq<Ledger>,
    shown_a: Seq<Ledger>,
    b: Seq<Ledger>,
    shown_b: Seq<Ledger>,
    merged: Seq<Ledger>,
)
    requires
        is_presentation_of(a, shown_a),
        is_presentation_of(b, shown_b),
        is_presentation_of(shown_a + shown_b, merged),
    ensures
        is_presentation_of(a + b, merged),
{
    vstd::seq_lib::lemma_multiset_commutative(a, b);
    vstd::seq_lib::lemma_multiset_commutative(shown_a, shown_b);
    assert forall|key: Ledger| #[trigger] ties(merged, key) == ties(a + b, key) by {
        ties_of_joined(a, b, key);
        ties_of_joined(shown_a, shown_b, key);
        assert(ties(shown_a, key) == ties(a, key));
        assert(ties(shown_b, key) == ties(b, key));
        assert(ties(merged, key) == ties(shown_a + shown_b, key));
    }
}

/// A merge under way: `left` and `right` are what is still to merge of two
/// rows in order, `tail` is the end of the merged row, and the three together
/// hold the ledgers of `whole`, tied ledgers standing as in `whole`.
spec fn merging(left: Seq<Ledger>, right: Seq<Ledger>, tail: Seq<Ledger>, whole: Seq<Ledger>) -> bool {
    &&& in_presentation_order(left)
    &&& in_presentation_order(right)
    &&& in_presentation_order(tail)
    &&& forall|i: int, j: int|
        0 <= i < left.len() && 0 <= j < tail.len() ==> !comes_before(
            #[trigger] tail[j],
            #[trigger] left[i],
        )
    &&& forall|i: int, j: int|
        0 <= i < right.len() && 0 <= j < tail.len() ==> !comes_before(
            #[trigger] tail[j],
            #[trigger] right[i],
        )
    &&& left.to_multiset().add(right.to_multiset()).add(tail.to_multiset()) == whole.to_multiset()
    &&& forall|key: Ledger|
        ties(left, key) + ties(right, key) + #[trigger] ties(tail, key) == ties(whole, key)
}

/// A merge starts with both rows whole and nothing merged.
proof fn merging_starts(left: Seq<Ledger>, right: Seq<Ledger>)
    requires
        in_presentation_order(left),
        in_presentation_order(right),
    ensures
        merging(left, right, Seq::empty(), left + right),
{
    broadcast use vstd::multiset::group_multiset_axioms;

    let tail = Seq::<Ledger>::empty();
    vstd::seq_lib::lemma_multiset_commutative(left, right);
    tail.to_multiset_ensures();
    vstd::multiset::lemma_multiset_empty_len(tail.to_multiset());
    assert(left.to_multiset().add(right.to_multiset()).add(tail.to_multiset()) =~= (left
        + right).to_multiset());
    assert forall|key: Ledger|
        ties(left, key) + ties(right, key) + #[trigger] ties(tail, key) == ties(
            left + right,
            key,
        ) by {
        ties_of_joined(left, right, key);
        ties_of_strangers(tail, key);
    }
}

/// A merge ends with the merged row as the presentation of the whole.
proof fn merging_ends(tail: Seq<Ledger>, whole: Seq<Ledger>)
    requires
        merging(Seq::empty(), Seq::empty(), tail, whole),
    ensures
        is_presentation_of(whole, tail),
{
    broadcast use vstd::multiset::group_multiset_axioms;

    let none = Seq::<Ledger>::empty();
    none.to_multiset_ensures();
    vstd::multiset::lemma_multiset_empty_len(none.to_multiset());
    assert(none.to_multiset().add(none.to_multiset()).add(tail.to_multiset())
        =~= tail.to_multiset());
    assert forall|key: Ledger| #[trigger] ties(tail, key) == ties(whole, key) by {
        ties_of_strangers(none, key);
        assert(ties(none, key) + ties(none, key) + ties(tail, key) =~= ties(tail, key));
    }
}

/// The last ledger of `left` goes to the front of the tail when nothing is
/// left of `right`, or when the last ledger of `right` comes before it.
proof fn merging_takes_left(
    left: Seq<Ledger>,
    right: Seq<Ledger>,
    tail: Seq<Ledger>,
    whole: Seq<Ledger>,
)
    requires
        merging(left, right, tail, whole),
        left.len() > 0,
        right.len() == 0 || comes_before(right.last(), left.last()),
    ensures
        merging(left.drop_last(), right, seq![left.last()] + tail, whole),
{
    broadcast use vstd::multiset::group_multiset_axioms;

    let x = left.last();
    let rest = left.drop_last();
    let next = seq![x] + tail;
    assert(left == rest.push(x));
    assert forall|i: int| 0 <= i < right.len() implies comes_before(#[trigger] right[i], x) by {
        if i < right.len() - 1 {
            assert(!comes_before(right[right.len() - 1], right[i]));
            comes_before_splits(right.last(), right[i], x);
        }
    }
    assert(in_presentation_order(rest)) by {
        assert forall|i: int, j: int| 0 <= i < j < rest.len() implies !comes_before(
            #[trigger] rest[j],
            #[trigger] rest[i],
        ) by {
            assert(!comes_before(left[j], left[i]));
        }
    }
    assert(in_presentation_order(next)) by {
        assert forall|i: int, j: int| 0 <= i < j < next.len() implies !comes_before(
            #[trigger] next[j],
            #[trigger] next[i],
        ) by {
            if i == 0 {
                assert(!comes_before(tail[j - 1], left[left.len() - 1]));
            } else {
                assert(!comes_before(tail[j - 1], tail[i - 1]));
            }
        }
    }
    assert forall|i: int, j: int| 0 <= i < rest.len() && 0 <= j < next.len() implies !comes_before(
        #[trigger] next[j],
        #[trigger] rest[i],
    ) by {
        if j == 0 {
            assert(!comes_before(left[left.len() - 1], left[i]));
        } else {
            assert(!comes_before(tail[j - 1], left[i]));
        }
    }
    assert forall|i: int, j: int| 0 <= i < right.len() && 0 <= j < next.len() implies !comes_before(
        #[trigger] next[j],
        #[trigger] right[i],
    ) by {
        if j == 0 {
            comes_before_is_asymmetric(right[i], x);
        } else {
            assert(!comes_before(tail[j - 1], right[i]));
        }
    }
    assert(rest.to_multiset().add(right.to_multiset()).add(next.to_multiset())
        =~= whole.to_multiset()) by {
        vstd::seq_lib::to_multiset_build(rest, x);
        vstd::seq_lib::to_multiset_insert(tail, 0, x);
        assert(next =~= tail.insert(0, x));
    }
    assert forall|key: Ledger|
        ties(rest, key) + ties(right, key) + #[trigger] ties(next, key) == ties(whole, key) by {
        assert(ties(left, key) + ties(right, key) + ties(tail, key) == ties(whole, key));
        ties_of_joined(rest, seq![x], key);
        ties_of_joined(seq![x], tail, key);
        assert(left == rest + seq![x]);
        if tied(x, key) {
            assert forall|i: int| 0 <= i < right.len() implies !tied(#[trigger] right[i], key) by {
                tied_means_neither_first(right[i], x);
            }
            ties_of_strangers(right, key);
        } else {
            ties_of_strangers(seq![x], key);
        }
        assert(ties(rest, key) + ties(right, key) + ties(next, key) =~= ties(left, key) + ties(
            right,
            key,
        ) + ties(tail, key));
    }
}

/// The last ledger of `right` goes to the front of the tail when nothing is
/// left of `left`, or when it does not come before the last ledger of `left`.
proof fn merging_takes_right(
    left: Seq<Ledger>,
    right: Seq<Ledger>,
    tail: Seq<Ledger>,
    whole: Seq<Ledger>,
)
    requires
        merging(left, right, tail, whole),
        right.len() > 0,
        left.len() == 0 || !comes_before(right.last(), left.last()),
    ensures
        merging(left, right.drop_last(), seq![right.last()] + tail, whole),
{
    broadcast use vstd::multiset::group_multiset_axioms;

    let x = right.last();
    let rest = right.drop_last();
    let next = seq![x] + tail;
    assert(right == rest.push(x));
    assert forall|i: int| 0 <= i < left.len() implies !comes_before(x, #[trigger] left[i]) by {
        if i < left.len() - 1 {
            assert(!comes_before(left[left.len() - 1], left[i]));
            if comes_before(x, left[i]) {
                comes_before_splits(x, left.last(), left[i]);
            }
        }
    }
    assert(in_presentation_order(rest)) by {
        assert forall|i: int, j: int| 0 <= i < j < rest.len() implies !comes_before(
            #[trigger] rest[j],
            #[trigger] rest[i],
        ) by {
            assert(!comes_before(right[j], right[i]));
        }
    }
    assert(in_presentation_order(next)) by {
        assert forall|i: int, j: int| 0 <= i < j < next.len() implies !comes_before(
            #[trigger] next[j],
            #[trigger] next[i],
        ) by {
            if i == 0 {
                assert(!comes_before(tail[j - 1], right[right.len() - 1]));
            } else {
                assert(!comes_before(tail[j - 1], tail[i - 1]));
            }
        }
    }
    assert forall|i: int, j: int| 0 <= i < rest.len() && 0 <= j < next.len() implies !comes_before(
        #[trigger] next[j],
        #[trigger] rest[i],
    ) by {
        if j == 0 {
            assert(!comes_before(right[right.len() - 1], right[i]));
        } else {
            assert(!comes_before(tail[j - 1], right[i]));
        }
    }
    assert forall|i: int, j: int| 0 <= i < left.len() && 0 <= j < next.len() implies !comes_before(
        #[trigger] next[j],
        #[trigger] left[i],
    ) by {
        if j > 0 {
            assert(!comes_before(tail[j - 1], left[i]));
        }
    }
    assert(left.to_multiset().add(rest.to_multiset()).add(next.to_multiset())
        =~= whole.to_multiset()) by {
        vstd::seq_lib::to_multiset_build(rest, x);
        vstd::seq_lib::to_multiset_insert(tail, 0, x);
        assert(next =~= tail.insert(0, x));
    }
    assert forall|key: Ledger|
        ties(left, key) + ties(rest, key) + #[trigger] ties(next, key) == ties(whole, key) by {
        assert(ties(left, key) + ties(right, key) + ties(tail, key) == ties(whole, key));
        ties_of_joined(rest, seq![x], key);
        ties_of_joined(seq![x], tail, key);
        assert(right == rest + seq![x]);
        assert(ties(left, key) + ties(rest, key) + ties(next, key) =~= ties(left, key) + ties(
            right,
            key,
        ) + ties(tail, key));
    }
}

/// Merges two rows that are each in the order of presentation; of tied
/// blanks, those of `left` come first.
fn merge_rows(left: Vec<PipeBlank>, right: Vec<PipeBlank>) -> (merged: Vec<PipeBlank>)
    requires
        in_presentation_order(ledgers(left@)),
        in_presentation_order(ledgers(right@)),
    ensures
        is_presentation_of(ledgers(left@) + ledgers(right@), ledgers(merged@)),
{
    let ghost whole = ledgers(left@) + ledgers(right@);
    let ghost mut tail: Seq<Ledger> = Seq::empty();
    let mut left = left;
    let mut right = right;
    // the merged row is built from its end, so `stack` holds it back to front
    let mut stack: Vec<PipeBlank> = Vec::new();
    proof {
        merging_starts(ledgers(left@), ledgers(right@));
    }
    while left.len() > 0 || right.len() > 0
        invariant
            merging(ledgers(left@), ledgers(right@), tail, whole),
            stack.len() == tail.len(),
            forall|i: int| 0 <= i < stack.len() ==> (#[trigger] stack[i])@ == tail[tail.len() - 1 - i],
        decreases left.len() + right.len(),
    {
        let ghost l = ledgers(left@);
        let ghost r = ledgers(right@);
        let from_left: bool = if right.len() == 0 {
            true
        } else if left.len() == 0 {
            false
        } else {
            precedes(&right[right.len() - 1], &left[left.len() - 1])
        };
        let taken: Option<PipeBlank> = if from_left {
            proof {
                merging_takes_left(l, r, tail, whole);
            }
            left.pop()
        } else {
            proof {
                merging_takes_right(l, r, tail, whole);
            }
            right.pop()
        };
        if let Some(blank) = taken {
            proof {
                assert(ledgers(left@) == if from_left { l.drop_last() } else { l });
                assert(ledgers(right@) == if from_left { r } else { r.drop_last() });
                tail = seq![blank@] + tail;
            }
            stack.push(blank);
        }
    }
    proof {
        assert(ledgers(left@) == Seq::<Ledger>::empty());
        assert(ledgers(right@) == Seq::<Ledger>::empty());
        merging_ends(tail, whole);
    }
    let mut merged: Vec<PipeBlank> = Vec::new();
    while stack.len() > 0
        invariant
            merged.len() + stack.len() == tail.len(),
            forall|i: int| 0 <= i < stack.len() ==> (#[trigger] stack[i])@ == tail[tail.len() - 1 - i],
            forall|i: int| 0 <= i < merged.len() ==> (#[trigger] merged[i])@ == tail[i],
        decreases stack.len(),
    {
        if let Some(blank) = stack.pop() {
            merged.push(blank);
        }
    }
    proof {
        assert(ledgers(merged@) == tail);
    }
    merged
}

/// Returns the blanks of `row` in the order of presentation, tied blanks as
/// they stood.
fn present(row: Vec<PipeBlank>) -> (shown: Vec<PipeBlank>)
    ensures
        is_presentation_of(ledgers(row@), ledgers(shown@)),
    decreases row.len(),
{
    let ghost whole = ledgers(row@);
    if row.len() <= 1 {
        return row;
    }
    let mut left = row;
    let middle: usize = left.len() / 2;
    let right = left.split_off(middle);
    let ghost a = ledgers(left@);
    let ghost b = ledgers(right@);
    proof {
        assert(whole == a + b);
    }
    let left = present(left);
    let right = present(right);
    let merged = merge_rows(left, right);
    proof {
        presentation_of_parts(a, ledgers(left@), b, ledgers(right@), ledgers(merged@));
    }
    merged
}

/// Puts the blanks in the order of presentation: longest blank first, and
/// among blanks of one length, the lexicographically greatest cuts first.
/// Blanks that this order does not tell apart stay as they stood.
pub fn consistent_sort(pipes: &mut Vec<PipeBlank>)
    ensures
        is_presentation_of(ledgers(old(pipes)@), ledgers(final(pipes)@)),
{
    let mut row: Vec<PipeBlank> = Vec::new();
    core::mem::swap(pipes, &mut row);
    *pipes = present(row);
}

} // verus!
