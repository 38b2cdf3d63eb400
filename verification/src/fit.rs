//! The search for the blank that a requested length leaves the least of.

use crate::blank::{ledgers, Ledger, PipeBlank};
use vstd::prelude::*;

verus! {

/// A piece of length `size` may be cut from `ledger`: enough is left of it,
/// and it has been cut before unless untouched blanks are allowed.
pub open spec fn can_take(ledger: Ledger, size: u32, allow_unused: bool) -> bool {
    ledger.current_size >= size && (allow_unused || !ledger.is_unused())
}

/// What would be left of `ledger` after a piece of length `size` is cut from it.
pub open spec fn waste(ledger: Ledger, size: u32) -> int {
    ledger.current_size - size
}

/// Position `at` holds the best fit for `size`: it can take the piece, no
/// other candidate would be left with less, and every earlier candidate
/// would be left with more.
pub open spec fn is_best_fit(row: Seq<Ledger>, size: u32, allow_unused: bool, at: int) -> bool {
    &&& 0 <= at < row.len()
    &&& can_take(row[at], size, allow_unused)
    &&& forall|j: int|
        0 <= j < row.len() && can_take(#[trigger] row[j], size, allow_unused) ==> waste(
            row[at],
            size,
        ) <= waste(row[j], size)
    &&& forall|j: int|
        0 <= j < at && can_take(#[trigger] row[j], size, allow_unused) ==> waste(row[at], size)
            < waste(row[j], size)
}

/// No blank of the row can take a piece of length `size`.
pub open spec fn none_fits(row: Seq<Ledger>, size: u32, allow_unused: bool) -> bool {
    forall|j: int| 0 <= j < row.len() ==> !can_take(#[trigger] row[j], size, allow_unused)
}

/// The position of the best fit for `size` in the row, if any blank fits.
pub open spec fn best_fit(row: Seq<Ledger>, size: u32, allow_unused: bool) -> Option<int> {
    if exists|at: int| is_best_fit(row, size, allow_unused, at) {
        Some(choose|at: int| is_best_fit(row, size, allow_unused, at))
    } else {
        None
    }
}

/// A row has at most one best fit for a length.
pub proof fn best_fit_is_unique(row: Seq<Ledger>, size: u32, allow_unused: bool, a: int, b: int)
    requires
        is_best_fit(row, size, allow_unused, a),
        is_best_fit(row, size, allow_unused, b),
    ensures
        a == b,
{
    if a < b {
        assert(can_take(row[a], size, allow_unused));
    } else if b < a {
        assert(can_take(row[b], size, allow_unused));
    }
}

/// `best_fit` names the position that `is_best_fit` describes.
pub proof fn best_fit_found(row: Seq<Ledger>, size: u32, allow_unused: bool, at: int)
    requires
        is_best_fit(row, size, allow_unused, at),
    ensures
        best_fit(row, size, allow_unused) == Some(at),
{
    let chosen = choose|at: int| is_best_fit(row, size, allow_unused, at);
    best_fit_is_unique(row, size, allow_unused, at, chosen);
}

/// `best_fit` finds nothing exactly when no blank fits.
pub proof fn best_fit_missing(row: Seq<Ledger>, size: u32, allow_unused: bool)
    requires
        none_fits(row, size, allow_unused),
    ensures
        best_fit(row, size, allow_unused) is None,
{
    if exists|at: int| is_best_fit(row, size, allow_unused, at) {
        let at = choose|at: int| is_best_fit(row, size, allow_unused, at);
        assert(can_take(row[at], size, allow_unused));
    }
}

/// Where some blank can take the piece, the row has a best fit.
pub proof fn best_fit_exists(row: Seq<Ledger>, size: u32, allow_unused: bool)
    requires
        !none_fits(row, size, allow_unused),
    ensures
        best_fit(row, size, allow_unused) is Some,
        is_best_fit(row, size, allow_unused, best_fit(row, size, allow_unused)->Some_0),
    decreases row.len(),
{
    let j = choose|j: int| 0 <= j < row.len() && can_take(#[trigger] row[j], size, allow_unused);
    let rest = row.drop_last();
    let last = row.len() - 1;
    let at = if none_fits(rest, size, allow_unused) {
        assert(j == last) by {
            if j < last {
                assert(can_take(rest[j], size, allow_unused));
            }
        }
        last
    } else {
        best_fit_exists(rest, size, allow_unused);
        let before = best_fit(rest, size, allow_unused)->Some_0;
        if can_take(row[last], size, allow_unused) && waste(row[last], size) < waste(
            rest[before],
            size,
        ) {
            last
        } else {
            before
        }
    };
    assert(is_best_fit(row, size, allow_unused, at)) by {
        assert forall|k: int|
            0 <= k < row.len() && can_take(#[trigger] row[k], size, allow_unused) implies waste(
            row[at],
            size,
        ) <= waste(row[k], size) by {
            if k < last {
                assert(can_take(rest[k], size, allow_unused));
            }
        }
        assert forall|k: int|
            0 <= k < at && can_take(#[trigger] row[k], size, allow_unused) implies waste(
            row[at],
            size,
        ) < waste(row[k], size) by {
            assert(can_take(rest[k], size, allow_unused));
        }
    }
    best_fit_found(row, size, allow_unused, at);
}

/// Finds the blank that a piece of length `cut` leaves the least of; among
/// equals, the first. Untouched blanks count only if `allow_unused`.
pub fn find_blank(blanks: &[PipeBlank], cut: u32, allow_unused: bool) -> (found: Option<usize>)
    ensures
        match found {
            Some(at) => is_best_fit(ledgers(blanks@), cut, allow_unused, at as int),
            None => none_fits(ledgers(blanks@), cut, allow_unused),
        },
        best_fit(ledgers(blanks@), cut, allow_unused) == match found {
            Some(at) => Some(at as int),
            None => None,
        },
{
    let ghost row = ledgers(blanks@);
    let mut found: Option<usize> = None;
    let mut min_waste: u32 = 0;
    let mut idx: usize = 0;
    while idx < blanks.len()
        invariant
            idx <= blanks.len(),
            row == ledgers(blanks@),
            row.len() == blanks.len(),
            match found {
                Some(at) => is_best_fit(row.take(idx as int), cut, allow_unused, at as int)
                    && min_waste == waste(row[at as int], cut),
                None => none_fits(row.take(idx as int), cut, allow_unused),
            },
        decreases blanks.len() - idx,
    {
        let blank = &blanks[idx];
        let ghost seen = row.take(idx as int);
        let ghost next = row.take(idx + 1);
        proof {
            assert(next == seen.push(row[idx as int]));
            assert(row[idx as int] == blank@);
            assert forall|j: int| 0 <= j < idx implies next[j] == seen[j] by {}
        }
        if blank.current_size >= cut && (allow_unused || !blank.is_unused()) {
            let left: u32 = blank.current_size - cut;
            let better: bool = match found {
                None => true,
                Some(_) => left < min_waste,
            };
            if better {
                proof {
                    assert forall|j: int|
                        0 <= j < idx && can_take(
                            #[trigger] next[j],
                            cut,
                            allow_unused,
                        ) implies waste(next[idx as int], cut) < waste(next[j], cut) by {
                        assert(can_take(seen[j], cut, allow_unused));
                    }
                }
                found = Some(idx);
                min_waste = left;
            } else {
                proof {
                    let at = found->Some_0 as int;
                    assert forall|j: int|
                        0 <= j < next.len() && can_take(
                            #[trigger] next[j],
                            cut,
                            allow_unused,
                        ) implies waste(next[at], cut) <= waste(next[j], cut) by {
                        if j < idx {
                            assert(can_take(seen[j], cut, allow_unused));
                        }
                    }
                    assert forall|j: int|
                        0 <= j < at && can_take(
                            #[trigger] next[j],
                            cut,
                            allow_unused,
                        ) implies waste(next[at], cut) < waste(next[j], cut) by {
                        assert(can_take(seen[j], cut, allow_unused));
                    }
                }
            }
        } else {
            proof {
                match found {
                    Some(at) => {
                        let at = at as int;
                        assert forall|j: int|
                            0 <= j < next.len() && can_take(
                                #[trigger] next[j],
                                cut,
                                allow_unused,
                            ) implies waste(next[at], cut) <= waste(next[j], cut) by {
                            assert(can_take(seen[j], cut, allow_unused));
                        }
                        assert forall|j: int|
                            0 <= j < at && can_take(
                                #[trigger] next[j],
                                cut,
                                allow_unused,
                            ) implies waste(next[at], cut) < waste(next[j], cut) by {
                            assert(can_take(seen[j], cut, allow_unused));
                        }
                    },
                    None => {
                        assert forall|j: int| 0 <= j < next.len() implies !can_take(
                            #[trigger] next[j],
                            cut,
                            allow_unused,
                        ) by {
                            if j < idx {
                                assert(!can_take(seen[j], cut, allow_unused));
                            }
                        }
                    },
                }
            }
        }
        idx += 1;
    }
    proof {
        assert(row.take(idx as int) == row);
        match found {
            Some(at) => best_fit_found(row, cut, allow_unused, at as int),
            None => best_fit_missing(row, cut, allow_unused),
        }
    }
    found
}

} // verus!
