//! The allocation of requested lengths to blanks.

use crate::blank::{
    all_balanced, balance_bounds_cuts, cut_keeps_balance, ledgers, Ledger, PipeBlank,
};
use crate::fit::{
    best_fit, best_fit_exists, best_fit_missing, can_take, find_blank, is_best_fit, none_fits,
};
use crate::order::{
    ascending, ascending_is_unique, ascending_sorts, descending, descending_is_unique,
    descending_sorts, sorted_ascending, sorted_descending,
};
use vstd::multiset::Multiset;
use vstd::prelude::*;

verus! {

/// The mathematical value of an [`Allocation`].
pub struct Outcome {
    /// The ledgers of the blanks, shortest blank first.
    pub ledgers: Seq<Ledger>,
    /// The requests that no blank could take, in the order they were tried.
    pub rejected: Seq<u32>,
}

/// The blank that takes a piece of length `size`: the best fit among the
/// blanks already cut, and only if there is none, among all of them.
pub open spec fn placement(row: Seq<Ledger>, size: u32) -> Option<int> {
    match best_fit(row, size, false) {
        Some(at) => Some(at),
        None => best_fit(row, size, true),
    }
}

/// The state after one request: cut from the blank of its placement, or
/// rejected with all ledgers unchanged.
pub open spec fn serve(state: Outcome, size: u32) -> Outcome {
    match placement(state.ledgers, size) {
        Some(at) => Outcome {
            ledgers: state.ledgers.update(at, state.ledgers[at].after_cut(size)),
            rejected: state.rejected,
        },
        None => Outcome { ledgers: state.ledgers, rejected: state.rejected.push(size) },
    }
}

/// The state after a run of requests, served first to last.
pub open spec fn serve_all(state: Outcome, requests: Seq<u32>) -> Outcome
    decreases requests.len(),
{
    if requests.len() == 0 {
        state
    } else {
        serve(serve_all(state, requests.drop_last()), requests.last())
    }
}

/// Untouched ledgers for the given blank lengths, shortest first.
pub open spec fn stock(blanks: Seq<u32>) -> Seq<Ledger> {
    ascending(blanks).map_values(|size: u32| Ledger::fresh(size))
}

/// The result of cutting `requests`, largest first, from a stock of `blanks`.
pub open spec fn allocation(blanks: Seq<u32>, requests: Seq<u32>) -> Outcome {
    serve_all(Outcome { ledgers: stock(blanks), rejected: Seq::empty() }, descending(requests))
}

/// All the pieces cut from the blanks of a row.
pub open spec fn pieces(row: Seq<Ledger>) -> Multiset<u32>
    decreases row.len(),
{
    if row.len() == 0 {
        Multiset::empty()
    } else {
        pieces(row.drop_last()).add(row.last().cuts.to_multiset())
    }
}

/// The two rows are ledgers of the same blanks, position by position.
pub open spec fn same_blanks(a: Seq<Ledger>, b: Seq<Ledger>) -> bool {
    &&& a.len() == b.len()
    &&& forall|i: int| 0 <= i < a.len() ==> (#[trigger] a[i]).original_size == b[i].original_size
}

/// A placement names a blank of the row that has room for the piece; it is
/// the best fit among the blanks already cut, or no such blank has room and it
/// is the best fit among all.
pub proof fn placement_is_best_fit(row: Seq<Ledger>, size: u32)
    ensures
        match placement(row, size) {
            Some(at) => {
                &&& 0 <= at < row.len()
                &&& size <= row[at].current_size
                &&& is_best_fit(row, size, false, at) || (none_fits(row, size, false)
                    && is_best_fit(row, size, true, at))
            },
            None => forall|j: int| 0 <= j < row.len() ==> (#[trigger] row[j]).current_size < size,
        },
{
    if !none_fits(row, size, false) {
        best_fit_exists(row, size, false);
    } else {
        best_fit_missing(row, size, false);
        if !none_fits(row, size, true) {
            best_fit_exists(row, size, true);
        } else {
            best_fit_missing(row, size, true);
            assert forall|j: int| 0 <= j < row.len() implies (#[trigger] row[j]).current_size
                < size by {
                assert(!can_take(row[j], size, true));
            }
        }
    }
}

/// A cut from one blank of a row adds that piece to the pieces of the row.
proof fn pieces_after_cut(row: Seq<Ledger>, at: int, size: u32)
    requires
        0 <= at < row.len(),
    ensures
        pieces(row.update(at, row[at].after_cut(size))) == pieces(row).insert(size),
    decreases row.len(),
{
    broadcast use vstd::multiset::group_multiset_axioms;

    let next = row.update(at, row[at].after_cut(size));
    if at == row.len() - 1 {
        assert(next.drop_last() == row.drop_last());
        vstd::seq_lib::to_multiset_build(row[at].cuts, size);
    } else {
        assert(next.drop_last() == row.drop_last().update(at, row[at].after_cut(size)));
        pieces_after_cut(row.drop_last(), at, size);
    }
    assert(pieces(next) =~= pieces(row).insert(size));
}

/// A row of untouched blanks has no pieces.
proof fn pieces_of_stock(sizes: Seq<u32>)
    ensures
        pieces(sizes.map_values(|size: u32| Ledger::fresh(size))) == Multiset::<u32>::empty(),
    decreases sizes.len(),
{
    broadcast use vstd::multiset::group_multiset_axioms;

    let row = sizes.map_values(|size: u32| Ledger::fresh(size));
    if sizes.len() > 0 {
        assert(row.drop_last() == sizes.drop_last().map_values(|size: u32| Ledger::fresh(size)));
        pieces_of_stock(sizes.drop_last());
        assert(row.last().cuts.to_multiset() =~= Multiset::<u32>::empty()) by {
            row.last().cuts.to_multiset_ensures();
            vstd::multiset::lemma_multiset_empty_len(row.last().cuts.to_multiset());
        }
        assert(pieces(row) =~= Multiset::<u32>::empty());
    }
}

/// Serving a request keeps the blanks and their balance, and either cuts the
/// request from a blank or rejects it.
pub proof fn serve_accounts(state: Outcome, size: u32)
    ensures
        same_blanks(serve(state, size).ledgers, state.ledgers),
        all_balanced(state.ledgers) ==> all_balanced(serve(state, size).ledgers),
        pieces(serve(state, size).ledgers).add(serve(state, size).rejected.to_multiset())
            == pieces(state.ledgers).add(state.rejected.to_multiset()).insert(size),
{
    broadcast use vstd::multiset::group_multiset_axioms;

    let next = serve(state, size);
    placement_is_best_fit(state.ledgers, size);
    match placement(state.ledgers, size) {
        Some(at) => {
            pieces_after_cut(state.ledgers, at, size);
            if all_balanced(state.ledgers) {
                cut_keeps_balance(state.ledgers[at], size);
            }
        },
        None => {
            vstd::seq_lib::to_multiset_build(state.rejected, size);
        },
    }
    assert(pieces(next.ledgers).add(next.rejected.to_multiset()) =~= pieces(state.ledgers).add(
        state.rejected.to_multiset(),
    ).insert(size));
}

/// Serving a run of requests keeps the blanks and their balance, and every
/// request of the run is then a piece of some blank or rejected.
pub proof fn serve_all_accounts(state: Outcome, requests: Seq<u32>)
    ensures
        same_blanks(serve_all(state, requests).ledgers, state.ledgers),
        all_balanced(state.ledgers) ==> all_balanced(serve_all(state, requests).ledgers),
        pieces(serve_all(state, requests).ledgers).add(
            serve_all(state, requests).rejected.to_multiset(),
        ) == pieces(state.ledgers).add(state.rejected.to_multiset()).add(requests.to_multiset()),
    decreases requests.len(),
{
    broadcast use vstd::multiset::group_multiset_axioms;

    let before = pieces(state.ledgers).add(state.rejected.to_multiset());
    if requests.len() == 0 {
        requests.to_multiset_ensures();
        vstd::multiset::lemma_multiset_empty_len(requests.to_multiset());
        assert(before.add(requests.to_multiset()) =~= before);
    } else {
        let earlier = requests.drop_last();
        let middle = serve_all(state, earlier);
        serve_all_accounts(state, earlier);
        serve_accounts(middle, requests.last());
        assert(requests == earlier.push(requests.last()));
        vstd::seq_lib::to_multiset_build(earlier, requests.last());
        assert(before.add(earlier.to_multiset()).insert(requests.last()) =~= before.add(
            requests.to_multiset(),
        ));
    }
}

/// No blank of the state has room for a request that the state lists as
/// rejected.
pub open spec fn rejected_fit_nowhere(state: Outcome) -> bool {
    forall|k: int, i: int|
        0 <= k < state.rejected.len() && 0 <= i < state.ledgers.len() ==> (
        #[trigger] state.ledgers[i]).current_size < #[trigger] state.rejected[k]
}

/// A request is rejected only when no blank has room for it, and no blank
/// gains room later.
pub proof fn serve_all_rejects_what_fits_nowhere(state: Outcome, requests: Seq<u32>)
    requires
        rejected_fit_nowhere(state),
    ensures
        rejected_fit_nowhere(serve_all(state, requests)),
    decreases requests.len(),
{
    if requests.len() > 0 {
        let middle = serve_all(state, requests.drop_last());
        let size = requests.last();
        let next = serve(middle, size);
        serve_all_rejects_what_fits_nowhere(state, requests.drop_last());
        placement_is_best_fit(middle.ledgers, size);
        assert forall|k: int, i: int|
            0 <= k < next.rejected.len() && 0 <= i < next.ledgers.len() implies (
        #[trigger] next.ledgers[i]).current_size < #[trigger] next.rejected[k] by {
            assert(middle.ledgers[i].current_size >= next.ledgers[i].current_size);
            if k < middle.rejected.len() {
                assert(middle.ledgers[i].current_size < middle.rejected[k]);
            }
        }
    }
}

/// The result holds one ledger for each blank, shortest blank first.
pub proof fn allocation_keeps_the_stock(blanks: Seq<u32>, requests: Seq<u32>)
    ensures
        allocation(blanks, requests).ledgers.len() == blanks.len(),
        forall|i: int|
            0 <= i < blanks.len() ==> (#[trigger] allocation(
                blanks,
                requests,
            ).ledgers[i]).original_size == ascending(blanks)[i],
{
    let start = Outcome { ledgers: stock(blanks), rejected: Seq::empty() };
    serve_all_accounts(start, descending(requests));
    ascending_sorts(blanks);
    let done = allocation(blanks, requests).ledgers;
    assert forall|i: int| 0 <= i < blanks.len() implies (#[trigger] done[i]).original_size
        == ascending(blanks)[i] by {
        assert(done[i].original_size == stock(blanks)[i].original_size);
    }
}

/// In every ledger of the result, what is left and what was cut add up to
/// the blank's length, and no cut is longer than the blank was.
pub proof fn allocation_is_balanced(blanks: Seq<u32>, requests: Seq<u32>)
    ensures
        all_balanced(allocation(blanks, requests).ledgers),
        forall|i: int, k: int|
            #![trigger allocation(blanks, requests).ledgers[i].cuts[k]]
            0 <= i < allocation(blanks, requests).ledgers.len() && 0 <= k < allocation(
                blanks,
                requests,
            ).ledgers[i].cuts.len() ==> allocation(blanks, requests).ledgers[i].cuts[k]
                <= allocation(blanks, requests).ledgers[i].original_size,
{
    let start = Outcome { ledgers: stock(blanks), rejected: Seq::empty() };
    assert(all_balanced(start.ledgers));
    serve_all_accounts(start, descending(requests));
    let done = allocation(blanks, requests).ledgers;
    assert forall|i: int, k: int|
        #![trigger done[i].cuts[k]]
        0 <= i < done.len() && 0 <= k < done[i].cuts.len() implies done[i].cuts[k]
        <= done[i].original_size by {
        assert(done[i].balanced());
        balance_bounds_cuts(done[i]);
    }
}

/// Every request is a piece of exactly one blank or is rejected, and the
/// blanks hold no other pieces.
pub proof fn allocation_accounts_for_requests(blanks: Seq<u32>, requests: Seq<u32>)
    ensures
        pieces(allocation(blanks, requests).ledgers).add(
            allocation(blanks, requests).rejected.to_multiset(),
        ) == requests.to_multiset(),
{
    broadcast use vstd::multiset::group_multiset_axioms;

    let start = Outcome { ledgers: stock(blanks), rejected: Seq::empty() };
    serve_all_accounts(start, descending(requests));
    descending_sorts(requests);
    pieces_of_stock(ascending(blanks));
    start.rejected.to_multiset_ensures();
    vstd::multiset::lemma_multiset_empty_len(start.rejected.to_multiset());
    assert(pieces(start.ledgers).add(start.rejected.to_multiset()).add(requests.to_multiset())
        =~= requests.to_multiset());
}

/// When all requests are served, no blank has room for any rejected request.
pub proof fn allocation_rejects_what_fits_nowhere(blanks: Seq<u32>, requests: Seq<u32>)
    ensures
        rejected_fit_nowhere(allocation(blanks, requests)),
{
    let start = Outcome { ledgers: stock(blanks), rejected: Seq::empty() };
    serve_all_rejects_what_fits_nowhere(start, descending(requests));
}

/// The result depends on which blanks and requests there are, not on the
/// order in which they are given.
pub proof fn allocation_ignores_arrangement(
    blanks: Seq<u32>,
    requests: Seq<u32>,
    other_blanks: Seq<u32>,
    other_requests: Seq<u32>,
)
    requires
        blanks.to_multiset() == other_blanks.to_multiset(),
        requests.to_multiset() == other_requests.to_multiset(),
    ensures
        allocation(blanks, requests) == allocation(other_blanks, other_requests),
{
    ascending_sorts(other_blanks);
    ascending_is_unique(blanks, ascending(other_blanks));
    descending_sorts(other_requests);
    descending_is_unique(requests, descending(other_requests));
}

/// The blanks after cutting, and the requests that could not be cut.
#[derive(Debug, PartialEq)]
pub struct Allocation {
    /// One blank per length of stock, shortest blank first.
    pub blanks: Vec<PipeBlank>,
    /// The requests that no blank could take, largest first.
    pub rejected: Vec<u32>,
}

impl View for Allocation {
    type V = Outcome;

    open spec fn view(&self) -> Outcome {
        Outcome { ledgers: ledgers(self.blanks@), rejected: self.rejected@ }
    }
}

/// Cuts the requested lengths from the blanks, largest request first, and
/// reports the requests that fit nowhere.
pub fn allocate(blanks: &[u32], requests: Vec<u32>) -> (done: Allocation)
    ensures
        done@ == allocation(blanks@, requests@),
        done.blanks.len() == blanks.len(),
        forall|i: int|
            0 <= i < blanks.len() ==> (#[trigger] done.blanks[i]).original_size == ascending(
                blanks@,
            )[i],
        all_balanced(done@.ledgers),
        pieces(done@.ledgers).add(done.rejected@.to_multiset()) == requests@.to_multiset(),
        rejected_fit_nowhere(done@),
{
    let sizes = sorted_ascending(blanks);
    let mut row: Vec<PipeBlank> = Vec::new();
    let mut n: usize = 0;
    while n < sizes.len()
        invariant
            n <= sizes.len(),
            row.len() == n,
            forall|i: int| 0 <= i < n ==> (#[trigger] row[i])@ == Ledger::fresh(sizes[i]),
        decreases sizes.len() - n,
    {
        row.push(PipeBlank::new(sizes[n]));
        n += 1;
    }
    let queue = sorted_descending(requests.as_slice());
    let mut rejected: Vec<u32> = Vec::new();
    let ghost start = Outcome { ledgers: stock(blanks@), rejected: Seq::empty() };
    proof {
        assert(ledgers(row@) == stock(blanks@));
        assert(queue@.take(0) == Seq::<u32>::empty());
    }
    let mut k: usize = 0;
    while k < queue.len()
        invariant
            k <= queue.len(),
            (Outcome { ledgers: ledgers(row@), rejected: rejected@ }) == serve_all(
                start,
                queue@.take(k as int),
            ),
        decreases queue.len() - k,
    {
        let request: u32 = queue[k];
        let ghost before = Outcome { ledgers: ledgers(row@), rejected: rejected@ };
        proof {
            assert(queue@.take(k + 1).drop_last() == queue@.take(k as int));
        }
        let found: Option<usize> = match find_blank(row.as_slice(), request, false) {
            Some(at) => Some(at),
            None => find_blank(row.as_slice(), request, true),
        };
        match found {
            Some(at) => {
                row[at].cut(request);
                proof {
                    assert(ledgers(row@) == before.ledgers.update(
                        at as int,
                        before.ledgers[at as int].after_cut(request),
                    ));
                }
            },
            None => {
                rejected.push(request);
            },
        }
        k += 1;
    }
    proof {
        assert(queue@.take(k as int) == queue@);
        allocation_keeps_the_stock(blanks@, requests@);
        allocation_is_balanced(blanks@, requests@);
        allocation_accounts_for_requests(blanks@, requests@);
        allocation_rejects_what_fits_nowhere(blanks@, requests@);
        assert forall|i: int| 0 <= i < blanks.len() implies (#[trigger] row[i]).original_size
            == ascending(blanks@)[i] by {
            assert(row[i]@ == ledgers(row@)[i]);
        }
    }
    Allocation { blanks: row, rejected }
}

/// Cuts the requested lengths from the blanks, wasting as little as a
/// largest-first best-fit pass can, and returns the blanks, shortest first.
pub fn cut_pipes(blanks: &[u32], requests: Vec<u32>) -> (row: Vec<PipeBlank>)
    ensures
        ledgers(row@) == allocation(blanks@, requests@).ledgers,
        row.len() == blanks.len(),
        forall|i: int|
            0 <= i < blanks.len() ==> (#[trigger] row[i]).original_size == ascending(blanks@)[i],
        forall|i: int| 0 <= i < row.len() ==> (#[trigger] row[i])@.balanced(),
        forall|i: int, k: int|
            0 <= i < row.len() && 0 <= k < row[i].cuts.len() ==> #[trigger] row[i].cuts[k]
                <= row[i].original_size,
        pieces(ledgers(row@)).add(allocation(blanks@, requests@).rejected.to_multiset())
            == requests@.to_multiset(),
{
    let done = allocate(blanks, requests);
    proof {
        broadcast use vstd::multiset::group_multiset_axioms;

        assert forall|i: int| 0 <= i < done.blanks.len() implies (#[trigger] done.blanks[i])@.balanced() by {
            assert(done.blanks[i]@ == done@.ledgers[i]);
        }
        assert forall|i: int, k: int|
            0 <= i < done.blanks.len() && 0 <= k < done.blanks[i].cuts.len() implies #[trigger] done.blanks[i].cuts[k]
            <= done.blanks[i].original_size by {
            balance_bounds_cuts(done.blanks[i]@);
        }
    }
    done.blanks
}

} // verus!
