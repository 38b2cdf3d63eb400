//! One blank of raw stock and the record of what has been cut from it.

use vstd::prelude::*;

verus! {

/// The sum of a sequence of lengths.
pub open spec fn total(lengths: Seq<u32>) -> int
    decreases lengths.len(),
{
    if lengths.len() == 0 {
        0
    } else {
        total(lengths.drop_last()) + lengths.last()
    }
}

/// Adding a length to a sequence adds it to the total.
pub proof fn total_of_push(lengths: Seq<u32>, length: u32)
    ensures
        total(lengths.push(length)) == total(lengths) + length,
{
    assert(lengths.push(length).drop_last() == lengths);
}

/// A total is not negative.
pub proof fn total_is_natural(lengths: Seq<u32>)
    ensures
        0 <= total(lengths),
    decreases lengths.len(),
{
    if lengths.len() > 0 {
        total_is_natural(lengths.drop_last());
    }
}

/// No length of a sequence exceeds the total.
pub proof fn total_bounds_each(lengths: Seq<u32>, at: int)
    requires
        0 <= at < lengths.len(),
    ensures
        lengths[at] <= total(lengths),
    decreases lengths.len(),
{
    let rest = lengths.drop_last();
    total_is_natural(rest);
    if at < rest.len() {
        total_bounds_each(rest, at);
    }
}

/// The mathematical value of a [`PipeBlank`].
pub struct Ledger {
    /// Length of the blank before any cut.
    pub original_size: u32,
    /// Length that is still uncut.
    pub current_size: u32,
    /// The pieces cut so far, oldest first.
    pub cuts: Seq<u32>,
}

impl Ledger {
    /// The ledger of an untouched blank of the given length.
    pub open spec fn fresh(size: u32) -> Ledger {
        Ledger { original_size: size, current_size: size, cuts: Seq::empty() }
    }

    /// Nothing of the blank's length has been used.
    pub open spec fn is_unused(self) -> bool {
        self.current_size == self.original_size
    }

    /// What is left and what was cut add up to the original length.
    pub open spec fn balanced(self) -> bool {
        self.current_size + total(self.cuts) == self.original_size
    }

    /// The ledger after a piece of `size` has been cut off.
    pub open spec fn after_cut(self, size: u32) -> Ledger
        recommends
            size <= self.current_size,
    {
        Ledger {
            original_size: self.original_size,
            current_size: (self.current_size - size) as u32,
            cuts: self.cuts.push(size),
        }
    }
}

/// Every ledger of the row is balanced.
pub open spec fn all_balanced(row: Seq<Ledger>) -> bool {
    forall|i: int| 0 <= i < row.len() ==> (#[trigger] row[i]).balanced()
}

/// A cut from a balanced ledger that has room for it leaves a balanced ledger.
pub proof fn cut_keeps_balance(ledger: Ledger, size: u32)
    requires
        ledger.balanced(),
        size <= ledger.current_size,
    ensures
        ledger.after_cut(size).balanced(),
{
    total_of_push(ledger.cuts, size);
}

/// In a balanced ledger no cut is longer than the blank was.
pub proof fn balance_bounds_cuts(ledger: Ledger)
    requires
        ledger.balanced(),
    ensures
        forall|k: int| 0 <= k < ledger.cuts.len() ==> ledger.cuts[k] <= ledger.original_size,
{
    assert forall|k: int| 0 <= k < ledger.cuts.len() implies ledger.cuts[k]
        <= ledger.original_size by {
        total_bounds_each(ledger.cuts, k);
    }
}

/// A blank cannot have length zero.
#[derive(Debug, PartialEq, Eq)]
pub struct InvalidInput;

/// A blank of raw stock and the record of how it has been cut.
#[derive(Debug, PartialEq)]
pub struct PipeBlank {
    /// Length of the blank before any cut.
    pub original_size: u32,
    /// Length that is still uncut.
    pub current_size: u32,
    /// The pieces cut so far, in the order of cutting.
    pub cuts: Vec<u32>,
}

impl View for PipeBlank {
    type V = Ledger;

    open spec fn view(&self) -> Ledger {
        Ledger {
            original_size: self.original_size,
            current_size: self.current_size,
            cuts: self.cuts@,
        }
    }
}

/// The ledgers of a row of blanks, in the same order.
pub open spec fn ledgers(blanks: Seq<PipeBlank>) -> Seq<Ledger> {
    blanks.map_values(|blank: PipeBlank| blank@)
}

impl PipeBlank {
    /// An untouched blank of length `size`, whatever the length; see
    /// [`PipeBlank::create`] for the constructor that refuses a length of zero.
    pub fn new(size: u32) -> (blank: PipeBlank)
        ensures
            blank@ == Ledger::fresh(size),
            blank@.balanced(),
    {
        PipeBlank { original_size: size, current_size: size, cuts: Vec::new() }
    }

    /// An untouched blank of length `size`, refused when `size` is zero.
    pub fn create(size: u32) -> (made: Result<PipeBlank, InvalidInput>)
        ensures
            match made {
                Ok(blank) => size > 0 && blank@ == Ledger::fresh(size) && blank@.balanced(),
                Err(_) => size == 0,
            },
    {
        if size == 0 {
            Err(InvalidInput)
        } else {
            Ok(PipeBlank::new(size))
        }
    }

    /// Cuts a piece of length `size` off the blank: the piece is added to
    /// the cuts and the remaining length shrinks by it.
    pub fn cut(&mut self, size: u32)
        requires
            size <= old(self).current_size,
        ensures
            final(self)@ == old(self)@.after_cut(size),
            old(self)@.balanced() ==> final(self)@.balanced(),
    {
        self.cuts.push(size);
        self.current_size -= size;
        proof {
            total_of_push(old(self).cuts@, size);
        }
    }

    /// Whether the blank still has its full length.
    pub fn is_unused(&self) -> (unused: bool)
        ensures
            unused == self@.is_unused(),
    {
        self.current_size == self.original_size
    }
}

} // verus!
