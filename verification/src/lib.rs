//! Greedy one-dimensional cutting-stock allocation.
//!
//! A fixed stock of blanks is cut into requested lengths, largest request
//! first, each request going to the blank that it leaves the least of.

pub mod blank;
pub mod cutting;
pub mod fit;
pub mod order;
pub mod present;
pub mod ranking;

pub use blank::{InvalidInput, Ledger, PipeBlank};
pub use cutting::{allocate, cut_pipes, Allocation};
pub use fit::find_blank;
pub use present::consistent_sort;
