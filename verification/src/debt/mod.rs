//! The bookkeeping of the debt protocol: who holds which reference, and what still owes one.

pub mod balance;
pub mod books;
pub mod domain;
pub mod flow;
pub mod steps;
pub mod tally;
pub mod writes;
