//! A book ledger: records keyed by generated decimal identifiers, with a
//! per-owner index kept consistent across insertion, status update and
//! deletion, and a paginated listing over either of the two.

pub mod book;
pub mod decimal;
pub mod ledger;

pub use book::{Book, BookId, BookView, Status};
pub use decimal::decimal_string;
pub use ledger::{Contract, LedgerError};
