//! Core of a Chaumian e-cash wallet: the proof/invoice lifecycle manager and
//! the split-based spend/receive protocol.
//!
//! The wallet tracks unspent anonymous tokens ("proofs") and outstanding mint
//! invoices, selects proofs to cover a payment, computes change, plans the
//! blinded-output batches for the mint's split operation, and encodes the
//! resulting pay-proofs as a portable token string.
//!
//! The cryptographic engine (blinding, unblinding) and the mint transport
//! (HTTP) are external collaborators: the flows here compute every decision
//! from plain values and hand the surrounding program exact plans to execute.

pub mod amounts;
pub mod error;
pub mod hexnum;
pub mod records;
pub mod select;
pub mod store;
pub mod token;
pub mod wallet;
