//! Tracking of prompt versions, the evaluations run against them, and the
//! scores those evaluations produce, together with an automatic classification
//! of each new run as an improvement, a regression, or no meaningful change
//! relative to a prior run.
//!
//! The crate keeps all durable rows in an in-memory typed store with
//! append-only semantics; serialization of stored score lists and test
//! catalogs uses a canonical JSON form produced and parsed here.

pub mod bignat;
pub mod clock;
pub mod compare;
pub mod eval;
pub mod json;
pub mod register;
pub mod store;
pub mod sync;
pub mod text;
