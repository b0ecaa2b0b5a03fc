//! Validated data model for exact-cover problems with colors.
//!
//! A `Problem` declares a universe of primary items (each must be covered
//! exactly once) and secondary items (covered at most once, or by several
//! options that agree on a color), together with an ordered list of
//! `CoverOption`s. Construction and every incremental mutation validate the
//! prospective state and commit atomically or leave the value unchanged.
//! `solve` re-validates a problem and dispatches it to an external search
//! engine that enumerates covers.

pub mod dispatch;
pub mod idents;
pub mod options;
pub mod problem;
pub mod value_error;

pub use crate::dispatch::solve;
pub use crate::options::CoverOption;
pub use crate::problem::Problem;
pub use crate::value_error::ValueError;
