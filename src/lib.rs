//! A direct-address map whose values carry their own keys.
//!
//! Values are stored in a flat table of single-entry slots; the key of each
//! value is derived from its contents by a caller-supplied function.

pub mod fn_map;
pub mod iter;
pub mod laws;

pub use fn_map::{FnMap, MutGuard, MAX_CAPACITY};
pub use iter::{IntoIter, Iter};
