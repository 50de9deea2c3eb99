//! Cuckoo filter with a deterministic layout and a stable serialization format.
//!
//! [`Filter`] is the filter; [`FilterState`](state::FilterState) is its mathematical
//! model, over which the contracts are stated. What holds of all filters is in
//! [`laws`] and [`roundtrip`]; what the parts of the model come to, in numbers, slots and
//! bytes, is in [`placement`], [`operations`] and [`fields`].

pub mod fields;
pub mod filter;
pub mod fingerprint;
pub mod format;
pub mod laws;
pub mod layout;
pub mod le;
pub mod lemmas;
pub mod operations;
pub mod placement;
pub mod roundtrip;
pub mod sip;
pub mod state;

pub use filter::{Filter, Full};
pub use fingerprint::Fingerprint;
pub use format::ImportError;
