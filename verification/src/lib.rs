//! A minimal length-prefixed binary encoding for an ordered sequence of
//! (key, value) byte-string pairs.
//!
//! A buffer is a concatenation of records; each record is an 8-byte header
//! (key length and value length, both 32-bit little-endian) followed by the
//! raw key bytes and the raw value bytes. The crate provides full
//! serialization, record-by-record iteration with early stop, and
//! first-match key lookup, together with proofs of round-trip fidelity,
//! the length invariant, and the first-match-wins policy.

pub mod codec;
pub mod format;
pub mod laws;

pub use codec::collect_all_pairs;
pub use codec::collect_keys;
pub use codec::collect_values;
pub use codec::count_records;
pub use codec::iter;
pub use codec::lookup;
pub use codec::next_record;
pub use codec::pair_adjacent;
pub use codec::serialize;
pub use format::DecodeError;
