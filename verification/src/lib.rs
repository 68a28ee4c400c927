//! Compact, validated lookup structures over byte buffers: fixed-width record
//! sequences, variable-length string sequences, sorted maps built from them,
//! an era table searched by start date and a locale map walked from a locale
//! to its ancestors.
//!
//! Every view borrows the buffer it was built from. Construction validates the
//! whole buffer once; after that no operation can fail on the layout.

pub mod code;
pub mod codec;
pub mod date;
pub mod era;
pub mod fallback;
pub mod ints;
pub mod map;
pub mod order;
pub mod parse;
pub mod sequence;
pub mod text;
pub mod varseq;
pub mod week;

pub use code::EraCode;
pub use codec::{InvalidLayout, Record};
pub use date::EraStartDate;
pub use era::{EraEntry, EraTable, JapaneseErasV1, NoEraCovers};
pub use fallback::{FallbackCycle, FallbackMap};
pub use map::{Column, SortedMap};
pub use sequence::Sequence;
pub use varseq::VarSequence;
pub use week::{IsoWeekday, WeekDataV1};
