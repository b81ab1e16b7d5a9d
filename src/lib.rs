//! Random access to the bases of line-wrapped sequence files through a
//! positional index.
//!
//! The index lists, for every sequence, its length in bases, the byte offset
//! of its first base, and its line geometry. From those the library maps a
//! base interval to a byte interval of the sequence file and hands out a
//! borrowed view of those bytes, which skips line separators when it is read,
//! counted or turned into text.

pub mod bases;
pub mod error;
pub mod fasta;
pub mod index;
pub mod text;
pub mod view;

pub use bases::{classify, is_base, BaseCounts, BaseKind};
pub use error::{FaiError, FaiField};
pub use fasta::IndexedFasta;
pub use index::{Fai, FaiRecord};
pub use text::IntErrorCause;
pub use view::{Bases, FastaView};
