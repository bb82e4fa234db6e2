//! Select lines from a text stream according to a sorted sequence of numeric
//! line ranges supplied by a second stream.
//!
//! The crate has two parts: a range parser, which turns one textual token such
//! as `"4-6"` into a half-open interval of 1-based line numbers, and a merge
//! cursor, which walks the sequence of ranges and the sequence of numbered
//! lines in lockstep and emits exactly the lines whose number falls inside a
//! range. The cursor is a pull-driven state machine: a driver performs the
//! reads it asks for and feeds the outcomes back, so the selection logic
//! itself never touches I/O.

pub mod merge;
pub mod ranges;

pub use merge::Action;
pub use merge::MergeCursor;
pub use merge::ReadOutcome;
pub use merge::select_lines;
pub use ranges::BedMapError;
pub use ranges::NumParseError;
pub use ranges::parse_range;
pub use ranges::parse_uint;
