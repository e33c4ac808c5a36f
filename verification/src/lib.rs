//! Compact lists of byte strings and of UTF-8 strings.
//!
//! Every list keeps the bytes of its elements in one shared buffer, and a
//! small record per element that says where the element lies. Two layouts
//! are offered, each for byte strings and for strings:
//!
//! - [`CompactBytestrings`] and [`CompactStrings`] record for every element
//!   where it begins and how long it is;
//! - [`FixedCompactBytestrings`] and [`FixedCompactStrings`] keep one
//!   eight-byte slot per element, which holds a short element itself and says
//!   of a longer one where it begins.

pub mod buffer;
pub mod metadata;
pub mod sequence;
pub mod compact_bytestrings;
pub mod slot;
pub mod fixed_compact_bytestrings;
pub mod utf8;
pub mod compact_strings;
pub mod fixed_compact_strings;

pub use compact_bytestrings::CompactBytestrings;
pub use compact_strings::CompactStrings;
pub use fixed_compact_bytestrings::FixedCompactBytestrings;
pub use fixed_compact_strings::FixedCompactStrings;
pub use utf8::InvalidUtf8;
