//! Verified cores of a small family of line-oriented text utilities.
//!
//! The centrepiece is the streaming adjacent-duplicate-line detector in
//! [`uniq`]: it groups consecutive lines whose content (trailing line
//! terminator stripped) is equal, and emits one representative line per
//! group, optionally prefixed with the group's occurrence count.
//!
//! The remaining modules hold the computational cores of the sibling
//! utilities: line splitting and comparison ([`lines`]), numeric field
//! formatting ([`fmt`]), line numbering ([`cat`]), head-of-stream
//! truncation ([`head`]), line/word/byte/char counting ([`wc`]) and
//! argument joining ([`echo`]).
//!
//! All file and stream I/O lives outside the library: callers hand in
//! plain values and write the returned bytes themselves.

pub mod cat;
pub mod echo;
pub mod fmt;
pub mod head;
pub mod lines;
pub mod uniq;
pub mod wc;
