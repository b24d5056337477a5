//! Writes lines to a terminal while keeping only the most recent ones visible.
//!
//! A [`TermSnip`] owns a terminal and a bounded window of lines. Text that is
//! as wide as the terminal or wider is cut into chunks first; each chunk is
//! appended to the window, and once the window is full the oldest line is
//! dropped and the window is painted again.
//!
//! The terminal is anything that implements [`TermWrap`]. [`RecordingTerm`]
//! is a terminal in memory that keeps what it was asked to do.
pub mod laws;
pub mod recording;
pub mod snip;
pub mod termwrap;
pub mod wrap;

pub use recording::RecordingTerm;
pub use snip::TermSnip;
pub use termwrap::{TermCall, TermWrap};
