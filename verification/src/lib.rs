//! Core engine of a spaced-repetition note tracker.
//!
//! Notes carry a review counter and a last-reviewed instant.  The engine
//! ranks notes by neglect (rarely reviewed, long untouched), deduplicates
//! the two rankings, applies completed reviews, and renders elapsed time
//! as a compact human-readable string.  All I/O (prompts, files, screen)
//! belongs to the surrounding shell, which hands the engine plain values.

pub mod storage;
pub mod tracker;
