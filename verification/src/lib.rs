//! Verified core of a lossless-audio library organizer.
//!
//! The library reorganizes a tree of audio files into a new tree, renaming
//! each audio file from a user template filled with its tag metadata.  This
//! crate holds the verified logic of that pipeline: filename sanitization for
//! constrained filesystems, template compilation and rendering, natural
//! ordering of directory entries, copy planning with skip-if-exists
//! semantics, the track-number rewrite policy, and tag analysis summaries.
//! All file, terminal and tag-container I/O lives outside this crate and
//! exchanges only plain values (strings, integers, options) with it.

pub mod analysis;
pub mod metadata;
pub mod order;
pub mod plan;
pub mod policy;
pub mod prefix;
pub mod sanitize;
pub mod template;
pub mod tree;
pub mod text;
