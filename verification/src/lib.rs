//! FastCull engine: everything except the UI.
//!
//! The rules of a photo-culling tool: folder scan and filters, burst
//! grouping, IPTC templates, the copy engine, video export, the thumbnail
//! pipeline and the loupe. What the disk, the clock and the decoders say
//! comes in as plain values; what has to be done goes out as plain values.
//!
//! Invariant that outranks everything else: **a RAW file is never opened for
//! writing**.
use vstd::prelude::*;

pub mod burst;
pub mod cache;
pub mod catalog;
pub mod civil;
pub mod clip;
pub mod digest;
pub mod exif;
pub mod fileops;
pub mod filter;
pub mod grid;
pub mod iptc;
pub mod jpeg;
pub mod keys;
pub mod loupe;
pub mod order;
pub mod orient;
pub mod pipeline;
pub mod pointer;
pub mod rounding;
pub mod text;

verus! {

/// Application version, shared by the CLI and the UI shell.
pub const VERSION: &'static str = "0.1.0";

} // verus!
