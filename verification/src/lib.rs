//! A DirectDraw Surface (`.dds`) texture toolkit: container, decode, encode and
//! GPU upload plans.
//!
//! - [`dds`], [`header`], [`surface`]: the container, its bytes, and where each
//!   mip level, array layer and cubemap face lies in the payload.
//! - [`content`], [`format`]: which formats decode to what.
//! - [`decode`]: BC1 to BC7 and uncompressed content to pixels.
//! - [`encode`]: pixels to the same content, with mips and a rate-distortion pass.
//! - [`upload`]: what a GPU needs to be told.
//! - [`command`], [`text`]: what a command line asks for.
//! - [`laws`], [`laws_header`], [`laws_command`], [`laws_binary32`], and the `laws`
//!   modules of [`decode`] and [`encode`]: what holds across these.
//! - [`binary32`], [`rounding`], [`model`], [`swizzle`]: arithmetic that the
//!   codecs share.
//!   Single-precision numbers are handled by their bit patterns, so every
//!   payload is a function of its inputs alone.

pub mod binary32;
pub mod command;
pub mod content;
pub mod dds;
pub mod decode;
pub mod encode;
pub mod error;
pub mod format;
pub mod header;
pub mod laws;
pub mod laws_binary32;
pub mod laws_command;
pub mod laws_header;
pub mod model;
pub mod rounding;
pub mod surface;
pub mod swizzle;
pub mod text;
pub mod upload;
