//! A streaming pass over a GPX document that rewrites the `lat`/`lon`
//! attributes of every track point reached through the exact element path
//! `gpx` / `trk` / `trkseg` / `trkpt`, using one of six geodetic
//! conversions, and re-emits every other event untouched.

use vstd::prelude::*;

pub mod attrs;
pub mod depth;
pub mod pass;
pub mod registry;
pub mod router;
pub mod xml;

pub use crate::pass::{convert, gpx_transform, u64_to_string, ConvertResult};
pub use crate::registry::{lookup_conversion, Conversion};

verus! {

/// An error that aborts a pass.
#[derive(Debug)]
pub enum Error {
    /// The XML stream is malformed, an attribute cannot be read, or the sink
    /// failed; carries the underlying message.
    XMLError(String),
    /// A `lat` or `lon` attribute of a target element does not parse as a
    /// float; carries the byte position of the element in the source.
    ValueError(u64),
}

} // verus!
