//! SIXEL host output for terminals that render SIXEL but no Kitty graphics.
//!
//! Windows Terminal reports no cell pixel geometry and only understands SIXEL,
//! so a client hosted by it reports the fixed VT340 virtual cell grid instead
//! and encodes the graphics scene itself.
//!
//! A frame is a list of image placements. Each is clipped to its pane
//! ([`clip`]), its picture is decoded ([`decode`]), cropped and scaled onto the
//! cells it covers ([`resample`], on top of [`coverage`]), and encoded
//! ([`payload`]). [`cache`] paints whole frames, in the order of [`order`], and
//! keeps pictures and payloads by their [`signature`]. What that promises of
//! frames as a whole is proved in [`laws`], and what a scaled picture shows in
//! [`shown`]. [`codecs`] holds the calls into the outside codecs, the only code
//! that is trusted rather than proved.

pub mod cache;
pub mod clip;
pub mod codecs;
pub mod coverage;
pub mod decode;
pub mod laws;
pub mod order;
pub mod payload;
pub mod pixels;
pub mod placement;
pub mod protocol;
pub mod resample;
pub mod shown;
pub mod signature;
