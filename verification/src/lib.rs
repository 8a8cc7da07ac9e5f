//! The control core of a per-pixel ray caster.
//!
//! The crate owns everything about a frame that is decided on whole numbers:
//! how a colour becomes four bytes, where a pixel lives in a packed buffer,
//! which of several hits is the nearest, and when a bouncing ray stops. The
//! vector arithmetic of a scene is supplied by the caller as closures, so
//! every contract here holds for whatever arithmetic is plugged in.

pub mod color;
pub mod frame;
pub mod nearest;
pub mod trace;
