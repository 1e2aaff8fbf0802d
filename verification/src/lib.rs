//! Daily-forecast cache and rendering core.
//!
//! The library holds the pure logic of a small weather tool: mapping a
//! provider's numeric condition code to a symbolic icon tag, deriving the
//! per-day cache key for a city, encoding and decoding the on-disk forecast
//! artifact, and deciding per city whether to serve a cached forecast, fetch
//! a fresh one, or report a failure. All input and output (clock, filesystem,
//! network) stays outside, handing plain values in and out.

pub mod cache;
pub mod codec;
pub mod date;
pub mod digits;
pub mod icon;
pub mod provider;
pub mod record;
pub mod resolver;
