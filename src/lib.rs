//! Adaptive sampling of color gradients.
//!
//! A gradient between two colors is approximated by a sequence of stops such
//! that straight-line interpolation between consecutive stops stays within a
//! perceptual tolerance of the true interpolation curve. The sampler here
//! decides where to sample; evaluating colors and measuring differences is
//! left to the caller, who answers the sampler's requests.

pub mod gradient;
pub mod rgba;
pub mod subdivision;

pub use gradient::{gradient, gradient_resolving, GradientIter, Request};
pub use rgba::AlphaColor;
pub use subdivision::{MAX_DEPTH, ONE};
