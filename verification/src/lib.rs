//! Masked compositing of two raster images: the host supplies the
//! silhouette through its alpha channel, the parasite supplies the colour
//! wherever the host is opaque.
//!
//! A run chooses a scaling branch from the two aspect ratios ([`analyzer`]),
//! fits the parasite into the branch's box ([`scaler`]) and fills the host's
//! opaque pixels from the scaled parasite, centred over the host
//! ([`compositor`]). [`pipeline`] strings the three together.

pub mod analyzer;
pub mod compositor;
pub mod failure;
pub mod pipeline;
pub mod pixel;
pub mod quotient;
pub mod quotient_order;
pub mod raster;
pub mod scaler;
