//! Software rasteriser core for a sector-and-wall first-person view.
//!
//! The crate paints projected walls into a packed-colour frame with a
//! painter's algorithm, stretches the frame to display size through a
//! fixed-point bilinear lookup table, and sharpens the stretched image.

pub mod color;
pub mod raster;
pub mod depth_order;
pub mod renderer;
pub mod rows;
pub mod scaler;
pub mod visibility;
