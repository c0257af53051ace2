//! Fits point clouds into a pixel rectangle and rasterizes antialiased
//! polylines between the fitted points.
//!
//! Continuous coordinates are signed fixed-point numbers with 32 fractional
//! bits, so every operation is exact integer arithmetic.
pub mod aabb;
pub mod binary32;
pub mod coordinates;
pub mod error;
pub mod fit;
pub mod fixed;
pub mod raster;
pub mod renderer;

pub use aabb::AABB;
pub use error::RenderError;
pub use renderer::Renderer;
