//! Integer core of a software triangle rasterizer: frustum-clipping case
//! analysis over outcodes, incremental edge-function scan conversion and
//! depth-tested frame buffer updates.

pub mod algebra;
pub mod clip;
pub mod framebuffer;
pub mod level;
pub mod obj;
pub mod raster;
