//! The integer side of a ray tracer: RGBA colors with saturating 8-bit
//! channels, pixel surfaces and their tiling into render jobs, and the PPM
//! and image formats that surfaces are read from and written to, and the
//! structure of OBJ model files.

pub mod compositor;
pub mod util;
pub mod textures;
pub mod renderer;
pub mod kdtree;
pub mod scenes;
