pub mod colorrgba;
pub mod surface;
pub mod surfacefactory;
pub mod tiling;

pub use colorrgba::{Channel, ColorRGBA};
pub use surface::{Surface, SubsurfaceIterator};
pub use surfacefactory::SurfaceFactory;
