pub mod bresenham;
pub mod geometry;
pub mod render;
pub mod scene;
pub mod visibility;

pub use bresenham::bresenham;
pub use bresenham::Octant;
pub use geometry::Dimensions;
pub use geometry::Point;
pub use geometry::Rect;
pub use render::render;
pub use render::Bitmap;
pub use scene::Light;
pub use scene::MouseButton;
pub use scene::Settings;
pub use scene::State;
pub use visibility::has_line_of_sight;
