pub mod camera;
pub mod color;
pub mod density;
pub mod image;
