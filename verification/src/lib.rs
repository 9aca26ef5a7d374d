pub mod text;
pub mod model;
pub mod color;
pub mod hash;
pub mod editor;
pub mod wrap;
pub mod sort;
pub mod layering;
