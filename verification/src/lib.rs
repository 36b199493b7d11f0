//! Data side of a small digit classifier: the image type and the readers
//! for the binary containers that hold images and labels.

pub mod container;
pub mod image;
pub mod loader;
