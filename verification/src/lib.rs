//! A container format for labeled, fixed-size images.

pub mod classes;
pub mod codec;
pub mod dataset;
pub mod deflate;
pub mod error;
pub mod header;
pub mod image;
pub mod merge;
pub mod table;
pub mod version;
pub mod wire;

pub use dataset::{Dataset, Label, LabeledImage};
pub use error::Error;
pub use header::Header;
pub use image::Image;
pub use version::Version;
