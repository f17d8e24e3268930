//! One image, seen together with what the header says of it.

use vstd::prelude::*;

verus! {

/// An image of a dataset with its dimensions and the name of its class.
#[derive(Debug, PartialEq, Eq)]
pub struct Image<'a> {
    /// The bytes of the image.
    pub raw_data: &'a [u8],
    /// The width of the image, in pixels.
    pub width: u16,
    /// The height of the image, in pixels.
    pub height: u16,
    /// The number of bits per pixel.
    pub bit_depth: u8,
    /// The name of the class of the image.
    pub label: &'a str,
    /// The position of the class in the class table.
    pub label_index: u16,
}

} // verus!
