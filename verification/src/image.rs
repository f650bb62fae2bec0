//! Generic decoded-image container shared by the codecs.

use vstd::prelude::*;

verus! {

/// The color layout of a decoded pixel buffer.
#[derive(Debug, Clone, Copy, PartialEq, Eq, Structural)]
pub enum GenericImageColors {
    RGB,
    RGBA,
    G,
}

/// A decoded image: a tightly packed row-major byte buffer together with
/// its dimensions and color layout.
pub struct GenericImage {
    pub width: u32,
    pub height: u32,
    pub colors: GenericImageColors,
    pub data: Vec<u8>,
}

} // verus!
