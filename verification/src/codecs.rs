//! Image codecs: the PNG decoder and the PPM serializer.

pub mod png;
pub mod ppm;
