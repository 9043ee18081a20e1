//! Hiding a Base64-encoded archive in the least significant bits of an image,
//! split into a color fragment and a grayscale fragment, and recovering it.

pub mod arith;
pub mod cloak;
pub mod codec;
pub mod composite;
pub mod debug;
pub mod header;
pub mod naming;
pub mod raster;
pub mod seed;
pub mod stego;
pub mod text;
pub mod tier;
