//! Premultiplied-alpha colour model with bit-exact binary32 channel
//! arithmetic, and the format dispatch of the image importer.

pub mod addition;
pub mod binary32;
pub mod color;
pub mod equality;
pub mod import;
pub mod laws;
pub mod remainder;
pub mod rounding;
