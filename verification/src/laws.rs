//! What holds of segmentation, registration and lookup in general.

pub mod lookup;
pub mod registration;
pub mod slashes;
