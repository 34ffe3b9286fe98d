//! The two ways in which a file's text becomes smaller.

pub mod externalize;
pub mod skeleton;
