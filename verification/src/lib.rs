//! Compiles a list of flash areas into the byte layout of a firmware image.
//!
//! [`extract`] reads the areas out of a stream of tree events, [`layout`]
//! orders them and resolves their offsets, [`path`] resolves the variables
//! in the paths of their files, and [`image`] gives the bytes to write.

pub mod area;
pub mod extract;
pub mod image;
pub mod layout;
pub mod path;
