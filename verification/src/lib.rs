//! Photoshoot segmentation and integrity-checked backup planning for camera
//! media, together with the small text utilities the command-line tools
//! around it share.

pub mod catalog;
pub mod checksum;
pub mod copy;
pub mod discover;
pub mod entry;
pub mod gallery;
mod host;
pub mod order;
pub mod paths;
pub mod pointer;
pub mod segment;
pub mod select;
pub mod text;
