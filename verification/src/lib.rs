//! Terminal image pipeline: color primitives, octree palette extraction,
//! k-d tree nearest-neighbor lookup, Floyd-Steinberg quantization, and the
//! Kitty / Sixel / iTerm graphics protocol encoders.
pub mod cache;
pub mod codec;
pub mod color;
pub mod error;
pub mod face;
pub mod handler;
pub mod image;
pub mod iterm;
pub mod kdtree;
pub mod kitty;
pub mod octree;
pub mod palette;
pub mod sixel;
pub mod terminal;

pub use color::{Blend, ColorGenerator, RGBA};
pub use error::Error;
pub use face::{Face, FaceAttrs};
pub use handler::{AnyImageHandler, DummyImageHandler, ImageHandler, ImageHandlerKind};
pub use image::Image;
pub use iterm::ItermImageHandler;
pub use kdtree::KDTree;
pub use kitty::KittyImageHandler;
pub use octree::{OcTree, OcTreeInfo, OcTreeLeaf, OcTreeNode, OcTreePath};
pub use palette::ColorPalette;
pub use sixel::SixelImageHandler;
pub use terminal::{
    DecMode, DecModeStatus, Key, KeyMod, KeyName, Mouse, Position, Size, TerminalCommand,
    TerminalError, TerminalEvent, TerminalSize,
};
