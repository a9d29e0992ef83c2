//! A QR code generator: a byte-mode, medium error-correction QR encoder,
//! together with the colour, text and picture helpers around it.

pub mod tables;
pub mod layout;
pub mod bits;
pub mod gf;
pub mod symbol;
pub mod standard;
pub mod blocks;
pub mod message;
pub mod text;
pub mod canvas;
pub mod args;
pub mod cache;
pub mod svg;
pub mod render;
pub mod qrcode_render;
pub mod gui_state;
