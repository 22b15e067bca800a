//! A fantasy console engine: framebuffer rasterizer, cartridge formats,
//! in-engine editors and the sound and input plumbing around them, with
//! their behaviour stated and proved.
pub mod console;
pub mod vm;
pub mod cart;
pub mod renderer;
pub mod audio;
pub mod network;
