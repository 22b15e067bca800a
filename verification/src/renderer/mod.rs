pub mod editor;
pub mod numfmt;
pub mod frame;
