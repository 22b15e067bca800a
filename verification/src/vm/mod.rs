pub mod api;
pub mod poly;
pub mod laws;
