pub mod engine;
pub mod laws;
pub mod text;
