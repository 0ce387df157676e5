pub mod geometry;
pub mod platform;
pub mod renderer;
pub mod router;
pub mod runtime;
pub mod text;
