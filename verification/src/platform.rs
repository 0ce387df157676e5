pub mod accessibility;
pub mod blur;
pub mod d2d_cache;
pub mod gdi_bitmap_cache;
pub mod gdi_metrics;
pub mod gdi_text;
pub mod gl;
pub mod pixels;
pub mod static_layer;
pub mod svg;
pub mod tray;
pub mod window;
pub mod window_registry;
pub mod winit;
