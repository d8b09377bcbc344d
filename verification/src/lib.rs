pub mod bitmap;
pub mod color;
pub mod framebuffer;
