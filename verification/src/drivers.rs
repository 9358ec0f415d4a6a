//! What the device drivers need from the kernel.

pub mod input;
pub mod virtio;
pub mod sdcard;
