//! Decision logic of the Waywallen wallpaper daemon and of its headless
//! dump display, verified with Verus.

pub mod cli;
pub mod consumer;
pub mod display_proto;
pub mod dump;
pub mod event_process;
pub mod handshake;
pub mod linear;
pub mod media_monitor;
pub mod table;
pub mod text;
pub mod tiled;
pub mod vk_consumer;
mod vulkan;
pub mod wallpaper_sort;
