//! Decision logic, data structures and layouts of a local voice assistant and
//! its quantised speech engine.

pub mod assistant;
pub mod audio;
pub mod bench;
pub mod e2e;
pub mod engine;
pub mod gguf;
pub mod l0;
pub mod models;
pub mod speak;
pub mod text;
pub mod time;
pub mod tui;
