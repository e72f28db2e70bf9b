//! Voice-assistant pipeline: capture, turn taking, reply chunking, repairs and
//! playback.

pub mod audio_in;
pub mod audio_out;
pub mod config;
pub mod filler;
pub mod generation;
pub mod llm;
pub mod mixer;
pub mod orchestrator;
pub mod repair;
pub mod routing;
pub mod shredder;
pub mod state;
pub mod tokenizer_parts;
pub mod tts;
pub mod vad;

pub use config::AssistantConfig;
pub use state::SessionState;
