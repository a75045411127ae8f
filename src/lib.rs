//! Real-time terminal streaming core: a UTF-8 stream decoder, a multi-reader
//! byte ring buffer, a sequence-numbered chunk queue, a screen-diffing delta
//! tracker and the decision logic of the shared session manager.
pub mod chunk_queue;
pub mod client_manager;
pub mod dash_map;
pub mod hashing;
pub mod input_batch;
pub mod monitor;
pub mod protocol;
pub mod ring_buffer;
pub mod shared_session;
pub mod terminal_delta;
pub mod terminal_parse;
pub mod text;
pub mod tmux_cmd;
pub mod types;
pub mod utf8_stream;
