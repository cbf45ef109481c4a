//! Verified core of an audio player: track analysis, player items and the
//! synthetic fixtures that exercise them.

pub mod android;
pub mod audio_encode;
pub mod buffer;
pub mod bytes;
pub mod coverage;
pub mod detector;
pub mod hex_text;
pub mod hls_blob_store;
pub mod hls_fixture;
pub mod hls_route;
pub mod hls_spec;
pub mod hls_stream;
pub mod hls_url;
pub mod item;
pub mod observer_set;
pub mod outside;
pub mod player;
pub mod producer;
pub mod ring;
pub mod runs;
pub mod schedule;
pub mod session;
pub mod signal_pcm;
pub mod signal_source;
pub mod signal_url;
pub mod snapshot;
pub mod task;
pub mod test_server;
pub mod text;
pub mod time;
pub mod token_store;
pub mod wav;
