//! The verified core of a bit-perfect music player: sample formats, packing, DSD
//! over PCM, the playback engine's decisions, and the library's rules.
pub mod browse;
pub mod convert;
pub mod cue;
pub mod decode;
pub mod devices;
pub mod dop;
pub mod dsd;
pub mod engine;
pub mod error;
pub mod extract;
pub mod fadvise;
pub mod format;
pub mod labels;
pub mod loopback;
pub mod lru;
pub mod model;
pub mod paths;
pub mod queue;
pub mod ring;
pub mod scan;
pub mod search;
pub mod session;
pub mod sheets;
pub mod sink;
pub mod span;
pub mod standby;
pub mod text;
pub mod worker;
