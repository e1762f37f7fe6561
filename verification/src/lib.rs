//! The verified core of `tape`, a toolbox that records HTTP traffic, replays it offline,
//! and collects debug logs from TV boxes and Android devices.

pub mod calls;
pub mod cli;
pub mod clock;
pub mod codec;
pub mod compare;
pub mod config;
pub mod diff;
pub mod download;
pub mod export;
pub mod http;
pub mod http_util;
pub mod ingest;
pub mod json;
pub mod json_path;
pub mod list;
pub mod log_file;
pub mod logcat;
pub mod matrix;
pub mod mime;
pub mod net;
pub mod number;
pub mod order;
pub mod paths;
pub mod pattern;
pub mod percent;
pub mod record;
pub mod replay;
pub mod report;
pub mod rewrite;
pub mod sequence;
pub mod snapshot;
pub mod store;
pub mod text;
pub mod tree;
