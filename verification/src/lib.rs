//! Verified core of a browser SDR front end and its websocket helper.
pub mod base64;
pub mod command;
pub mod data_stream;
pub mod domlogger;
pub mod greeting;
pub mod http;
pub mod logging;
pub mod mainthread;
pub mod series;
pub mod sha1;
mod strings;
pub mod text;
pub mod wasm_graph;
pub mod wasm_source;
pub mod websocket;
pub mod workerlogger;

pub use greeting::add;
