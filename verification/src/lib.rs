//! Verified core of a Trackmania dedicated-server controller that speaks
//! XML-RPC over the "GBXRemote 2" protocol: the minified request language
//! and its expansion into XML-RPC, the framing of requests, the reading of
//! replies and callbacks, and the chat commands of the core plugin.
#![allow(non_snake_case)]

pub mod text;
pub mod encoding;
pub mod request;
pub mod callback;
pub mod commands;
pub mod transport;
pub mod config;

pub use request::{can_xform, cram, minify_request, xform, Value};
pub use callback::parse;
pub use commands::{can_answer, handle_callback, respond, splitArgs, HostInfo, Packet};
pub use transport::{
    authenticate_request, decode_reply, enable_callbacks_request, frame_request, greeting_ok,
};
pub use config::{load_config, Config, ConfigError, VirtualHost};
