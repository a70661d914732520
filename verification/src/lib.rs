//! Atrium: the web session host's protocol and state logic.

pub mod text;
pub mod http;
pub mod ws;
pub mod proto;
pub mod log;
pub mod apps;
pub mod state;
pub mod server;
pub mod logon;
pub mod jobs;
pub mod spawn;
pub mod host;
