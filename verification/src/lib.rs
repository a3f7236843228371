//! Verified core of a small collection of network tools: an Icecast MP3
//! source client, a Google Drive file lister, and a minimal TCP server.

pub mod server;
pub mod text;
pub mod config;
pub mod clock;
pub mod playlist;
pub mod base64;
pub mod icecast;
pub mod tracks;
pub mod drive;
pub mod session;
pub mod port_tester;

pub use server::Server;
