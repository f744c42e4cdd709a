//! Verified core of a manager for macOS Internet Sharing clients.
pub mod app;
pub mod assoc;
pub mod net;
pub mod pf;
pub mod text;
pub mod ui;
pub mod ipv4;
