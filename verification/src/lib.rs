//! Discovery of the TCP ports that processes listen on, from the output of
//! `lsof` (or `netstat`), with the rules of the interactive views around it.
pub mod home;
pub mod lsof;
pub mod ports;
pub mod server;
pub mod text;
pub mod tui;
pub mod windows;
