//! The rules of a small web server: what a request asks for, in which order
//! waiting requests are served, what the responses say, and what the command line
//! asks for. Sockets, files and threads are left to the program around it.

pub mod args;
pub mod dynamic;
pub mod listener;
pub mod number;
pub mod pages;
pub mod path;
pub mod schedule;
pub mod server;
pub mod static_file;
pub mod text;
pub mod utf8;
