//! Core of a wallpaper-cycling daemon controlled over a local socket.
//!
//! - [`packet`]: the line-oriented control packet and its codec.
//! - [`server`]: the session state, the cycling step, request dispatch and
//!   the command handlers.
//! - [`hyprpaper`]: the commands that apply a wallpaper, step by step.
//! - [`cli`]: the command-line commands and the requests they send.
//! - [`text`]: character-sequence search and slicing.
//!
//! Socket and file-system I/O, threads and running external commands are
//! left to the caller, which hands their results to these functions.
pub mod cli;
pub mod hyprpaper;
pub mod packet;
pub mod server;
pub mod text;
