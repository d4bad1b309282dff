//! Text utilities of a terminal multiplexer: argument quoting and
//! command-line splitting, Base64, window listings, prompt-title inference,
//! colour naming and plugin-path expansion.

pub mod text;
pub mod base64;
pub mod quoting;
pub mod render;
pub mod shell_path;
pub mod title;
pub mod vt;
pub mod windows;
