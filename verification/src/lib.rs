//! Scripted terminal recordings: reading scripts, performing them, and keeping what the terminal
//! showed as an asciicast; and writing scripts from live sessions.

pub mod actions;
pub mod capture;
pub mod cast;
pub mod castfile;
pub mod decimal;
pub mod decoder;
pub mod emit;
pub mod escapes;
pub mod filters;
pub mod json;
pub mod keys;
pub mod messages;
pub mod pace;
pub mod perform;
pub mod pty;
pub mod queries;
pub mod recording;
pub mod script;
pub mod terminal;
pub mod text;
pub mod utf8;
pub mod util;
pub mod yaml;
