//! Clickable hyperlinks for plain command output: the detection and
//! rendering core of a pipe filter that wraps file paths, URLs and issue
//! references in OSC 8 terminal hyperlinks.
pub mod text;
pub mod osc8;
pub mod uri;
pub mod scan;
pub mod urls;
pub mod issues;
pub mod paths;
pub mod ansi;
pub mod giturl;
pub mod cli;
