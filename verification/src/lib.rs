//! Loader for simple `key=value` configuration files.
//!
//! The library parses configuration text into an ordered list of
//! `(name, value)` pairs: lines whose first character is `#` and blank
//! lines are skipped, each remaining line is split at its first `=`, and
//! surrounding double quotes are stripped from the value.  Reading the
//! file from disk, and creating it with a default payload when it is
//! absent, is left to the caller; `default_file_contents` builds the
//! exact payload such a caller should write.

pub mod options;
pub mod text;

pub use options::ConfigError;
pub use options::default_file_contents;
pub use options::parse_options;
pub use text::split_lines;
pub use text::strip_quotes;
