//! A verified core for a small remote file manager: lexical virtual-path
//! resolution with traversal protection, storage primitives over a modelled
//! directory tree, and the compound operations built from those primitives.
pub mod finder;
pub mod laws;
pub mod local;
pub mod memory;
pub mod mime;
pub mod model;
pub mod payload;
pub mod resolve;
pub mod storage;
pub mod strutil;
pub mod ziputil;
