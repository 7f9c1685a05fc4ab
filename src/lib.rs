//! An in-memory employee directory driven by a small line-based command language, a line
//! search over text, and a few small companions: median and mode of integers, pig latin, and
//! greetings.
pub mod text;
pub mod search;
pub mod command;
pub mod directory;
pub mod stats;
pub mod basics;
pub mod pig_latin;
