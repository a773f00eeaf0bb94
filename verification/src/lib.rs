//! A small music-notation toolkit: a text score format, its parser, the
//! timing rules used to render it, and the conversion from a MusicXML-like
//! document tree into the text format.

pub mod duration;
pub mod types;
pub mod numtext;
pub mod parse;
pub mod fmt;
pub mod mix;
pub mod compile;

pub use compile::compile;
pub use parse::parse;
