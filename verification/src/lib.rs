//! A stenographic translation engine: chords come in as 32-bit stroke ids,
//! keyboard actions go out.

pub mod engine;
pub mod inject;
pub mod machine;
pub mod steno;
pub mod text;
