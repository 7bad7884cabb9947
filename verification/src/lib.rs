//! A library for rendering song sheets written in an inline chord markup:
//! chords stand in brackets inside the lyric line, directives in braces.
//! Parsing produces a `Song` of styled line pairs with each chord aligned
//! above its syllable, optionally transposed to a target key; the layout
//! engine packs those lines into fixed-height display columns.

pub mod aligner;
pub mod layout;
pub mod line;
pub mod pitch;
pub mod playlist;
pub mod song;
pub mod style;
pub mod textops;
pub mod token;
