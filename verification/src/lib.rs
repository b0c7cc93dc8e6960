//! A fuzzy picker for Nerd Font glyphs: the glyph model, query parsing and
//! ranking, the picker's state machine, the text shown on screen, and the
//! normalisation of the upstream glyph table into a snapshot.
pub mod app;
pub mod glyph;
pub mod matcher;
pub mod text;
pub mod ui;
pub mod upstream;
