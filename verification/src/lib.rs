//! Rendering of highlighted source code into styled SVG markup, plus a
//! translator from editor color-scheme documents to stylesheet text.
//!
//! The span renderer ([`svg_renderer`]) consumes an ordered stream of
//! highlight events over a source text and emits markup with correctly
//! nested region tags, per-line text containers, a line-number gutter, and
//! computed canvas dimensions.  The theme translator ([`sublime_colors`] and
//! [`custom_colors`]) parses a color-scheme document — through the small
//! JSON reader in [`json`] — and serializes it to stylesheet rule text keyed
//! by the same category names the renderer uses as class attributes.

pub mod custom_colors;
pub mod digits;
pub mod escape;
pub mod json;
pub mod query;
pub mod scan;
pub mod stylesheet;
pub mod sublime_colors;
pub mod svg_renderer;
