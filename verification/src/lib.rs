//! A streaming SVG rewriter: it walks a document event by event, tracks the
//! chain of open elements, finds one element by a `name#id` selector, rescales
//! its `width` attribute and recolors its `style` fill when the charge is low,
//! and hands every event back — modified or untouched — in document order.
//!
//! Numeric policy: attribute widths are unsigned decimal literals held as
//! fixed-point micro-units (six fractional digits), and the charge fraction is
//! given in per-mille (`0..=1000`), so all arithmetic is exact and the output
//! is reproducible.

pub mod attrs;
pub mod engine;
pub mod matcher;
pub mod num;
pub mod style;
pub mod tag;
pub mod text;
pub mod transform;
