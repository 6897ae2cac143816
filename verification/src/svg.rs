//! Text helpers of the SVG graph export: XML escaping and label clipping.
use vstd::prelude::*;
use crate::text::{expand, spec_clip, xml_entity, xml_escape};

verus! {

/// XML-escape a string for attribute values and text nodes (`&`, `<`, `>`,
/// `"`, `'`).
pub fn esc(s: &str) -> (r: String)
    ensures
        r@ == expand(s@, |c: char| xml_entity(c, true)),
{
    xml_escape(s, true)
}

/// Truncate to `max` characters with an ellipsis, matching the canvas clip.
pub fn clip(s: &str, max: usize) -> (r: String)
    ensures
        r@ == spec_clip(s@, max as nat),
{
    crate::text::clip(s, max)
}

} // verus!
