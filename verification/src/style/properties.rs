//! Keyword-valued properties: each reader gives the keyword that a
//! property's value names.
use vstd::prelude::*;

use crate::text::{chars_of, eq_lit, owned, string_of, trim, trim_chars};

verus! {

/// The keyword of a value written as text: the text without the white
/// space around it.
pub open spec fn keyword_of(value: Seq<char>) -> Seq<char> {
    trim(value)
}

fn trimmed(value: &str) -> (r: String)
    ensures
        r@ == keyword_of(value@),
{
    let v = chars_of(value);
    string_of(&trim_chars(&v))
}

/// `contain`: the containment keywords as written.
pub fn parse_contain(value: &str) -> (r: String)
    ensures
        r@ == keyword_of(value@),
{
    trimmed(value)
}

/// `content-visibility`: `visible`, `auto`, `hidden`, or another keyword kept as written.
pub fn parse_content_visibility(value: &str) -> (r: String)
    ensures
        r@ == keyword_of(value@),
{
    trimmed(value)
}

/// `font-variant`: the keyword as written.
pub fn parse_font_variant(value: &str) -> (r: String)
    ensures
        r@ == keyword_of(value@),
{
    trimmed(value)
}

/// `font-stretch`: `normal`, `condensed`, `expanded` and the like, as written.
pub fn parse_font_stretch(value: &str) -> (r: String)
    ensures
        r@ == keyword_of(value@),
{
    trimmed(value)
}

/// `word-break`: `normal`, `break-all`, `keep-all`, `break-word`, or another keyword kept as written.
pub fn parse_word_break(value: &str) -> (r: String)
    ensures
        r@ == keyword_of(value@),
{
    trimmed(value)
}

/// `overflow-wrap`: `normal`, `anywhere`, `break-word`, or another keyword kept as written.
pub fn parse_overflow_wrap(value: &str) -> (r: String)
    ensures
        r@ == keyword_of(value@),
{
    trimmed(value)
}

/// `perspective-origin`: the position as written.
pub fn parse_perspective_origin(value: &str) -> (r: String)
    ensures
        r@ == keyword_of(value@),
{
    trimmed(value)
}

/// `touch-action`: `auto`, `none`, `pan-x`, `pan-y`, `pinch-zoom`, `manipulation`, or another keyword kept as written.
pub fn parse_touch_action(value: &str) -> (r: String)
    ensures
        r@ == keyword_of(value@),
{
    trimmed(value)
}

/// `will-change`: `auto` or the properties named, as written.
pub fn parse_will_change(value: &str) -> (r: String)
    ensures
        r@ == keyword_of(value@),
{
    trimmed(value)
}

/// `transform-style`: `preserve-3d`, and `flat` for anything else.
pub fn parse_transform_style(value: &str) -> (r: String)
    ensures
        r@ == if keyword_of(value@) == "preserve-3d"@ {
            "preserve-3d"@
        } else {
            "flat"@
        },
{
    let t = trim_chars(&chars_of(value));
    if eq_lit(&t, "preserve-3d") {
        owned("preserve-3d")
    } else {
        owned("flat")
    }
}

/// `backface-visibility`: `hidden`, and `visible` for anything else.
pub fn parse_backface_visibility(value: &str) -> (r: String)
    ensures
        r@ == if keyword_of(value@) == "hidden"@ {
            "hidden"@
        } else {
            "visible"@
        },
{
    let t = trim_chars(&chars_of(value));
    if eq_lit(&t, "hidden") {
        owned("hidden")
    } else {
        owned("visible")
    }
}

} // verus!
