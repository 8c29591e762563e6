//! Value units and kinds, and the `currentColor` keyword.
use vstd::prelude::*;

use crate::text::{ascii_lower, chars_of, eq_lit, trim, trim_chars};

verus! {

/// Units of a CSS length, angle, time or resolution.
#[derive(Debug, Clone, Copy, PartialEq)]
pub enum CSSUnit {
    Px,
    Em,
    Rem,
    Vw,
    Vh,
    Vmin,
    Vmax,
    Percent,
    Deg,
    Rad,
    Grad,
    Turn,
    S,
    Ms,
    Dpi,
    Dpcm,
    /// A plain number.
    Unitless,
}

/// Kinds of gradient.
#[derive(Debug, Clone, PartialEq)]
pub enum GradientType {
    Linear,
    Radial,
    Conic,
}

/// The vertical side a gradient points to.
#[derive(Debug, Clone, Copy, PartialEq)]
pub enum TopOrBottom {
    Top,
    Bottom,
}

/// The horizontal side a gradient points to.
#[derive(Debug, Clone, Copy, PartialEq)]
pub enum LeftOrRight {
    Left,
    Right,
}

/// Where `steps()` jumps.
#[derive(Debug, Clone, Copy, PartialEq)]
pub enum StepDirection {
    Start,
    End,
}

/// Whether a value is the keyword `currentColor`, in any ASCII case and
/// with surrounding white space.
pub fn is_current_color(value: &str) -> (r: bool)
    ensures
        r == (trim(value@).map_values(|c: char| ascii_lower(c)) == "currentcolor"@),
{
    let raw = chars_of(value);
    let t = trim_chars(&raw);
    let mut low: Vec<char> = Vec::new();
    let mut i: usize = 0;
    while i < t.len()
        invariant
            i <= t@.len(),
            low@ == t@.take(i as int).map_values(|c: char| ascii_lower(c)),
        decreases t.len() - i,
    {
        let c = t[i];
        let l = if 'A' <= c && c <= 'Z' {
            let x: u32 = (c as u32) + 32;
            proof {
                assert((x as u8) as u32 == x) by (bit_vector)
                    requires
                        x < 256,
                ;
            }
            (x as u8) as char
        } else {
            c
        };
        low.push(l);
        proof {
            assert(t@.take(i + 1) =~= t@.take(i as int).push(c));
            assert(low@ =~= t@.take(i + 1).map_values(|c: char| ascii_lower(c)));
        }
        i += 1;
    }
    assert(t@.take(t@.len() as int) =~= t@);
    eq_lit(&low, "currentcolor")
}

} // verus!
