//! The lava lamp's cadence and treatment gates: when the ambient tick may
//! run, what holds it, when the posterizing dither applies, and whether the
//! frost pills are on.

use vstd::prelude::*;
use crate::text::{ascii_lower_seq, trim};

verus! {

/// Whether frost pills ship on: the shipped default.
pub const FROST_RAIL_DEFAULT: bool = true;

/// Whether the live app may arm its slow ambient lava tick this frame: only
/// when a lava world is active, ambient motion is on, motion is not
/// reduced, and the window is focused and not paused. A non-lava world never
/// ticks, so it schedules no extra frames.
pub fn lava_should_tick(active: bool, ambient_on: bool, reduced: bool, focused: bool, paused: bool) -> (r: bool)
    ensures
        r == (active && ambient_on && !reduced && focused && !paused),
{
    active && ambient_on && !reduced && focused && !paused
}

/// What holds the lamp: a live resize, a live move, or a blur-eligible
/// overlay, any of them.
pub fn lava_paused(resizing: bool, moving: bool, blurred: bool) -> (r: bool)
    ensures
        r == (resizing || moving || blurred),
{
    resizing || moving || blurred
}

/// The posterizing dither applies where the world asks for it, except in
/// the blur capture, whose source must stay smooth.
pub fn dither_for_blur(authored: bool, backdrop_blur: bool) -> (r: bool)
    ensures
        r == (authored && !backdrop_blur),
{
    authored && !backdrop_blur
}

/// The frost knob `v` turns frost off: it reads `off`, trimmed, in any
/// ASCII case.
pub open spec fn frost_knob_off(v: Seq<char>) -> bool {
    ascii_lower_seq(trim(v)) == seq!['o', 'f', 'f']
}

/// Whether per-entry frost is on this run: the shipped default, unless the
/// frost knob (the `AWL_LAVA_FROST` setting, when the environment has one)
/// reads `off`.
pub fn frost_on(knob: Option<&str>) -> (r: bool)
    ensures
        r == (FROST_RAIL_DEFAULT && !(knob matches Some(v) && frost_knob_off(v@))),
{
    let off = match knob {
        Some(v) => {
            let cs = crate::text::str_to_chars(v);
            let (a, b) = crate::text::trim_range(&cs, 0, cs.len());
            proof {
                assert(cs@.subrange(0, cs@.len() as int) =~= v@);
                reveal_strlit("off");
                assert("off"@ =~= seq!['o', 'f', 'f']);
                assert(ascii_lower_seq(seq!['o', 'f', 'f']) =~= seq!['o', 'f', 'f']);
            }
            crate::text::range_eq_ignore_case(&cs, a, b, "off")
        },
        None => false,
    };
    FROST_RAIL_DEFAULT && !off
}

} // verus!
