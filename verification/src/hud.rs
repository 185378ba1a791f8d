//! The held stats HUD: whether it is summoned, and the pure formatting of the
//! odometer figures it shows (a grouped count, a compact writing time).

use vstd::prelude::*;
use crate::text::{decimal, push_decimal, push_zero_padded, zero_padded};

verus! {

/// The fixed, numberless reading an odometer row shows when no live figures
/// are at hand.
pub const PLACEHOLDER: &'static str = "—";

/// Whether the held stats HUD is drawn. Off until the key is held.
pub struct HudFlag {
    pub held: bool,
}

impl HudFlag {
    /// Released: nothing is drawn.
    pub fn new() -> (f: Self)
        ensures
            !f.held,
    {
        HudFlag { held: false }
    }
}

/// True while the held stats HUD is summoned.
pub fn hud_held(flag: &HudFlag) -> (r: bool)
    ensures
        r == flag.held,
{
    flag.held
}

/// Hold (`true`) or release (`false`) the HUD.
pub fn set_held(flag: &mut HudFlag, held: bool)
    ensures
        final(flag).held == held,
{
    flag.held = held;
}

/// `n` written in decimal with a comma before every group of three digits
/// counted from the right: 1234567 reads "1,234,567".
pub open spec fn grouped_of(n: nat) -> Seq<char>
    decreases n,
{
    if n < 1000 {
        decimal(n)
    } else {
        grouped_of(n / 1000) + seq![','] + zero_padded(n % 1000, 3)
    }
}

fn push_grouped(out: &mut String, n: u64)
    ensures
        final(out)@ == old(out)@ + grouped_of(n as nat),
    decreases n,
{
    if n < 1000 {
        push_decimal(out, n);
    } else {
        let ghost before = out@;
        push_grouped(out, n / 1000);
        out.push(',');
        push_zero_padded(out, n % 1000, 3);
        assert(out@ =~= before + grouped_of(n as nat));
    }
}

/// Group a count with thousands separators: `1234567` reads `"1,234,567"`.
pub fn group_thousands(n: u64) -> (r: String)
    ensures
        r@ == grouped_of(n as nat),
{
    let mut out = String::new();
    push_grouped(&mut out, n);
    assert(out@ =~= grouped_of(n as nat));
    out
}

/// The writing-time readout for `ms` millis: whole seconds under a minute
/// ("45s"), whole minutes under an hour ("12m"), else hours and two-digit
/// minutes ("47h 12m"), with no bound on the hours.
pub open spec fn writing_time_of(ms: u64) -> Seq<char> {
    let secs = ms / 1000;
    if secs < 60 {
        decimal(secs as nat) + seq!['s']
    } else if secs < 3600 {
        decimal((secs / 60) as nat) + seq!['m']
    } else {
        decimal((secs / 3600) as nat) + seq!['h', ' '] + zero_padded(((secs % 3600) / 60) as nat, 2)
            + seq!['m']
    }
}

/// The TIME WRITING readout: active-writing millis as `"45s"`, `"12m"` or
/// `"47h 12m"`.
pub fn writing_time_readout(ms: u64) -> (r: String)
    ensures
        r@ == writing_time_of(ms),
{
    let secs = ms / 1000;
    let mut out = String::new();
    if secs < 60 {
        push_decimal(&mut out, secs);
        out.push('s');
    } else if secs < 3600 {
        push_decimal(&mut out, secs / 60);
        out.push('m');
    } else {
        push_decimal(&mut out, secs / 3600);
        out.push('h');
        out.push(' ');
        push_zero_padded(&mut out, (secs % 3600) / 60, 2);
        out.push('m');
    }
    assert(out@ =~= writing_time_of(ms));
    out
}

} // verus!
