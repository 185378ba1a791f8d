use awl::hud::{group_thousands, hud_held, set_held, writing_time_readout, HudFlag, PLACEHOLDER};
use awl::lifetime::{lifetime_open, set_open, LifetimeFlag};

#[test]
fn defaults_released() {
    let mut flag = HudFlag::new();
    set_held(&mut flag, false);
    assert!(!hud_held(&flag), "the stats HUD is released (off) by default");
    assert!(!hud_held(&HudFlag::new()));
}

#[test]
fn set_held_drives_the_flag() {
    let mut flag = HudFlag::new();
    set_held(&mut flag, false);
    set_held(&mut flag, true);
    assert!(hud_held(&flag));
    set_held(&mut flag, false);
    assert!(!hud_held(&flag));
}

#[test]
fn group_thousands_inserts_separators() {
    assert_eq!(group_thousands(0), "0");
    assert_eq!(group_thousands(42), "42");
    assert_eq!(group_thousands(1_000), "1,000");
    assert_eq!(group_thousands(1_234_567), "1,234,567");
    assert_eq!(group_thousands(1_000_005), "1,000,005");
    assert_eq!(group_thousands(u64::MAX), "18,446,744,073,709,551,615");
}

#[test]
fn writing_time_readout_matches_the_compact_shape() {
    assert_eq!(writing_time_readout(45_000), "45s");
    assert_eq!(writing_time_readout(12 * 60_000), "12m");
    assert_eq!(writing_time_readout((47 * 3600 + 12 * 60) * 1000), "47h 12m");
    assert_eq!(writing_time_readout((1 * 3600 + 4 * 60) * 1000), "1h 04m");
    assert_eq!(writing_time_readout(999), "0s");
}

#[test]
fn placeholder_is_the_em_dash() {
    assert_eq!(PLACEHOLDER, "\u{2014}");
}

#[test]
fn defaults_closed() {
    let mut card = LifetimeFlag::new();
    set_open(&mut card, false);
    assert!(!lifetime_open(&card), "the Lifetime stats card is closed by default");
}

#[test]
fn set_open_drives_the_flag() {
    let mut card = LifetimeFlag::new();
    set_open(&mut card, false);
    set_open(&mut card, true);
    assert!(lifetime_open(&card));
    set_open(&mut card, false);
    assert!(!lifetime_open(&card));
}
