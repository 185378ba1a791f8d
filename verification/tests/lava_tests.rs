use awl::lava::{dither_for_blur, frost_on, lava_paused, lava_should_tick, FROST_RAIL_DEFAULT};

#[test]
fn lava_ticks_only_when_active_ambient_on_not_reduced_and_focused() {
    assert!(lava_should_tick(true, true, false, true, false), "all conditions met → tick");
    assert!(!lava_should_tick(false, true, false, true, false), "non-lava world never ticks");
    assert!(!lava_should_tick(true, false, false, true, false), "ambient_motion off → no tick");
    assert!(!lava_should_tick(true, true, true, true, false), "reduce motion → no tick");
    assert!(!lava_should_tick(true, true, false, false, false), "blurred → paused, no tick");
    assert!(!lava_should_tick(true, true, false, true, true), "resize, move, or blur pause holds phase");
}

#[test]
fn any_transient_live_interaction_pauses_the_lamp() {
    assert!(!lava_paused(false, false, false), "truly idle: the lamp may drift");
    assert!(lava_paused(true, false, false), "a live RESIZE stream holds it");
    assert!(lava_paused(false, true, false), "a live MOVE stream holds it");
    assert!(lava_paused(false, false, true), "a blur-eligible overlay (frost) holds it");
    assert!(lava_paused(true, true, false));
}

#[test]
fn blur_capture_relaxes_only_the_lava_posterization_invariant() {
    assert!(dither_for_blur(true, false), "live Mangrove stays dithered");
    assert!(!dither_for_blur(true, true), "frost source is smooth");
    assert!(!dither_for_blur(false, false), "Firetail stays smooth");
    assert!(!dither_for_blur(false, true), "blur never invents dither");
}

#[test]
fn frost_is_the_shipped_default() {
    assert!(FROST_RAIL_DEFAULT, "the user's pick — frost ships");
    assert!(frost_on(None), "frost is on by default (no gallery knob)");
}

#[test]
fn frost_knob_off_turns_frost_off_in_any_case() {
    assert!(!frost_on(Some("off")));
    assert!(!frost_on(Some("  OFF \n")));
    assert!(frost_on(Some("on")));
    assert!(frost_on(Some("")));
}
