use jiggler::jiggle::monitor::{on_press, Indicator};
use jiggler::jiggle::state::State;

#[test]
fn starts_enabled() {
    let state = State::new();
    assert!(state.is_enabled());
}

#[test]
fn toggle_hands_back_the_new_value() {
    let mut state = State::new();
    assert!(!state.toggle());
    assert!(!state.is_enabled());
    assert!(state.toggle());
    assert!(state.is_enabled());
}

#[test]
fn double_toggle_restores_the_flag() {
    let mut state = State::new();
    state.toggle();
    let before: bool = state.is_enabled();
    state.toggle();
    state.toggle();
    assert_eq!(state.is_enabled(), before);
    assert!(!before);
}

#[test]
fn reading_does_not_change_the_flag() {
    let state = State::new();
    assert!(state.is_enabled());
    assert!(state.is_enabled());
}

#[test]
fn indicator_follows_the_flag() {
    assert_eq!(Indicator::of(true), Indicator::Lit);
    assert_eq!(Indicator::of(false), Indicator::Dark);
}

#[test]
fn press_flips_and_shows() {
    let mut state = State::new();
    assert_eq!(on_press(&mut state), Indicator::Dark);
    assert!(!state.is_enabled());
    assert_eq!(on_press(&mut state), Indicator::Lit);
    assert!(state.is_enabled());
}
