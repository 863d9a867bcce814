use font_outline::input::{ButtonState, Keyboard};

#[test]
fn fresh_keyboard_knows_no_keys() {
    let kb = Keyboard::new();
    assert!(kb.get_key_state(17).is_none());
    assert!(!kb.is_key_pressed(17));
    assert!(kb.is_key_held(17, 100).is_none());
}

#[test]
fn key_down_presses_a_new_or_released_key() {
    let mut kb = Keyboard::new();
    kb.handle_key_event(30, true, 1000);
    assert!(kb.is_key_pressed(30));
    assert_eq!(kb.get_key_state(30), Some(ButtonState::Pressed(1000)));
    // the other keys stay unknown
    assert!(kb.get_key_state(31).is_none());
}

#[test]
fn repeated_key_down_keeps_the_first_press_time() {
    let mut kb = Keyboard::new();
    kb.handle_key_event(30, true, 1000);
    kb.handle_key_event(30, true, 2000);
    assert_eq!(kb.get_key_state(30), Some(ButtonState::Pressed(1000)));
}

#[test]
fn key_up_releases() {
    let mut kb = Keyboard::new();
    kb.handle_key_event(30, true, 1000);
    kb.handle_key_event(30, false, 1500);
    assert_eq!(kb.get_key_state(30), Some(ButtonState::Released));
    assert!(!kb.is_key_pressed(30));
    // a released key can be pressed again, at the new time
    kb.handle_key_event(30, true, 3000);
    assert_eq!(kb.get_key_state(30), Some(ButtonState::Pressed(3000)));
}

#[test]
fn clear_presses_turns_presses_into_holds() {
    let mut kb = Keyboard::new();
    kb.handle_key_event(30, true, 1000);
    kb.handle_key_event(31, true, 1200);
    kb.handle_key_event(31, false, 1300);
    kb.clear_presses();
    assert_eq!(kb.get_key_state(30), Some(ButtonState::Held(1000)));
    assert_eq!(kb.get_key_state(31), Some(ButtonState::Released));
    assert!(!kb.is_key_pressed(30));
}

#[test]
fn held_duration_counts_from_the_press_time() {
    let mut kb = Keyboard::new();
    kb.handle_key_event(30, true, 1000);
    // a pressed key is not yet held
    assert!(kb.is_key_held(30, 1400).is_none());
    kb.clear_presses();
    assert_eq!(kb.is_key_held(30, 1400), Some(400));
    // a clock that ran backwards clamps at zero
    assert_eq!(kb.is_key_held(30, 900), Some(0));
    kb.handle_key_event(30, false, 1500);
    assert!(kb.is_key_held(30, 1600).is_none());
}

#[test]
fn a_held_key_stays_held_on_key_down() {
    let mut kb = Keyboard::new();
    kb.handle_key_event(30, true, 1000);
    kb.clear_presses();
    kb.handle_key_event(30, true, 2000);
    assert_eq!(kb.get_key_state(30), Some(ButtonState::Held(1000)));
}
