use mapped_input::inputmap::{BindError, MappedInput};
use mapped_input::keymap::AnyKey;
use mapped_input::switch::{MouseButton, Switch};

const A: Switch = Switch::Key(30);
const SHIFT: Switch = Switch::Key(42);

fn action(ordinal: u16) -> AnyKey {
    AnyKey::new(1, ordinal)
}

#[test]
fn single_switch_round_trip() {
    let jump = action(0);
    let mut inputs = MappedInput::new();
    assert_eq!(inputs.bind(&[A], jump, "Jump"), Ok(()));
    assert!(!inputs.active(jump));

    inputs.update();
    inputs.press(A);
    assert!(inputs.active(jump));
    assert!(inputs.just_activated(jump));
    assert!(!inputs.just_deactivated(jump));

    inputs.update();
    assert!(inputs.active(jump));
    assert!(!inputs.just_activated(jump));

    inputs.release(A);
    assert!(!inputs.active(jump));
    assert!(inputs.just_deactivated(jump));
    assert!(!inputs.just_activated(jump));

    inputs.update();
    assert!(!inputs.active(jump));
    assert!(!inputs.just_deactivated(jump));
}

#[test]
fn empty_chord_is_refused() {
    let mut inputs = MappedInput::new();
    assert_eq!(inputs.bind(&[], action(0), "Nothing"), Err(BindError::EmptyChord));
    assert_eq!(inputs.label(action(0)), None);
}

#[test]
fn chord_takes_precedence_over_single_switch() {
    let single = action(0);
    let combo = action(1);
    let mut inputs = MappedInput::new();
    inputs.bind(&[A], single, "Single").unwrap();
    inputs.bind(&[SHIFT, A], combo, "Combo").unwrap();

    inputs.press(SHIFT);
    inputs.press(A);
    assert!(inputs.active(combo));
    assert!(inputs.just_activated(combo));
    assert!(!inputs.active(single));

    // The action edge of the chord leaves the node of `A`, its last switch. Letting go of
    // the modifier moves the counters and ends no action: the chord's action stays until
    // its last switch goes up, and the shorter binding is not looked at again.
    inputs.release(SHIFT);
    assert!(inputs.active(combo));
    assert!(!inputs.just_deactivated(combo));
    assert!(!inputs.active(single));

    inputs.release(A);
    assert!(!inputs.active(combo));
    assert!(inputs.just_deactivated(combo));
    assert!(!inputs.active(single));
    assert!(!inputs.just_deactivated(single));
}

#[test]
fn motion_is_gated_by_the_chord() {
    let orbit = action(7);
    let right = Switch::Mouse(MouseButton::Right);
    let mut inputs = MappedInput::new();
    inputs.bind(&[right, Switch::MouseMotion], orbit, "Orbit").unwrap();

    inputs.update();
    inputs.press(right);
    assert_eq!(inputs.motion(orbit), None);
    inputs.move_mouse(3, 4);
    assert_eq!(inputs.motion(orbit), Some((3, 4)));
    assert!(inputs.just_activated(orbit));

    inputs.update();
    assert_eq!(inputs.motion(orbit), None);
    assert!(!inputs.active(orbit));
    assert!(inputs.just_deactivated(orbit));
}
