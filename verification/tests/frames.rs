use mapped_input::events::{handle, input_handling, Event};
use mapped_input::inputmap::{clamp_add, MappedInput};
use mapped_input::keymap::{from_key, Action, AnyKey, AsAnyKey};
use mapped_input::switch::{dedup, holds, same_set, MouseButton, Switch};

const A: Switch = Switch::Key(30);
const SHIFT: Switch = Switch::Key(42);
const RIGHT: Switch = Switch::Mouse(MouseButton::Right);

fn action(ordinal: u16) -> AnyKey {
    AnyKey::new(3, ordinal)
}

#[derive(Clone, Copy)]
enum Pan {
    Left,
    Right,
}

impl Action for Pan {
    fn to_id(&self) -> AnyKey {
        match self {
            Pan::Left => AnyKey::new(11, 0),
            Pan::Right => AnyKey::new(11, 1),
        }
    }
}

#[test]
fn update_clears_marks_and_keeps_active() {
    let jump = action(0);
    let crouch = action(1);
    let mut inputs = MappedInput::new();
    inputs.bind(&[A], jump, "Jump").unwrap();
    inputs.bind(&[SHIFT], crouch, "Crouch").unwrap();
    inputs.press(A);
    inputs.press(SHIFT);
    inputs.release(SHIFT);
    assert!(inputs.just_activated(jump));
    assert!(inputs.just_activated(crouch));
    assert!(inputs.just_deactivated(crouch));

    inputs.update();
    assert!(!inputs.just_activated(jump));
    assert!(!inputs.just_activated(crouch));
    assert!(!inputs.just_deactivated(crouch));
    assert!(inputs.active(jump));
    assert!(!inputs.active(crouch));

    inputs.update();
    assert!(inputs.active(jump));
}

#[test]
fn update_ends_what_hangs_on_motion() {
    let look = action(2);
    let mut inputs = MappedInput::new();
    inputs.bind(&[Switch::MouseMotion], look, "Look").unwrap();
    inputs.move_mouse(1, -1);
    assert!(inputs.active(look));
    assert_eq!(inputs.motion(look), Some((1, -1)));
    inputs.update();
    assert!(!inputs.active(look));
    assert!(inputs.just_deactivated(look));
    assert!(!inputs.just_activated(look));
    inputs.update();
    assert!(!inputs.just_deactivated(look));
}

#[test]
fn motion_adds_up_within_a_frame() {
    let orbit = action(3);
    let mut inputs = MappedInput::new();
    inputs.bind(&[RIGHT, Switch::MouseMotion], orbit, "Orbit").unwrap();
    inputs.update();
    inputs.press(RIGHT);
    inputs.move_mouse(3, 4);
    inputs.move_mouse(-1, 10);
    assert_eq!(inputs.motion(orbit), Some((2, 14)));
    inputs.update();
    inputs.move_mouse(5, 6);
    assert_eq!(inputs.motion(orbit), Some((5, 6)));
}

#[test]
fn motion_without_the_button_is_not_handed_out() {
    let orbit = action(3);
    let mut inputs = MappedInput::new();
    inputs.bind(&[RIGHT, Switch::MouseMotion], orbit, "Orbit").unwrap();
    inputs.move_mouse(3, 4);
    assert_eq!(inputs.motion(orbit), None);
    assert!(!inputs.active(orbit));
}

#[test]
fn motion_of_nothing_is_no_motion() {
    let look = action(2);
    let mut inputs = MappedInput::new();
    inputs.bind(&[Switch::MouseMotion], look, "Look").unwrap();
    inputs.move_mouse(0, 0);
    assert!(!inputs.active(look));
    inputs.scroll_mouse(0);
    assert!(!inputs.active(look));
    inputs.move_mouse(0, 1);
    assert!(inputs.active(look));
}

#[test]
fn motion_is_held_at_the_bounds() {
    let look = action(2);
    let mut inputs = MappedInput::new();
    inputs.bind(&[Switch::MouseMotion], look, "Look").unwrap();
    inputs.move_mouse(i64::MAX, i64::MIN);
    inputs.move_mouse(1, -1);
    assert_eq!(inputs.motion(look), Some((i64::MAX, i64::MIN)));
    inputs.move_mouse(-2, 3);
    assert_eq!(inputs.motion(look), Some((i64::MAX - 2, i64::MIN + 3)));
}

#[test]
fn clamp_add_values() {
    assert_eq!(clamp_add(3, 4), 7);
    assert_eq!(clamp_add(-3, 1), -2);
    assert_eq!(clamp_add(i64::MAX, 1), i64::MAX);
    assert_eq!(clamp_add(i64::MAX - 1, 1), i64::MAX);
    assert_eq!(clamp_add(i64::MIN, -1), i64::MIN);
    assert_eq!(clamp_add(i64::MIN, i64::MAX), -1);
    assert_eq!(clamp_add(i64::MAX, i64::MAX), i64::MAX);
    assert_eq!(clamp_add(i64::MIN, i64::MIN), i64::MIN);
}

#[test]
fn scroll_is_gated_and_adds_up() {
    let zoom = action(4);
    let other = action(5);
    let mut inputs = MappedInput::new();
    inputs.bind(&[Switch::MouseScroll], zoom, "Zoom").unwrap();
    assert_eq!(inputs.scroll(zoom), None);
    inputs.scroll_mouse(2);
    inputs.scroll_mouse(-5);
    assert_eq!(inputs.scroll(zoom), Some(-3));
    assert_eq!(inputs.scroll(other), None);
    assert!(inputs.just_activated(zoom));
    inputs.update();
    assert_eq!(inputs.scroll(zoom), None);
    assert!(inputs.just_deactivated(zoom));
    inputs.scroll_mouse(1);
    assert_eq!(inputs.scroll(zoom), Some(1));
}

#[test]
fn queries_of_unknown_actions_give_the_default() {
    let inputs = MappedInput::new();
    let nobody = action(99);
    assert!(!inputs.active(nobody));
    assert!(!inputs.just_activated(nobody));
    assert!(!inputs.just_deactivated(nobody));
    assert_eq!(inputs.motion(nobody), None);
    assert_eq!(inputs.scroll(nobody), None);
    assert_eq!(inputs.label(nobody), None);
    assert_eq!(inputs.node_count(), 0);
}

#[test]
fn registry_files_labels_by_identifier() {
    let mut inputs = MappedInput::new();
    inputs.bind(&[A], action(0), "Jump").unwrap();
    inputs.bind(&[SHIFT], AnyKey::new(4, 0), "Crouch").unwrap();
    assert_eq!(inputs.label(action(0)), Some(&"Jump".to_string()));
    assert_eq!(inputs.label(AnyKey::new(4, 0)), Some(&"Crouch".to_string()));
    assert_eq!(inputs.label(action(1)), None);
    // the label bound last stays
    inputs.bind(&[SHIFT, A], action(0), "Leap").unwrap();
    assert_eq!(inputs.label(action(0)), Some(&"Leap".to_string()));
}

#[test]
fn same_ordinal_of_two_enumerations() {
    let first = AnyKey::new(1, 0);
    let second = AnyKey::new(2, 0);
    let mut inputs = MappedInput::new();
    inputs.bind(&[A], first, "First").unwrap();
    inputs.bind(&[SHIFT], second, "Second").unwrap();
    inputs.press(A);
    assert!(inputs.active(first));
    assert!(!inputs.active(second));
}

#[test]
fn identifiers_and_codes() {
    let id = AnyKey::new(3, 7);
    assert_eq!(id.kind, 3);
    assert_eq!(id.ordinal, 7);
    assert_eq!(id.to_code(), 3 * 65536 + 7);
    assert_eq!(AnyKey::new(0, 0).to_code(), 0);
    assert_eq!(AnyKey::new(u32::MAX, u16::MAX).to_code(), (1u64 << 48) - 1);
    assert_ne!(AnyKey::new(1, 0).to_code(), AnyKey::new(0, 1).to_code());
    assert_eq!(id.key(), id);
    assert_eq!(id.to_id(), id);
    assert!(AnyKey::new(1, 9) < AnyKey::new(2, 0));
    assert!(AnyKey::new(1, 1) < AnyKey::new(1, 2));
}

#[test]
fn from_key_checks_the_enumeration() {
    let id = AnyKey::new(3, 7);
    assert_eq!(from_key(&id, 3), Some(7));
    assert_eq!(from_key(&id, 4), None);
}

#[test]
fn user_enumeration_as_action() {
    let mut inputs = MappedInput::new();
    inputs.bind(&[A], Pan::Left.to_id(), "Left").unwrap();
    inputs.bind(&[SHIFT], Pan::Right.to_id(), "Right").unwrap();
    inputs.press(SHIFT);
    assert!(inputs.active(Pan::Right.to_id()));
    assert!(!inputs.active(Pan::Left.to_id()));
}

#[test]
fn switch_lists() {
    assert!(holds(&[A, SHIFT], SHIFT));
    assert!(!holds(&[A, SHIFT], RIGHT));
    assert!(!holds(&[], A));
    assert!(same_set(&[A, SHIFT], &[SHIFT, A, A]));
    assert!(!same_set(&[A, SHIFT], &[SHIFT]));
    assert!(!same_set(&[A], &[A, SHIFT]));
    assert!(same_set(&[], &[]));
    assert_eq!(dedup(&[A, SHIFT, A, RIGHT, SHIFT]), vec![A, SHIFT, RIGHT]);
    assert_eq!(dedup(&[]), vec![]);
    assert_eq!(Switch::from(MouseButton::Middle), Switch::Mouse(MouseButton::Middle));
    assert_ne!(Switch::Mouse(MouseButton::Other(1)), Switch::Mouse(MouseButton::Other(2)));
}

#[test]
fn every_mouse_button_is_its_own_switch() {
    let buttons = [
        MouseButton::Left,
        MouseButton::Right,
        MouseButton::Middle,
        MouseButton::Back,
        MouseButton::Forward,
        MouseButton::Other(0),
        MouseButton::Other(7),
    ];
    let mut inputs = MappedInput::new();
    for (ordinal, button) in buttons.iter().enumerate() {
        inputs.bind(&[Switch::Mouse(*button)], action(ordinal as u16), "Button").unwrap();
    }
    for (ordinal, button) in buttons.iter().enumerate() {
        inputs.press(Switch::Mouse(*button));
        for other in 0..buttons.len() {
            assert_eq!(inputs.active(action(other as u16)), other <= ordinal);
        }
    }
}

#[test]
fn a_frame_of_events() {
    let jump = action(0);
    let orbit = action(3);
    let zoom = action(4);
    let mut inputs = MappedInput::new();
    inputs.bind(&[A], jump, "Jump").unwrap();
    inputs.bind(&[RIGHT, Switch::MouseMotion], orbit, "Orbit").unwrap();
    inputs.bind(&[Switch::MouseScroll], zoom, "Zoom").unwrap();

    input_handling(
        &mut inputs,
        &[
            Event::KeyDown(30),
            Event::MouseDown(MouseButton::Right),
            Event::MouseMoved(3, 4),
            Event::MouseMoved(1, 1),
            Event::MouseScrolled(-2),
        ],
    );
    assert!(inputs.just_activated(jump));
    assert_eq!(inputs.motion(orbit), Some((4, 5)));
    assert_eq!(inputs.scroll(zoom), Some(-2));

    input_handling(&mut inputs, &[Event::KeyUp(30)]);
    assert!(inputs.just_deactivated(jump));
    assert!(!inputs.active(jump));
    assert_eq!(inputs.motion(orbit), None);
    assert!(inputs.just_deactivated(orbit));
    assert_eq!(inputs.scroll(zoom), None);

    input_handling(&mut inputs, &[]);
    assert!(!inputs.just_deactivated(jump));
    assert!(!inputs.just_deactivated(orbit));
}

#[test]
fn events_are_taken_in_their_order() {
    let jump = action(0);
    let mut inputs = MappedInput::new();
    inputs.bind(&[A], jump, "Jump").unwrap();
    input_handling(&mut inputs, &[Event::KeyDown(30), Event::KeyUp(30)]);
    assert!(!inputs.active(jump));
    assert!(inputs.just_activated(jump));
    assert!(inputs.just_deactivated(jump));
    input_handling(&mut inputs, &[Event::KeyUp(30), Event::KeyDown(30)]);
    assert!(inputs.active(jump));
    assert!(inputs.just_activated(jump));
    assert!(!inputs.just_deactivated(jump));
}

#[test]
fn one_event_at_a_time() {
    let fire = action(6);
    let mut inputs = MappedInput::new();
    inputs.bind(&[Switch::Mouse(MouseButton::Left)], fire, "Fire").unwrap();
    handle(&mut inputs, Event::MouseDown(MouseButton::Left));
    assert!(inputs.active(fire));
    handle(&mut inputs, Event::MouseUp(MouseButton::Middle));
    assert!(inputs.active(fire));
    handle(&mut inputs, Event::MouseUp(MouseButton::Left));
    assert!(!inputs.active(fire));
}
