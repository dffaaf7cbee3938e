use mapped_input::graph::{Edge, Node};
use mapped_input::inputmap::MappedInput;
use mapped_input::keymap::AnyKey;
use mapped_input::switch::Switch;

const A: Switch = Switch::Key(30);
const B: Switch = Switch::Key(48);
const SHIFT: Switch = Switch::Key(42);
const CTRL: Switch = Switch::Key(29);

fn action(ordinal: u16) -> AnyKey {
    AnyKey::new(2, ordinal)
}

fn three_switch_chord() -> (MappedInput, AnyKey) {
    let combo = action(0);
    let mut inputs = MappedInput::new();
    inputs.bind(&[SHIFT, CTRL, A], combo, "Combo").unwrap();
    (inputs, combo)
}

#[test]
fn press_twice_is_press_once() {
    let jump = action(1);
    let mut inputs = MappedInput::new();
    inputs.bind(&[A], jump, "Jump").unwrap();
    inputs.press(A);
    inputs.update();
    // a second report of the same press: nothing is activated again
    inputs.press(A);
    assert!(inputs.active(jump));
    assert!(!inputs.just_activated(jump));
    assert_eq!(inputs.node(0), Some(Node { active: 1, threshold: 1 }));
    // and one release is enough
    inputs.release(A);
    assert!(!inputs.active(jump));
    assert_eq!(inputs.node(0), Some(Node { active: 0, threshold: 1 }));
}

#[test]
fn release_twice_is_release_once() {
    let jump = action(1);
    let mut inputs = MappedInput::new();
    inputs.bind(&[A], jump, "Jump").unwrap();
    inputs.press(A);
    inputs.release(A);
    inputs.update();
    inputs.release(A);
    assert!(!inputs.active(jump));
    assert!(!inputs.just_deactivated(jump));
    assert_eq!(inputs.node(0), Some(Node { active: 0, threshold: 1 }));
    inputs.press(A);
    assert!(inputs.active(jump));
}

#[test]
fn double_press_of_a_modifier_counts_once() {
    let (mut inputs, combo) = three_switch_chord();
    inputs.press(SHIFT);
    inputs.press(SHIFT);
    // the layer still waits for the other modifier
    inputs.press(A);
    assert!(!inputs.active(combo));
    inputs.release(A);
    inputs.press(CTRL);
    inputs.press(A);
    assert!(inputs.active(combo));
}

#[test]
fn unknown_switch_is_ignored() {
    let jump = action(1);
    let mut inputs = MappedInput::new();
    inputs.bind(&[A], jump, "Jump").unwrap();
    let nodes = inputs.node_count();
    inputs.press(B);
    inputs.release(B);
    assert_eq!(inputs.node_count(), nodes);
    assert!(!inputs.active(jump));
    assert!(!inputs.just_activated(jump));
    assert!(!inputs.just_deactivated(jump));
}

#[test]
fn modifiers_in_either_order_then_the_last_switch() {
    for run in [[SHIFT, CTRL], [CTRL, SHIFT]] {
        let (mut inputs, combo) = three_switch_chord();
        inputs.press(run[0]);
        inputs.press(run[1]);
        assert!(!inputs.active(combo));
        inputs.press(A);
        assert!(inputs.active(combo));
        assert!(inputs.just_activated(combo));
    }
}

#[test]
fn last_switch_before_the_modifiers_sets_off_nothing() {
    // A press looks at the chords that end in the pressed switch. When the last switch of
    // the chord goes down before the chord is complete, the chord is not looked at again.
    for run in [[A, SHIFT, CTRL], [A, CTRL, SHIFT], [SHIFT, A, CTRL], [CTRL, A, SHIFT]] {
        let (mut inputs, combo) = three_switch_chord();
        for switch in run {
            inputs.press(switch);
        }
        assert!(!inputs.active(combo));
        // the counters do not depend on the order: the layer is complete
        assert_eq!(inputs.node(1), Some(Node { active: 2, threshold: 2 }));
    }
}

#[test]
fn layers_are_shared_by_switch_set() {
    let first = action(3);
    let second = action(4);
    let mut inputs = MappedInput::new();
    inputs.bind(&[SHIFT, CTRL, A], first, "First").unwrap();
    // nodes: A, the layer, Shift, Ctrl
    assert_eq!(inputs.node_count(), 4);
    inputs.bind(&[CTRL, SHIFT, B], second, "Second").unwrap();
    // one node more, for B: the layer of Ctrl and Shift is the one that is there
    assert_eq!(inputs.node_count(), 5);
    assert_eq!(inputs.node_key(1), Some(&vec![SHIFT, CTRL]));
    assert_eq!(inputs.edges_from(4), vec![(1, Edge::Action(second))]);

    inputs.press(CTRL);
    inputs.press(SHIFT);
    inputs.press(B);
    assert!(inputs.active(second));
    inputs.press(A);
    assert!(inputs.active(first));
}

#[test]
fn repeated_modifier_counts_once() {
    let combo = action(5);
    let mut inputs = MappedInput::new();
    inputs.bind(&[SHIFT, SHIFT, A], combo, "Combo").unwrap();
    // the layer of the one modifier is the node of the modifier
    assert_eq!(inputs.node_count(), 2);
    inputs.press(SHIFT);
    inputs.press(A);
    assert!(inputs.active(combo));
}

#[test]
fn graph_of_a_three_switch_chord() {
    let (inputs, combo) = three_switch_chord();
    assert_eq!(inputs.node_key(0), Some(&vec![A]));
    assert_eq!(inputs.node_key(1), Some(&vec![SHIFT, CTRL]));
    assert_eq!(inputs.node_key(2), Some(&vec![SHIFT]));
    assert_eq!(inputs.node_key(3), Some(&vec![CTRL]));
    assert_eq!(inputs.node_key(4), None);
    assert_eq!(inputs.node(0), Some(Node { active: 0, threshold: 1 }));
    assert_eq!(inputs.node(1), Some(Node { active: 0, threshold: 2 }));
    assert_eq!(inputs.node(4), None);
    assert_eq!(inputs.edges_from(0), vec![(1, Edge::Action(combo))]);
    assert_eq!(inputs.edges_from(1), vec![]);
    assert_eq!(inputs.edges_from(2), vec![(1, Edge::Layer)]);
    assert_eq!(inputs.edges_from(3), vec![(1, Edge::Layer)]);
    assert_eq!(inputs.edges_from(9), vec![]);
}

#[test]
fn single_switch_binding_hangs_on_the_root() {
    let jump = action(1);
    let mut inputs = MappedInput::new();
    inputs.bind(&[A], jump, "Jump").unwrap();
    assert_eq!(inputs.node_count(), 2);
    assert_eq!(inputs.node_key(1), Some(&vec![]));
    assert_eq!(inputs.node(1), Some(Node { active: 0, threshold: 0 }));
    assert_eq!(inputs.edges_from(0), vec![(1, Edge::Action(jump))]);
}

#[test]
fn edges_are_walked_newest_first() {
    let mut inputs = MappedInput::new();
    inputs.bind(&[A], action(1), "One").unwrap();
    inputs.bind(&[SHIFT, A], action(2), "Two").unwrap();
    inputs.bind(&[CTRL, A], action(3), "Three").unwrap();
    assert_eq!(
        inputs.edges_from(0),
        vec![(3, Edge::Action(action(3))), (2, Edge::Action(action(2))), (1, Edge::Action(action(1)))]
    );
}

#[test]
fn longest_complete_chord_wins() {
    let single = action(1);
    let double = action(2);
    let triple = action(3);
    let mut inputs = MappedInput::new();
    inputs.bind(&[SHIFT, CTRL, A], triple, "Triple").unwrap();
    inputs.bind(&[A], single, "Single").unwrap();
    inputs.bind(&[SHIFT, A], double, "Double").unwrap();

    inputs.press(A);
    assert!(inputs.active(single));
    inputs.release(A);

    inputs.press(SHIFT);
    inputs.press(A);
    assert!(inputs.active(double));
    assert!(!inputs.active(single));
    inputs.release(A);

    inputs.press(CTRL);
    inputs.press(A);
    assert!(inputs.active(triple));
    assert!(!inputs.active(double));
    assert!(!inputs.active(single));
}

#[test]
fn among_equally_long_chords_the_newest_edge_wins() {
    let with_shift = action(1);
    let with_ctrl = action(2);
    let mut inputs = MappedInput::new();
    inputs.bind(&[SHIFT, A], with_shift, "Shift").unwrap();
    inputs.bind(&[CTRL, A], with_ctrl, "Ctrl").unwrap();
    inputs.press(SHIFT);
    inputs.press(CTRL);
    inputs.press(A);
    assert!(inputs.active(with_ctrl));
    assert!(!inputs.active(with_shift));
}

#[test]
fn rebinding_keeps_the_place_of_the_edge() {
    let with_shift = action(1);
    let with_ctrl = action(2);
    let again = action(3);
    let mut inputs = MappedInput::new();
    inputs.bind(&[SHIFT, A], with_shift, "Shift").unwrap();
    inputs.bind(&[CTRL, A], with_ctrl, "Ctrl").unwrap();
    // the edge of Shift + A gets a new action and stays the older edge
    inputs.bind(&[SHIFT, A], again, "Again").unwrap();
    inputs.press(SHIFT);
    inputs.press(CTRL);
    inputs.press(A);
    assert!(inputs.active(with_ctrl));
    assert!(!inputs.active(again));
    assert!(!inputs.active(with_shift));
}

#[test]
fn rebinding_replaces_the_action() {
    let old = action(1);
    let new = action(2);
    let mut inputs = MappedInput::new();
    inputs.bind(&[SHIFT, A], old, "Old").unwrap();
    inputs.bind(&[SHIFT, A], new, "New").unwrap();
    assert_eq!(inputs.edges_from(0), vec![(1, Edge::Action(new))]);
    inputs.press(SHIFT);
    inputs.press(A);
    assert!(inputs.active(new));
    assert!(!inputs.active(old));
    assert!(!inputs.just_activated(old));
    inputs.release(A);
    assert!(inputs.just_deactivated(new));
    assert!(!inputs.just_deactivated(old));
}

#[test]
fn binding_while_a_modifier_is_down_counts_it() {
    let first = action(1);
    let combo = action(2);
    let mut inputs = MappedInput::new();
    inputs.bind(&[SHIFT], first, "First").unwrap();
    inputs.press(SHIFT);
    inputs.bind(&[SHIFT, CTRL, A], combo, "Combo").unwrap();
    // the new layer knows that Shift is down
    assert_eq!(inputs.node(3), Some(Node { active: 1, threshold: 2 }));
    inputs.press(CTRL);
    inputs.press(A);
    assert!(inputs.active(combo));
    inputs.release(SHIFT);
    assert_eq!(inputs.node(3), Some(Node { active: 1, threshold: 2 }));
    inputs.release(CTRL);
    assert_eq!(inputs.node(3), Some(Node { active: 0, threshold: 2 }));
}

#[test]
fn last_switch_among_the_others_sets_off_nothing() {
    let odd = action(9);
    let mut inputs = MappedInput::new();
    inputs.bind(&[A, B, A], odd, "Odd").unwrap();
    // the edge from A to the layer of A and B is the layer edge of A
    assert_eq!(inputs.edges_from(0), vec![(1, Edge::Layer)]);
    inputs.press(B);
    inputs.press(A);
    assert!(!inputs.active(odd));
    assert_eq!(inputs.label(odd), Some(&"Odd".to_string()));
}

#[test]
fn chord_of_one_switch_twice() {
    let twice = action(8);
    let once = action(7);
    let mut inputs = MappedInput::new();
    inputs.bind(&[A], once, "Once").unwrap();
    inputs.bind(&[A, A], twice, "Twice").unwrap();
    // the layer of the chord is the node of A itself, which is down once A is pressed
    inputs.press(A);
    assert!(inputs.active(twice));
    assert!(!inputs.active(once));
}

#[test]
fn release_ends_every_action_on_the_switch() {
    let single = action(1);
    let double = action(2);
    let mut inputs = MappedInput::new();
    inputs.bind(&[A], single, "Single").unwrap();
    inputs.bind(&[SHIFT, A], double, "Double").unwrap();
    inputs.press(A);
    inputs.release(A);
    inputs.press(SHIFT);
    inputs.update();
    inputs.press(A);
    assert!(inputs.active(double));
    assert!(!inputs.active(single));
    inputs.release(A);
    assert!(inputs.just_deactivated(double));
    // only what was active is marked
    assert!(!inputs.just_deactivated(single));
}

#[test]
fn one_action_on_two_chords() {
    let fire = action(1);
    let mut inputs = MappedInput::new();
    inputs.bind(&[A], fire, "Fire").unwrap();
    inputs.bind(&[B], fire, "Fire").unwrap();
    inputs.press(A);
    assert!(inputs.just_activated(fire));
    inputs.update();
    // already active: the second chord does not activate it again
    inputs.press(B);
    assert!(inputs.active(fire));
    assert!(!inputs.just_activated(fire));
    inputs.release(B);
    assert!(!inputs.active(fire));
    assert!(inputs.just_deactivated(fire));
}
