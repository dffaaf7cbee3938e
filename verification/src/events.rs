//! Event ingestion: what the raw hardware events of one frame make of the resolver.
use crate::inputmap::MappedInput;
use crate::state::State;
use crate::switch::{MouseButton, Switch};
use vstd::prelude::*;

verus! {

/// A raw hardware event, as the host reports it.
#[derive(Clone, Copy, Debug, PartialEq, Eq, Structural)]
pub enum Event {
    /// The key with this key code went down.
    KeyDown(u32),
    /// The key with this key code went up.
    KeyUp(u32),
    MouseDown(MouseButton),
    MouseUp(MouseButton),
    /// The mouse moved by this much along x and y.
    MouseMoved(i64, i64),
    /// The wheel turned by this much.
    MouseScrolled(i64),
}

/// The state after one event.
pub open spec fn after_event(s: State, event: Event) -> State {
    match event {
        Event::KeyDown(code) => s.press(Switch::Key(code)),
        Event::KeyUp(code) => s.release(Switch::Key(code)),
        Event::MouseDown(button) => s.press(Switch::Mouse(button)),
        Event::MouseUp(button) => s.release(Switch::Mouse(button)),
        Event::MouseMoved(dx, dy) => s.move_mouse(dx, dy),
        Event::MouseScrolled(dy) => s.scroll_mouse(dy),
    }
}

/// The state after a run of events, taken in their order.
pub open spec fn after_events(s: State, events: Seq<Event>) -> State
    decreases events.len(),
{
    if events.len() == 0 {
        s
    } else {
        after_event(after_events(s, events.drop_last()), events.last())
    }
}

/// The state after a frame: the frame is started, then its events are taken in their order.
pub open spec fn after_frame(s: State, events: Seq<Event>) -> State {
    after_events(s.update(), events)
}

/// Hands one event to the resolver.
pub fn handle(inputs: &mut MappedInput, event: Event)
    requires
        old(inputs).wf(),
    ensures
        final(inputs).wf(),
        final(inputs)@ == after_event(old(inputs)@, event),
{
    match event {
        Event::KeyDown(code) => inputs.press(Switch::Key(code)),
        Event::KeyUp(code) => inputs.release(Switch::Key(code)),
        Event::MouseDown(button) => inputs.press(Switch::Mouse(button)),
        Event::MouseUp(button) => inputs.release(Switch::Mouse(button)),
        Event::MouseMoved(dx, dy) => inputs.move_mouse(dx, dy),
        Event::MouseScrolled(dy) => inputs.scroll_mouse(dy),
    }
}

/// Takes in the events of one frame: starts the frame, so that the marks and deltas speak
/// of this frame alone, then hands over the events in their order.
pub fn input_handling(inputs: &mut MappedInput, events: &[Event])
    requires
        old(inputs).wf(),
    ensures
        final(inputs).wf(),
        final(inputs)@ == after_frame(old(inputs)@, events@),
{
    inputs.update();
    let ghost started = inputs@;
    let mut i: usize = 0;
    while i < events.len()
        invariant
            i <= events.len(),
            inputs.wf(),
            inputs@ == after_events(started, events@.take(i as int)),
        decreases events.len() - i,
    {
        proof {
            assert(events@.take(i + 1).drop_last() =~= events@.take(i as int));
            assert(events@.take(i + 1).last() == events@[i as int]);
        }
        handle(inputs, events[i]);
        i += 1;
    }
    proof {
        assert(events@.take(events@.len() as int) =~= events@);
    }
}

} // verus!
