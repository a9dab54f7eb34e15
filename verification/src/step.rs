//! What it means to handle one key event: the relation between the engine's
//! state before the event, the event, the state after it and the events
//! written.

use crate::event::{sync_event, within_tap_window, InputEvent, TimeVal};
use crate::keys::{kind_of, KeyCode, KeyEventType};
use crate::keyset::enumerates;
use crate::mapping::MappingView;
use crate::output::{after_write, batch, orders_transition, reconciliation};
use crate::rules::{desired_keys, dual_role_for, resolve};
use vstd::prelude::*;

verus! {

/// The engine's state as plain values.
pub struct MapperState {
    /// The physical keys that are down, each with the time of its press.
    pub pressed: Map<KeyCode, TimeVal>,
    /// The rules, in the order in which they were given.
    pub rules: Seq<MappingView>,
    /// The most recent key whose press matched a rule and that may still
    /// turn out to be a tap.
    pub tapping: Option<KeyCode>,
    /// The keys that the events written so far have left pressed on the
    /// virtual keyboard.
    pub output: Set<KeyCode>,
}

/// The event is written unchanged, followed by a report marker. Nothing
/// changes but what the event itself does to the keys held.
pub open spec fn passes_through(
    pre: MapperState,
    event: InputEvent,
    post: MapperState,
    out: Seq<InputEvent>,
) -> bool {
    &&& out == seq![event, sync_event(event.time)]
    &&& post == (MapperState { output: after_write(pre.output, event), ..pre })
}

/// The tap keys of the dual-role rule that `code` triggers.
pub open spec fn tap_keys(rules: Seq<MappingView>, code: KeyCode) -> Seq<KeyCode> {
    match dual_role_for(rules, code) {
        Some(i) => match rules[i] {
            MappingView::DualRole { tap, .. } => tap,
            MappingView::Remap { .. } => Seq::empty(),
        },
        None => Seq::empty(),
    }
}

/// Releasing `code` at `time` counts as a tap: the key has a dual-role rule,
/// it is the tap candidate, and it was pressed within the tap window.
pub open spec fn is_tap(pre: MapperState, code: KeyCode, time: TimeVal) -> bool {
    &&& dual_role_for(pre.rules, code) is Some
    &&& pre.tapping == Some(code)
    &&& pre.pressed.dom().contains(code)
    &&& within_tap_window(time, pre.pressed[code])
}

/// The events of a tap: the tap keys pressed, then released, each batch with
/// its own marker.
pub open spec fn tap_events(tap: Seq<KeyCode>, time: TimeVal) -> Seq<InputEvent> {
    batch(tap, time, KeyEventType::Press) + batch(tap, time, KeyEventType::Release)
}

/// What follows the transition when `code` is released at `time`.
pub open spec fn release_tail(pre: MapperState, code: KeyCode, time: TimeVal) -> Seq<InputEvent> {
    if is_tap(pre, code, time) {
        tap_events(tap_keys(pre.rules, code), time)
    } else {
        Seq::empty()
    }
}

/// `out` is a transition of the virtual keyboard from `output` to `desired`,
/// followed by `tail`.
pub open spec fn is_transition_then(
    output: Set<KeyCode>,
    desired: Set<KeyCode>,
    time: TimeVal,
    tail: Seq<InputEvent>,
    out: Seq<InputEvent>,
) -> bool {
    exists|released: Seq<KeyCode>, pressed: Seq<KeyCode>|
        {
            &&& #[trigger] orders_transition(released, pressed, output, desired)
            &&& out == reconciliation(released, pressed, time) + tail
        }
}

/// A release. Of a key that was not seen going down, it passes through. Of
/// any other key, the key stops being down and the virtual keyboard moves to
/// the keys it should now hold; if the release completes a tap, the tap keys
/// are pressed and released after that. A key with a dual-role rule takes
/// the tap candidate with it, whoever that was.
pub open spec fn handles_release(
    pre: MapperState,
    event: InputEvent,
    code: KeyCode,
    post: MapperState,
    out: Seq<InputEvent>,
) -> bool {
    if !pre.pressed.dom().contains(code) {
        passes_through(pre, event, post, out)
    } else {
        let pressed = pre.pressed.remove(code);
        let desired = desired_keys(pre.rules, pressed.dom());
        let tapped = is_tap(pre, code, event.time);
        &&& is_transition_then(
            pre.output,
            desired,
            event.time,
            release_tail(pre, code, event.time),
            out,
        )
        &&& post == (MapperState {
            pressed,
            rules: pre.rules,
            tapping: if dual_role_for(pre.rules, code) is Some {
                None
            } else {
                pre.tapping
            },
            output: if tapped {
                desired.difference(tap_keys(pre.rules, code).to_set())
            } else {
                desired
            },
        })
    }
}

/// A press. The key is down from the event's time on, and the virtual
/// keyboard moves to the keys it should now hold. The key becomes the tap
/// candidate if it resolves to a rule; if not, there is none any more.
pub open spec fn handles_press(
    pre: MapperState,
    event: InputEvent,
    code: KeyCode,
    post: MapperState,
    out: Seq<InputEvent>,
) -> bool {
    let pressed = pre.pressed.insert(code, event.time);
    let desired = desired_keys(pre.rules, pressed.dom());
    &&& is_transition_then(pre.output, desired, event.time, Seq::empty(), out)
    &&& post == (MapperState {
        pressed,
        rules: pre.rules,
        tapping: if resolve(pre.rules, pressed.dom(), code) is Some {
            Some(code)
        } else {
            None
        },
        output: desired,
    })
}

/// `out` repeats every key of `keys` once, in some order, in one batch.
pub open spec fn repeats_keys(keys: Set<KeyCode>, time: TimeVal, out: Seq<InputEvent>) -> bool {
    exists|listed: Seq<KeyCode>|
        {
            &&& #[trigger] enumerates(listed, keys)
            &&& out == batch(listed, time, KeyEventType::Repeat)
        }
}

/// A repeat. A key that resolves to a dual-role rule repeats the rule's hold
/// keys, one that resolves to a chord repeats the chord's output. Any other
/// key ends the tap candidacy and passes through.
pub open spec fn handles_repeat(
    pre: MapperState,
    event: InputEvent,
    code: KeyCode,
    post: MapperState,
    out: Seq<InputEvent>,
) -> bool {
    match resolve(pre.rules, pre.pressed.dom(), code) {
        Some(i) => match pre.rules[i] {
            MappingView::DualRole { hold, .. } => {
                &&& out == batch(hold, event.time, KeyEventType::Repeat)
                &&& post == (MapperState { output: pre.output.union(hold.to_set()), ..pre })
            },
            MappingView::Remap { output, .. } => {
                &&& repeats_keys(output, event.time, out)
                &&& post == (MapperState { output: pre.output.union(output), ..pre })
            },
        },
        None => passes_through(MapperState { tapping: None, ..pre }, event, post, out),
    }
}

/// Handling `event`, which is about the key `code`, takes the engine from
/// `pre` to `post` and writes `out`.
pub open spec fn handles(
    pre: MapperState,
    event: InputEvent,
    code: KeyCode,
    post: MapperState,
    out: Seq<InputEvent>,
) -> bool {
    match kind_of(event.value) {
        KeyEventType::Release => handles_release(pre, event, code, post, out),
        KeyEventType::Press => handles_press(pre, event, code, post, out),
        KeyEventType::Repeat => handles_repeat(pre, event, code, post, out),
        KeyEventType::Unknown(_) => passes_through(pre, event, post, out),
    }
}

} // verus!
