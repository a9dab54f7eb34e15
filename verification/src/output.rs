//! What the virtual keyboard holds after a sequence of writes, and the
//! batches of events by which the engine moves it from one set of keys to
//! another.

use crate::event::{key_event, sync_event, EventCode, InputEvent, TimeVal};
use crate::keyset::enumerates;
use crate::keys::{kind_of, modifiers_come_first, modifiers_come_last, KeyCode, KeyEventType};
use vstd::prelude::*;

verus! {

/// The keys held after `event` is written to a keyboard that held `output`:
/// a press or a repeat of a key adds it, a release takes it away, and any
/// other event changes nothing.
pub open spec fn after_write(output: Set<KeyCode>, event: InputEvent) -> Set<KeyCode> {
    match event.event_code {
        EventCode::Key(key) => match kind_of(event.value) {
            KeyEventType::Press | KeyEventType::Repeat => output.insert(key),
            KeyEventType::Release => output.remove(key),
            KeyEventType::Unknown(_) => output,
        },
        _ => output,
    }
}

/// The keys held after `events` are written in turn.
pub open spec fn after_writes(output: Set<KeyCode>, events: Seq<InputEvent>) -> Set<KeyCode>
    decreases events.len(),
{
    if events.len() == 0 {
        output
    } else {
        after_write(after_writes(output, events.drop_last()), events.last())
    }
}

/// One event of kind `kind` for each of `keys`, in their order.
pub open spec fn key_events(keys: Seq<KeyCode>, time: TimeVal, kind: KeyEventType) -> Seq<
    InputEvent,
> {
    Seq::new(keys.len(), |i: int| key_event(keys[i], time, kind))
}

/// A batch: one event for each of `keys`, closed by one report marker.
pub open spec fn batch(keys: Seq<KeyCode>, time: TimeVal, kind: KeyEventType) -> Seq<InputEvent> {
    key_events(keys, time, kind).push(sync_event(time))
}

/// A batch that is left out altogether when there are no keys to write.
pub open spec fn batch_if_any(keys: Seq<KeyCode>, time: TimeVal, kind: KeyEventType) -> Seq<
    InputEvent,
> {
    if keys.len() == 0 {
        Seq::empty()
    } else {
        batch(keys, time, kind)
    }
}

/// The keys held after events of kind `kind` were written for all of `keys`.
pub open spec fn after_keys(output: Set<KeyCode>, keys: Set<KeyCode>, kind: KeyEventType) -> Set<
    KeyCode,
> {
    match kind_of(kind.spec_value()) {
        KeyEventType::Press | KeyEventType::Repeat => output.union(keys),
        KeyEventType::Release => output.difference(keys),
        KeyEventType::Unknown(_) => output,
    }
}

/// `released` and `pressed` are the keys to release and to press, each in
/// the order in which it has to be written, for a keyboard that holds
/// `output` and should hold `desired`.
pub open spec fn orders_transition(
    released: Seq<KeyCode>,
    pressed: Seq<KeyCode>,
    output: Set<KeyCode>,
    desired: Set<KeyCode>,
) -> bool {
    &&& enumerates(released, output.difference(desired))
    &&& modifiers_come_last(released)
    &&& enumerates(pressed, desired.difference(output))
    &&& modifiers_come_first(pressed)
}

/// The events of a transition: the releases with their marker, then the
/// presses with theirs. A side without keys writes nothing.
pub open spec fn reconciliation(released: Seq<KeyCode>, pressed: Seq<KeyCode>, time: TimeVal) -> Seq<
    InputEvent,
> {
    batch_if_any(released, time, KeyEventType::Release) + batch_if_any(
        pressed,
        time,
        KeyEventType::Press,
    )
}

pub proof fn lemma_after_writes_push(output: Set<KeyCode>, events: Seq<InputEvent>, e: InputEvent)
    ensures
        after_writes(output, events.push(e)) == after_write(after_writes(output, events), e),
{
    assert(events.push(e).drop_last() =~= events);
}

pub proof fn lemma_after_writes_concat(
    output: Set<KeyCode>,
    first: Seq<InputEvent>,
    second: Seq<InputEvent>,
)
    ensures
        after_writes(output, first + second) == after_writes(after_writes(output, first), second),
    decreases second.len(),
{
    if second.len() == 0 {
        assert(first + second =~= first);
    } else {
        lemma_after_writes_concat(output, first, second.drop_last());
        assert((first + second).drop_last() =~= first + second.drop_last());
    }
}

pub proof fn lemma_after_key_events(
    output: Set<KeyCode>,
    keys: Seq<KeyCode>,
    time: TimeVal,
    kind: KeyEventType,
)
    ensures
        after_writes(output, key_events(keys, time, kind)) == after_keys(
            output,
            keys.to_set(),
            kind,
        ),
    decreases keys.len(),
{
    if keys.len() == 0 {
        assert(keys.to_set() =~= Set::empty());
        assert(after_keys(output, keys.to_set(), kind) =~= output);
    } else {
        let front = keys.drop_last();
        lemma_after_key_events(output, front, time, kind);
        assert(key_events(keys, time, kind).drop_last() =~= key_events(front, time, kind));
        assert(keys =~= front.push(keys.last()));
        front.lemma_push_to_set_commute(keys.last());
        assert(after_writes(output, key_events(keys, time, kind)) =~= after_keys(
            output,
            keys.to_set(),
            kind,
        ));
    }
}

/// A batch changes what is held as its key events do: the marker changes
/// nothing.
pub proof fn lemma_after_batch(
    output: Set<KeyCode>,
    keys: Seq<KeyCode>,
    time: TimeVal,
    kind: KeyEventType,
)
    ensures
        after_writes(output, batch(keys, time, kind)) == after_keys(output, keys.to_set(), kind),
        after_writes(output, batch_if_any(keys, time, kind)) == after_keys(
            output,
            keys.to_set(),
            kind,
        ),
{
    lemma_after_key_events(output, keys, time, kind);
    lemma_after_writes_push(output, key_events(keys, time, kind), sync_event(time));
    if keys.len() == 0 {
        assert(keys.to_set() =~= Set::empty());
        assert(after_keys(output, keys.to_set(), kind) =~= output);
    }
}

/// A transition leaves the keyboard holding exactly the desired keys.
pub proof fn lemma_reconciliation_reaches(
    released: Seq<KeyCode>,
    pressed: Seq<KeyCode>,
    output: Set<KeyCode>,
    desired: Set<KeyCode>,
    time: TimeVal,
)
    requires
        orders_transition(released, pressed, output, desired),
    ensures
        after_writes(output, reconciliation(released, pressed, time)) == desired,
{
    let first = batch_if_any(released, time, KeyEventType::Release);
    let second = batch_if_any(pressed, time, KeyEventType::Press);
    lemma_after_writes_concat(output, first, second);
    lemma_after_batch(output, released, time, KeyEventType::Release);
    lemma_after_batch(after_writes(output, first), pressed, time, KeyEventType::Press);
    assert(output.difference(output.difference(desired)).union(desired.difference(output))
        =~= desired);
}

} // verus!
