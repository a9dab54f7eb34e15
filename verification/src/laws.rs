//! What holds of the engine whatever the rules and the events are.

use crate::event::{key_event, sync_event, EventCode, InputEvent, TimeVal};
use crate::keys::{kind_of, spec_is_modifier, KeyCode, KeyEventType};
use crate::keyset::enumerates;
use crate::mapping::MappingView;
use crate::output::{after_write, after_writes, batch, batch_if_any};
use crate::output::{lemma_after_batch, lemma_after_writes_concat, lemma_after_writes_push};
use crate::output::{lemma_reconciliation_reaches, orders_transition, reconciliation};
use crate::rules::{apply_chords, apply_dual_roles, desired_keys, dual_role_for, ChordState};
use crate::rules::{chord_size, emitted_by_first, emitted_keys, is_best_chord};
use crate::rules::{is_chord_candidate, is_dual_role_at, is_first_dual_role, resolve, rule_emits};
use crate::step::{handles, is_tap, is_transition_then, release_tail};
use crate::step::{tap_events, tap_keys, MapperState};
use vstd::prelude::*;

verus! {

/// A list that names every key of the empty set once is empty.
pub proof fn lemma_enumerates_none(keys: Seq<KeyCode>)
    requires
        enumerates(keys, Set::empty()),
    ensures
        keys == Seq::<KeyCode>::empty(),
{
    if keys.len() > 0 {
        assert(keys.to_set().contains(keys[0]));
    }
    assert(keys =~= Seq::empty());
}

/// A list that names every key of a one-key set once is that key alone.
pub proof fn lemma_enumerates_one(keys: Seq<KeyCode>, key: KeyCode)
    requires
        enumerates(keys, set![key]),
    ensures
        keys == seq![key],
{
    assert(keys.to_set().contains(key));
    assert(keys.len() > 0);
    if keys.len() > 1 {
        assert(keys.to_set().contains(keys[0]));
        assert(keys.to_set().contains(keys[1]));
    }
    assert(keys.to_set().contains(keys[0]));
    assert(keys =~= seq![key]);
}

/// `event` writes a key of the kind `kind` that is, or is not, a modifier.
pub open spec fn writes_key(event: InputEvent, kind: KeyEventType, modifier: bool) -> bool {
    &&& event.event_code matches EventCode::Key(key)
    &&& kind_of(event.value) == kind
    &&& spec_is_modifier(key) == modifier
}

/// Reconciliation ordering. In a transition, every release of a modifier is
/// written after every release of another key, every press of a modifier
/// before every press of another key, and every release before every press.
pub proof fn lemma_transition_order(
    released: Seq<KeyCode>,
    pressed: Seq<KeyCode>,
    output: Set<KeyCode>,
    desired: Set<KeyCode>,
    time: TimeVal,
    i: int,
    j: int,
)
    requires
        orders_transition(released, pressed, output, desired),
        0 <= i < reconciliation(released, pressed, time).len(),
        0 <= j < reconciliation(released, pressed, time).len(),
    ensures
        ({
            let out = reconciliation(released, pressed, time);
            &&& writes_key(out[i], KeyEventType::Release, true) && writes_key(
                out[j],
                KeyEventType::Release,
                false,
            ) ==> j < i
            &&& writes_key(out[i], KeyEventType::Press, true) && writes_key(
                out[j],
                KeyEventType::Press,
                false,
            ) ==> i < j
            &&& kind_of(out[i].value) == KeyEventType::Release && out[i].event_code is Key
                && kind_of(out[j].value) == KeyEventType::Press && out[j].event_code is Key ==> i
                < j
        }),
{
    let first = batch_if_any(released, time, KeyEventType::Release);
    let second = batch_if_any(pressed, time, KeyEventType::Press);
    let out = first + second;
    if i < first.len() && i < released.len() {
        assert(out[i] == key_event(released[i], time, KeyEventType::Release));
    }
    if j < first.len() && j < released.len() {
        assert(out[j] == key_event(released[j], time, KeyEventType::Release));
    }
    if i >= first.len() && i - first.len() < pressed.len() {
        assert(out[i] == key_event(pressed[i - first.len()], time, KeyEventType::Press));
    }
    if j >= first.len() && j - first.len() < pressed.len() {
        assert(out[j] == key_event(pressed[j - first.len()], time, KeyEventType::Press));
    }
}

/// Idempotence. A transition to the keys that the virtual keyboard already
/// holds writes nothing.
pub proof fn lemma_transition_to_held_is_empty(
    released: Seq<KeyCode>,
    pressed: Seq<KeyCode>,
    held: Set<KeyCode>,
    time: TimeVal,
)
    requires
        orders_transition(released, pressed, held, held),
    ensures
        reconciliation(released, pressed, time) == Seq::<InputEvent>::empty(),
{
    assert(held.difference(held) =~= Set::empty());
    lemma_enumerates_none(released);
    lemma_enumerates_none(pressed);
    assert(reconciliation(released, pressed, time) =~= Seq::empty());
}

/// Idempotence, of two transitions in a row. After a transition to
/// `desired`, a second transition to the same keys writes nothing.
pub proof fn lemma_second_transition_is_empty(
    output: Set<KeyCode>,
    desired: Set<KeyCode>,
    released: Seq<KeyCode>,
    pressed: Seq<KeyCode>,
    time: TimeVal,
    released_again: Seq<KeyCode>,
    pressed_again: Seq<KeyCode>,
    time_again: TimeVal,
)
    requires
        orders_transition(released, pressed, output, desired),
        orders_transition(
            released_again,
            pressed_again,
            after_writes(output, reconciliation(released, pressed, time)),
            desired,
        ),
    ensures
        reconciliation(released_again, pressed_again, time_again) == Seq::<InputEvent>::empty(),
{
    lemma_reconciliation_reaches(released, pressed, output, desired, time);
    lemma_transition_to_held_is_empty(released_again, pressed_again, desired, time_again);
}

/// Writing an event and a report marker does to the keys held what the
/// event alone does.
pub proof fn lemma_after_event_and_marker(output: Set<KeyCode>, event: InputEvent)
    ensures
        after_writes(output, seq![event, sync_event(event.time)]) == after_write(output, event),
{
    let none = Seq::<InputEvent>::empty();
    assert(seq![event] =~= none.push(event));
    assert(seq![event, sync_event(event.time)] =~= none.push(event).push(sync_event(event.time)));
    lemma_after_writes_push(output, none, event);
    lemma_after_writes_push(output, none.push(event), sync_event(event.time));
}

/// A tap leaves none of the tap keys held.
pub proof fn lemma_after_tap(output: Set<KeyCode>, tap: Seq<KeyCode>, time: TimeVal)
    ensures
        after_writes(output, tap_events(tap, time)) == output.difference(tap.to_set()),
{
    let press = batch(tap, time, KeyEventType::Press);
    let release = batch(tap, time, KeyEventType::Release);
    lemma_after_writes_concat(output, press, release);
    lemma_after_batch(output, tap, time, KeyEventType::Press);
    lemma_after_batch(output.union(tap.to_set()), tap, time, KeyEventType::Release);
    assert(output.union(tap.to_set()).difference(tap.to_set()) =~= output.difference(
        tap.to_set(),
    ));
}

/// The write log. Whatever the event, the keys that the engine takes the
/// virtual keyboard to hold afterwards are those that the events it wrote
/// leave pressed: each press or repeat adds its key, each release takes its
/// key away.
pub proof fn lemma_output_follows_writes(
    pre: MapperState,
    event: InputEvent,
    code: KeyCode,
    post: MapperState,
    out: Seq<InputEvent>,
)
    requires
        handles(pre, event, code, post, out),
    ensures
        post.output == after_writes(pre.output, out),
{
    lemma_after_event_and_marker(pre.output, event);
    match kind_of(event.value) {
        KeyEventType::Release => {
            if pre.pressed.dom().contains(code) {
                let desired = desired_keys(pre.rules, pre.pressed.remove(code).dom());
                let tail = release_tail(pre, code, event.time);
                let (released, pressed) = choose|released: Seq<KeyCode>, pressed: Seq<KeyCode>|
                    {
                        &&& #[trigger] orders_transition(released, pressed, pre.output, desired)
                        &&& out == reconciliation(released, pressed, event.time) + tail
                    };
                lemma_reconciliation_reaches(released, pressed, pre.output, desired, event.time);
                lemma_after_writes_concat(
                    pre.output,
                    reconciliation(released, pressed, event.time),
                    tail,
                );
                if is_tap(pre, code, event.time) {
                    lemma_after_tap(desired, tap_keys(pre.rules, code), event.time);
                }
            }
        },
        KeyEventType::Press => {
            let desired = desired_keys(pre.rules, pre.pressed.insert(code, event.time).dom());
            let (released, pressed) = choose|released: Seq<KeyCode>, pressed: Seq<KeyCode>|
                {
                    &&& #[trigger] orders_transition(released, pressed, pre.output, desired)
                    &&& out == reconciliation(released, pressed, event.time) + Seq::<
                        InputEvent,
                    >::empty()
                };
            lemma_reconciliation_reaches(released, pressed, pre.output, desired, event.time);
            assert(out =~= reconciliation(released, pressed, event.time));
        },
        KeyEventType::Repeat => {
            match resolve(pre.rules, pre.pressed.dom(), code) {
                Some(i) => match pre.rules[i] {
                    MappingView::DualRole { hold, .. } => {
                        lemma_after_batch(pre.output, hold, event.time, KeyEventType::Repeat);
                    },
                    MappingView::Remap { output, .. } => {
                        let listed = choose|listed: Seq<KeyCode>|
                            {
                                &&& #[trigger] enumerates(listed, output)
                                &&& out == batch(listed, event.time, KeyEventType::Repeat)
                            };
                        lemma_after_batch(pre.output, listed, event.time, KeyEventType::Repeat);
                    },
                },
                None => {},
            }
        },
        KeyEventType::Unknown(_) => {},
    }
}

/// The keys that are down. Whatever the event, the rules stay as they are,
/// and the record of the physical keys changes only for the key of the
/// event: a press notes it with the event's time, a release drops it, and
/// nothing else touches it.
pub proof fn lemma_pressed_follows_events(
    pre: MapperState,
    event: InputEvent,
    code: KeyCode,
    post: MapperState,
    out: Seq<InputEvent>,
)
    requires
        handles(pre, event, code, post, out),
    ensures
        post.rules == pre.rules,
        post.pressed == match kind_of(event.value) {
            KeyEventType::Press => pre.pressed.insert(code, event.time),
            KeyEventType::Release => pre.pressed.remove(code),
            _ => pre.pressed,
        },
{
    if kind_of(event.value) == KeyEventType::Release && !pre.pressed.dom().contains(code) {
        assert(pre.pressed.remove(code) =~= pre.pressed);
    }
}

/// Every rule of `rules` is well formed.
pub open spec fn all_well_formed(rules: Seq<MappingView>) -> bool {
    forall|r: int| 0 <= r < rules.len() ==> (#[trigger] rules[r]).well_formed()
}

/// The rule `rule` has nothing to act on while the keys `pressed` are down:
/// its trigger is not down, or its chord is not down in full.
pub open spec fn rule_is_idle(rule: MappingView, pressed: Set<KeyCode>) -> bool {
    match rule {
        MappingView::DualRole { input, .. } => !pressed.contains(input),
        MappingView::Remap { input, .. } => !input.subset_of(pressed),
    }
}

/// No rule of `rules` has anything to act on while the keys `pressed` are
/// down.
pub open spec fn all_idle(rules: Seq<MappingView>, pressed: Set<KeyCode>) -> bool {
    forall|r: int| 0 <= r < rules.len() ==> rule_is_idle(#[trigger] rules[r], pressed)
}

/// Keys that no rule acts on are the keys to hold, as they are.
pub proof fn lemma_idle_rules_change_nothing(rules: Seq<MappingView>, pressed: Set<KeyCode>)
    requires
        all_idle(rules, pressed),
    ensures
        apply_dual_roles(rules, pressed) == pressed,
        apply_chords(rules, ChordState { keys: pressed, eligible: pressed }) == (ChordState {
            keys: pressed,
            eligible: pressed,
        }),
        desired_keys(rules, pressed) == pressed,
    decreases rules.len(),
{
    if rules.len() > 0 {
        let front = rules.drop_last();
        assert forall|r: int| 0 <= r < front.len() implies rule_is_idle(
            #[trigger] front[r],
            pressed,
        ) by {
            assert(front[r] == rules[r]);
        }
        lemma_idle_rules_change_nothing(front, pressed);
        assert(rule_is_idle(rules[rules.len() - 1], pressed));
    }
}

/// While no key is down, no well-formed rule has anything to act on.
pub proof fn lemma_idle_while_nothing_is_down(rules: Seq<MappingView>)
    requires
        all_well_formed(rules),
    ensures
        all_idle(rules, Set::<KeyCode>::empty()),
{
    assert forall|r: int| 0 <= r < rules.len() implies rule_is_idle(
        #[trigger] rules[r],
        Set::<KeyCode>::empty(),
    ) by {
        assert(rules[r].well_formed());
        match rules[r] {
            MappingView::Remap { input, .. } => {
                assert(input.contains(input.choose()));
            },
            MappingView::DualRole { .. } => {},
        }
    }
}

/// No key is left stuck. With well-formed rules, once the last physical key
/// is released the virtual keyboard holds no key, tap or no tap.
pub proof fn lemma_all_released_holds_nothing(
    pre: MapperState,
    event: InputEvent,
    code: KeyCode,
    post: MapperState,
    out: Seq<InputEvent>,
)
    requires
        all_well_formed(pre.rules),
        kind_of(event.value) == KeyEventType::Release,
        pre.pressed.dom() == set![code],
        handles(pre, event, code, post, out),
    ensures
        post.pressed.dom() == Set::<KeyCode>::empty(),
        post.output == Set::<KeyCode>::empty(),
{
    assert(pre.pressed.dom().contains(code));
    assert(pre.pressed.remove(code).dom() =~= Set::<KeyCode>::empty());
    lemma_idle_while_nothing_is_down(pre.rules);
    lemma_idle_rules_change_nothing(pre.rules, Set::<KeyCode>::empty());
    assert(post.output =~= Set::<KeyCode>::empty());
}

/// The engine before any event: the state that `create_mapper` gives.
pub open spec fn is_fresh(state: MapperState) -> bool {
    &&& state.pressed == Map::<KeyCode, TimeVal>::empty()
    &&& state.tapping is None
    &&& state.output == Set::<KeyCode>::empty()
}

/// The step `i` of a run: what reading `events[i]` in the state `states[i]`
/// does.
pub open spec fn is_run_step(
    states: Seq<MapperState>,
    events: Seq<InputEvent>,
    outs: Seq<Seq<InputEvent>>,
    i: int,
) -> bool {
    match events[i].event_code {
        EventCode::Key(code) => handles(states[i], events[i], code, states[i + 1], outs[i]),
        _ => outs[i] == seq![events[i]] && states[i + 1] == states[i],
    }
}

/// A run of the engine: it reads `events` one after the other, goes through
/// `states` and writes `outs[i]` for `events[i]`.
pub open spec fn is_run(
    states: Seq<MapperState>,
    events: Seq<InputEvent>,
    outs: Seq<Seq<InputEvent>>,
) -> bool {
    &&& states.len() == events.len() + 1
    &&& outs.len() == events.len()
    &&& forall|i: int| 0 <= i < events.len() ==> #[trigger] is_run_step(states, events, outs, i)
}

/// `event` is a press or a release of a key, and as a press it resolves to
/// no rule in `state`.
pub open spec fn is_unmatched(state: MapperState, event: InputEvent) -> bool {
    &&& event.event_code matches EventCode::Key(code)
    &&& match kind_of(event.value) {
        KeyEventType::Press => resolve(state.rules, state.pressed.dom().insert(code), code)
            is None,
        KeyEventType::Release => true,
        _ => false,
    }
}

/// `event` does not press a key that is already down in `state`.
pub open spec fn presses_anew(state: MapperState, event: InputEvent) -> bool {
    event.event_code matches EventCode::Key(code) ==> kind_of(event.value)
        == KeyEventType::Press ==> !state.pressed.dom().contains(code)
}

/// What a run of unmatched events keeps true: the virtual keyboard holds
/// the keys that are down, and no rule has anything to act on.
pub open spec fn mirrors_input(rules: Seq<MappingView>, state: MapperState) -> bool {
    &&& state.rules == rules
    &&& state.output == state.pressed.dom()
    &&& all_idle(rules, state.pressed.dom())
}

/// One unmatched event is written as it came, with one report marker.
pub proof fn lemma_unmatched_event_passes(
    pre: MapperState,
    event: InputEvent,
    code: KeyCode,
    post: MapperState,
    out: Seq<InputEvent>,
)
    requires
        handles(pre, event, code, post, out),
        mirrors_input(pre.rules, pre),
        event.event_code == EventCode::Key(code),
        is_unmatched(pre, event),
        presses_anew(pre, event),
    ensures
        out == seq![event, sync_event(event.time)],
        mirrors_input(pre.rules, post),
{
    let rules = pre.rules;
    let down = pre.pressed.dom();
    match kind_of(event.value) {
        KeyEventType::Release => {
            if exists|i: int| is_first_dual_role(rules, code, i) {
                let i = choose|i: int| is_first_dual_role(rules, code, i);
                assert(rule_is_idle(rules[i], down));
            }
            if down.contains(code) {
                assert(dual_role_for(rules, code) is None);
                let pressed = pre.pressed.remove(code);
                assert(pressed.dom() =~= down.remove(code));
                assert forall|r: int| 0 <= r < rules.len() implies rule_is_idle(
                    #[trigger] rules[r],
                    pressed.dom(),
                ) by {
                    assert(rule_is_idle(rules[r], down));
                }
                lemma_idle_rules_change_nothing(rules, pressed.dom());
                let desired = pressed.dom();
                let (released, pressed_keys) = choose|
                    released: Seq<KeyCode>,
                    pressed_keys: Seq<KeyCode>,
                |
                    {
                        &&& #[trigger] orders_transition(
                            released,
                            pressed_keys,
                            pre.output,
                            desired,
                        )
                        &&& out == reconciliation(released, pressed_keys, event.time) + Seq::<
                            InputEvent,
                        >::empty()
                    };
                assert(pre.output.difference(desired) =~= set![code]);
                assert(desired.difference(pre.output) =~= Set::empty());
                lemma_enumerates_one(released, code);
                lemma_enumerates_none(pressed_keys);
                assert(out =~= seq![event, sync_event(event.time)]);
            } else {
                assert(post.output =~= down);
            }
        },
        KeyEventType::Press => {
            let pressed = pre.pressed.insert(code, event.time);
            assert(pressed.dom() =~= down.insert(code));
            lemma_resolve_none(rules, pressed.dom(), code);
            assert forall|r: int| 0 <= r < rules.len() implies rule_is_idle(
                #[trigger] rules[r],
                pressed.dom(),
            ) by {
                assert(rule_is_idle(rules[r], down));
                assert(!is_dual_role_at(rules, code, r));
                assert(!is_chord_candidate(rules, pressed.dom(), code, r));
                match rules[r] {
                    MappingView::Remap { input, .. } => {
                        if input.subset_of(pressed.dom()) {
                            if input.contains(code) {
                                assert(input.remove(code).subset_of(pressed.dom()));
                            } else {
                                assert(input.subset_of(down));
                            }
                        }
                    },
                    MappingView::DualRole { .. } => {},
                }
            }
            lemma_idle_rules_change_nothing(rules, pressed.dom());
            let desired = pressed.dom();
            let (released, pressed_keys) = choose|
                released: Seq<KeyCode>,
                pressed_keys: Seq<KeyCode>,
            |
                {
                    &&& #[trigger] orders_transition(released, pressed_keys, pre.output, desired)
                    &&& out == reconciliation(released, pressed_keys, event.time) + Seq::<
                        InputEvent,
                    >::empty()
                };
            assert(pre.output.difference(desired) =~= Set::empty());
            assert(desired.difference(pre.output) =~= set![code]);
            lemma_enumerates_none(released);
            lemma_enumerates_one(pressed_keys, code);
            assert(out =~= seq![event, sync_event(event.time)]);
        },
        _ => {},
    }
}

/// Pure passthrough. An engine with well-formed rules that starts fresh and
/// reads only presses and releases of keys, each press resolving to no rule
/// and none of them pressing a key that is already down, writes each event
/// as it came, followed by one report marker.
pub proof fn lemma_unmatched_events_pass_through(
    states: Seq<MapperState>,
    events: Seq<InputEvent>,
    outs: Seq<Seq<InputEvent>>,
    i: int,
)
    requires
        is_run(states, events, outs),
        is_fresh(states[0]),
        all_well_formed(states[0].rules),
        forall|k: int| 0 <= k < events.len() ==> is_unmatched(states[k], #[trigger] events[k]),
        forall|k: int| 0 <= k < events.len() ==> presses_anew(states[k], #[trigger] events[k]),
        0 <= i < events.len(),
    ensures
        outs[i] == seq![events[i], sync_event(events[i].time)],
        mirrors_input(states[0].rules, states[i]),
        mirrors_input(states[0].rules, states[i + 1]),
    decreases i,
{
    if i > 0 {
        lemma_unmatched_events_pass_through(states, events, outs, i - 1);
    } else {
        lemma_idle_while_nothing_is_down(states[0].rules);
        assert(states[0].pressed.dom() =~= Set::<KeyCode>::empty());
    }
    assert(mirrors_input(states[0].rules, states[i]));
    assert(is_run_step(states, events, outs, i));
    assert(is_unmatched(states[i], events[i]));
    assert(presses_anew(states[i], events[i]));
    match events[i].event_code {
        EventCode::Key(code) => {
            lemma_unmatched_event_passes(states[i], events[i], code, states[i + 1], outs[i]);
        },
        _ => {},
    }
}

/// An interrupted tap. Once another key has been pressed, releasing a key
/// is no tap, however soon it comes: the release writes the transition and
/// nothing more.
pub proof fn lemma_interrupted_tap_writes_no_tap(
    before: MapperState,
    press: InputEvent,
    other: KeyCode,
    between: MapperState,
    pressed_out: Seq<InputEvent>,
    release: InputEvent,
    code: KeyCode,
    after: MapperState,
    out: Seq<InputEvent>,
)
    requires
        kind_of(press.value) == KeyEventType::Press,
        handles(before, press, other, between, pressed_out),
        other != code,
        kind_of(release.value) == KeyEventType::Release,
        handles(between, release, code, after, out),
        between.pressed.dom().contains(code),
    ensures
        !is_tap(between, code, release.time),
        is_transition_then(
            between.output,
            desired_keys(between.rules, between.pressed.remove(code).dom()),
            release.time,
            Seq::empty(),
            out,
        ),
        after.output == desired_keys(between.rules, between.pressed.remove(code).dom()),
{
    assert(between.tapping != Some(code));
}

/// A dual-role rule wins. A key that triggers a dual-role rule resolves to
/// the first such rule, whatever chords hold the key.
pub proof fn lemma_resolve_prefers_dual_role(
    rules: Seq<MappingView>,
    pressed: Set<KeyCode>,
    code: KeyCode,
    i: int,
)
    requires
        is_first_dual_role(rules, code, i),
    ensures
        resolve(rules, pressed, code) == Some(i),
        dual_role_for(rules, code) == Some(i),
{
    let found = choose|k: int| is_first_dual_role(rules, code, k);
    assert(is_first_dual_role(rules, code, found));
    if found < i {
        assert(!is_dual_role_at(rules, code, found));
    }
    if i < found {
        assert(!is_dual_role_at(rules, code, i));
    }
}

/// The most specific chord wins. Where no dual-role rule is triggered, a
/// key resolves to the chord candidate that no candidate exceeds in size
/// and no earlier candidate equals in size; there is only one such.
pub proof fn lemma_resolve_prefers_largest_chord(
    rules: Seq<MappingView>,
    pressed: Set<KeyCode>,
    code: KeyCode,
    i: int,
)
    requires
        dual_role_for(rules, code) is None,
        is_best_chord(rules, pressed, code, i),
    ensures
        resolve(rules, pressed, code) == Some(i),
{
    let found = choose|k: int| is_best_chord(rules, pressed, code, k);
    assert(is_best_chord(rules, pressed, code, found));
    assert(is_chord_candidate(rules, pressed, code, found));
    assert(is_chord_candidate(rules, pressed, code, i));
}

/// No match, no rule. A key resolves to no rule exactly when it triggers no
/// dual-role rule and is in no chord whose other keys are all down.
pub proof fn lemma_resolve_none(rules: Seq<MappingView>, pressed: Set<KeyCode>, code: KeyCode)
    ensures
        resolve(rules, pressed, code) is None <==> forall|i: int|
            #![trigger is_dual_role_at(rules, code, i)]
            #![trigger is_chord_candidate(rules, pressed, code, i)]
            !is_dual_role_at(rules, code, i) && !is_chord_candidate(
                rules,
                pressed,
                code,
                i,
            ),
{
    if resolve(rules, pressed, code) is None {
        assert forall|i: int|
            #![trigger is_dual_role_at(rules, code, i)]
            #![trigger is_chord_candidate(rules, pressed, code, i)]
            !is_dual_role_at(rules, code, i) && !is_chord_candidate(
                rules,
                pressed,
                code,
                i,
            ) by {
            if is_dual_role_at(rules, code, i) {
                lemma_some_dual_role_is_first(rules, code, i);
            }
            if is_chord_candidate(rules, pressed, code, i) {
                lemma_some_chord_is_best(rules, pressed, code, rules.len() as int, i);
            }
        }
    } else if dual_role_for(rules, code) is Some {
        let i = choose|i: int| is_first_dual_role(rules, code, i);
        assert(is_dual_role_at(rules, code, i));
    } else {
        let i = choose|i: int| is_best_chord(rules, pressed, code, i);
        assert(is_chord_candidate(rules, pressed, code, i));
    }
}

/// Where some dual-role rule is triggered by a key, one of them is the
/// first.
pub proof fn lemma_some_dual_role_is_first(rules: Seq<MappingView>, code: KeyCode, i: int)
    requires
        is_dual_role_at(rules, code, i),
    ensures
        exists|k: int| is_first_dual_role(rules, code, k),
    decreases i,
{
    if exists|j: int| 0 <= j < i && is_dual_role_at(rules, code, j) {
        let j = choose|j: int| 0 <= j < i && is_dual_role_at(rules, code, j);
        lemma_some_dual_role_is_first(rules, code, j);
    } else {
        assert(is_first_dual_role(rules, code, i));
    }
}

/// The rule at `i` is the most specific chord candidate among the first
/// `n` rules.
pub open spec fn is_best_chord_of_first(
    rules: Seq<MappingView>,
    pressed: Set<KeyCode>,
    code: KeyCode,
    n: int,
    i: int,
) -> bool {
    &&& 0 <= i < n
    &&& is_chord_candidate(rules, pressed, code, i)
    &&& forall|j: int|
        0 <= j < n && is_chord_candidate(rules, pressed, code, j)
            ==> chord_size(rules, j) <= chord_size(rules, i)
    &&& forall|j: int|
        0 <= j < i && is_chord_candidate(rules, pressed, code, j)
            ==> chord_size(rules, j) < chord_size(rules, i)
}

/// Where some chord among the first `n` rules is a candidate, one of them
/// is the most specific.
pub proof fn lemma_some_chord_is_best(
    rules: Seq<MappingView>,
    pressed: Set<KeyCode>,
    code: KeyCode,
    n: int,
    i: int,
)
    requires
        0 <= i < n <= rules.len(),
        is_chord_candidate(rules, pressed, code, i),
    ensures
        exists|k: int| is_best_chord_of_first(rules, pressed, code, n, k),
        n == rules.len() ==> exists|k: int| is_best_chord(rules, pressed, code, k),
    decreases n,
{
    let last = n - 1;
    if i == last && !exists|j: int|
        0 <= j < last && is_chord_candidate(rules, pressed, code, j) {
        assert(is_best_chord_of_first(rules, pressed, code, n, last));
    } else {
        let j = if i < last {
            i
        } else {
            choose|j: int| 0 <= j < last && is_chord_candidate(rules, pressed, code, j)
        };
        lemma_some_chord_is_best(rules, pressed, code, last, j);
        let best = choose|k: int| is_best_chord_of_first(rules, pressed, code, last, k);
        if is_chord_candidate(rules, pressed, code, last)
            && chord_size(rules, last) > chord_size(rules, best) {
            assert(is_best_chord_of_first(rules, pressed, code, n, last));
        } else {
            assert(is_best_chord_of_first(rules, pressed, code, n, best));
        }
    }
    if n == rules.len() {
        let k = choose|k: int| is_best_chord_of_first(rules, pressed, code, n, k);
        assert(is_best_chord(rules, pressed, code, k));
    }
}

/// A modifier is not used up. A modifier that a chord may be made of before
/// a rule is applied may still be made part of a chord after it, and so
/// after all the rules.
pub proof fn lemma_modifiers_stay_eligible(
    rules: Seq<MappingView>,
    state: ChordState,
    key: KeyCode,
)
    requires
        spec_is_modifier(key),
        state.eligible.contains(key),
    ensures
        apply_chords(rules, state).eligible.contains(key),
    decreases rules.len(),
{
    if rules.len() > 0 {
        lemma_modifiers_stay_eligible(rules.drop_last(), state, key);
    }
}

/// `declared` holds every key that a rule of `rules` writes.
pub open spec fn declares(rules: Seq<MappingView>, declared: Set<KeyCode>) -> bool {
    forall|r: int, key: KeyCode|
        0 <= r < rules.len() && #[trigger] rule_emits(rules[r], key)
            ==> declared.contains(key)
}

/// What is held is a key that is down or a key that a rule writes. The keys
/// that the virtual keyboard should hold are among the physical keys that
/// are down and the hold and output keys of the rules.
pub proof fn lemma_desired_keys_are_declared(rules: Seq<MappingView>, pressed: Set<KeyCode>)
    ensures
        desired_keys(rules, pressed).subset_of(pressed.union(emitted_keys(rules))),
{
    let declared = pressed.union(emitted_keys(rules));
    assert forall|r: int, key: KeyCode|
        0 <= r < rules.len() && #[trigger] rule_emits(
            rules[r],
            key,
        ) implies declared.contains(key) by {
        assert(emitted_by_first(rules, rules.len() as int, key));
    }
    lemma_dual_roles_within(rules, rules.len() as int, pressed, declared);
    assert(rules.take(rules.len() as int) =~= rules);
    let keys = apply_dual_roles(rules, pressed);
    lemma_chords_within(
        rules,
        rules.len() as int,
        ChordState { keys, eligible: keys },
        declared,
    );
}

/// The first pass stays within the keys that are down and those declared.
proof fn lemma_dual_roles_within(
    rules: Seq<MappingView>,
    n: int,
    pressed: Set<KeyCode>,
    declared: Set<KeyCode>,
)
    requires
        0 <= n <= rules.len(),
        pressed.subset_of(declared),
        declares(rules, declared),
    ensures
        apply_dual_roles(rules.take(n), pressed).subset_of(declared),
    decreases n,
{
    if n > 0 {
        lemma_dual_roles_within(rules, n - 1, pressed, declared);
        assert(rules.take(n).drop_last() =~= rules.take(n - 1));
        assert(rules.take(n).last() == rules[n - 1]);
        match rules[n - 1] {
            MappingView::DualRole { hold, .. } => {
                assert forall|key: KeyCode| hold.to_set().contains(key) implies declared.contains(
                    key,
                ) by {
                    assert(rule_emits(rules[n - 1], key));
                }
            },
            MappingView::Remap { .. } => {},
        }
    }
}

/// The second pass stays within the keys it starts from and those declared.
proof fn lemma_chords_within(
    rules: Seq<MappingView>,
    n: int,
    start: ChordState,
    declared: Set<KeyCode>,
)
    requires
        0 <= n <= rules.len(),
        start.keys.subset_of(declared),
        declares(rules, declared),
    ensures
        apply_chords(rules.take(n), start).keys.subset_of(declared),
    decreases n,
{
    if n > 0 {
        lemma_chords_within(rules, n - 1, start, declared);
        assert(rules.take(n).drop_last() =~= rules.take(n - 1));
        assert(rules.take(n).last() == rules[n - 1]);
        match rules[n - 1] {
            MappingView::Remap { output, .. } => {
                assert forall|key: KeyCode| output.contains(key) implies declared.contains(
                    key,
                ) by {
                    assert(rule_emits(rules[n - 1], key));
                }
            },
            MappingView::DualRole { .. } => {},
        }
    }
}

} // verus!
