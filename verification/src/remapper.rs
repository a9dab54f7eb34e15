//! The remapping engine: the state it keeps between events and the events it
//! writes to the virtual keyboard for each event it reads.

use crate::event::{make_event, sync_event, timeval_diff, EventCode, InputEvent, TimeVal};
use crate::event::TAP_WINDOW_MICROS;
use crate::keys::{sort_keys, KeyCode, KeyEventType, KeyOrder};
use crate::keyset::{append_keys, consume_chord, copy_key_set, difference, enumerates};
use crate::keyset::{insert_keys, is_subset, key_list, lemma_enumerates_permutation};
use crate::keyset::produce_output;
use crate::laws::{lemma_output_follows_writes, lemma_transition_to_held_is_empty};
use crate::mapping::{rules_view, Mapping};
use crate::output::{after_keys, after_write, after_writes, batch, batch_if_any, key_events};
use crate::output::{lemma_after_batch, lemma_after_key_events, lemma_after_writes_push};
use crate::output::{orders_transition, reconciliation};
use crate::rules::{apply_chords, apply_dual_roles, chord_size, desired_keys, dual_role_for};
use crate::rules::{emitted_by_first, emitted_keys, is_best_chord, is_chord_candidate};
use crate::rules::{is_dual_role_at, is_first_dual_role, lemma_emitted_by_next, resolve};
use crate::rules::{rule_emits, ChordState};
use crate::step::{handles, is_tap, is_transition_then, release_tail, repeats_keys};
use crate::step::{tap_events, tap_keys, MapperState};
use std::collections::{HashMap, HashSet};
use vstd::prelude::*;
use vstd::seq_lib::lemma_seq_concat_contains_all_elements;
use vstd::std_specs::iter::IteratorSpec;

verus! {

broadcast use vstd::std_specs::hash::group_hash_axioms;

/// The engine. It owns the rules and everything it has learnt from the
/// events read so far.
pub struct InputMapper {
    /// The physical keys that are down, each with the time of its press.
    input_state: HashMap<KeyCode, TimeVal>,
    mappings: Vec<Mapping>,
    /// The most recent key whose press matched a rule and that may still
    /// turn out to be a tap.
    tapping: Option<KeyCode>,
    /// The keys that the events written so far have left pressed on the
    /// virtual keyboard.
    output_keys: HashSet<KeyCode>,
}

/// How a read from the source device ended.
#[derive(Clone, Copy, Debug, PartialEq, Eq, Structural)]
pub enum ReadStatus {
    /// An event was read.
    Success,
    /// The device dropped events and asks to be read anew.
    Sync,
}

/// Why the engine cannot go on.
#[derive(Clone, Copy, Debug, PartialEq, Eq, Structural)]
pub enum MapperError {
    /// The source device lost events; what is down can no longer be told.
    Desynchronized,
}

/// The keys that the virtual keyboard has to be able to report for `rules`:
/// every tap, hold and chord output key. A key may occur more than once.
pub fn output_capabilities(mappings: &Vec<Mapping>) -> (keys: Vec<KeyCode>)
    ensures
        keys@.to_set() == emitted_keys(rules_view(mappings@)),
{
    let ghost rules = rules_view(mappings@);
    let mut keys: Vec<KeyCode> = Vec::new();
    let mut n: usize = 0;
    while n < mappings.len()
        invariant
            n <= mappings.len(),
            rules == rules_view(mappings@),
            forall|key: KeyCode|
                keys@.contains(key) <==> emitted_by_first(rules, n as int, key),
        decreases mappings.len() - n,
    {
        let ghost before = keys@;
        match &mappings[n] {
            Mapping::DualRole { tap, hold, .. } => {
                append_keys(&mut keys, tap);
                append_keys(&mut keys, hold);
                proof {
                    assert forall|key: KeyCode|
                        keys@.contains(key) <==> before.contains(key) || rule_emits(
                            rules[n as int],
                            key,
                        ) by {
                        lemma_seq_concat_contains_all_elements(before, tap@, key);
                        lemma_seq_concat_contains_all_elements(before + tap@, hold@, key);
                    }
                    assert forall|key: KeyCode|
                        keys@.contains(key) <==> emitted_by_first(rules, n + 1, key) by {
                        lemma_emitted_by_next(rules, n as int, key);
                    }
                }
            },
            Mapping::Remap { output, .. } => {
                let listed = key_list(output);
                append_keys(&mut keys, &listed);
                proof {
                    assert forall|key: KeyCode|
                        keys@.contains(key) <==> before.contains(key) || rule_emits(
                            rules[n as int],
                            key,
                        ) by {
                        lemma_seq_concat_contains_all_elements(before, listed@, key);
                        assert(listed@.contains(key) <==> listed@.to_set().contains(key));
                    }
                    assert forall|key: KeyCode|
                        keys@.contains(key) <==> emitted_by_first(rules, n + 1, key) by {
                        lemma_emitted_by_next(rules, n as int, key);
                    }
                }
            },
        }
        n = n + 1;
    }
    assert(keys@.to_set() =~= emitted_keys(rules));
    keys
}

impl View for InputMapper {
    type V = MapperState;

    closed spec fn view(&self) -> MapperState {
        MapperState {
            pressed: self.input_state@,
            rules: rules_view(self.mappings@),
            tapping: self.tapping,
            output: self.output_keys@,
        }
    }
}

impl InputMapper {
    /// An engine for `mappings` that has seen no event yet: no key is down
    /// and the virtual keyboard holds none.
    pub fn create_mapper(mappings: Vec<Mapping>) -> (mapper: InputMapper)
        ensures
            mapper@ == (MapperState {
                pressed: Map::empty(),
                rules: rules_view(mappings@),
                tapping: None,
                output: Set::empty(),
            }),
    {
        InputMapper {
            input_state: HashMap::new(),
            mappings,
            tapping: None,
            output_keys: HashSet::new(),
        }
    }

    /// The rules, in the order in which they were given.
    pub fn mappings(&self) -> (mappings: &Vec<Mapping>)
        ensures
            rules_view(mappings@) == self@.rules,
    {
        &self.mappings
    }

    /// Whether the physical key `code` is down.
    pub fn is_pressed(&self, code: KeyCode) -> (down: bool)
        ensures
            down == self@.pressed.dom().contains(code),
    {
        self.input_state.contains_key(&code)
    }

    /// When the physical key `code` went down, if it is down.
    pub fn pressed_at(&self, code: KeyCode) -> (time: Option<TimeVal>)
        ensures
            match time {
                Some(t) => self@.pressed.dom().contains(code) && self@.pressed[code] == t,
                None => !self@.pressed.dom().contains(code),
            },
    {
        match self.input_state.get(&code) {
            Some(t) => Some(*t),
            None => None,
        }
    }

    /// The key that may still turn out to be a tap.
    pub fn tapping(&self) -> (candidate: Option<KeyCode>)
        ensures
            candidate == self@.tapping,
    {
        self.tapping
    }

    /// Whether the virtual keyboard holds the key `code`.
    pub fn is_output_pressed(&self, code: KeyCode) -> (held: bool)
        ensures
            held == self@.output.contains(code),
    {
        self.output_keys.contains(&code)
    }

    /// The keys that the virtual keyboard holds, each once, in no particular
    /// order.
    pub fn output_keys(&self) -> (keys: Vec<KeyCode>)
        ensures
            enumerates(keys@, self@.output),
    {
        key_list(&self.output_keys)
    }

    /// Forgets the tap candidate.
    pub fn cancel_pending_tap(&mut self)
        ensures
            final(self)@ == (MapperState { tapping: None, ..old(self)@ }),
    {
        self.tapping = None;
    }

    /// Writes `event`: appends it to `out` and notes what it does to the
    /// keys that the virtual keyboard holds.
    pub fn write_event(&mut self, event: &InputEvent, out: &mut Vec<InputEvent>)
        ensures
            final(out)@ == old(out)@.push(*event),
            final(self)@ == (MapperState {
                output: after_write(old(self)@.output, *event),
                ..old(self)@
            }),
    {
        out.push(*event);
        match event.event_code {
            EventCode::Key(key) => {
                match KeyEventType::from_value(event.value) {
                    KeyEventType::Press | KeyEventType::Repeat => {
                        self.output_keys.insert(key);
                    },
                    KeyEventType::Release => {
                        self.output_keys.remove(&key);
                    },
                    KeyEventType::Unknown(_) => {},
                }
            },
            _ => {},
        }
    }

    /// Writes the report marker for `time`. It changes no key.
    pub fn generate_sync_event(&self, time: &TimeVal, out: &mut Vec<InputEvent>)
        ensures
            final(out)@ == old(out)@.push(sync_event(*time)),
    {
        out.push(InputEvent::new(time, &EventCode::SynReport, 0));
    }

    /// Writes `event` unchanged, followed by a report marker.
    pub fn write_event_and_sync(&mut self, event: &InputEvent, out: &mut Vec<InputEvent>)
        ensures
            final(out)@ == old(out)@.push(*event).push(sync_event(event.time)),
            final(self)@ == (MapperState {
                output: after_write(old(self)@.output, *event),
                ..old(self)@
            }),
    {
        self.write_event(event, out);
        self.generate_sync_event(&event.time, out);
    }

    /// Writes one event of kind `event_type` for each of `keys`, in their
    /// order, followed by one report marker.
    pub fn emit_keys(
        &mut self,
        keys: &[KeyCode],
        time: &TimeVal,
        event_type: KeyEventType,
        out: &mut Vec<InputEvent>,
    )
        ensures
            final(out)@ == old(out)@ + batch(keys@, *time, event_type),
            final(self)@ == (MapperState {
                output: after_keys(old(self)@.output, keys@.to_set(), event_type),
                ..old(self)@
            }),
    {
        let ghost before = self@;
        let ghost written = out@;
        let mut n: usize = 0;
        while n < keys.len()
            invariant
                n <= keys.len(),
                out@ == written + key_events(keys@.take(n as int), *time, event_type),
                self@ == (MapperState {
                    output: after_writes(
                        before.output,
                        key_events(keys@.take(n as int), *time, event_type),
                    ),
                    ..before
                }),
            decreases keys.len() - n,
        {
            let event = make_event(keys[n], time, event_type);
            proof {
                let done = key_events(keys@.take(n as int), *time, event_type);
                assert(key_events(keys@.take(n + 1), *time, event_type) =~= done.push(event));
                lemma_after_writes_push(before.output, done, event);
            }
            self.write_event(&event, out);
            n = n + 1;
        }
        self.generate_sync_event(time, out);
        proof {
            assert(keys@.take(keys.len() as int) =~= keys@);
            lemma_after_batch(before.output, keys@, *time, event_type);
            lemma_after_key_events(before.output, keys@, *time, event_type);
        }
    }

    /// The first dual-role rule that `code` triggers.
    pub fn lookup_dual_role_mapping(&self, code: KeyCode) -> (found: Option<&Mapping>)
        ensures
            match dual_role_for(self@.rules, code) {
                Some(i) => found matches Some(m) && m@ == self@.rules[i],
                None => found is None,
            },
    {
        let ghost rules = self@.rules;
        let mut n: usize = 0;
        while n < self.mappings.len()
            invariant
                n <= self.mappings.len(),
                rules == self@.rules,
                rules.len() == self.mappings.len(),
                forall|j: int| 0 <= j < n ==> !is_dual_role_at(rules, code, j),
            decreases self.mappings.len() - n,
        {
            let map = &self.mappings[n];
            match map {
                Mapping::DualRole { input, .. } => {
                    if *input == code {
                        assert(is_first_dual_role(rules, code, n as int));
                        return Some(map);
                    }
                },
                Mapping::Remap { .. } => {},
            }
            n = n + 1;
        }
        None
    }

    /// Whether `input` is a chord that holds `code` and whose other keys are
    /// all down.
    fn chord_matches(&self, input: &HashSet<KeyCode>, code: KeyCode) -> (matched: bool)
        ensures
            matched == (input@.contains(code) && input@.remove(code).subset_of(
                self@.pressed.dom(),
            )),
    {
        let ghost listed = input.iter().remaining().unref();
        let mut code_matched = false;
        let mut all_matched = true;
        for k in it: input.iter()
            invariant
                it.seq().unref() == listed,
                listed.to_set() == input@,
                code_matched == listed.take(it.index()).contains(code),
                all_matched == forall|j: int|
                    0 <= j < it.index() && listed[j] != code ==> self@.pressed.dom().contains(
                        #[trigger] listed[j],
                    ),
        {
            assert(listed[it.index()] == *k);
            assert(listed.take(it.index() + 1) =~= listed.take(it.index()).push(*k));
            proof {
                vstd::seq_lib::lemma_seq_contains_after_push(listed.take(it.index()), *k, code);
            }
            if *k == code {
                code_matched = true;
            } else if !self.input_state.contains_key(k) {
                all_matched = false;
            }
        }
        proof {
            assert(listed.take(listed.len() as int) =~= listed);
            if all_matched {
                assert forall|key: KeyCode| input@.remove(code).contains(key) implies self@.pressed.dom().contains(
                    key,
                ) by {
                    let j = choose|j: int| 0 <= j < listed.len() && listed[j] == key;
                    assert(self@.pressed.dom().contains(listed[j]));
                }
            } else {
                let j = choose|j: int|
                    0 <= j < listed.len() && listed[j] != code && !self@.pressed.dom().contains(
                        #[trigger] listed[j],
                    );
                assert(input@.remove(code).contains(listed[j]));
            }
        }
        code_matched && all_matched
    }

    /// The rule that `code` resolves to while the keys now down are down.
    pub fn lookup_mapping(&self, code: KeyCode) -> (found: Option<&Mapping>)
        ensures
            match resolve(self@.rules, self@.pressed.dom(), code) {
                Some(i) => found matches Some(m) && m@ == self@.rules[i],
                None => found is None,
            },
    {
        let ghost rules = self@.rules;
        let ghost pressed = self@.pressed.dom();
        let mut best: Option<usize> = None;
        let mut best_size: usize = 0;
        let mut n: usize = 0;
        while n < self.mappings.len()
            invariant
                n <= self.mappings.len(),
                rules == self@.rules,
                pressed == self@.pressed.dom(),
                rules.len() == self.mappings.len(),
                forall|j: int| 0 <= j < n ==> !is_dual_role_at(rules, code, j),
                match best {
                    None => forall|j: int| 0 <= j < n ==> !is_chord_candidate(rules, pressed, code, j),
                    Some(b) => {
                        &&& b < n
                        &&& best_size == chord_size(rules, b as int)
                        &&& is_chord_candidate(rules, pressed, code, b as int)
                        &&& forall|j: int|
                            0 <= j < n && is_chord_candidate(rules, pressed, code, j)
                                ==> chord_size(rules, j) <= chord_size(rules, b as int)
                        &&& forall|j: int|
                            0 <= j < b && is_chord_candidate(rules, pressed, code, j)
                                ==> chord_size(rules, j) < chord_size(rules, b as int)
                    },
                },
            decreases self.mappings.len() - n,
        {
            let map = &self.mappings[n];
            match map {
                Mapping::DualRole { input, .. } => {
                    if *input == code {
                        assert(is_first_dual_role(rules, code, n as int));
                        return Some(map);
                    }
                },
                Mapping::Remap { input, .. } => {
                    if self.chord_matches(input, code) {
                        let size = input.len();
                        if best.is_none() || size > best_size {
                            best = Some(n);
                            best_size = size;
                        }
                    }
                },
            }
            n = n + 1;
        }
        assert(dual_role_for(rules, code) is None);
        match best {
            Some(b) => {
                assert(is_best_chord(rules, pressed, code, b as int));
                Some(&self.mappings[b])
            },
            None => None,
        }
    }

    /// The set of the physical keys that are down.
    fn pressed_keys(&self) -> (keys: HashSet<KeyCode>)
        ensures
            keys@ == self@.pressed.dom(),
    {
        let mut keys: HashSet<KeyCode> = HashSet::new();
        let ghost listed = self.input_state.keys().remaining().unref();
        for k in it: self.input_state.keys()
            invariant
                it.seq().unref() == listed,
                keys@ == listed.take(it.index()).to_set(),
        {
            proof {
                assert(listed[it.index()] == *k);
                assert(listed.take(it.index() + 1) =~= listed.take(it.index()).push(*k));
                listed.take(it.index()).lemma_push_to_set_commute(*k);
            }
            keys.insert(*k);
        }
        assert(listed.take(listed.len() as int) == listed);
        keys
    }

    /// The keys that the virtual keyboard should hold for the physical keys
    /// that are down.
    pub fn compute_keys(&self) -> (keys: HashSet<KeyCode>)
        ensures
            keys@ == desired_keys(self@.rules, self@.pressed.dom()),
    {
        let ghost rules = self@.rules;
        let ghost pressed = self@.pressed.dom();
        let mut keys = self.pressed_keys();

        // Dual-role keys first: held, they are likely to stand for the
        // modifiers that the chords below are made of.
        let mut n: usize = 0;
        while n < self.mappings.len()
            invariant
                n <= self.mappings.len(),
                rules == self@.rules,
                rules.len() == self.mappings.len(),
                keys@ == apply_dual_roles(rules.take(n as int), pressed),
            decreases self.mappings.len() - n,
        {
            assert(rules.take(n + 1).drop_last() =~= rules.take(n as int));
            match &self.mappings[n] {
                Mapping::DualRole { input, hold, .. } => {
                    if keys.contains(input) {
                        keys.remove(input);
                        insert_keys(&mut keys, hold);
                    }
                },
                Mapping::Remap { .. } => {},
            }
            n = n + 1;
        }
        assert(rules.take(rules.len() as int) =~= rules);

        let mut eligible = copy_key_set(&keys);
        let ghost start = ChordState { keys: keys@, eligible: keys@ };
        let mut n: usize = 0;
        while n < self.mappings.len()
            invariant
                n <= self.mappings.len(),
                rules == self@.rules,
                rules.len() == self.mappings.len(),
                (ChordState { keys: keys@, eligible: eligible@ }) == apply_chords(
                    rules.take(n as int),
                    start,
                ),
            decreases self.mappings.len() - n,
        {
            assert(rules.take(n + 1).drop_last() =~= rules.take(n as int));
            match &self.mappings[n] {
                Mapping::Remap { input, output } => {
                    if is_subset(input, &eligible) {
                        consume_chord(&mut keys, &mut eligible, input);
                        produce_output(&mut keys, &mut eligible, output);
                    }
                },
                Mapping::DualRole { .. } => {},
            }
            n = n + 1;
        }
        keys
    }

    /// Moves the virtual keyboard to the keys it should hold: releases what
    /// it should no longer hold, then presses what it does not hold yet.
    ///
    /// Modifiers are released last, so that a chord such as Ctrl-C does not
    /// leave a bare C behind, and pressed first, so that it does not begin
    /// with one.
    pub fn compute_and_apply_keys(&mut self, time: &TimeVal, out: &mut Vec<InputEvent>)
        ensures
            exists|released: Seq<KeyCode>, pressed: Seq<KeyCode>|
                {
                    &&& #[trigger] orders_transition(
                        released,
                        pressed,
                        old(self)@.output,
                        desired_keys(old(self)@.rules, old(self)@.pressed.dom()),
                    )
                    &&& final(out)@ == old(out)@ + reconciliation(released, pressed, *time)
                },
            final(self)@ == (MapperState {
                output: desired_keys(old(self)@.rules, old(self)@.pressed.dom()),
                ..old(self)@
            }),
            old(self)@.output == desired_keys(old(self)@.rules, old(self)@.pressed.dom())
                ==> final(out)@ == old(out)@,
    {
        let ghost before = self@;
        let ghost written = out@;
        let desired_keys = self.compute_keys();
        let ghost desired = desired_keys@;
        let unordered_release = difference(&self.output_keys, &desired_keys);
        let unordered_press = difference(&desired_keys, &self.output_keys);
        proof {
            assert(self.output_keys@ == before.output);
        }
        let ghost release_list = unordered_release@;
        let ghost press_list = unordered_press@;
        let to_release = sort_keys(unordered_release, KeyOrder::ModifiersLast);
        let to_press = sort_keys(unordered_press, KeyOrder::ModifiersFirst);
        proof {
            lemma_enumerates_permutation(
                release_list,
                to_release@,
                before.output.difference(desired),
            );
            lemma_enumerates_permutation(press_list, to_press@, desired.difference(before.output));
            assert(orders_transition(to_release@, to_press@, before.output, desired));
        }
        if !to_release.is_empty() {
            self.emit_keys(&to_release, time, KeyEventType::Release, out);
        }
        proof {
            assert(out@ =~= written + batch_if_any(to_release@, *time, KeyEventType::Release));
            lemma_after_batch(before.output, to_release@, *time, KeyEventType::Release);
            if to_release@.len() == 0 {
                assert(to_release@.to_set() =~= Set::empty());
            }
            assert(self@.output =~= before.output.difference(to_release@.to_set()));
        }
        if !to_press.is_empty() {
            self.emit_keys(&to_press, time, KeyEventType::Press, out);
        }
        proof {
            assert(out@ =~= written + reconciliation(to_release@, to_press@, *time));
            if to_press@.len() == 0 {
                assert(to_press@.to_set() =~= Set::empty());
            }
            assert(to_release@.to_set() == before.output.difference(desired));
            assert(to_press@.to_set() == desired.difference(before.output));
            assert(self@.output =~= before.output.difference(to_release@.to_set()).union(
                to_press@.to_set(),
            ));
            assert(self@.output =~= desired);
            if before.output == desired {
                lemma_transition_to_held_is_empty(to_release@, to_press@, desired, *time);
                assert(out@ =~= written);
            }
        }
    }

    /// Handles one event about the key `code` and returns the events to
    /// write to the virtual keyboard, in the order in which to write them.
    pub fn update_with_event(&mut self, event: &InputEvent, code: KeyCode) -> (out: Vec<
        InputEvent,
    >)
        ensures
            handles(old(self)@, *event, code, final(self)@, out@),
            final(self)@.output == after_writes(old(self)@.output, out@),
    {
        let ghost pre = self@;
        let mut out: Vec<InputEvent> = Vec::new();
        match KeyEventType::from_value(event.value) {
            KeyEventType::Release => {
                let pressed_at = match self.input_state.remove(&code) {
                    None => {
                        self.write_event_and_sync(event, &mut out);
                        proof {
                            assert(out@ =~= seq![*event, sync_event(event.time)]);
                            assert(self@.pressed =~= pre.pressed);
                            lemma_output_follows_writes(pre, *event, code, self@, out@);
                        }
                        return out;
                    },
                    Some(p) => p,
                };
                self.compute_and_apply_keys(&event.time, &mut out);
                let ghost desired = self@.output;
                let ghost moved = out@;
                let tap: Option<Vec<KeyCode>> = match self.lookup_dual_role_mapping(code) {
                    Some(Mapping::DualRole { tap, .. }) => Some(tap.clone()),
                    _ => None,
                };
                if let Some(tap) = tap {
                    assert(tap@ == tap_keys(pre.rules, code));
                    let tapping = self.tapping;
                    self.tapping = None;
                    if let Some(tapping) = tapping {
                        if tapping == code && timeval_diff(&event.time, &pressed_at)
                            <= TAP_WINDOW_MICROS {
                            self.emit_keys(&tap, &event.time, KeyEventType::Press, &mut out);
                            self.emit_keys(&tap, &event.time, KeyEventType::Release, &mut out);
                            proof {
                                assert(out@ =~= moved + tap_events(tap@, event.time));
                                assert(self@.output =~= desired.difference(tap@.to_set()));
                            }
                        }
                    }
                }
                proof {
                    let tail = release_tail(pre, code, event.time);
                    assert(out@ == moved + tail) by {
                        if !is_tap(pre, code, event.time) {
                            assert(moved + tail =~= moved);
                        }
                    }
                    assert forall|released: Seq<KeyCode>, pressed: Seq<KeyCode>|
                        moved =~= Seq::<InputEvent>::empty() + reconciliation(
                            released,
                            pressed,
                            event.time,
                        ) implies moved == reconciliation(released, pressed, event.time) by {}
                    assert(is_transition_then(pre.output, desired, event.time, tail, out@));
                }
            },
            KeyEventType::Press => {
                self.input_state.insert(code, event.time);
                match self.lookup_mapping(code) {
                    Some(_) => {
                        self.compute_and_apply_keys(&event.time, &mut out);
                        self.tapping = Some(code);
                    },
                    None => {
                        self.cancel_pending_tap();
                        self.compute_and_apply_keys(&event.time, &mut out);
                    },
                }
                proof {
                    assert forall|released: Seq<KeyCode>, pressed: Seq<KeyCode>|
                        out@ =~= Seq::<InputEvent>::empty() + reconciliation(
                            released,
                            pressed,
                            event.time,
                        ) implies out@ == reconciliation(released, pressed, event.time)
                        + Seq::<InputEvent>::empty() by {}
                    assert(is_transition_then(
                        pre.output,
                        self@.output,
                        event.time,
                        Seq::empty(),
                        out@,
                    ));
                }
            },
            KeyEventType::Repeat => {
                let keys: Option<Vec<KeyCode>> = match self.lookup_mapping(code) {
                    Some(Mapping::DualRole { hold, .. }) => Some(hold.clone()),
                    Some(Mapping::Remap { output, .. }) => Some(key_list(output)),
                    None => None,
                };
                match keys {
                    Some(keys) => {
                        self.emit_keys(&keys, &event.time, KeyEventType::Repeat, &mut out);
                        proof {
                            assert(out@ =~= batch(keys@, event.time, KeyEventType::Repeat));
                            assert(enumerates(keys@, keys@.to_set()) ==> repeats_keys(
                                keys@.to_set(),
                                event.time,
                                out@,
                            ));
                        }
                    },
                    None => {
                        self.cancel_pending_tap();
                        self.write_event_and_sync(event, &mut out);
                        assert(out@ =~= seq![*event, sync_event(event.time)]);
                    },
                }
            },
            KeyEventType::Unknown(_) => {
                self.write_event_and_sync(event, &mut out);
                assert(out@ =~= seq![*event, sync_event(event.time)]);
            },
        }
        proof {
            lemma_output_follows_writes(pre, *event, code, self@, out@);
        }
        out
    }

    /// One turn of the read loop: what to write for what was read.
    ///
    /// An event about a key is handled by the rules. Any other event is
    /// written as it came, with no marker of its own. A device that has lost
    /// events ends the run.
    pub fn handle_read(&mut self, status: ReadStatus, event: &InputEvent) -> (result: Result<
        Vec<InputEvent>,
        MapperError,
    >)
        ensures
            match status {
                ReadStatus::Success => result matches Ok(out) && match event.event_code {
                    EventCode::Key(code) => handles(old(self)@, *event, code, final(self)@, out@),
                    _ => out@ == seq![*event] && final(self)@ == old(self)@,
                },
                ReadStatus::Sync => result == Err::<Vec<InputEvent>, MapperError>(
                    MapperError::Desynchronized,
                ) && final(self)@ == old(self)@,
            },
            result matches Ok(out) ==> final(self)@.output == after_writes(
                old(self)@.output,
                out@,
            ),
    {
        match status {
            ReadStatus::Success => match event.event_code {
                EventCode::Key(code) => Ok(self.update_with_event(event, code)),
                _ => {
                    let mut out: Vec<InputEvent> = Vec::new();
                    out.push(*event);
                    proof {
                        lemma_after_writes_push(self@.output, Seq::empty(), *event);
                    }
                    Ok(out)
                },
            },
            ReadStatus::Sync => Err(MapperError::Desynchronized),
        }
    }
}

} // verus!
