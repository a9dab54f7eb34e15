use evremap::event::{EventCode, InputEvent, TimeVal};
use evremap::keys::KeyEventType;
use evremap::mapping::Mapping;
use evremap::remapper::{output_capabilities, InputMapper, MapperError, ReadStatus};
use std::collections::HashSet;

const KEY_ESC: u16 = 1;
const KEY_Y: u16 = 21;
const KEY_LEFTCTRL: u16 = 29;
const KEY_A: u16 = 30;
const KEY_K: u16 = 37;
const KEY_LEFTSHIFT: u16 = 42;
const KEY_X: u16 = 45;
const KEY_C: u16 = 46;
const KEY_V: u16 = 47;
const KEY_B: u16 = 48;
const KEY_CAPSLOCK: u16 = 58;
const KEY_F1: u16 = 59;

const RELEASE: i32 = 0;
const PRESS: i32 = 1;
const REPEAT: i32 = 2;

fn at(millis: i64) -> TimeVal {
    TimeVal::new(100 + millis / 1000, (millis % 1000) * 1000)
}

fn key(code: u16, value: i32, millis: i64) -> InputEvent {
    InputEvent::new(&at(millis), &EventCode::Key(code), value)
}

fn sync(millis: i64) -> InputEvent {
    InputEvent::new(&at(millis), &EventCode::SynReport, 0)
}

fn send(mapper: &mut InputMapper, code: u16, value: i32, millis: i64) -> Vec<InputEvent> {
    mapper.update_with_event(&key(code, value, millis), code)
}

fn set_of(keys: &[u16]) -> HashSet<u16> {
    keys.iter().copied().collect()
}

fn chord(input: &[u16], output: &[u16]) -> Mapping {
    Mapping::Remap { input: set_of(input), output: set_of(output) }
}

fn dual_role(input: u16, hold: &[u16], tap: &[u16]) -> Mapping {
    Mapping::DualRole { input, hold: hold.to_vec(), tap: tap.to_vec() }
}

fn caps_as_ctrl_or_esc() -> InputMapper {
    InputMapper::create_mapper(vec![dual_role(KEY_CAPSLOCK, &[KEY_LEFTCTRL], &[KEY_ESC])])
}

fn held(mapper: &InputMapper) -> Vec<u16> {
    let mut keys = mapper.output_keys();
    keys.sort();
    keys
}

#[test]
fn fresh_mapper_holds_nothing() {
    let mapper = caps_as_ctrl_or_esc();
    assert!(mapper.output_keys().is_empty());
    assert!(!mapper.is_pressed(KEY_CAPSLOCK));
    assert_eq!(mapper.pressed_at(KEY_CAPSLOCK), None);
    assert_eq!(mapper.tapping(), None);
    assert_eq!(mapper.mappings().len(), 1);
}

#[test]
fn unmatched_keys_pass_through_without_rules() {
    let mut mapper = InputMapper::create_mapper(vec![]);
    let inputs = vec![
        key(KEY_A, PRESS, 0),
        key(KEY_B, PRESS, 10),
        key(KEY_A, RELEASE, 20),
        key(KEY_LEFTSHIFT, PRESS, 30),
        key(KEY_B, RELEASE, 40),
        key(KEY_LEFTSHIFT, RELEASE, 50),
        key(KEY_K, RELEASE, 60),
    ];
    for event in &inputs {
        let code = match event.event_code {
            EventCode::Key(code) => code,
            _ => unreachable!(),
        };
        let out = mapper.update_with_event(event, code);
        assert_eq!(out, vec![*event, InputEvent::new(&event.time, &EventCode::SynReport, 0)]);
    }
    assert!(mapper.output_keys().is_empty());
}

#[test]
fn unmatched_keys_pass_through_beside_rules() {
    let mut mapper = InputMapper::create_mapper(vec![
        dual_role(KEY_CAPSLOCK, &[KEY_LEFTCTRL], &[KEY_ESC]),
        chord(&[KEY_LEFTCTRL, KEY_C], &[KEY_X]),
    ]);
    assert_eq!(send(&mut mapper, KEY_A, PRESS, 0), vec![key(KEY_A, PRESS, 0), sync(0)]);
    assert_eq!(mapper.tapping(), None);
    assert_eq!(send(&mut mapper, KEY_B, PRESS, 5), vec![key(KEY_B, PRESS, 5), sync(5)]);
    assert_eq!(held(&mapper), vec![KEY_A, KEY_B]);
    assert_eq!(send(&mut mapper, KEY_A, RELEASE, 9), vec![key(KEY_A, RELEASE, 9), sync(9)]);
    assert_eq!(send(&mut mapper, KEY_B, RELEASE, 12), vec![key(KEY_B, RELEASE, 12), sync(12)]);
    assert!(mapper.output_keys().is_empty());
}

#[test]
fn second_press_of_a_held_key_writes_nothing() {
    let mut mapper = InputMapper::create_mapper(vec![]);
    assert_eq!(send(&mut mapper, KEY_A, PRESS, 0), vec![key(KEY_A, PRESS, 0), sync(0)]);
    assert_eq!(send(&mut mapper, KEY_A, PRESS, 10), vec![]);
    assert_eq!(mapper.pressed_at(KEY_A), Some(at(10)));
}

#[test]
fn dual_role_tap_within_150ms() {
    let mut mapper = caps_as_ctrl_or_esc();
    let down = send(&mut mapper, KEY_CAPSLOCK, PRESS, 0);
    assert_eq!(down, vec![key(KEY_LEFTCTRL, PRESS, 0), sync(0)]);
    assert_eq!(mapper.tapping(), Some(KEY_CAPSLOCK));
    assert!(mapper.is_output_pressed(KEY_LEFTCTRL));
    let up = send(&mut mapper, KEY_CAPSLOCK, RELEASE, 150);
    assert_eq!(
        up,
        vec![
            key(KEY_LEFTCTRL, RELEASE, 150),
            sync(150),
            key(KEY_ESC, PRESS, 150),
            sync(150),
            key(KEY_ESC, RELEASE, 150),
            sync(150),
        ]
    );
    assert!(mapper.output_keys().is_empty());
    assert_eq!(mapper.tapping(), None);
    assert!(!mapper.is_pressed(KEY_CAPSLOCK));
}

#[test]
fn dual_role_hold_for_300ms_is_no_tap() {
    let mut mapper = caps_as_ctrl_or_esc();
    assert_eq!(
        send(&mut mapper, KEY_CAPSLOCK, PRESS, 0),
        vec![key(KEY_LEFTCTRL, PRESS, 0), sync(0)]
    );
    assert_eq!(
        send(&mut mapper, KEY_CAPSLOCK, RELEASE, 300),
        vec![key(KEY_LEFTCTRL, RELEASE, 300), sync(300)]
    );
    assert!(mapper.output_keys().is_empty());
    assert_eq!(mapper.tapping(), None);
}

#[test]
fn tap_window_ends_after_200ms() {
    let mut mapper = caps_as_ctrl_or_esc();
    send(&mut mapper, KEY_CAPSLOCK, PRESS, 0);
    let on_the_edge = send(&mut mapper, KEY_CAPSLOCK, RELEASE, 200);
    assert_eq!(on_the_edge.len(), 6);
    assert_eq!(on_the_edge[2], key(KEY_ESC, PRESS, 200));

    send(&mut mapper, KEY_CAPSLOCK, PRESS, 1000);
    let late = mapper.update_with_event(
        &InputEvent::new(&TimeVal::new(101, 200_001), &EventCode::Key(KEY_CAPSLOCK), RELEASE),
        KEY_CAPSLOCK,
    );
    assert_eq!(late.len(), 2);
    assert_eq!(late[0].event_code, EventCode::Key(KEY_LEFTCTRL));
}

#[test]
fn release_stamped_before_the_press_is_no_tap() {
    let mut mapper = caps_as_ctrl_or_esc();
    send(&mut mapper, KEY_CAPSLOCK, PRESS, 500);
    let out = send(&mut mapper, KEY_CAPSLOCK, RELEASE, 400);
    assert_eq!(out, vec![key(KEY_LEFTCTRL, RELEASE, 400), sync(400)]);
}

#[test]
fn dual_role_interrupted_by_unrelated_key() {
    let mut mapper = caps_as_ctrl_or_esc();
    assert_eq!(
        send(&mut mapper, KEY_CAPSLOCK, PRESS, 0),
        vec![key(KEY_LEFTCTRL, PRESS, 0), sync(0)]
    );
    assert_eq!(send(&mut mapper, KEY_K, PRESS, 50), vec![key(KEY_K, PRESS, 50), sync(50)]);
    assert_eq!(mapper.tapping(), None);
    assert_eq!(
        send(&mut mapper, KEY_CAPSLOCK, RELEASE, 120),
        vec![key(KEY_LEFTCTRL, RELEASE, 120), sync(120)]
    );
    assert_eq!(held(&mapper), vec![KEY_K]);
}

#[test]
fn dual_role_interrupted_by_matched_key() {
    let mut mapper = InputMapper::create_mapper(vec![
        dual_role(KEY_CAPSLOCK, &[KEY_LEFTCTRL], &[KEY_ESC]),
        dual_role(KEY_F1, &[KEY_LEFTSHIFT], &[KEY_Y]),
    ]);
    send(&mut mapper, KEY_CAPSLOCK, PRESS, 0);
    send(&mut mapper, KEY_F1, PRESS, 10);
    assert_eq!(mapper.tapping(), Some(KEY_F1));
    assert_eq!(
        send(&mut mapper, KEY_CAPSLOCK, RELEASE, 20),
        vec![key(KEY_LEFTCTRL, RELEASE, 20), sync(20)]
    );
    assert_eq!(mapper.tapping(), None);
    assert_eq!(
        send(&mut mapper, KEY_F1, RELEASE, 30),
        vec![key(KEY_LEFTSHIFT, RELEASE, 30), sync(30)]
    );
}

#[test]
fn release_without_dual_role_keeps_the_candidate() {
    let mut mapper = InputMapper::create_mapper(vec![
        chord(&[KEY_A], &[KEY_X]),
        dual_role(KEY_CAPSLOCK, &[KEY_LEFTCTRL], &[KEY_ESC]),
    ]);
    send(&mut mapper, KEY_A, PRESS, 0);
    send(&mut mapper, KEY_CAPSLOCK, PRESS, 10);
    assert_eq!(mapper.tapping(), Some(KEY_CAPSLOCK));
    send(&mut mapper, KEY_A, RELEASE, 20);
    assert_eq!(mapper.tapping(), Some(KEY_CAPSLOCK));
    let up = send(&mut mapper, KEY_CAPSLOCK, RELEASE, 30);
    assert_eq!(up.len(), 6);
    assert_eq!(up[2], key(KEY_ESC, PRESS, 30));
}

#[test]
fn tap_with_no_tap_keys_writes_two_markers() {
    let mut mapper = InputMapper::create_mapper(vec![dual_role(KEY_CAPSLOCK, &[KEY_LEFTCTRL], &[])]);
    send(&mut mapper, KEY_CAPSLOCK, PRESS, 0);
    assert_eq!(
        send(&mut mapper, KEY_CAPSLOCK, RELEASE, 10),
        vec![key(KEY_LEFTCTRL, RELEASE, 10), sync(10), sync(10), sync(10)]
    );
}

#[test]
fn chord_precedence_larger_chord_listed_first() {
    let rules = || vec![chord(&[KEY_A, KEY_B], &[KEY_Y]), chord(&[KEY_A], &[KEY_X])];

    let mut alone = InputMapper::create_mapper(rules());
    assert_eq!(send(&mut alone, KEY_A, PRESS, 0), vec![key(KEY_X, PRESS, 0), sync(0)]);
    assert_eq!(held(&alone), vec![KEY_X]);

    let mut both = InputMapper::create_mapper(rules());
    assert_eq!(send(&mut both, KEY_B, PRESS, 0), vec![key(KEY_B, PRESS, 0), sync(0)]);
    assert_eq!(
        send(&mut both, KEY_A, PRESS, 10),
        vec![key(KEY_B, RELEASE, 10), sync(10), key(KEY_Y, PRESS, 10), sync(10)]
    );
    assert_eq!(held(&both), vec![KEY_Y]);
    assert_eq!(
        send(&mut both, KEY_B, RELEASE, 20),
        vec![key(KEY_Y, RELEASE, 20), sync(20), key(KEY_X, PRESS, 20), sync(20)]
    );
    assert_eq!(send(&mut both, KEY_A, RELEASE, 30), vec![key(KEY_X, RELEASE, 30), sync(30)]);
    assert!(both.output_keys().is_empty());
}

#[test]
fn chord_listed_first_consumes_its_key() {
    let mut mapper =
        InputMapper::create_mapper(vec![chord(&[KEY_A], &[KEY_X]), chord(&[KEY_A, KEY_B], &[KEY_Y])]);
    send(&mut mapper, KEY_B, PRESS, 0);
    assert_eq!(send(&mut mapper, KEY_A, PRESS, 10), vec![key(KEY_X, PRESS, 10), sync(10)]);
    assert_eq!(held(&mapper), vec![KEY_X, KEY_B]);
    send(&mut mapper, KEY_B, RELEASE, 20);
    send(&mut mapper, KEY_A, RELEASE, 30);
    assert!(mapper.output_keys().is_empty());
}

#[test]
fn lookup_prefers_the_largest_chord_whatever_the_order() {
    let mut mapper =
        InputMapper::create_mapper(vec![chord(&[KEY_A], &[KEY_X]), chord(&[KEY_A, KEY_B], &[KEY_Y])]);
    assert_eq!(mapper.lookup_mapping(KEY_B), None);
    send(&mut mapper, KEY_A, PRESS, 0);
    assert_eq!(mapper.lookup_mapping(KEY_A), Some(&chord(&[KEY_A], &[KEY_X])));
    assert_eq!(mapper.lookup_mapping(KEY_B), Some(&chord(&[KEY_A, KEY_B], &[KEY_Y])));
    send(&mut mapper, KEY_B, PRESS, 10);
    assert_eq!(mapper.lookup_mapping(KEY_A), Some(&chord(&[KEY_A, KEY_B], &[KEY_Y])));
    assert_eq!(mapper.lookup_mapping(KEY_K), None);
}

#[test]
fn lookup_takes_the_earlier_of_two_chords_of_one_size() {
    let mapper = InputMapper::create_mapper(vec![chord(&[KEY_A], &[KEY_X]), chord(&[KEY_A], &[KEY_Y])]);
    assert_eq!(mapper.lookup_mapping(KEY_A), Some(&chord(&[KEY_A], &[KEY_X])));
}

#[test]
fn lookup_prefers_dual_role_over_any_chord() {
    let mapper = InputMapper::create_mapper(vec![
        chord(&[KEY_CAPSLOCK], &[KEY_X]),
        dual_role(KEY_CAPSLOCK, &[KEY_LEFTCTRL], &[KEY_ESC]),
        dual_role(KEY_CAPSLOCK, &[KEY_LEFTSHIFT], &[KEY_Y]),
    ]);
    let first = dual_role(KEY_CAPSLOCK, &[KEY_LEFTCTRL], &[KEY_ESC]);
    assert_eq!(mapper.lookup_mapping(KEY_CAPSLOCK), Some(&first));
    assert_eq!(mapper.lookup_dual_role_mapping(KEY_CAPSLOCK), Some(&first));
    assert_eq!(mapper.lookup_dual_role_mapping(KEY_A), None);
}

#[test]
fn modifier_is_pressed_first_and_released_last() {
    let mut mapper = InputMapper::create_mapper(vec![chord(&[KEY_F1], &[KEY_C, KEY_LEFTCTRL])]);
    assert_eq!(
        send(&mut mapper, KEY_F1, PRESS, 0),
        vec![key(KEY_LEFTCTRL, PRESS, 0), key(KEY_C, PRESS, 0), sync(0)]
    );
    assert_eq!(
        send(&mut mapper, KEY_F1, RELEASE, 40),
        vec![key(KEY_C, RELEASE, 40), key(KEY_LEFTCTRL, RELEASE, 40), sync(40)]
    );
}

#[test]
fn several_keys_of_one_class_are_all_written() {
    let mut mapper =
        InputMapper::create_mapper(vec![chord(&[KEY_F1], &[KEY_A, KEY_B, KEY_LEFTCTRL, KEY_LEFTSHIFT])]);
    let down = send(&mut mapper, KEY_F1, PRESS, 0);
    assert_eq!(down.len(), 5);
    let mut modifiers = vec![down[0], down[1]];
    modifiers.sort_by_key(|e| e.event_code == EventCode::Key(KEY_LEFTSHIFT));
    assert_eq!(modifiers, vec![key(KEY_LEFTCTRL, PRESS, 0), key(KEY_LEFTSHIFT, PRESS, 0)]);
    let mut others = vec![down[2], down[3]];
    others.sort_by_key(|e| e.event_code == EventCode::Key(KEY_B));
    assert_eq!(others, vec![key(KEY_A, PRESS, 0), key(KEY_B, PRESS, 0)]);
    assert_eq!(down[4], sync(0));

    let up = send(&mut mapper, KEY_F1, RELEASE, 10);
    assert_eq!(up.len(), 5);
    for event in &up[0..2] {
        assert!(matches!(event.event_code, EventCode::Key(KEY_A) | EventCode::Key(KEY_B)));
        assert_eq!(event.value, RELEASE);
    }
    for event in &up[2..4] {
        assert!(matches!(
            event.event_code,
            EventCode::Key(KEY_LEFTCTRL) | EventCode::Key(KEY_LEFTSHIFT)
        ));
    }
    assert!(mapper.output_keys().is_empty());
}

#[test]
fn reconciliation_twice_writes_nothing_the_second_time() {
    let mut mapper = InputMapper::create_mapper(vec![chord(&[KEY_F1], &[KEY_C, KEY_LEFTCTRL])]);
    send(&mut mapper, KEY_F1, PRESS, 0);
    let mut out: Vec<InputEvent> = Vec::new();
    mapper.compute_and_apply_keys(&at(5), &mut out);
    assert_eq!(out, vec![]);
    mapper.compute_and_apply_keys(&at(6), &mut out);
    assert_eq!(out, vec![]);
    assert_eq!(held(&mapper), vec![KEY_LEFTCTRL, KEY_C]);
}

#[test]
fn modifier_is_shared_by_two_chords() {
    let mut mapper = InputMapper::create_mapper(vec![
        chord(&[KEY_LEFTCTRL, KEY_C], &[KEY_X]),
        chord(&[KEY_LEFTCTRL, KEY_V], &[KEY_Y]),
    ]);
    assert_eq!(
        send(&mut mapper, KEY_LEFTCTRL, PRESS, 0),
        vec![key(KEY_LEFTCTRL, PRESS, 0), sync(0)]
    );
    assert_eq!(
        send(&mut mapper, KEY_C, PRESS, 10),
        vec![key(KEY_LEFTCTRL, RELEASE, 10), sync(10), key(KEY_X, PRESS, 10), sync(10)]
    );
    assert_eq!(
        send(&mut mapper, KEY_C, RELEASE, 20),
        vec![key(KEY_X, RELEASE, 20), sync(20), key(KEY_LEFTCTRL, PRESS, 20), sync(20)]
    );
    assert_eq!(
        send(&mut mapper, KEY_V, PRESS, 30),
        vec![key(KEY_LEFTCTRL, RELEASE, 30), sync(30), key(KEY_Y, PRESS, 30), sync(30)]
    );
    assert_eq!(
        send(&mut mapper, KEY_V, RELEASE, 40),
        vec![key(KEY_Y, RELEASE, 40), sync(40), key(KEY_LEFTCTRL, PRESS, 40), sync(40)]
    );
    assert_eq!(
        send(&mut mapper, KEY_LEFTCTRL, RELEASE, 50),
        vec![key(KEY_LEFTCTRL, RELEASE, 50), sync(50)]
    );
    assert!(mapper.output_keys().is_empty());
}

#[test]
fn modifier_serves_two_chords_at_once() {
    let mut mapper = InputMapper::create_mapper(vec![
        chord(&[KEY_LEFTCTRL, KEY_C], &[KEY_X]),
        chord(&[KEY_LEFTCTRL, KEY_V], &[KEY_Y]),
    ]);
    send(&mut mapper, KEY_LEFTCTRL, PRESS, 0);
    send(&mut mapper, KEY_C, PRESS, 10);
    assert_eq!(send(&mut mapper, KEY_V, PRESS, 20), vec![key(KEY_Y, PRESS, 20), sync(20)]);
    assert_eq!(held(&mapper), vec![KEY_Y, KEY_X]);
    let keys = mapper.compute_keys();
    assert_eq!(keys, set_of(&[KEY_X, KEY_Y]));
}

#[test]
fn non_modifier_is_consumed_by_the_first_chord() {
    let mut mapper = InputMapper::create_mapper(vec![
        chord(&[KEY_A, KEY_C], &[KEY_X]),
        chord(&[KEY_A, KEY_V], &[KEY_Y]),
    ]);
    send(&mut mapper, KEY_A, PRESS, 0);
    send(&mut mapper, KEY_C, PRESS, 10);
    send(&mut mapper, KEY_V, PRESS, 20);
    assert_eq!(mapper.compute_keys(), set_of(&[KEY_X, KEY_V]));
}

#[test]
fn chord_output_is_no_input_for_a_later_chord() {
    let mut mapper =
        InputMapper::create_mapper(vec![chord(&[KEY_A], &[KEY_B]), chord(&[KEY_B], &[KEY_C])]);
    send(&mut mapper, KEY_A, PRESS, 0);
    assert_eq!(held(&mapper), vec![KEY_B]);
}

#[test]
fn hold_key_of_a_dual_role_can_make_a_chord() {
    let mut mapper = InputMapper::create_mapper(vec![
        dual_role(KEY_CAPSLOCK, &[KEY_LEFTCTRL], &[KEY_ESC]),
        chord(&[KEY_LEFTCTRL, KEY_C], &[KEY_X]),
    ]);
    send(&mut mapper, KEY_CAPSLOCK, PRESS, 0);
    assert_eq!(
        send(&mut mapper, KEY_C, PRESS, 10),
        vec![key(KEY_LEFTCTRL, RELEASE, 10), sync(10), key(KEY_X, PRESS, 10), sync(10)]
    );
}

#[test]
fn repeat_of_a_dual_role_key_repeats_its_hold_keys() {
    let mut mapper = InputMapper::create_mapper(vec![dual_role(
        KEY_CAPSLOCK,
        &[KEY_LEFTCTRL, KEY_LEFTSHIFT],
        &[KEY_ESC],
    )]);
    send(&mut mapper, KEY_CAPSLOCK, PRESS, 0);
    assert_eq!(
        send(&mut mapper, KEY_CAPSLOCK, REPEAT, 250),
        vec![key(KEY_LEFTCTRL, REPEAT, 250), key(KEY_LEFTSHIFT, REPEAT, 250), sync(250)]
    );
    assert_eq!(mapper.tapping(), Some(KEY_CAPSLOCK));
}

#[test]
fn repeat_of_a_chord_key_repeats_its_output() {
    let mut mapper = InputMapper::create_mapper(vec![chord(&[KEY_A], &[KEY_X])]);
    send(&mut mapper, KEY_A, PRESS, 0);
    assert_eq!(send(&mut mapper, KEY_A, REPEAT, 300), vec![key(KEY_X, REPEAT, 300), sync(300)]);
    assert_eq!(held(&mapper), vec![KEY_X]);
}

#[test]
fn repeat_of_an_unmatched_key_passes_through() {
    let mut mapper = caps_as_ctrl_or_esc();
    send(&mut mapper, KEY_CAPSLOCK, PRESS, 0);
    assert_eq!(mapper.tapping(), Some(KEY_CAPSLOCK));
    assert_eq!(send(&mut mapper, KEY_K, REPEAT, 10), vec![key(KEY_K, REPEAT, 10), sync(10)]);
    assert_eq!(mapper.tapping(), None);
    assert!(mapper.is_output_pressed(KEY_K));
    assert!(!mapper.is_pressed(KEY_K));
}

#[test]
fn unknown_value_passes_through_and_changes_nothing() {
    let mut mapper = caps_as_ctrl_or_esc();
    send(&mut mapper, KEY_CAPSLOCK, PRESS, 0);
    assert_eq!(send(&mut mapper, KEY_CAPSLOCK, 7, 10), vec![key(KEY_CAPSLOCK, 7, 10), sync(10)]);
    assert_eq!(send(&mut mapper, KEY_A, -1, 20), vec![key(KEY_A, -1, 20), sync(20)]);
    assert_eq!(mapper.tapping(), Some(KEY_CAPSLOCK));
    assert_eq!(held(&mapper), vec![KEY_LEFTCTRL]);
    assert!(mapper.is_pressed(KEY_CAPSLOCK));
}

#[test]
fn release_of_a_key_never_seen_down_passes_through() {
    let mut mapper = caps_as_ctrl_or_esc();
    assert_eq!(
        send(&mut mapper, KEY_CAPSLOCK, RELEASE, 0),
        vec![key(KEY_CAPSLOCK, RELEASE, 0), sync(0)]
    );
    assert_eq!(mapper.tapping(), None);
    assert!(mapper.output_keys().is_empty());
}

#[test]
fn write_event_keeps_the_log_of_what_is_held() {
    let mut mapper = InputMapper::create_mapper(vec![]);
    let mut out: Vec<InputEvent> = Vec::new();
    mapper.write_event(&key(KEY_A, PRESS, 0), &mut out);
    mapper.write_event(&key(KEY_B, REPEAT, 1), &mut out);
    mapper.write_event(&key(KEY_C, 9, 2), &mut out);
    mapper.write_event(&sync(3), &mut out);
    assert_eq!(held(&mapper), vec![KEY_A, KEY_B]);
    mapper.write_event(&key(KEY_A, RELEASE, 4), &mut out);
    assert_eq!(held(&mapper), vec![KEY_B]);
    assert_eq!(out.len(), 5);
    assert_eq!(out[2], key(KEY_C, 9, 2));
}

#[test]
fn emit_keys_writes_one_batch_with_one_marker() {
    let mut mapper = InputMapper::create_mapper(vec![]);
    let mut out: Vec<InputEvent> = vec![sync(0)];
    mapper.emit_keys(&vec![KEY_A, KEY_B], &at(1), KeyEventType::Press, &mut out);
    assert_eq!(out, vec![sync(0), key(KEY_A, PRESS, 1), key(KEY_B, PRESS, 1), sync(1)]);
    mapper.emit_keys(&vec![], &at(2), KeyEventType::Release, &mut out);
    assert_eq!(out.len(), 5);
    assert_eq!(out[4], sync(2));
    mapper.write_event_and_sync(&key(KEY_A, RELEASE, 3), &mut out);
    assert_eq!(out[5], key(KEY_A, RELEASE, 3));
    assert_eq!(out[6], sync(3));
    mapper.generate_sync_event(&at(4), &mut out);
    assert_eq!(out[7], sync(4));
    assert_eq!(held(&mapper), vec![KEY_B]);
}

#[test]
fn cancel_pending_tap_forgets_the_candidate() {
    let mut mapper = caps_as_ctrl_or_esc();
    send(&mut mapper, KEY_CAPSLOCK, PRESS, 0);
    mapper.cancel_pending_tap();
    assert_eq!(mapper.tapping(), None);
    assert_eq!(
        send(&mut mapper, KEY_CAPSLOCK, RELEASE, 10),
        vec![key(KEY_LEFTCTRL, RELEASE, 10), sync(10)]
    );
}

#[test]
fn handle_read_routes_by_status_and_kind_of_event() {
    let mut mapper = caps_as_ctrl_or_esc();
    let pressed = mapper.handle_read(ReadStatus::Success, &key(KEY_CAPSLOCK, PRESS, 0));
    assert_eq!(pressed, Ok(vec![key(KEY_LEFTCTRL, PRESS, 0), sync(0)]));

    let motion =
        InputEvent::new(&at(1), &EventCode::Other { event_type: 2, event_code: 0 }, -3);
    assert_eq!(mapper.handle_read(ReadStatus::Success, &motion), Ok(vec![motion]));
    assert_eq!(mapper.handle_read(ReadStatus::Success, &sync(2)), Ok(vec![sync(2)]));

    let lost = mapper.handle_read(ReadStatus::Sync, &key(KEY_CAPSLOCK, RELEASE, 3));
    assert_eq!(lost, Err(MapperError::Desynchronized));
    assert!(mapper.is_pressed(KEY_CAPSLOCK));
    assert_eq!(held(&mapper), vec![KEY_LEFTCTRL]);
}

#[test]
fn output_capabilities_name_every_key_a_rule_can_write() {
    let rules = vec![
        dual_role(KEY_CAPSLOCK, &[KEY_LEFTCTRL], &[KEY_ESC]),
        chord(&[KEY_A, KEY_B], &[KEY_X, KEY_Y]),
        chord(&[KEY_C], &[KEY_X]),
    ];
    let keys: HashSet<u16> = output_capabilities(&rules).into_iter().collect();
    assert_eq!(keys, set_of(&[KEY_LEFTCTRL, KEY_ESC, KEY_X, KEY_Y]));
    assert!(output_capabilities(&vec![]).is_empty());
}

fn replay(held: &mut HashSet<u16>, written: &[InputEvent]) {
    for event in written {
        if let EventCode::Key(code) = event.event_code {
            match event.value {
                PRESS | REPEAT => {
                    held.insert(code);
                }
                RELEASE => {
                    held.remove(&code);
                }
                _ => {}
            }
        }
    }
}

#[test]
fn held_keys_are_what_the_written_events_leave_pressed() {
    let mut mapper = InputMapper::create_mapper(vec![
        dual_role(KEY_CAPSLOCK, &[KEY_LEFTCTRL], &[KEY_ESC]),
        chord(&[KEY_LEFTCTRL, KEY_C], &[KEY_X]),
        chord(&[KEY_A, KEY_B], &[KEY_Y, KEY_LEFTSHIFT]),
        chord(&[KEY_A], &[KEY_K]),
    ]);
    let script: Vec<(u16, i32)> = vec![
        (KEY_CAPSLOCK, PRESS),
        (KEY_C, PRESS),
        (KEY_C, REPEAT),
        (KEY_A, PRESS),
        (KEY_B, PRESS),
        (KEY_V, REPEAT),
        (KEY_C, RELEASE),
        (KEY_CAPSLOCK, REPEAT),
        (KEY_CAPSLOCK, RELEASE),
        (KEY_F1, 5),
        (KEY_A, RELEASE),
        (KEY_F1, RELEASE),
        (KEY_B, RELEASE),
        (KEY_CAPSLOCK, PRESS),
        (KEY_CAPSLOCK, RELEASE),
        (KEY_V, RELEASE),
    ];
    let mut held_keys: HashSet<u16> = HashSet::new();
    let mut millis: i64 = 0;
    for (code, value) in script {
        millis += 7;
        let out = send(&mut mapper, code, value, millis);
        replay(&mut held_keys, &out);
        let now: HashSet<u16> = mapper.output_keys().into_iter().collect();
        assert_eq!(now, held_keys);
        for event in &out {
            assert_eq!(event.time, at(millis));
        }
        assert!(out.is_empty() || *out.last().unwrap() == sync(millis));
    }
    assert!(held_keys.is_empty());
}

#[test]
fn releasing_the_last_key_leaves_nothing_held() {
    let mut mapper = InputMapper::create_mapper(vec![
        dual_role(KEY_CAPSLOCK, &[KEY_LEFTCTRL, KEY_LEFTSHIFT], &[KEY_ESC, KEY_LEFTCTRL]),
        chord(&[KEY_A], &[KEY_X, KEY_Y]),
    ]);
    send(&mut mapper, KEY_CAPSLOCK, PRESS, 0);
    send(&mut mapper, KEY_A, PRESS, 10);
    assert_eq!(held(&mapper), vec![KEY_Y, KEY_LEFTCTRL, KEY_LEFTSHIFT, KEY_X]);
    send(&mut mapper, KEY_A, RELEASE, 20);
    send(&mut mapper, KEY_CAPSLOCK, RELEASE, 30);
    assert!(mapper.output_keys().is_empty());
    send(&mut mapper, KEY_CAPSLOCK, PRESS, 40);
    let tapped = send(&mut mapper, KEY_CAPSLOCK, RELEASE, 50);
    assert_eq!(tapped.len(), 9);
    assert!(mapper.output_keys().is_empty());
}
