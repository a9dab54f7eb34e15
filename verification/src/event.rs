//! Timestamps and the event records that the engine reads and writes.

use crate::keys::{KeyCode, KeyEventType};
use vstd::prelude::*;

verus! {

/// A (seconds, microseconds) timestamp as the source device attaches it to
/// an event. Only differences between two of them are meaningful.
#[derive(Clone, Copy, Debug, PartialEq, Eq, Structural)]
pub struct TimeVal {
    pub tv_sec: i64,
    pub tv_usec: i64,
}

impl TimeVal {
    pub fn new(tv_sec: i64, tv_usec: i64) -> (t: TimeVal)
        ensures
            t.tv_sec == tv_sec,
            t.tv_usec == tv_usec,
    {
        TimeVal { tv_sec, tv_usec }
    }
}

/// Microseconds from `older` to `newer`; negative when `newer` lies before
/// `older`.
pub open spec fn elapsed_micros(newer: TimeVal, older: TimeVal) -> int {
    (newer.tv_sec - older.tv_sec) * 1_000_000 + (newer.tv_usec - older.tv_usec)
}

/// Two to the power of 64: the number of values of a `u64`.
pub open spec fn u64_span() -> int {
    0x1_0000_0000_0000_0000
}

/// A tap must be released at most this many microseconds after its press.
pub const TAP_WINDOW_MICROS: u64 = 200_000;

/// The microseconds elapsed from `older` to `newer` as an unsigned duration.
/// The difference is reduced modulo two to the power of 64, so a `newer`
/// that lies before `older` gives a very long duration, never a short one.
pub fn timeval_diff(newer: &TimeVal, older: &TimeVal) -> (micros: u64)
    ensures
        micros == elapsed_micros(*newer, *older) % u64_span(),
{
    let span: i128 = 0x1_0000_0000_0000_0000;
    let secs: i128 = newer.tv_sec as i128 - older.tv_sec as i128;
    let usecs: i128 = newer.tv_usec as i128 - older.tv_usec as i128;
    assert(-0x1_0000_0000_0000_0000 * 1_000_000 <= secs * 1_000_000 <= 0x1_0000_0000_0000_0000
        * 1_000_000) by (nonlinear_arith)
        requires
            -0x1_0000_0000_0000_0000 <= secs <= 0x1_0000_0000_0000_0000,
    ;
    let total: i128 = secs * 1_000_000 + usecs;
    if total >= 0 {
        let r: i128 = total % span;
        r as u64
    } else {
        let pos: i128 = -total;
        let r: i128 = pos % span;
        if r == 0 {
            assert(total % 0x1_0000_0000_0000_0000 == 0) by (nonlinear_arith)
                requires
                    (-total) % 0x1_0000_0000_0000_0000 == 0,
            ;
            0
        } else {
            assert(total % 0x1_0000_0000_0000_0000 == 0x1_0000_0000_0000_0000 - r)
                by (nonlinear_arith)
                requires
                    (-total) % 0x1_0000_0000_0000_0000 == r,
                    0 < r < 0x1_0000_0000_0000_0000,
            ;
            (span - r) as u64
        }
    }
}

/// Whether a key pressed at `pressed_at` and released at `released_at` was
/// held briefly enough to count as a tap.
pub open spec fn within_tap_window(released_at: TimeVal, pressed_at: TimeVal) -> bool {
    elapsed_micros(released_at, pressed_at) % u64_span() <= TAP_WINDOW_MICROS
}

/// What an event is about: a key, the report marker that ends a batch of
/// events, or anything else the device may send.
#[derive(Clone, Copy, Debug, PartialEq, Eq, Structural)]
pub enum EventCode {
    Key(KeyCode),
    SynReport,
    Other { event_type: u32, event_code: u32 },
}

/// One event of the source or of the virtual device.
#[derive(Clone, Copy, Debug, PartialEq, Eq, Structural)]
pub struct InputEvent {
    pub time: TimeVal,
    pub event_code: EventCode,
    pub value: i32,
}

impl InputEvent {
    pub fn new(time: &TimeVal, code: &EventCode, value: i32) -> (e: InputEvent)
        ensures
            e == (InputEvent { time: *time, event_code: *code, value }),
    {
        InputEvent { time: *time, event_code: *code, value }
    }
}

/// The event that reports `event_type` of `key` at `time`.
pub open spec fn key_event(key: KeyCode, time: TimeVal, event_type: KeyEventType) -> InputEvent {
    InputEvent { time, event_code: EventCode::Key(key), value: event_type.spec_value() }
}

/// The marker that closes a batch of events written at `time`.
pub open spec fn sync_event(time: TimeVal) -> InputEvent {
    InputEvent { time, event_code: EventCode::SynReport, value: 0 }
}

/// Builds the event that reports `event_type` of `key` at `time`.
pub fn make_event(key: KeyCode, time: &TimeVal, event_type: KeyEventType) -> (e: InputEvent)
    ensures
        e == key_event(key, *time, event_type),
{
    InputEvent::new(time, &EventCode::Key(key), event_type.value())
}

} // verus!
