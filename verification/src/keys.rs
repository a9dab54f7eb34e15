//! Key vocabulary: key codes, the modifier class, the kinds of key event and
//! the two orders in which a batch of keys is written.

use std::cmp::Ordering;
use vstd::prelude::*;

verus! {

/// A key, identified by its numeric code in the kernel's key vocabulary.
pub type KeyCode = u16;

/// The left Ctrl key.
pub const KEY_LEFTCTRL: KeyCode = 29;

/// The left Shift key.
pub const KEY_LEFTSHIFT: KeyCode = 42;

/// The right Shift key.
pub const KEY_RIGHTSHIFT: KeyCode = 54;

/// The left Alt key.
pub const KEY_LEFTALT: KeyCode = 56;

/// The right Ctrl key.
pub const KEY_RIGHTCTRL: KeyCode = 97;

/// The right Alt key.
pub const KEY_RIGHTALT: KeyCode = 100;

/// The left Meta key.
pub const KEY_LEFTMETA: KeyCode = 125;

/// The right Meta key.
pub const KEY_RIGHTMETA: KeyCode = 126;

/// The key that selects the function layer.
pub const KEY_FN: KeyCode = 464;

/// The value carried by a release event.
pub const VALUE_RELEASE: i32 = 0;

/// The value carried by a press event.
pub const VALUE_PRESS: i32 = 1;

/// The value carried by a repeat event.
pub const VALUE_REPEAT: i32 = 2;

/// What a key event reports. `Unknown` keeps the raw value so that the event
/// can be handed on unchanged.
#[derive(Clone, Copy, Debug, PartialEq, Eq, Structural)]
pub enum KeyEventType {
    Release,
    Press,
    Repeat,
    Unknown(i32),
}

/// The kind of event that a raw value stands for.
pub open spec fn kind_of(value: i32) -> KeyEventType {
    if value == VALUE_RELEASE {
        KeyEventType::Release
    } else if value == VALUE_PRESS {
        KeyEventType::Press
    } else if value == VALUE_REPEAT {
        KeyEventType::Repeat
    } else {
        KeyEventType::Unknown(value)
    }
}

impl KeyEventType {
    /// The raw value that this kind of event carries.
    pub open spec fn spec_value(&self) -> i32 {
        match *self {
            KeyEventType::Release => VALUE_RELEASE,
            KeyEventType::Press => VALUE_PRESS,
            KeyEventType::Repeat => VALUE_REPEAT,
            KeyEventType::Unknown(n) => n,
        }
    }

    /// Classifies a raw event value.
    pub fn from_value(value: i32) -> (kind: KeyEventType)
        ensures
            kind == kind_of(value),
            kind.spec_value() == value,
    {
        match value {
            0 => KeyEventType::Release,
            1 => KeyEventType::Press,
            2 => KeyEventType::Repeat,
            _ => KeyEventType::Unknown(value),
        }
    }

    /// The raw value of this kind of event.
    #[verifier::when_used_as_spec(spec_value)]
    pub fn value(&self) -> (v: i32)
        ensures
            v == self.spec_value(),
    {
        match self {
            KeyEventType::Release => 0,
            KeyEventType::Press => 1,
            KeyEventType::Repeat => 2,
            KeyEventType::Unknown(n) => *n,
        }
    }
}

/// The fixed, closed class of modifier keys: both Ctrl, Shift, Alt and Meta
/// keys and the function-layer key.
pub open spec fn spec_is_modifier(key: KeyCode) -> bool {
    key == KEY_FN || key == KEY_LEFTALT || key == KEY_RIGHTALT || key == KEY_LEFTMETA || key
        == KEY_RIGHTMETA || key == KEY_LEFTCTRL || key == KEY_RIGHTCTRL || key == KEY_LEFTSHIFT
        || key == KEY_RIGHTSHIFT
}

/// Whether `key` belongs to the modifier class.
pub fn is_modifier(key: &KeyCode) -> (b: bool)
    ensures
        b == spec_is_modifier(*key),
{
    let k: KeyCode = *key;
    k == KEY_FN || k == KEY_LEFTALT || k == KEY_RIGHTALT || k == KEY_LEFTMETA || k
        == KEY_RIGHTMETA || k == KEY_LEFTCTRL || k == KEY_RIGHTCTRL || k == KEY_LEFTSHIFT || k
        == KEY_RIGHTSHIFT
}

/// The order that puts modifiers ahead of all other keys and leaves keys of
/// one class unordered.
pub open spec fn modifiers_first_order(a: KeyCode, b: KeyCode) -> Ordering {
    if spec_is_modifier(a) && !spec_is_modifier(b) {
        Ordering::Less
    } else if !spec_is_modifier(a) && spec_is_modifier(b) {
        Ordering::Greater
    } else {
        Ordering::Equal
    }
}

/// The order that puts modifiers behind all other keys: the reverse of
/// [`modifiers_first_order`].
pub open spec fn modifiers_last_order(a: KeyCode, b: KeyCode) -> Ordering {
    modifiers_first_order(b, a)
}

/// Compares two keys so that modifiers sort ahead of non-modifiers.
pub fn modifiers_first(a: &KeyCode, b: &KeyCode) -> (o: Ordering)
    ensures
        o == modifiers_first_order(*a, *b),
{
    if is_modifier(a) {
        if is_modifier(b) {
            Ordering::Equal
        } else {
            Ordering::Less
        }
    } else if is_modifier(b) {
        Ordering::Greater
    } else {
        Ordering::Equal
    }
}

/// Compares two keys so that modifiers sort behind non-modifiers.
pub fn modifiers_last(a: &KeyCode, b: &KeyCode) -> (o: Ordering)
    ensures
        o == modifiers_last_order(*a, *b),
{
    match modifiers_first(a, b) {
        Ordering::Less => Ordering::Greater,
        Ordering::Equal => Ordering::Equal,
        Ordering::Greater => Ordering::Less,
    }
}

/// The two orders in which a batch of keys is written.
#[derive(Clone, Copy, Debug, PartialEq, Eq, Structural)]
pub enum KeyOrder {
    ModifiersFirst,
    ModifiersLast,
}

/// Every key that stands ahead of a modifier is a modifier.
pub open spec fn modifiers_come_first(keys: Seq<KeyCode>) -> bool {
    forall|i: int, j: int|
        0 <= i < j < keys.len() && spec_is_modifier(keys[j]) ==> spec_is_modifier(keys[i])
}

/// Every key that stands behind a modifier is a modifier.
pub open spec fn modifiers_come_last(keys: Seq<KeyCode>) -> bool {
    forall|i: int, j: int|
        0 <= i < j < keys.len() && spec_is_modifier(keys[i]) ==> spec_is_modifier(keys[j])
}

/// Whether `keys` stands in the order `order`.
pub open spec fn in_order(keys: Seq<KeyCode>, order: KeyOrder) -> bool {
    match order {
        KeyOrder::ModifiersFirst => modifiers_come_first(keys),
        KeyOrder::ModifiersLast => modifiers_come_last(keys),
    }
}

/// Whether `order` demands that `a` is written before `b`.
pub open spec fn must_precede(a: KeyCode, b: KeyCode, order: KeyOrder) -> bool {
    match order {
        KeyOrder::ModifiersFirst => spec_is_modifier(a) && !spec_is_modifier(b),
        KeyOrder::ModifiersLast => !spec_is_modifier(a) && spec_is_modifier(b),
    }
}

/// Decides by the comparator of `order` whether `a` has to be written
/// before `b`.
pub fn precedes(a: &KeyCode, b: &KeyCode, order: KeyOrder) -> (before: bool)
    ensures
        before == must_precede(*a, *b, order),
{
    let o = match order {
        KeyOrder::ModifiersFirst => modifiers_first(a, b),
        KeyOrder::ModifiersLast => modifiers_last(a, b),
    };
    match o {
        Ordering::Less => true,
        Ordering::Equal => false,
        Ordering::Greater => false,
    }
}

/// The class of the keys that `order` writes first.
pub open spec fn first_class(order: KeyOrder) -> spec_fn(KeyCode) -> bool {
    match order {
        KeyOrder::ModifiersFirst => |key: KeyCode| spec_is_modifier(key),
        KeyOrder::ModifiersLast => |key: KeyCode| !spec_is_modifier(key),
    }
}

/// The class of the keys that `order` writes last.
pub open spec fn last_class(order: KeyOrder) -> spec_fn(KeyCode) -> bool {
    match order {
        KeyOrder::ModifiersFirst => |key: KeyCode| !spec_is_modifier(key),
        KeyOrder::ModifiersLast => |key: KeyCode| spec_is_modifier(key),
    }
}

/// `keys` in the order `order`: the keys of the class that goes first, then
/// the others, each class in the order in which its keys came.
pub open spec fn sorted_keys(keys: Seq<KeyCode>, order: KeyOrder) -> Seq<KeyCode> {
    keys.filter(first_class(order)) + keys.filter(last_class(order))
}

/// Sorts `keys` into the order `order`. The sort is stable: keys of one
/// class keep the order in which they came.
pub fn sort_keys(keys: Vec<KeyCode>, order: KeyOrder) -> (sorted: Vec<KeyCode>)
    ensures
        sorted@ == sorted_keys(keys@, order),
        sorted@.to_multiset() == keys@.to_multiset(),
        in_order(sorted@, order),
{
    let ghost first = first_class(order);
    let ghost last = last_class(order);
    let mut sorted: Vec<KeyCode> = Vec::new();
    let mut n: usize = 0;
    proof {
        reveal(Seq::filter);
        assert(keys@.take(0).filter(first) =~= Seq::empty());
        assert(keys@.take(0).filter(last) =~= Seq::empty());
        assert(sorted@ =~= sorted_keys(keys@.take(0), order));
    }
    while n < keys.len()
        invariant
            n <= keys.len(),
            first == first_class(order),
            last == last_class(order),
            sorted@ == sorted_keys(keys@.take(n as int), order),
            sorted@.to_multiset() == keys@.take(n as int).to_multiset(),
            in_order(sorted@, order),
        decreases keys.len() - n,
    {
        let key: KeyCode = keys[n];
        let mut at: usize = 0;
        while at < sorted.len() && !precedes(&key, &sorted[at], order)
            invariant
                at <= sorted.len(),
                forall|i: int| 0 <= i < at ==> !must_precede(key, sorted@[i], order),
            decreases sorted.len() - at,
        {
            at = at + 1;
        }
        proof {
            let seen = keys@.take(n as int);
            let head = seen.filter(first);
            let tail = seen.filter(last);
            sorted@.insert_ensures(at as int, key);
            vstd::seq_lib::to_multiset_insert(sorted@, at as int, key);
            vstd::seq_lib::to_multiset_build(seen, key);
            assert(keys@.take(n + 1) =~= seen.push(key));
            seen.lemma_filter_push(key, first);
            seen.lemma_filter_push(key, last);
            assert forall|i: int| 0 <= i < head.len() implies first(#[trigger] head[i]) by {
                seen.lemma_filter_pred(first, i);
            }
            assert forall|i: int| 0 <= i < tail.len() implies last(#[trigger] tail[i]) by {
                seen.lemma_filter_pred(last, i);
            }
            if first(key) {
                if at < head.len() {
                    assert(sorted@[at as int] == head[at as int]);
                }
                if at > head.len() {
                    assert(sorted@[head.len() as int] == tail[0]);
                }
                assert(at == head.len());
                assert(sorted@.insert(at as int, key) =~= head.push(key) + tail);
            } else {
                if at < sorted@.len() {
                    if at < head.len() {
                        assert(sorted@[at as int] == head[at as int]);
                    } else {
                        assert(sorted@[at as int] == tail[at - head.len()]);
                    }
                }
                assert(at == sorted@.len());
                assert(sorted@.insert(at as int, key) =~= head + tail.push(key));
            }
        }
        sorted.insert(at, key);
        n = n + 1;
    }
    assert(keys@.take(keys.len() as int) =~= keys@);
    sorted
}

} // verus!
