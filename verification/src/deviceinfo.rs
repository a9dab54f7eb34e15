//! Input devices as the system lists them, and the choice of the one to
//! remap.

use vstd::prelude::*;
use vstd::utf8::encode_utf8;

verus! {

/// One input device: its display name, the path of its device node and its
/// physical address.
#[derive(Debug, Clone)]
pub struct DeviceInfo {
    pub name: String,
    pub path: String,
    pub phys: String,
}

/// Why no device was chosen.
#[derive(Debug)]
pub enum DeviceError {
    /// No device has the physical address that was asked for.
    PhysNotFound { name: String, phys: String },
    /// No device has the name that was asked for.
    NameNotFound { name: String },
}

/// The device at `i` is the first one with the physical address `phys`.
pub open spec fn is_first_with_phys(devices: Seq<DeviceInfo>, phys: Seq<char>, i: int) -> bool {
    &&& 0 <= i < devices.len()
    &&& devices[i].phys@ == phys
    &&& forall|j: int| 0 <= j < i ==> devices[j].phys@ != phys
}

/// The device at `i` is the first one with the name `name`.
pub open spec fn is_first_with_name(devices: Seq<DeviceInfo>, name: Seq<char>, i: int) -> bool {
    &&& 0 <= i < devices.len()
    &&& devices[i].name@ == name
    &&& forall|j: int| 0 <= j < i ==> devices[j].name@ != name
}

/// The first device with the physical address `phys`, if there is one.
pub open spec fn first_with_phys(devices: Seq<DeviceInfo>, phys: Seq<char>) -> Option<int> {
    if exists|i: int| is_first_with_phys(devices, phys, i) {
        Some(choose|i: int| is_first_with_phys(devices, phys, i))
    } else {
        None
    }
}

/// The first device with the name `name`, if there is one.
pub open spec fn first_with_name(devices: Seq<DeviceInfo>, name: Seq<char>) -> Option<int> {
    if exists|i: int| is_first_with_name(devices, name, i) {
        Some(choose|i: int| is_first_with_name(devices, name, i))
    } else {
        None
    }
}

/// The device that a configuration selects from `devices`.
///
/// A physical address, where one is given, decides alone: the first device
/// that has it is chosen, and the name is not looked at. Without one, the
/// first device with the name is chosen.
pub open spec fn selected(devices: Seq<DeviceInfo>, name: Seq<char>, phys: Option<Seq<char>>)
    -> Option<int> {
    match phys {
        Some(phys) => first_with_phys(devices, phys),
        None => first_with_name(devices, name),
    }
}

/// The view of an optional string.
pub open spec fn text_of(s: Option<&String>) -> Option<Seq<char>> {
    match s {
        Some(s) => Some(s@),
        None => None,
    }
}

impl DeviceInfo {
    /// The devices of `devices` that are named `name`, in their order.
    pub fn all_with_name(devices: Vec<DeviceInfo>, name: &String) -> (named: Vec<DeviceInfo>)
        ensures
            named@ == devices@.filter(|d: DeviceInfo| d.name@ == name@),
    {
        let ghost wanted = |d: DeviceInfo| d.name@ == name@;
        let mut devices = devices;
        let ghost all = devices@;
        let mut named: Vec<DeviceInfo> = Vec::new();
        let ghost mut taken: int = 0;
        proof {
            assert(all.take(0).filter(wanted) =~= Seq::empty()) by {
                reveal(Seq::filter);
            }
        }
        while devices.len() > 0
            invariant
                0 <= taken <= all.len(),
                devices@ == all.skip(taken),
                named@ == all.take(taken).filter(wanted),
                wanted == |d: DeviceInfo| d.name@ == name@,
            decreases devices.len(),
        {
            let device = devices.remove(0);
            proof {
                assert(device == all[taken]);
                assert(all.take(taken + 1) =~= all.take(taken).push(device));
                all.take(taken).lemma_filter_push(device, wanted);
                assert(devices@ =~= all.skip(taken + 1));
                taken = taken + 1;
            }
            if device.name == *name {
                named.push(device);
            }
        }
        assert(all.take(all.len() as int) =~= all);
        named
    }

    /// Chooses the device that a configuration names.
    ///
    /// Where `phys` is given, the first device with that physical address is
    /// returned, whatever its name. Otherwise the first device named `name`
    /// is. The error says which of the two was not found.
    pub fn with_name(devices: Vec<DeviceInfo>, name: &String, phys: Option<&String>) -> (found:
        Result<DeviceInfo, DeviceError>)
        ensures
            match selected(devices@, name@, text_of(phys)) {
                Some(i) => found matches Ok(device) && device == devices@[i],
                None => found matches Err(e) && match phys {
                    Some(phys) => e matches DeviceError::PhysNotFound { name: n, phys: p } && n@
                        == name@ && p@ == phys@,
                    None => e matches DeviceError::NameNotFound { name: n } && n@ == name@,
                },
            },
    {
        let ghost all = devices@;
        let mut rest = devices;
        let mut n: usize = 0;
        while n < rest.len()
            invariant
                n <= rest.len(),
                all == devices@,
                rest@ == all,
                match phys {
                    Some(phys) => forall|j: int| 0 <= j < n ==> all[j].phys@ != phys@,
                    None => forall|j: int| 0 <= j < n ==> all[j].name@ != name@,
                },
            decreases rest.len() - n,
        {
            let matches = match phys {
                Some(phys) => rest[n].phys == *phys,
                None => rest[n].name == *name,
            };
            if matches {
                proof {
                    match phys {
                        Some(phys) => {
                            assert(is_first_with_phys(all, phys@, n as int));
                            let i = first_with_phys(all, phys@)->0;
                            assert(is_first_with_phys(all, phys@, i));
                            assert(all[i].phys@ == phys@ && all[n as int].phys@ == phys@);
                        },
                        None => {
                            assert(is_first_with_name(all, name@, n as int));
                            let i = first_with_name(all, name@)->0;
                            assert(is_first_with_name(all, name@, i));
                            assert(all[i].name@ == name@ && all[n as int].name@ == name@);
                        },
                    }
                }
                let device = rest.remove(n);
                return Ok(device);
            }
            n = n + 1;
        }
        match phys {
            Some(phys) => Err(
                DeviceError::PhysNotFound { name: name.clone(), phys: phys.clone() },
            ),
            None => Err(DeviceError::NameNotFound { name: name.clone() }),
        }
    }
}

/// The bytes of the word that device nodes are named by.
pub open spec fn event_word() -> Seq<u8> {
    seq![101u8, 118u8, 101u8, 110u8, 116u8]
}

/// The word stands in `text` at the byte `i`.
pub open spec fn is_event_at(text: Seq<u8>, i: int) -> bool {
    &&& 0 <= i
    &&& i + 5 <= text.len()
    &&& text.subrange(i, i + 5) == event_word()
}

/// The word stands in `text` at the byte `i` and nowhere behind it.
pub open spec fn is_last_event_at(text: Seq<u8>, i: int) -> bool {
    &&& is_event_at(text, i)
    &&& forall|j: int| i < j ==> !is_event_at(text, j)
}

/// Where the word stands last in `text`, if it stands there at all.
pub open spec fn last_event_at(text: Seq<u8>) -> Option<int> {
    if exists|i: int| is_last_event_at(text, i) {
        Some(choose|i: int| is_last_event_at(text, i))
    } else {
        None
    }
}

/// Whether `byte` is a decimal digit.
pub open spec fn is_digit(byte: u8) -> bool {
    48 <= byte <= 57
}

/// The number that the decimal digits `digits` write.
pub open spec fn decimal_value(digits: Seq<u8>) -> nat
    decreases digits.len(),
{
    if digits.len() == 0 {
        0
    } else {
        decimal_value(digits.drop_last()) * 10 + (digits.last() - 48) as nat
    }
}

/// `text` without the plus sign that may stand in front of a number.
pub open spec fn without_sign(text: Seq<u8>) -> Seq<u8> {
    if text.len() > 0 && text[0] == 43 {
        text.skip(1)
    } else {
        text
    }
}

/// The number that `text` writes: an optional plus sign, then one or more
/// decimal digits and nothing else, of a value that a `u32` can hold.
pub open spec fn parsed_number(text: Seq<u8>) -> Option<u32> {
    let digits = without_sign(text);
    if digits.len() > 0 && (forall|i: int| 0 <= i < digits.len() ==> is_digit(digits[i]))
        && decimal_value(digits) <= u32::MAX {
        Some(decimal_value(digits) as u32)
    } else {
        None
    }
}

/// The number of the event device whose path is written by the bytes
/// `path`: what follows the last "event" in it, read as a number, and 0
/// where there is no such word or no number behind it.
pub open spec fn event_number(path: Seq<u8>) -> u32 {
    match last_event_at(path) {
        Some(i) => match parsed_number(path.skip(i + 5)) {
            Some(number) => number,
            None => 0,
        },
        None => 0,
    }
}

/// The digits read so far write no more than all the digits do.
proof fn lemma_decimal_prefix(digits: Seq<u8>, n: int)
    requires
        0 <= n <= digits.len(),
        forall|i: int| 0 <= i < digits.len() ==> is_digit(digits[i]),
    ensures
        decimal_value(digits.take(n)) <= decimal_value(digits),
    decreases digits.len() - n,
{
    if n == digits.len() {
        assert(digits.take(n) =~= digits);
    } else {
        lemma_decimal_prefix(digits, n + 1);
        assert(digits.take(n + 1).drop_last() =~= digits.take(n));
    }
}

/// Where "event" stands last in `bytes`.
fn rfind_event(bytes: &[u8]) -> (found: Option<usize>)
    ensures
        match found {
            Some(i) => is_last_event_at(bytes@, i as int),
            None => forall|i: int| !is_event_at(bytes@, i),
        },
{
    if bytes.len() < 5 {
        return None;
    }
    let mut i: usize = bytes.len() - 5;
    loop
        invariant
            i + 5 <= bytes.len(),
            forall|j: int| i < j ==> !is_event_at(bytes@, j),
        decreases i,
    {
        let here = bytes[i] == 101 && bytes[i + 1] == 118 && bytes[i + 2] == 101 && bytes[i + 3]
            == 110 && bytes[i + 4] == 116;
        if here {
            assert(bytes@.subrange(i as int, i + 5) =~= event_word());
            return Some(i);
        }
        proof {
            let part = bytes@.subrange(i as int, i + 5);
            assert(part[0] == bytes@[i as int] && part[1] == bytes@[i + 1] && part[2] == bytes@[i
                + 2] && part[3] == bytes@[i + 3] && part[4] == bytes@[i + 4]);
            assert(!is_event_at(bytes@, i as int));
        }
        if i == 0 {
            return None;
        }
        i = i - 1;
    }
}

/// Reads the number that `bytes` writes from the byte `from` on.
fn parse_number(bytes: &[u8], from: usize) -> (number: Option<u32>)
    requires
        from <= bytes.len(),
    ensures
        number == parsed_number(bytes@.skip(from as int)),
{
    let ghost text = bytes@.skip(from as int);
    let mut at: usize = from;
    if at < bytes.len() && bytes[at] == 43 {
        at = at + 1;
    }
    let ghost digits = without_sign(text);
    let start: usize = at;
    assert(digits =~= bytes@.skip(start as int));
    if at == bytes.len() {
        return None;
    }
    let mut value: u64 = 0;
    while at < bytes.len()
        invariant
            start <= at <= bytes.len(),
            start < bytes.len(),
            text == bytes@.skip(from as int),
            digits == bytes@.skip(start as int),
            digits == without_sign(text),
            forall|i: int| 0 <= i < at - start ==> is_digit(digits[i]),
            value == decimal_value(digits.take(at - start)),
            value <= u32::MAX,
        decreases bytes.len() - at,
    {
        let byte = bytes[at];
        assert(byte == digits[at - start]);
        if byte < 48 || byte > 57 {
            return None;
        }
        assert(digits.take(at - start + 1).drop_last() =~= digits.take(at - start));
        value = value * 10 + (byte - 48) as u64;
        if value > u32::MAX as u64 {
            proof {
                if forall|i: int| 0 <= i < digits.len() ==> is_digit(digits[i]) {
                    lemma_decimal_prefix(digits, at - start + 1);
                }
            }
            return None;
        }
        at = at + 1;
    }
    assert(digits.take(digits.len() as int) =~= digits);
    Some(value as u32)
}

/// The number of the event device at `path`.
pub fn event_number_from_path(path: &String) -> (number: u32)
    ensures
        number == event_number(encode_utf8(path@)),
{
    let bytes = path.as_str().as_bytes();
    let length = bytes.len();
    match rfind_event(bytes) {
        Some(idx) => {
            proof {
                let i = last_event_at(bytes@)->0;
                assert(is_last_event_at(bytes@, i));
                assert(i == idx);
                assert(is_event_at(bytes@, idx as int));
                assert(idx + 5 <= length);
            }
            match parse_number(bytes, idx + 5) {
                Some(number) => number,
                None => 0,
            }
        },
        None => 0,
    }
}

/// The byte string `a` comes before `b` in the order of strings: at the
/// first place where they differ `a` has the lesser byte, or `a` ends there
/// and `b` does not.
pub open spec fn bytes_before(a: Seq<u8>, b: Seq<u8>) -> bool
    decreases a.len(),
{
    if b.len() == 0 {
        false
    } else if a.len() == 0 {
        true
    } else if a[0] != b[0] {
        a[0] < b[0]
    } else {
        bytes_before(a.skip(1), b.skip(1))
    }
}

/// The device `a` is listed before `b`: its name comes first, or the names
/// are the same and its event number is the lesser.
pub open spec fn device_before(a: DeviceInfo, b: DeviceInfo) -> bool {
    let name_a = encode_utf8(a.name@);
    let name_b = encode_utf8(b.name@);
    bytes_before(name_a, name_b) || (name_a == name_b && event_number(encode_utf8(a.path@))
        < event_number(encode_utf8(b.path@)))
}

/// No device of `devices` is listed behind one that it should come before.
pub open spec fn devices_in_order(devices: Seq<DeviceInfo>) -> bool {
    forall|i: int, j: int| 0 <= i < j < devices.len() ==> !device_before(devices[j], devices[i])
}

/// No byte string comes before itself.
pub proof fn lemma_bytes_order_irreflexive(a: Seq<u8>)
    ensures
        !bytes_before(a, a),
    decreases a.len(),
{
    if a.len() > 0 {
        lemma_bytes_order_irreflexive(a.skip(1));
    }
}

/// Of two different byte strings exactly one comes before the other.
pub proof fn lemma_bytes_order_total(a: Seq<u8>, b: Seq<u8>)
    ensures
        a == b || bytes_before(a, b) || bytes_before(b, a),
        !(bytes_before(a, b) && bytes_before(b, a)),
    decreases a.len(),
{
    if a.len() == 0 || b.len() == 0 {
        if a.len() == 0 && b.len() == 0 {
            assert(a =~= b);
        }
    } else {
        lemma_bytes_order_total(a.skip(1), b.skip(1));
        if a[0] == b[0] && a.skip(1) == b.skip(1) {
            assert(a =~= seq![a[0]] + a.skip(1));
            assert(b =~= seq![b[0]] + b.skip(1));
        }
    }
}

/// No device is listed before itself.
pub proof fn lemma_device_order_irreflexive(a: DeviceInfo)
    ensures
        !device_before(a, a),
{
    lemma_bytes_order_irreflexive(encode_utf8(a.name@));
}

/// The order of byte strings is transitive.
pub proof fn lemma_bytes_order_transitive(a: Seq<u8>, b: Seq<u8>, c: Seq<u8>)
    requires
        bytes_before(a, b),
        bytes_before(b, c),
    ensures
        bytes_before(a, c),
    decreases a.len(),
{
    if a.len() > 0 && a[0] == b[0] && b[0] == c[0] {
        lemma_bytes_order_transitive(a.skip(1), b.skip(1), c.skip(1));
    }
}

/// The order of devices is transitive.
pub proof fn lemma_device_order_transitive(a: DeviceInfo, b: DeviceInfo, c: DeviceInfo)
    requires
        device_before(a, b),
        device_before(b, c),
    ensures
        device_before(a, c),
{
    let name_a = encode_utf8(a.name@);
    let name_b = encode_utf8(b.name@);
    let name_c = encode_utf8(c.name@);
    if bytes_before(name_a, name_b) && bytes_before(name_b, name_c) {
        lemma_bytes_order_transitive(name_a, name_b, name_c);
    }
}

/// Whether the bytes `a` come before the bytes `b` in the order of strings.
fn bytes_less(a: &[u8], b: &[u8]) -> (less: bool)
    ensures
        less == bytes_before(a@, b@),
{
    let mut n: usize = 0;
    assert(a@.skip(0) =~= a@ && b@.skip(0) =~= b@);
    while n < a.len() && n < b.len() && a[n] == b[n]
        invariant
            n <= a.len(),
            n <= b.len(),
            bytes_before(a@, b@) == bytes_before(a@.skip(n as int), b@.skip(n as int)),
        decreases a.len() - n,
    {
        assert(a@.skip(n as int).skip(1) =~= a@.skip(n + 1));
        assert(b@.skip(n as int).skip(1) =~= b@.skip(n + 1));
        n = n + 1;
    }
    if n == b.len() {
        false
    } else if n == a.len() {
        true
    } else {
        a[n] < b[n]
    }
}

/// Whether `a` is to be listed before `b`.
pub fn listed_before(a: &DeviceInfo, b: &DeviceInfo) -> (before: bool)
    ensures
        before == device_before(*a, *b),
{
    let name_a = a.name.as_str().as_bytes();
    let name_b = b.name.as_str().as_bytes();
    proof {
        lemma_bytes_order_total(name_a@, name_b@);
    }
    if bytes_less(name_a, name_b) {
        true
    } else if bytes_less(name_b, name_a) {
        false
    } else {
        event_number_from_path(&a.path) < event_number_from_path(&b.path)
    }
}

/// Sorts devices by name and, among devices of one name, by event number.
pub fn sort_devices(devices: Vec<DeviceInfo>) -> (sorted: Vec<DeviceInfo>)
    ensures
        sorted@.to_multiset() == devices@.to_multiset(),
        devices_in_order(sorted@),
{
    let ghost all = devices@;
    let mut rest = devices;
    let mut sorted: Vec<DeviceInfo> = Vec::new();
    let ghost mut taken: int = 0;
    assert(sorted@ =~= all.take(0));
    while rest.len() > 0
        invariant
            all == devices@,
            0 <= taken <= all.len(),
            rest@ == all.skip(taken),
            sorted@.to_multiset() == all.take(taken).to_multiset(),
            devices_in_order(sorted@),
        decreases rest.len(),
    {
        let device = rest.remove(0);
        let mut at: usize = 0;
        while at < sorted.len() && !listed_before(&device, &sorted[at])
            invariant
                at <= sorted.len(),
                forall|i: int| 0 <= i < at ==> !device_before(device, sorted@[i]),
            decreases sorted.len() - at,
        {
            at = at + 1;
        }
        proof {
            assert(device == all[taken]);
            assert(rest@ =~= all.skip(taken + 1));
            assert(all.take(taken + 1) =~= all.take(taken).push(device));
            vstd::seq_lib::to_multiset_build(all.take(taken), device);
            vstd::seq_lib::to_multiset_insert(sorted@, at as int, device);
            let before = sorted@;
            let after = before.insert(at as int, device);
            before.insert_ensures(at as int, device);
            assert forall|i: int, j: int| 0 <= i < j < after.len() implies !device_before(
                after[j],
                after[i],
            ) by {
                if j < at {
                    assert(after[i] == before[i] && after[j] == before[j]);
                } else if j == at {
                    assert(after[i] == before[i] && after[j] == device);
                } else if i < at {
                    assert(after[i] == before[i] && after[j] == before[j - 1]);
                } else if i == at {
                    assert(after[i] == device && after[j] == before[j - 1]);
                    assert(device_before(device, before[at as int]));
                    if device_before(before[j - 1], device) {
                        lemma_device_order_transitive(before[j - 1], device, before[at as int]);
                        lemma_device_order_irreflexive(before[at as int]);
                    }
                } else {
                    assert(after[i] == before[i - 1] && after[j] == before[j - 1]);
                }
            }
            taken = taken + 1;
        }
        sorted.insert(at, device);
    }
    assert(all.take(all.len() as int) =~= all);
    sorted
}

} // verus!
