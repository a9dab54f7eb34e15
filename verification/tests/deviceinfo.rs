use evremap::deviceinfo::{
    event_number_from_path, listed_before, sort_devices, DeviceError, DeviceInfo,
};

fn device(name: &str, path: &str, phys: &str) -> DeviceInfo {
    DeviceInfo { name: name.to_string(), path: path.to_string(), phys: phys.to_string() }
}

fn keyboards() -> Vec<DeviceInfo> {
    vec![
        device("AT Keyboard", "/dev/input/event3", "isa0060/serio0/input0"),
        device("USB Keyboard", "/dev/input/event5", "usb-0000:00:14.0-1/input0"),
        device("USB Keyboard", "/dev/input/event7", "usb-0000:00:14.0-2/input0"),
        device("Mouse", "/dev/input/event9", "usb-0000:00:14.0-1/input0"),
    ]
}

fn number(path: &str) -> u32 {
    event_number_from_path(&path.to_string())
}

#[test]
fn with_name_takes_the_first_of_that_name() {
    let found = DeviceInfo::with_name(keyboards(), &"USB Keyboard".to_string(), None).unwrap();
    assert_eq!(found.path, "/dev/input/event5");
    assert_eq!(found.phys, "usb-0000:00:14.0-1/input0");
    let only = DeviceInfo::with_name(keyboards(), &"AT Keyboard".to_string(), None).unwrap();
    assert_eq!(only.path, "/dev/input/event3");
}

#[test]
fn with_name_goes_by_phys_where_one_is_given() {
    let phys = "usb-0000:00:14.0-2/input0".to_string();
    let found =
        DeviceInfo::with_name(keyboards(), &"USB Keyboard".to_string(), Some(&phys)).unwrap();
    assert_eq!(found.path, "/dev/input/event7");
}

#[test]
fn with_name_ignores_the_name_where_phys_is_given() {
    let phys = "usb-0000:00:14.0-1/input0".to_string();
    let found = DeviceInfo::with_name(keyboards(), &"Mouse".to_string(), Some(&phys)).unwrap();
    assert_eq!(found.name, "USB Keyboard");
    assert_eq!(found.path, "/dev/input/event5");
}

#[test]
fn with_name_reports_a_phys_that_no_device_has() {
    let phys = "nowhere".to_string();
    let found = DeviceInfo::with_name(keyboards(), &"USB Keyboard".to_string(), Some(&phys));
    match found {
        Err(DeviceError::PhysNotFound { name, phys }) => {
            assert_eq!(name, "USB Keyboard");
            assert_eq!(phys, "nowhere");
        }
        other => panic!("unexpected: {:?}", other),
    }
}

#[test]
fn with_name_reports_a_name_that_no_device_has() {
    let found = DeviceInfo::with_name(keyboards(), &"Trackball".to_string(), None);
    match found {
        Err(DeviceError::NameNotFound { name }) => assert_eq!(name, "Trackball"),
        other => panic!("unexpected: {:?}", other),
    }
    let none = DeviceInfo::with_name(vec![], &"AT Keyboard".to_string(), None);
    assert!(matches!(none, Err(DeviceError::NameNotFound { .. })));
}

#[test]
fn all_with_name_lists_the_alternatives_in_order() {
    let named = DeviceInfo::all_with_name(keyboards(), &"USB Keyboard".to_string());
    let paths: Vec<&str> = named.iter().map(|d| d.path.as_str()).collect();
    assert_eq!(paths, vec!["/dev/input/event5", "/dev/input/event7"]);
    assert!(DeviceInfo::all_with_name(keyboards(), &"usb keyboard".to_string()).is_empty());
}

#[test]
fn event_number_is_what_follows_the_word() {
    assert_eq!(number("/dev/input/event0"), 0);
    assert_eq!(number("/dev/input/event7"), 7);
    assert_eq!(number("/dev/input/event12"), 12);
    assert_eq!(number("event4294967295"), 4_294_967_295);
    assert_eq!(number("/dev/input/event007"), 7);
}

#[test]
fn event_number_goes_by_the_last_word() {
    assert_eq!(number("/event9/input/event31"), 31);
    assert_eq!(number("eventevent3"), 3);
    assert_eq!(number("/dev/event5/eventx"), 0);
}

#[test]
fn event_number_accepts_a_plus_sign() {
    assert_eq!(number("/dev/input/event+7"), 7);
    assert_eq!(number("/dev/input/event+"), 0);
    assert_eq!(number("/dev/input/event++7"), 0);
    assert_eq!(number("/dev/input/event-7"), 0);
}

#[test]
fn event_number_is_zero_without_a_number() {
    assert_eq!(number(""), 0);
    assert_eq!(number("even"), 0);
    assert_eq!(number("/dev/input/mouse3"), 0);
    assert_eq!(number("/dev/input/event"), 0);
    assert_eq!(number("/dev/input/event12x"), 0);
    assert_eq!(number("/dev/input/event 12"), 0);
    assert_eq!(number("/dev/input/Event12"), 0);
    assert_eq!(number("/dev/input/event1/2"), 0);
    assert_eq!(number("/dev/input/event\u{e9}"), 0);
}

#[test]
fn event_number_is_zero_beyond_u32() {
    assert_eq!(number("event4294967296"), 0);
    assert_eq!(number("event99999999999999999999999999"), 0);
}

#[test]
fn listed_before_goes_by_name_then_number() {
    let a = device("Alpha", "/dev/input/event9", "");
    let b = device("Beta", "/dev/input/event1", "");
    assert!(listed_before(&a, &b));
    assert!(!listed_before(&b, &a));
    let two = device("Beta", "/dev/input/event2", "");
    let ten = device("Beta", "/dev/input/event10", "");
    assert!(listed_before(&two, &ten));
    assert!(!listed_before(&ten, &two));
    assert!(!listed_before(&two, &two));
    let prefix = device("Bet", "/dev/input/event99", "");
    assert!(listed_before(&prefix, &b));
    assert!(!listed_before(&b, &prefix));
    let upper = device("Zed", "/dev/input/event0", "");
    let lower = device("alpha", "/dev/input/event0", "");
    assert!(listed_before(&upper, &lower));
}

#[test]
fn sort_devices_orders_by_name_then_event_number() {
    let sorted = sort_devices(vec![
        device("USB Keyboard", "/dev/input/event10", "c"),
        device("Mouse", "/dev/input/event4", "m"),
        device("USB Keyboard", "/dev/input/event2", "a"),
        device("AT Keyboard", "/dev/input/event30", "k"),
        device("USB Keyboard", "/dev/input/event3", "b"),
    ]);
    let listed: Vec<(&str, &str)> =
        sorted.iter().map(|d| (d.path.as_str(), d.phys.as_str())).collect();
    assert_eq!(
        listed,
        vec![
            ("/dev/input/event30", "k"),
            ("/dev/input/event4", "m"),
            ("/dev/input/event2", "a"),
            ("/dev/input/event3", "b"),
            ("/dev/input/event10", "c"),
        ]
    );
    assert!(sort_devices(vec![]).is_empty());
}

#[test]
fn sorted_devices_give_the_lowest_event_number_by_name() {
    let sorted = sort_devices(vec![
        device("USB Keyboard", "/dev/input/event10", "second"),
        device("USB Keyboard", "/dev/input/event2", "first"),
    ]);
    let found = DeviceInfo::with_name(sorted, &"USB Keyboard".to_string(), None).unwrap();
    assert_eq!(found.phys, "first");
}
