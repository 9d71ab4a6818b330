//! Watchdog, dispatcher, session and tag-editing behaviour.

use buttplug_lite::configuration_v3::{
    ActuatorType, ConfigurationV3, MotorConfigurationV3, MotorTypeV3, TagMap,
};
use buttplug_lite::devices::{
    debug_name_from_device, id_from_device, motor_configuration_from_devices, DeviceFeatures,
    ProtocolAttributesType, ServerDeviceIdentifier,
};
use buttplug_lite::dispatcher::{plan_dispatch, ActuationCall};
use buttplug_lite::messages::ApplicationStatusEvent;
use buttplug_lite::protocol::build_vibration_map;
use buttplug_lite::session::{handle_frame, Frame, SessionAction};
use buttplug_lite::devices::DeviceStatus;
use buttplug_lite::tagging::{
    build_example_message, get_tagged_devices, is_tag_valid, motors_to_tagged,
    override_tag_at_index, sort_device_statuses, sort_tagged_motors,
    tags_from_application_status, DeviceId, MotorMessage, TaggedMotor, TaggedMotorState,
};
use buttplug_lite::watchdog::{unix_time, Watchdog, WATCHDOG_TIMEOUT_MILLIS};

fn motor(device: &str, index: u32, kind: MotorTypeV3) -> MotorConfigurationV3 {
    MotorConfigurationV3 {
        device_name: device.to_owned(),
        device_identifier: None,
        feature_index: index,
        feature_type: kind,
    }
}

fn scalar_kind() -> MotorTypeV3 {
    MotorTypeV3::Scalar { actuator_type: ActuatorType::Vibrate }
}

#[test]
fn watchdog_trips_exactly_once_per_silence() {
    let mut w = Watchdog::new();
    // disarmed: never trips
    assert!(!w.poll(1_000_000_000));
    w.feed(1_000);
    assert!(!w.poll(1_000 + WATCHDOG_TIMEOUT_MILLIS));
    assert!(w.poll(1_001 + WATCHDOG_TIMEOUT_MILLIS));
    // tripped once: disarmed again until the next feed
    assert!(!w.poll(999_999_999));
    w.feed(2_000_000);
    assert!(w.poll(2_000_001 + WATCHDOG_TIMEOUT_MILLIS));
}

#[test]
fn watchdog_feed_refreshes_deadline() {
    let mut w = Watchdog::new();
    w.feed(1_000);
    w.feed(5_000);
    assert!(!w.poll(5_000 + WATCHDOG_TIMEOUT_MILLIS));
    assert!(w.poll(5_001 + WATCHDOG_TIMEOUT_MILLIS));
}

#[test]
fn clock_reads_are_nonnegative() {
    if let Some(t) = unix_time() {
        assert!(t >= 0);
    }
}

#[test]
fn dispatcher_plans_per_connected_device() {
    let mut tags = TagMap::new();
    tags.set("a".to_owned(), motor("DevA", 0, scalar_kind()));
    tags.set("b".to_owned(), motor("DevB", 2, MotorTypeV3::Rotation));
    tags.set("c".to_owned(), motor("Gone", 0, MotorTypeV3::Linear));
    let config = ConfigurationV3::new(3031, tags);
    let map = build_vibration_map(&config, "a:0.5;b:-1;c:10:0").unwrap();
    let devices = vec!["DevA".to_owned(), "DevB".to_owned()];
    let calls = plan_dispatch(map, &devices);
    assert_eq!(calls.len(), 2);
    match &calls[0] {
        ActuationCall::Scalar { device_index, entries } => {
            assert_eq!(*device_index, 0);
            assert_eq!(entries.len(), 1);
            assert_eq!(entries[0], (0, (500_000, ActuatorType::Vibrate)));
        },
        _ => panic!("expected a scalar call first"),
    }
    match &calls[1] {
        ActuationCall::Rotate { device_index, entries } => {
            assert_eq!(*device_index, 1);
            assert_eq!(entries[0], (2, (1_000_000, false)));
        },
        _ => panic!("expected a rotate call second"),
    }
}

#[test]
fn dispatcher_duplicate_name_takes_batch_once() {
    let mut tags = TagMap::new();
    tags.set("a".to_owned(), motor("Dev", 0, scalar_kind()));
    let config = ConfigurationV3::new(3031, tags);
    let map = build_vibration_map(&config, "a:0.5").unwrap();
    let devices = vec!["Dev".to_owned(), "Dev".to_owned()];
    let calls = plan_dispatch(map, &devices);
    assert_eq!(calls.len(), 1);
    match &calls[0] {
        ActuationCall::Scalar { device_index, .. } => assert_eq!(*device_index, 0),
        _ => panic!("expected a scalar call"),
    }
}

#[test]
fn session_dispatches_and_feeds_watchdog() {
    let mut tags = TagMap::new();
    tags.set("a".to_owned(), motor("Dev", 0, scalar_kind()));
    let config = ConfigurationV3::new(3031, tags);
    let devices = vec!["Dev".to_owned()];
    let mut w = Watchdog::new();
    let action = handle_frame(&config, &devices, &mut w, 1_000, Frame::Text("a:0.5".to_owned()));
    match action {
        SessionAction::Dispatch(calls) => assert_eq!(calls.len(), 1),
        _ => panic!("expected a dispatch"),
    }
    // the watchdog was fed at 1000, so it trips just past the window
    assert!(w.poll(1_001 + WATCHDOG_TIMEOUT_MILLIS));
}

#[test]
fn session_ignores_bad_lines_and_stops_on_close() {
    let mut tags = TagMap::new();
    tags.set("a".to_owned(), motor("Dev", 0, scalar_kind()));
    let config = ConfigurationV3::new(3031, tags);
    let devices: Vec<String> = Vec::new();
    let mut w = Watchdog::new();
    let action = handle_frame(&config, &devices, &mut w, 0, Frame::Text("a:".to_owned()));
    assert!(matches!(action, SessionAction::Ignore));
    assert!(matches!(handle_frame(&config, &devices, &mut w, 0, Frame::Ping), SessionAction::Ignore));
    assert!(matches!(handle_frame(&config, &devices, &mut w, 0, Frame::Close), SessionAction::Stop));
    // nothing fed the watchdog
    assert!(!w.poll(i64::MAX - 1));
}

#[test]
fn tag_validity() {
    assert!(is_tag_valid("throttle"));
    assert!(is_tag_valid(""));
    assert!(is_tag_valid("with space"));
    assert!(!is_tag_valid("a:b"));
    assert!(!is_tag_valid("a;b"));
}

#[test]
fn tagged_motor_updates() {
    let mut t = TaggedMotor::new(motor("Dev", 0, scalar_kind()), Some("x".to_owned()));
    assert_eq!(t.tag(), Some("x"));
    t.update(MotorMessage::TagUpdated { tag: "y".to_owned(), valid: true });
    assert_eq!(t.tag(), Some("y"));
    t.update(MotorMessage::TagUpdated { tag: "".to_owned(), valid: true });
    assert_eq!(t.tag(), None);
    t.update(MotorMessage::TagUpdated { tag: "z".to_owned(), valid: false });
    t.update(MotorMessage::TagDeleted);
    assert_eq!(t.tag(), None);
    assert!(matches!(t.state, TaggedMotorState::Untagged));
}

#[test]
fn motor_message_tag_accessor() {
    let m = MotorMessage::TagUpdated { tag: "q".to_owned(), valid: true };
    assert_eq!(m.tag(), Some("q"));
    assert_eq!(MotorMessage::TagDeleted.tag(), None);
}

#[test]
fn tags_round_trip_through_editing_surface() {
    let mut tags = TagMap::new();
    tags.set("a".to_owned(), motor("Dev", 0, scalar_kind()));
    tags.set("b".to_owned(), motor("Dev", 1, MotorTypeV3::Rotation));
    let tagged = motors_to_tagged(&tags);
    assert_eq!(tagged.len(), 2);
    assert_eq!(tagged[0].tag(), Some("a"));
    let rebuilt = tags_from_application_status(&tagged);
    assert_eq!(rebuilt.entries.len(), 2);
    assert!(rebuilt.get("a").is_some());
    assert!(rebuilt.get("b").is_some());
}

#[test]
fn example_message_per_kind() {
    let motors = vec![
        TaggedMotor::new(motor("Dev", 0, scalar_kind()), Some("s".to_owned())),
        TaggedMotor::new(motor("Dev", 0, MotorTypeV3::Rotation), Some("r".to_owned())),
        TaggedMotor::new(motor("Dev", 0, MotorTypeV3::Linear), None),
        TaggedMotor::new(motor("Dev", 1, MotorTypeV3::Linear), Some("l".to_owned())),
    ];
    assert_eq!(build_example_message(&motors), "s:0.5;r:-0.5;l:20:0.5");
}

#[test]
fn override_tag_reads_through() {
    let motors = vec![
        TaggedMotor::new(motor("Dev", 0, scalar_kind()), Some("a".to_owned())),
        TaggedMotor::new(motor("Dev", 1, scalar_kind()), Some("b".to_owned())),
    ];
    assert_eq!(override_tag_at_index(&motors, 0, 1, Some("x")), Some("a"));
    assert_eq!(override_tag_at_index(&motors, 1, 1, Some("x")), Some("x"));
    assert_eq!(override_tag_at_index(&motors, 1, 1, None), None);
    // when the read position is the overridden one, it need not be in bounds
    assert_eq!(override_tag_at_index(&motors, 9, 9, Some("y")), Some("y"));
}

#[test]
fn device_id_forms() {
    let id = DeviceId { name: "Dev".to_owned(), identifier: Some("x".to_owned()) };
    let bare = id.without_identifier();
    assert_eq!(bare.name, "Dev");
    assert_eq!(bare.identifier, None);
    let from = DeviceId::from_motor(&motor("Dev", 0, scalar_kind()));
    assert_eq!(from.name, "Dev");
    assert_eq!(from.identifier, None);
}

#[test]
fn device_identifier_strings() {
    let with_id = ServerDeviceIdentifier {
        address: "aa:bb".to_owned(),
        protocol: "proto".to_owned(),
        attributes_identifier: ProtocolAttributesType::Identifier("flavour".to_owned()),
    };
    assert_eq!(id_from_device(&with_id), "proto://aa:bb/flavour");
    let without = ServerDeviceIdentifier {
        address: "aa:bb".to_owned(),
        protocol: "proto".to_owned(),
        attributes_identifier: ProtocolAttributesType::Default,
    };
    assert_eq!(id_from_device(&without), "proto://aa:bb");
    assert_eq!(debug_name_from_device("Dev", Some(&"proto://aa:bb".to_owned())), "Dev@proto://aa:bb");
    assert_eq!(debug_name_from_device("Dev", None), "Dev");
}

#[test]
fn motor_enumeration_orders_kinds() {
    let devices = vec![DeviceFeatures {
        device_name: "Dev".to_owned(),
        device_identifier: Some("id".to_owned()),
        scalar_actuators: vec![ActuatorType::Vibrate, ActuatorType::Constrict],
        rotate_count: 1,
        linear_count: 1,
    }];
    let motors = motor_configuration_from_devices(&devices);
    assert_eq!(motors.len(), 4);
    assert_eq!(
        motors[0].feature_type,
        MotorTypeV3::Scalar { actuator_type: ActuatorType::Vibrate }
    );
    assert_eq!(motors[0].feature_index, 0);
    assert_eq!(
        motors[1].feature_type,
        MotorTypeV3::Scalar { actuator_type: ActuatorType::Constrict }
    );
    assert_eq!(motors[1].feature_index, 1);
    assert_eq!(motors[2].feature_type, MotorTypeV3::Rotation);
    assert_eq!(motors[2].feature_index, 0);
    assert_eq!(motors[3].feature_type, MotorTypeV3::Linear);
    assert_eq!(motors[3].feature_index, 0);
    assert_eq!(motors[3].device_identifier, Some("id".to_owned()));
}

#[test]
fn status_event_tick() {
    assert_eq!(ApplicationStatusEvent::next_tick(), ApplicationStatusEvent::Tick);
}

#[test]
fn sorted_display_order() {
    let mut tags = TagMap::new();
    tags.set("z".to_owned(), motor("B", 0, scalar_kind()));
    tags.set("a".to_owned(), motor("A", 1, MotorTypeV3::Rotation));
    let config = ConfigurationV3::new(3031, tags);
    let motors = vec![
        motor("A", 0, MotorTypeV3::Linear),
        motor("A", 1, MotorTypeV3::Rotation),
        motor("B", 0, scalar_kind()),
    ];
    let devices = vec![
        DeviceStatus { name: "B".to_owned(), battery_percent: Some(50), rssi_level: None },
        DeviceStatus { name: "A".to_owned(), battery_percent: None, rssi_level: Some(-40) },
    ];
    let status = get_tagged_devices(&config, motors, devices);
    // the device list comes back sorted by name
    assert_eq!(status.devices.len(), 2);
    assert_eq!(status.devices[0].name, "A");
    assert_eq!(status.devices[0].rssi_level, Some(-40));
    assert_eq!(status.devices[1].name, "B");
    assert_eq!(status.devices[1].battery_percent, Some(50));
    // sorted by device name, then feature index: A#0 (untagged), A#1 (a), B#0 (z)
    assert_eq!(status.motors.len(), 3);
    assert_eq!(status.motors[0].motor.device_name, "A");
    assert_eq!(status.motors[0].tag(), None);
    assert_eq!(status.motors[1].motor.device_name, "A");
    assert_eq!(status.motors[1].tag(), Some("a"));
    assert_eq!(status.motors[2].motor.device_name, "B");
    assert_eq!(status.motors[2].tag(), Some("z"));
    assert_eq!(status.configuration.port, 3031);
}

#[test]
fn sort_is_a_permutation_in_order() {
    let list = vec![
        TaggedMotor::new(motor("B", 1, scalar_kind()), Some("x".to_owned())),
        TaggedMotor::new(motor("A", 2, scalar_kind()), None),
        TaggedMotor::new(motor("A", 0, scalar_kind()), Some("y".to_owned())),
    ];
    let sorted = sort_tagged_motors(list);
    assert_eq!(sorted.len(), 3);
    assert_eq!(sorted[0].motor.feature_index, 0);
    assert_eq!(sorted[0].motor.device_name, "A");
    assert_eq!(sorted[1].motor.feature_index, 2);
    assert_eq!(sorted[2].motor.device_name, "B");
}

#[test]
fn device_statuses_sort_by_name() {
    let list = vec![
        DeviceStatus { name: "c".to_owned(), battery_percent: None, rssi_level: None },
        DeviceStatus { name: "a".to_owned(), battery_percent: Some(1), rssi_level: None },
        DeviceStatus { name: "b".to_owned(), battery_percent: None, rssi_level: Some(2) },
    ];
    let sorted = sort_device_statuses(list);
    assert_eq!(sorted[0].name, "a");
    assert_eq!(sorted[1].name, "b");
    assert_eq!(sorted[2].name, "c");
}
