//! Decoder behaviour: clamping, sign split, duplicate tags, unknown tags,
//! and atomic aborts.

use buttplug_lite::configuration_v3::{
    ActuatorType, ConfigurationV3, MotorConfigurationV3, MotorTypeV3, TagMap,
};
use buttplug_lite::protocol::{build_vibration_map, DecodeError, DeviceMap, MotorSettings};

fn motor(device: &str, index: u32, kind: MotorTypeV3) -> MotorConfigurationV3 {
    MotorConfigurationV3 {
        device_name: device.to_owned(),
        device_identifier: None,
        feature_index: index,
        feature_type: kind,
    }
}

fn scalar_kind() -> MotorTypeV3 {
    MotorTypeV3::Scalar { actuator_type: ActuatorType::Vibrate }
}

fn test_config() -> ConfigurationV3 {
    let mut tags = TagMap::new();
    tags.set("s".to_owned(), motor("DevA", 0, scalar_kind()));
    tags.set("s2".to_owned(), motor("DevA", 1, scalar_kind()));
    tags.set("alias".to_owned(), motor("DevA", 0, scalar_kind()));
    tags.set("r".to_owned(), motor("DevA", 0, MotorTypeV3::Rotation));
    tags.set("l".to_owned(), motor("DevB", 0, MotorTypeV3::Linear));
    ConfigurationV3::new(3031, tags)
}

fn scalar_of(map: &DeviceMap, device: &str, index: u32) -> Option<(u32, ActuatorType)> {
    for entry in &map.entries {
        if entry.0 == device {
            for kv in &entry.1.scalar_map {
                if kv.0 == index {
                    return Some(kv.1);
                }
            }
        }
    }
    None
}

fn rotate_of(map: &DeviceMap, device: &str, index: u32) -> Option<(u32, bool)> {
    for entry in &map.entries {
        if entry.0 == device {
            for kv in &entry.1.rotate_map {
                if kv.0 == index {
                    return Some(kv.1);
                }
            }
        }
    }
    None
}

fn linear_of(map: &DeviceMap, device: &str, index: u32) -> Option<(u32, u32)> {
    for entry in &map.entries {
        if entry.0 == device {
            for kv in &entry.1.linear_map {
                if kv.0 == index {
                    return Some(kv.1);
                }
            }
        }
    }
    None
}

#[test]
fn scalar_plain_value() {
    let config = test_config();
    let map = build_vibration_map(&config, "s:0.5").unwrap();
    assert_eq!(scalar_of(&map, "DevA", 0), Some((500_000, ActuatorType::Vibrate)));
}

#[test]
fn scalar_clamps_high() {
    let config = test_config();
    let map = build_vibration_map(&config, "s:1.5").unwrap();
    assert_eq!(scalar_of(&map, "DevA", 0).unwrap().0, 1_000_000);
}

#[test]
fn scalar_clamps_negative_to_zero() {
    let config = test_config();
    let map = build_vibration_map(&config, "s:-0.3").unwrap();
    assert_eq!(scalar_of(&map, "DevA", 0).unwrap().0, 0);
}

#[test]
fn scalar_nan_is_zero_not_error() {
    let config = test_config();
    let map = build_vibration_map(&config, "s:nan").unwrap();
    assert_eq!(scalar_of(&map, "DevA", 0).unwrap().0, 0);
    let map = build_vibration_map(&config, "s:NaN").unwrap();
    assert_eq!(scalar_of(&map, "DevA", 0).unwrap().0, 0);
}

#[test]
fn scalar_infinity_clamps_to_one() {
    let config = test_config();
    let map = build_vibration_map(&config, "s:inf").unwrap();
    assert_eq!(scalar_of(&map, "DevA", 0).unwrap().0, 1_000_000);
    let map = build_vibration_map(&config, "s:-Infinity").unwrap();
    assert_eq!(scalar_of(&map, "DevA", 0).unwrap().0, 0);
}

#[test]
fn scalar_exponent_forms() {
    let config = test_config();
    let map = build_vibration_map(&config, "s:5e-1").unwrap();
    assert_eq!(scalar_of(&map, "DevA", 0).unwrap().0, 500_000);
    let map = build_vibration_map(&config, "s:2.5E-2").unwrap();
    assert_eq!(scalar_of(&map, "DevA", 0).unwrap().0, 25_000);
    let map = build_vibration_map(&config, "s:1e10").unwrap();
    assert_eq!(scalar_of(&map, "DevA", 0).unwrap().0, 1_000_000);
    let map = build_vibration_map(&config, "s:.5").unwrap();
    assert_eq!(scalar_of(&map, "DevA", 0).unwrap().0, 500_000);
    let map = build_vibration_map(&config, "s:5.").unwrap();
    assert_eq!(scalar_of(&map, "DevA", 0).unwrap().0, 1_000_000);
    let map = build_vibration_map(&config, "s:+0.25").unwrap();
    assert_eq!(scalar_of(&map, "DevA", 0).unwrap().0, 250_000);
}

#[test]
fn rotation_sign_split() {
    let config = test_config();
    let map = build_vibration_map(&config, "r:-0.7").unwrap();
    assert_eq!(rotate_of(&map, "DevA", 0), Some((700_000, false)));
    let map = build_vibration_map(&config, "r:0.7").unwrap();
    assert_eq!(rotate_of(&map, "DevA", 0), Some((700_000, true)));
}

#[test]
fn rotation_negative_zero_is_clockwise() {
    let config = test_config();
    let map = build_vibration_map(&config, "r:-0.0").unwrap();
    assert_eq!(rotate_of(&map, "DevA", 0), Some((0, true)));
}

#[test]
fn rotation_clamps_magnitude() {
    let config = test_config();
    let map = build_vibration_map(&config, "r:-3.5").unwrap();
    assert_eq!(rotate_of(&map, "DevA", 0), Some((1_000_000, false)));
}

#[test]
fn linear_duration_and_position() {
    let config = test_config();
    let map = build_vibration_map(&config, "l:20:0.5").unwrap();
    assert_eq!(linear_of(&map, "DevB", 0), Some((20, 500_000)));
    let map = build_vibration_map(&config, "l:+7:1.5").unwrap();
    assert_eq!(linear_of(&map, "DevB", 0), Some((7, 1_000_000)));
}

#[test]
fn linear_missing_or_bad_fields_abort() {
    let config = test_config();
    assert_eq!(build_vibration_map(&config, "l:20").unwrap_err(), DecodeError::MissingPosition);
    assert_eq!(build_vibration_map(&config, "l").unwrap_err(), DecodeError::MissingDuration);
    assert_eq!(
        build_vibration_map(&config, "l:abc:0.5").unwrap_err(),
        DecodeError::MalformedDuration
    );
    assert_eq!(
        build_vibration_map(&config, "l:-5:0.5").unwrap_err(),
        DecodeError::MalformedDuration
    );
    assert_eq!(
        build_vibration_map(&config, "l:4294967296:0.5").unwrap_err(),
        DecodeError::MalformedDuration
    );
    assert_eq!(
        build_vibration_map(&config, "l:20:zzz").unwrap_err(),
        DecodeError::MalformedPosition
    );
}

#[test]
fn last_write_wins_across_aliases() {
    let config = test_config();
    let map = build_vibration_map(&config, "s:0.2;alias:0.9").unwrap();
    assert_eq!(scalar_of(&map, "DevA", 0).unwrap().0, 900_000);
    let map = build_vibration_map(&config, "alias:0.9;s:0.2").unwrap();
    assert_eq!(scalar_of(&map, "DevA", 0).unwrap().0, 200_000);
}

#[test]
fn unknown_tag_is_skipped() {
    let config = test_config();
    let map = build_vibration_map(&config, "zzz:0.5;s:0.3").unwrap();
    assert_eq!(scalar_of(&map, "DevA", 0), Some((300_000, ActuatorType::Vibrate)));
    assert_eq!(map.entries.len(), 1);
}

#[test]
fn malformed_line_aborts_atomically() {
    let config = test_config();
    let result = build_vibration_map(&config, "s:0.2;s2:notanumber");
    assert_eq!(result.unwrap_err(), DecodeError::MalformedIntensity);
    assert_eq!(
        build_vibration_map(&config, "s:notanumber").unwrap_err(),
        DecodeError::MalformedIntensity
    );
    assert_eq!(build_vibration_map(&config, "s").unwrap_err(), DecodeError::MissingIntensity);
}

#[test]
fn empty_line_and_trailing_separator() {
    let config = test_config();
    let map = build_vibration_map(&config, "").unwrap();
    assert_eq!(map.entries.len(), 0);
    let map = build_vibration_map(&config, "s:0.5;").unwrap();
    assert_eq!(map.entries.len(), 1);
    let map = build_vibration_map(&config, "zzz:1;;").unwrap();
    assert_eq!(map.entries.len(), 0);
}

#[test]
fn surplus_fields_are_ignored() {
    let config = test_config();
    let map = build_vibration_map(&config, "s:0.5:9:9").unwrap();
    assert_eq!(scalar_of(&map, "DevA", 0).unwrap().0, 500_000);
}

#[test]
fn two_indices_on_one_device() {
    let config = test_config();
    let map = build_vibration_map(&config, "s:0.1;s2:0.9").unwrap();
    assert_eq!(scalar_of(&map, "DevA", 0).unwrap().0, 100_000);
    assert_eq!(scalar_of(&map, "DevA", 1).unwrap().0, 900_000);
    assert_eq!(map.entries.len(), 1);
}

#[test]
fn motor_settings_new_is_empty() {
    let ms = MotorSettings::new();
    assert!(ms.scalar_map.is_empty());
    assert!(ms.rotate_map.is_empty());
    assert!(ms.linear_map.is_empty());
}

#[test]
fn motor_from_tag_lookup() {
    let config = test_config();
    assert!(config.motor_from_tag("s").is_some());
    assert!(config.motor_from_tag("zzz").is_none());
    assert_eq!(config.motor_from_tag("l").unwrap().device_name, "DevB");
}
