//! Configuration store behaviour: encoding, parsing, the save/load round
//! trip, and schema migration.

use buttplug_lite::config_store::{
    default_configuration, load_from_contents, serialize_configuration,
};
use buttplug_lite::configuration_minimal::ConfigurationMinimal;
use buttplug_lite::configuration_v2::{
    ConfigurationV2, MotorConfigurationV2, MotorTypeV2, TagMapV2,
};
use buttplug_lite::configuration_v3::{
    ActuatorType, ConfigurationV3, MotorConfigurationV3, MotorTypeV3, TagMap, CONFIG_VERSION,
};

fn motor(device: &str, identifier: Option<&str>, index: u32, kind: MotorTypeV3) -> MotorConfigurationV3 {
    MotorConfigurationV3 {
        device_name: device.to_owned(),
        device_identifier: identifier.map(|s| s.to_owned()),
        feature_index: index,
        feature_type: kind,
    }
}

fn sample_config() -> ConfigurationV3 {
    let mut tags = TagMap::new();
    tags.set(
        "a".to_owned(),
        motor(
            "Dev One",
            Some("proto://aa:bb/x"),
            0,
            MotorTypeV3::Scalar { actuator_type: ActuatorType::Vibrate },
        ),
    );
    tags.set("b".to_owned(), motor("Dev\\Two\"q", None, 3, MotorTypeV3::Linear));
    tags.set("c tag".to_owned(), motor("Dev One", None, 1, MotorTypeV3::Rotation));
    ConfigurationV3::new(3031, tags)
}

#[test]
fn save_load_round_trip_is_byte_identical() {
    let config = sample_config();
    let text = serialize_configuration(&config);
    let outcome = load_from_contents(Some(&text));
    assert_eq!(outcome.backup_version, None);
    assert!(!outcome.needs_save);
    let text2 = serialize_configuration(&outcome.configuration);
    assert_eq!(text, text2);
    let loaded = outcome.configuration;
    assert_eq!(loaded.version, CONFIG_VERSION);
    assert_eq!(loaded.port, 3031);
    assert_eq!(loaded.tags.entries.len(), 3);
    assert_eq!(loaded.motor_from_tag("b").unwrap().device_name, "Dev\\Two\"q");
    assert_eq!(loaded.motor_from_tag("c tag").unwrap().feature_type, MotorTypeV3::Rotation);
}

#[test]
fn encoded_form_is_canonical_text() {
    let mut tags = TagMap::new();
    tags.set(
        "t".to_owned(),
        motor("Dev", None, 0, MotorTypeV3::Scalar { actuator_type: ActuatorType::Vibrate }),
    );
    let config = ConfigurationV3::new(3031, tags);
    let text = serialize_configuration(&config);
    let expected = "version = 3\nport = 3031\n[tags.\"t\"]\ndevice_name = \"Dev\"\nfeature_index = 0\nfeature_type = \"Scalar\"\nactuator_type = \"Vibrate\"\n";
    assert_eq!(text, expected);
}

#[test]
fn absent_file_falls_back_to_default() {
    let outcome = load_from_contents(None);
    assert_eq!(outcome.configuration.version, CONFIG_VERSION);
    assert_eq!(outcome.configuration.port, 3031);
    assert_eq!(outcome.configuration.tags.entries.len(), 0);
    assert_eq!(outcome.backup_version, None);
    assert!(!outcome.needs_save);
}

#[test]
fn garbled_file_falls_back_to_default() {
    let text = "!!! not a config".to_owned();
    let outcome = load_from_contents(Some(&text));
    assert_eq!(outcome.configuration.port, default_configuration().port);
    assert_eq!(outcome.backup_version, None);
    assert!(!outcome.needs_save);
}

#[test]
fn legacy_file_is_migrated_and_saved() {
    let text = "version = 2\nport = 3000\n[tags.\"v\"]\ndevice_name = \"Clean\"\nfeature_type = \"Vibration\"\nfeature_index = 0\n".to_owned();
    let outcome = load_from_contents(Some(&text));
    assert_eq!(outcome.backup_version, Some(2));
    assert!(outcome.needs_save);
    let config = outcome.configuration;
    assert_eq!(config.version, CONFIG_VERSION);
    assert_eq!(config.port, 3000);
    let migrated = config.motor_from_tag("v").unwrap();
    assert_eq!(
        migrated.feature_type,
        MotorTypeV3::Scalar { actuator_type: ActuatorType::Vibrate }
    );
    assert_eq!(migrated.device_identifier, None);
}

#[test]
fn migration_drops_whole_contraction_device() {
    // device D owns a contraction motor and a vibration motor; tag v points
    // at the vibration motor but is dropped with the whole device
    let mut text = String::new();
    text.push_str("version = 2\nport = 3031\n");
    text.push_str("[tags.\"v\"]\ndevice_name = \"D\"\nfeature_type = \"Vibration\"\nfeature_index = 0\n");
    text.push_str("[tags.\"c\"]\ndevice_name = \"D\"\nfeature_type = \"Contraction\"\nfeature_index = 1\n");
    text.push_str("[tags.\"ok\"]\ndevice_name = \"E\"\nfeature_type = \"Rotation\"\nfeature_index = 0\n");
    let outcome = load_from_contents(Some(&text));
    let config = outcome.configuration;
    assert!(config.motor_from_tag("v").is_none());
    assert!(config.motor_from_tag("c").is_none());
    assert_eq!(config.motor_from_tag("ok").unwrap().feature_type, MotorTypeV3::Rotation);
    assert_eq!(config.tags.entries.len(), 1);
}

#[test]
fn unversioned_file_is_treated_as_version_one() {
    // a version-one file has no version line; its shape is the legacy one
    let text = "port = 3031\n[tags.\"x\"]\ndevice_name = \"D\"\nfeature_type = \"Linear\"\nfeature_index = 0\n"
        .to_owned();
    let outcome = load_from_contents(Some(&text));
    assert_eq!(outcome.backup_version, Some(1));
    assert!(outcome.needs_save);
    assert_eq!(outcome.configuration.motor_from_tag("x").unwrap().feature_type, MotorTypeV3::Linear);
}

#[test]
fn version_checks() {
    assert!(ConfigurationV3::is_version_outdated(2));
    assert!(!ConfigurationV3::is_version_outdated(3));
    assert!(ConfigurationMinimal::is_version_outdated(1));
    assert!(!ConfigurationMinimal { version: 3 }.is_outdated());
    assert!(ConfigurationV2::is_version_outdated(1));
    assert!(!ConfigurationV2::is_version_outdated(2));
    let config = sample_config();
    assert!(!config.is_outdated());
    let older = ConfigurationV3 { version: 1, port: 3031, tags: TagMap::new() };
    assert!(older.is_outdated());
    let stamped = older.new_with_current_version();
    assert_eq!(stamped.version, CONFIG_VERSION);
}

#[test]
fn legacy_constructors() {
    let mut tags = TagMapV2::new();
    tags.insert_new(
        "t".to_owned(),
        MotorConfigurationV2 {
            device_name: "D".to_owned(),
            feature_type: MotorTypeV2::Vibration,
            feature_index: 0,
        },
    );
    let legacy = ConfigurationV2::new(3000, tags);
    assert_eq!(legacy.version, 2);
    assert!(legacy.motor_from_tag("t").is_some());
    assert!(legacy.motor_from_tag("zzz").is_none());
    let restamped = legacy.new_with_current_version();
    assert_eq!(restamped.version, 2);
    assert_eq!(restamped.port, 3000);
    let kinds = MotorTypeV2::iter();
    assert_eq!(kinds.len(), 4);
    assert_eq!(kinds[0], MotorTypeV2::Vibration);
    assert_eq!(kinds[3], MotorTypeV2::Contraction);
}

#[test]
fn migration_kind_mapping() {
    assert_eq!(MotorTypeV3::try_from_v2(MotorTypeV2::Linear), Some(MotorTypeV3::Linear));
    assert_eq!(MotorTypeV3::try_from_v2(MotorTypeV2::Rotation), Some(MotorTypeV3::Rotation));
    assert_eq!(
        MotorTypeV3::try_from_v2(MotorTypeV2::Vibration),
        Some(MotorTypeV3::Scalar { actuator_type: ActuatorType::Vibrate })
    );
    assert_eq!(MotorTypeV3::try_from_v2(MotorTypeV2::Contraction), None);
}

#[test]
fn backup_path_names_the_version() {
    if let Some(path) = buttplug_lite::config_store::get_backup_config_file_path(2) {
        assert!(path.ends_with("/backup_config_v2.toml"));
    }
    if let Some(path) = buttplug_lite::config_store::get_config_file_path() {
        assert!(path.ends_with("/config.toml"));
    }
}

#[test]
fn restart_only_on_port_change() {
    let a = ConfigurationV3::new(3031, TagMap::new());
    let b = ConfigurationV3::new(3031, TagMap::new());
    let c = ConfigurationV3::new(4000, TagMap::new());
    assert!(!buttplug_lite::config_store::needs_webserver_restart(&a, &b));
    assert!(buttplug_lite::config_store::needs_webserver_restart(&a, &c));
}

#[test]
fn reads_generally_serialized_current_file() {
    // the shape a general TOML serializer writes: blank lines, bare section
    // keys, and the feature kind as a nested table
    let mut text = String::new();
    text.push_str("version = 3\nport = 3031\n\n[tags.throttle]\n");
    text.push_str("device_name = \"Example Device\"\n");
    text.push_str("device_identifier = \"proto://aa:bb/0\"\n");
    text.push_str("feature_index = 0\n\n[tags.throttle.feature_type]\ntype = \"Scalar\"\n");
    text.push_str("actuator_type = \"Vibrate\"\n\n[tags.lin]\ndevice_name = \"Other\"\n");
    text.push_str("feature_index = 2\n\n[tags.lin.feature_type]\ntype = \"Linear\"\n");
    let outcome = load_from_contents(Some(&text));
    assert_eq!(outcome.backup_version, None);
    assert!(!outcome.needs_save);
    let config = outcome.configuration;
    assert_eq!(config.version, 3);
    assert_eq!(config.port, 3031);
    assert_eq!(config.tags.entries.len(), 2);
    let throttle = config.motor_from_tag("throttle").unwrap();
    assert_eq!(
        throttle.feature_type,
        MotorTypeV3::Scalar { actuator_type: ActuatorType::Vibrate }
    );
    assert_eq!(throttle.device_identifier, Some("proto://aa:bb/0".to_owned()));
    assert_eq!(config.motor_from_tag("lin").unwrap().feature_type, MotorTypeV3::Linear);
}

#[test]
fn reads_generally_serialized_quoted_key_file() {
    let mut text = String::new();
    text.push_str("version = 3\nport = 3000\n\n[tags.\"my tag\"]\n");
    text.push_str("device_name = \"Dev\"\nfeature_index = 1\n\n");
    text.push_str("[tags.\"my tag\".feature_type]\ntype = \"Rotation\"\n");
    let outcome = load_from_contents(Some(&text));
    let config = outcome.configuration;
    assert_eq!(config.motor_from_tag("my tag").unwrap().feature_type, MotorTypeV3::Rotation);
}

#[test]
fn reads_generally_serialized_legacy_file() {
    // the legacy shape with blank lines and bare keys migrates as usual
    let mut text = String::new();
    text.push_str("version = 2\nport = 3031\n\n[tags.v]\n");
    text.push_str("device_name = \"Clean\"\nfeature_type = \"Vibration\"\nfeature_index = 0\n");
    let outcome = load_from_contents(Some(&text));
    assert_eq!(outcome.backup_version, Some(2));
    assert!(outcome.needs_save);
    assert_eq!(
        outcome.configuration.motor_from_tag("v").unwrap().feature_type,
        MotorTypeV3::Scalar { actuator_type: ActuatorType::Vibrate }
    );
}

#[test]
fn reads_empty_tag_table_header() {
    let text = "version = 3\nport = 3031\n\n[tags]\n".to_owned();
    let outcome = load_from_contents(Some(&text));
    assert_eq!(outcome.backup_version, None);
    assert!(!outcome.needs_save);
    assert_eq!(outcome.configuration.tags.entries.len(), 0);
    assert_eq!(outcome.configuration.port, 3031);
}

#[test]
fn reads_unversioned_legacy_file_with_blank_lines() {
    let mut text = String::new();
    text.push_str("port = 3031\n\n[tags.x]\n");
    text.push_str("device_name = \"D\"\nfeature_type = \"Linear\"\nfeature_index = 0\n");
    let outcome = load_from_contents(Some(&text));
    assert_eq!(outcome.backup_version, Some(1));
    assert!(outcome.needs_save);
    assert_eq!(outcome.configuration.motor_from_tag("x").unwrap().feature_type, MotorTypeV3::Linear);
}
