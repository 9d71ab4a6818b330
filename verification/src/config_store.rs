//! The configuration store: where the durable file lives, what saving
//! writes, and what loading makes of the file's contents.
//!
//! The file I/O itself stays with the caller; this module computes the
//! paths, the exact bytes a save writes, and the pure load decision: which
//! schema to parse under, whether to write a version-stamped backup of the
//! original file first, and whether to persist an upgraded form before
//! first use. Loading never fails: an absent or unparseable file falls
//! back to the compiled-in default.

use vstd::prelude::*;

use crate::codec::{
    lemma_config_round_trip, spec_encode_v3, spec_parse_minimal, spec_parse_v2, spec_parse_v3,
};
use crate::configuration_v3::{
    ConfigV3View, ConfigurationV3, CONFIG_VERSION, DEFAULT_PORT, spec_migrate_tags,
};

verus! {

/// Relies on `directories::ProjectDirs::from`: the per-user configuration
/// directory for this application, which depends on the environment, so
/// nothing is promised of the result.
#[verifier::external_body]
pub fn config_dir_path() -> (r: Option<String>)
{
    directories::ProjectDirs::from("io.github", "runtime-shady-backroom", "buttplug-lite")
        .map(|dirs| dirs.config_dir().to_string_lossy().into_owned())
}

/// The file name of the durable configuration, under the configuration
/// directory.
pub open spec fn spec_config_file_name() -> Seq<char> {
    "/config.toml"@
}

/// The file name of the version-stamped backup written before a migration
/// overwrites the original.
pub open spec fn spec_backup_file_name(version: int) -> Seq<char> {
    "/backup_config_v"@ + crate::text::dec_rep_signed(version) + ".toml"@
}

/// The full path of the durable configuration file, when the configuration
/// directory can be determined.
pub fn get_config_file_path() -> (r: Option<String>)
    ensures
        match r {
            Some(p) => exists|d: Seq<char>| p@ == d + spec_config_file_name(),
            None => true,
        },
{
    match config_dir_path() {
        Some(dir) => {
            let mut out = crate::text::chars_of(dir.as_str());
            let tail = crate::text::chars_of("/config.toml");
            let ghost dir_view = dir@;
            let mut i: usize = 0;
            while i < tail.len()
                invariant
                    i <= tail@.len(),
                    out@ == dir_view + tail@.take(i as int),
                decreases tail@.len() - i,
            {
                out.push(tail[i]);
                i = i + 1;
                proof {
                    assert(out@ =~= dir_view + tail@.take(i as int));
                }
            }
            proof {
                assert(tail@.take(tail@.len() as int) =~= tail@);
                assert(out@ =~= dir_view + spec_config_file_name());
            }
            Some(crate::text::string_from_chars(out.as_slice()))
        },
        None => None,
    }
}

/// The full path of the version-stamped backup file, when the configuration
/// directory can be determined.
pub fn get_backup_config_file_path(version: i32) -> (r: Option<String>)
    ensures
        match r {
            Some(p) => exists|d: Seq<char>| p@ == d + spec_backup_file_name(version as int),
            None => true,
        },
{
    match config_dir_path() {
        Some(dir) => {
            let mut out = crate::text::chars_of(dir.as_str());
            let head = crate::text::chars_of("/backup_config_v");
            let digits = crate::text::i64_dec_chars(version as i64);
            let tail = crate::text::chars_of(".toml");
            let ghost dir_view = dir@;
            crate::codec::append_chars(&mut out, head.as_slice());
            crate::codec::append_chars(&mut out, digits.as_slice());
            crate::codec::append_chars(&mut out, tail.as_slice());
            proof {
                assert(out@ =~= dir_view + spec_backup_file_name(version as int));
            }
            Some(crate::text::string_from_chars(out.as_slice()))
        },
        None => None,
    }
}

/// The view of a configuration re-stamped with the current schema version.
pub open spec fn spec_stamped(c: ConfigV3View) -> ConfigV3View {
    ConfigV3View { version: CONFIG_VERSION as int, port: c.port, tags: c.tags }
}

/// What a save writes: the canonical encoding, always stamped with the
/// current schema version regardless of the version passed in.
pub open spec fn spec_serialize(c: ConfigV3View) -> Seq<char> {
    spec_encode_v3(spec_stamped(c))
}

/// Serialize a configuration for saving.
pub fn serialize_configuration(configuration: &ConfigurationV3) -> (r: String)
    ensures
        r@ == spec_serialize(configuration@),
{
    let stamped = configuration.new_with_current_version();
    proof {
        assert(stamped@ =~~= spec_stamped(configuration@));
    }
    crate::codec::encode_configuration(&stamped)
}

/// The compiled-in default configuration view.
pub open spec fn spec_default_config() -> ConfigV3View {
    ConfigV3View {
        version: CONFIG_VERSION as int,
        port: DEFAULT_PORT,
        tags: Seq::empty(),
    }
}

/// What loading decides, as a pure function of the file's contents:
/// the in-memory configuration, the version whose backup must be written
/// before the file is overwritten (if any), and whether the upgraded form
/// must be persisted before first use.
pub open spec fn spec_load(contents: Option<Seq<char>>) -> (ConfigV3View, Option<int>, bool) {
    match contents {
        None => (spec_default_config(), None, false),
        Some(text) => match spec_parse_minimal(text) {
            None => (spec_default_config(), None, false),
            Some(v) => if v < CONFIG_VERSION {
                match spec_parse_v2(text) {
                    Some(c2) => (
                        ConfigV3View {
                            version: CONFIG_VERSION as int,
                            port: c2.port,
                            tags: spec_migrate_tags(c2.tags, c2.tags),
                        },
                        Some(v as int),
                        true,
                    ),
                    None => (spec_default_config(), Some(v as int), false),
                }
            } else {
                match spec_parse_v3(text) {
                    Some(c3) => (c3, None, false),
                    None => (spec_default_config(), Some(v as int), false),
                }
            },
        },
    }
}

/// The result of interpreting a loaded configuration file.
pub struct LoadOutcome {
    pub configuration: ConfigurationV3,
    pub backup_version: Option<i32>,
    pub needs_save: bool,
}

/// Interpret the contents of the durable configuration file: pick the
/// schema by the version envelope, migrate a legacy file, and fall back to
/// the default when the file is absent or unreadable. Never fails.
pub fn load_from_contents(contents: Option<&String>) -> (r: LoadOutcome)
    ensures
        ({
            let s = spec_load(
                match contents {
                    Some(text) => Some(text@),
                    None => None,
                },
            );
            &&& r.configuration@ == s.0
            &&& (match (r.backup_version, s.1) {
                (Some(a), Some(b)) => a as int == b,
                (None, None) => true,
                _ => false,
            })
            &&& r.needs_save == s.2
            &&& r.configuration.tags.wf()
        }),
{
    let text: &String = match contents {
        Some(t) => t,
        None => {
            let d = default_configuration();
            return LoadOutcome { configuration: d, backup_version: None, needs_save: false };
        },
    };
    let version: i32 = match crate::codec::parse_version_envelope(text.as_str()) {
        Some(v) => v,
        None => {
            let d = default_configuration();
            return LoadOutcome { configuration: d, backup_version: None, needs_save: false };
        },
    };
    if version < CONFIG_VERSION {
        match crate::codec::parse_configuration_v2(text.as_str()) {
            Some(c2) => {
                let migrated = ConfigurationV3::from_v2(&c2);
                let configuration = migrated.new_with_current_version();
                proof {
                    crate::configuration_v3::lemma_migrate_tags_wf(c2@.tags);
                }
                LoadOutcome {
                    configuration,
                    backup_version: Some(version),
                    needs_save: true,
                }
            },
            None => {
                let d = default_configuration();
                LoadOutcome { configuration: d, backup_version: Some(version), needs_save: false }
            },
        }
    } else {
        match crate::codec::parse_configuration_v3(text.as_str()) {
            Some(c3) => LoadOutcome {
                configuration: c3,
                backup_version: None,
                needs_save: false,
            },
            None => {
                let d = default_configuration();
                LoadOutcome { configuration: d, backup_version: Some(version), needs_save: false }
            },
        }
    }
}

/// The compiled-in default configuration: fixed port, empty tag map,
/// current schema version.
pub fn default_configuration() -> (r: ConfigurationV3)
    ensures
        r@ == spec_default_config(),
        r.tags.wf(),
{
    let r = ConfigurationV3 {
        version: CONFIG_VERSION,
        port: DEFAULT_PORT,
        tags: crate::configuration_v3::TagMap::new(),
    };
    proof {
        assert(r@ =~~= spec_default_config());
    }
    r
}

/// When a configuration update replaces the in-memory value, the web
/// server must restart exactly when the port changed.
pub fn needs_webserver_restart(previous: &ConfigurationV3, next: &ConfigurationV3) -> (r: bool)
    ensures
        r == (previous@.port != next@.port),
{
    previous.port != next.port
}

/// Round trip: saving a just-loaded configuration writes byte-identical
/// content — loading what a save wrote yields a configuration whose next
/// save writes the same text, with no backup and no further migration.
pub proof fn lemma_save_load_round_trip(c: ConfigV3View)
    requires
        crate::assoc::unique_keys(c.tags),
    ensures
        ({
            let text = spec_serialize(c);
            let loaded = spec_load(Some(text));
            &&& loaded.0 == spec_stamped(c)
            &&& loaded.1 is None
            &&& loaded.2 == false
            &&& spec_serialize(loaded.0) == text
        }),
{
    let stamped = spec_stamped(c);
    let text = spec_serialize(c);
    lemma_config_round_trip(stamped);
    crate::codec::lemma_minimal_of_encoded(stamped);
    assert(spec_stamped(stamped) =~~= stamped);
}

} // verus!