//! The current (version 3) configuration schema: tag-to-motor mappings with
//! stable device identifiers and scalar actuator types, and the migration
//! from the legacy schema.
//!
//! The migration first computes the set of device names owning at least one
//! contraction-typed motor, then removes every tag whose target device is in
//! that set — even tags pointing at the device's other, representable motors —
//! because such devices are a single addressable unit at the transport layer
//! and partially controlling one would desynchronize actuator state.

use vstd::prelude::*;

use crate::configuration_v2::{ConfigV2View, ConfigurationV2, MotorTypeV2, MotorV2View};

verus! {

/// Schema version of the current configuration format.
pub const CONFIG_VERSION: i32 = 3;

/// Default network port when no configuration exists.
pub const DEFAULT_PORT: u16 = 3031;

/// The actuator type carried by a scalar motor.
#[derive(Clone, Copy, PartialEq, Eq, Structural, Debug)]
pub enum ActuatorType {
    Vibrate,
    Rotate,
    Oscillate,
    Constrict,
    Inflate,
    Position,
    Unknown,
}

/// The motor kinds of the current schema.
#[derive(Clone, Copy, PartialEq, Eq, Structural, Debug)]
pub enum MotorTypeV3 {
    Linear,
    Rotation,
    Scalar { actuator_type: ActuatorType },
}

impl MotorTypeV3 {
    /// The kind a legacy motor maps to, if it is representable: vibration
    /// becomes a scalar vibrate motor, linear and rotation pass through, and
    /// contraction has no counterpart.
    pub fn try_from_v2(type_v2: MotorTypeV2) -> (r: Option<MotorTypeV3>)
        ensures
            r == spec_type_v3_of_v2(type_v2),
    {
        match type_v2 {
            MotorTypeV2::Linear => Some(MotorTypeV3::Linear),
            MotorTypeV2::Rotation => Some(MotorTypeV3::Rotation),
            MotorTypeV2::Vibration => Some(
                MotorTypeV3::Scalar { actuator_type: ActuatorType::Vibrate },
            ),
            MotorTypeV2::Contraction => None,
        }
    }
}

/// The kind a legacy motor kind migrates to, if any.
pub open spec fn spec_type_v3_of_v2(type_v2: MotorTypeV2) -> Option<MotorTypeV3> {
    match type_v2 {
        MotorTypeV2::Linear => Some(MotorTypeV3::Linear),
        MotorTypeV2::Rotation => Some(MotorTypeV3::Rotation),
        MotorTypeV2::Vibration => Some(MotorTypeV3::Scalar { actuator_type: ActuatorType::Vibrate }),
        MotorTypeV2::Contraction => None,
    }
}

/// The mathematical value of a motor address.
pub ghost struct MotorV3View {
    pub device_name: Seq<char>,
    pub device_identifier: Option<Seq<char>>,
    pub feature_index: u32,
    pub feature_type: MotorTypeV3,
}

/// The address of a specific motor: device name, optional stable device
/// identifier, feature kind, and index of the feature within the device's
/// features of that kind.
#[derive(Clone, PartialEq, Eq, Debug)]
pub struct MotorConfigurationV3 {
    pub device_name: String,
    pub device_identifier: Option<String>,
    pub feature_index: u32,
    pub feature_type: MotorTypeV3,
}

impl View for MotorConfigurationV3 {
    type V = MotorV3View;

    open spec fn view(&self) -> MotorV3View {
        MotorV3View {
            device_name: self.device_name@,
            device_identifier: match self.device_identifier {
                Some(s) => Some(s@),
                None => None,
            },
            feature_index: self.feature_index,
            feature_type: self.feature_type,
        }
    }
}

impl MotorConfigurationV3 {
    /// A deep copy whose value equals this one.
    pub fn duplicate(&self) -> (r: MotorConfigurationV3)
        ensures
            r@ == self@,
    {
        MotorConfigurationV3 {
            device_name: self.device_name.clone(),
            device_identifier: match &self.device_identifier {
                Some(s) => Some(s.clone()),
                None => None,
            },
            feature_index: self.feature_index,
            feature_type: self.feature_type,
        }
    }

    /// The migrated form of a legacy motor address, if its kind is
    /// representable; migrated entries carry no device identifier.
    pub fn try_from_v2(config_v2: &crate::configuration_v2::MotorConfigurationV2) -> (r: Option<
        MotorConfigurationV3,
    >)
        ensures
            match r {
                Some(m) => spec_motor_v3_of_v2(config_v2@) == Some(m@),
                None => spec_motor_v3_of_v2(config_v2@) is None,
            },
    {
        match MotorTypeV3::try_from_v2(config_v2.feature_type) {
            Some(type_v3) => Some(MotorConfigurationV3 {
                device_name: config_v2.device_name.clone(),
                device_identifier: None,
                feature_index: config_v2.feature_index,
                feature_type: type_v3,
            }),
            None => None,
        }
    }
}

/// The migrated form of a legacy motor address, if any.
pub open spec fn spec_motor_v3_of_v2(m: MotorV2View) -> Option<MotorV3View> {
    match spec_type_v3_of_v2(m.feature_type) {
        Some(t) => Some(
            MotorV3View {
                device_name: m.device_name,
                device_identifier: None,
                feature_index: m.feature_index,
                feature_type: t,
            },
        ),
        None => None,
    }
}

/// Look a tag up in an association sequence: the value of the first entry
/// whose key matches, if any.
pub open spec fn spec_lookup(
    s: Seq<(Seq<char>, MotorV3View)>,
    tag: Seq<char>,
) -> Option<MotorV3View>
    decreases s.len(),
{
    if s.len() == 0 {
        None
    } else if s[0].0 == tag {
        Some(s[0].1)
    } else {
        spec_lookup(s.drop_first(), tag)
    }
}

/// The tag-to-motor mapping, stored as an association list whose keys are
/// unique: exactly one motor address per tag, while one motor address may be
/// referenced by any number of tags.
pub struct TagMap {
    pub entries: Vec<(String, MotorConfigurationV3)>,
}

impl View for TagMap {
    type V = Seq<(Seq<char>, MotorV3View)>;

    open spec fn view(&self) -> Seq<(Seq<char>, MotorV3View)> {
        Seq::new(self.entries@.len(), |i: int| (self.entries@[i].0@, self.entries@[i].1@))
    }
}

impl TagMap {
    /// Keys are pairwise distinct.
    pub open spec fn wf(&self) -> bool {
        forall|i: int, j: int|
            0 <= i < j < self@.len() ==> (#[trigger] self@[i]).0 != (#[trigger] self@[j]).0
    }

    /// An empty mapping.
    pub fn new() -> (r: TagMap)
        ensures
            r@ == Seq::<(Seq<char>, MotorV3View)>::empty(),
            r.wf(),
    {
        let r = TagMap { entries: Vec::new() };
        proof {
            assert(r@ =~= Seq::<(Seq<char>, MotorV3View)>::empty());
        }
        r
    }

    /// Number of entries.
    pub fn len(&self) -> (r: usize)
        ensures
            r == self@.len(),
    {
        self.entries.len()
    }

    /// The entry at a position.
    pub fn entry(&self, i: usize) -> (r: &(String, MotorConfigurationV3))
        requires
            i < self@.len(),
        ensures
            r.0@ == self@[i as int].0,
            r.1@ == self@[i as int].1,
    {
        &self.entries[i]
    }

    /// Whether some entry already uses this key.
    pub open spec fn spec_contains_key(&self, tag: Seq<char>) -> bool {
        exists|i: int| 0 <= i < self@.len() && (#[trigger] self@[i]).0 == tag
    }

    /// Add an entry under a key not yet present.
    pub fn insert_new(&mut self, tag: String, motor: MotorConfigurationV3)
        requires
            old(self).wf(),
            !old(self).spec_contains_key(tag@),
        ensures
            final(self)@ == old(self)@ + seq![(tag@, motor@)],
            final(self).wf(),
    {
        let ghost old_view = self@;
        let ghost tag_view = tag@;
        let ghost motor_view = motor@;
        self.entries.push((tag, motor));
        proof {
            assert(self@ =~= old_view + seq![(tag_view, motor_view)]);
            assert forall|i: int, j: int| 0 <= i < j < self@.len() implies
                (#[trigger] self@[i]).0 != (#[trigger] self@[j]).0 by {
                if j < old_view.len() {
                    assert(old_view[i].0 != old_view[j].0);
                }
            }
        }
    }

    /// Does the map contain this key?
    pub fn contains_key(&self, tag: &str) -> (r: bool)
        ensures
            r == self.spec_contains_key(tag@),
    {
        let mut i: usize = 0;
        while i < self.entries.len()
            invariant
                i <= self@.len(),
                self@.len() == self.entries@.len(),
                forall|j: int| 0 <= j < i ==> (#[trigger] self@[j]).0 != tag@,
            decreases self@.len() - i,
        {
            if crate::text::str_eq(self.entries[i].0.as_str(), tag) {
                proof {
                    assert((self@[i as int]).0 == tag@);
                }
                return true;
            }
            i = i + 1;
        }
        false
    }

    /// Pure lookup of the motor mapped to a tag.
    pub fn get(&self, tag: &str) -> (r: Option<&MotorConfigurationV3>)
        ensures
            match r {
                Some(m) => spec_lookup(self@, tag@) == Some(m@),
                None => spec_lookup(self@, tag@) is None,
            },
    {
        let mut i: usize = 0;
        proof {
            assert(self@.skip(0) =~= self@);
        }
        while i < self.entries.len()
            invariant
                i <= self@.len(),
                self@.len() == self.entries@.len(),
                spec_lookup(self@, tag@) == spec_lookup(self@.skip(i as int), tag@),
            decreases self@.len() - i,
        {
            proof {
                assert(self@.skip(i as int)[0] == self@[i as int]);
                assert(self@.skip(i as int).drop_first() =~= self@.skip(i as int + 1));
            }
            if crate::text::str_eq(self.entries[i].0.as_str(), tag) {
                return Some(&self.entries[i].1);
            }
            i = i + 1;
        }
        proof {
            assert(self@.skip(self@.len() as int).len() == 0);
        }
        None
    }

    /// Pure lookup of the motor mapped to a tag given as characters.
    pub fn get_chars(&self, tag: &[char]) -> (r: Option<&MotorConfigurationV3>)
        ensures
            match r {
                Some(m) => spec_lookup(self@, tag@) == Some(m@),
                None => spec_lookup(self@, tag@) is None,
            },
    {
        let mut i: usize = 0;
        proof {
            assert(self@.skip(0) =~= self@);
        }
        while i < self.entries.len()
            invariant
                i <= self@.len(),
                self@.len() == self.entries@.len(),
                spec_lookup(self@, tag@) == spec_lookup(self@.skip(i as int), tag@),
            decreases self@.len() - i,
        {
            proof {
                assert(self@.skip(i as int)[0] == self@[i as int]);
                assert(self@.skip(i as int).drop_first() =~= self@.skip(i as int + 1));
            }
            if crate::text::chars_eq_str(tag, self.entries[i].0.as_str()) {
                return Some(&self.entries[i].1);
            }
            i = i + 1;
        }
        proof {
            assert(self@.skip(self@.len() as int).len() == 0);
        }
        None
    }

    /// A deep copy whose value equals this one.
    pub fn duplicate(&self) -> (r: TagMap)
        ensures
            r@ == self@,
    {
        let mut entries: Vec<(String, MotorConfigurationV3)> = Vec::new();
        let mut i: usize = 0;
        while i < self.entries.len()
            invariant
                i <= self@.len(),
                self@.len() == self.entries@.len(),
                entries@.len() == i,
                forall|j: int|
                    0 <= j < i ==> (#[trigger] entries@[j]).0@ == self@[j].0 && entries@[j].1@
                        == self@[j].1,
            decreases self@.len() - i,
        {
            let key = self.entries[i].0.clone();
            let motor = self.entries[i].1.duplicate();
            let ghost key_view = key@;
            let ghost motor_view = motor@;
            proof {
                assert(key_view == self@[i as int].0);
                assert(motor_view == self@[i as int].1);
            }
            entries.push((key, motor));
            i = i + 1;
        }
        let r = TagMap { entries };
        proof {
            assert(r@ =~= self@);
        }
        r
    }
}

/// The mathematical value of a configuration.
pub ghost struct ConfigV3View {
    pub version: int,
    pub port: u16,
    pub tags: Seq<(Seq<char>, MotorV3View)>,
}

/// The durable configuration: schema version, network port, and the
/// tag-to-motor mapping.
pub struct ConfigurationV3 {
    pub version: i32,
    pub port: u16,
    pub tags: TagMap,
}

impl View for ConfigurationV3 {
    type V = ConfigV3View;

    open spec fn view(&self) -> ConfigV3View {
        ConfigV3View { version: self.version as int, port: self.port, tags: self.tags@ }
    }
}

impl ConfigurationV3 {
    /// A configuration stamped with the current schema version.
    pub fn new(port: u16, tags: TagMap) -> (r: ConfigurationV3)
        ensures
            r@.version == CONFIG_VERSION as int,
            r@.port == port,
            r@.tags == tags@,
    {
        ConfigurationV3 { version: CONFIG_VERSION, port, tags }
    }

    /// The same mapping re-stamped with the current schema version.
    pub fn new_with_current_version(&self) -> (r: ConfigurationV3)
        ensures
            r@.version == CONFIG_VERSION as int,
            r@.port == self@.port,
            r@.tags == self@.tags,
    {
        ConfigurationV3 {
            version: CONFIG_VERSION,
            port: self.port,
            tags: self.tags.duplicate(),
        }
    }

    /// Pure lookup of the motor mapped to a tag.
    pub fn motor_from_tag(&self, tag: &str) -> (r: Option<&MotorConfigurationV3>)
        ensures
            match r {
                Some(m) => spec_lookup(self@.tags, tag@) == Some(m@),
                None => spec_lookup(self@.tags, tag@) is None,
            },
    {
        self.tags.get(tag)
    }

    /// Is a stored version older than the current schema version?
    pub fn is_version_outdated(version: i32) -> (r: bool)
        ensures
            r == (version < CONFIG_VERSION),
    {
        version < CONFIG_VERSION
    }

    /// Is this configuration older than the current schema version?
    pub fn is_outdated(&self) -> (r: bool)
        ensures
            r == (self@.version < CONFIG_VERSION as int),
    {
        ConfigurationV3::is_version_outdated(self.version)
    }

    /// Migrate a legacy configuration: drop every tag whose target device
    /// owns a contraction motor, convert the remaining motors one to one,
    /// and keep version and port unchanged.
    pub fn from_v2(configuration_v2: &ConfigurationV2) -> (r: ConfigurationV3)
        ensures
            r@.version == configuration_v2@.version,
            r@.port == configuration_v2@.port,
            r@.tags == spec_migrate_tags(configuration_v2@.tags, configuration_v2@.tags),
    {
        let ghost all = configuration_v2@.tags;
        let mut entries: Vec<(String, MotorConfigurationV3)> = Vec::new();
        let mut i: usize = 0;
        let n: usize = configuration_v2.tags.len();
        let result_tags = TagMap { entries: Vec::new() };
        let mut result_tags = result_tags;
        proof {
            assert(result_tags@ =~= Seq::<(Seq<char>, MotorV3View)>::empty());
            assert(all.skip(0) =~= all);
            assert(spec_migrate_tags(all, all) =~= result_tags@ + spec_migrate_tags(
                all.skip(0),
                all,
            ));
        }
        while i < n
            invariant
                n == all.len(),
                i <= n,
                configuration_v2@.tags == all,
                spec_migrate_tags(all, all) == result_tags@ + spec_migrate_tags(
                    all.skip(i as int),
                    all,
                ),
            decreases n - i,
        {
            let entry = configuration_v2.tags.entry(i);
            proof {
                assert(all.skip(i as int)[0] == all[i as int]);
                assert(all.skip(i as int).drop_first() =~= all.skip(i as int + 1));
            }
            let bad = device_has_contraction(configuration_v2, entry.1.device_name.as_str());
            if !bad {
                match MotorConfigurationV3::try_from_v2(&entry.1) {
                    Some(motor) => {
                        let key = entry.0.clone();
                        let ghost key_view = key@;
                        let ghost motor_view = motor@;
                        let ghost prev = result_tags@;
                        result_tags.entries.push((key, motor));
                        proof {
                            assert(result_tags@ =~= prev + seq![(key_view, motor_view)]);
                            assert(key_view == all[i as int].0);
                            assert(spec_migrate_tags(all.skip(i as int), all) == seq![
                                (key_view, motor_view),
                            ] + spec_migrate_tags(all.skip(i as int + 1), all));
                            assert(spec_migrate_tags(all, all) =~= result_tags@
                                + spec_migrate_tags(all.skip(i as int + 1), all));
                        }
                    },
                    None => {
                        proof {
                            // a motor that fails to convert is a contraction
                            // motor, so its device is a contraction device
                            assert(all[i as int].1.feature_type == MotorTypeV2::Contraction);
                            assert(spec_device_has_contraction(all, all[i as int].1.device_name));
                        }
                    },
                }
            }
            i = i + 1;
        }
        proof {
            assert(all.skip(n as int).len() == 0);
            assert(spec_migrate_tags(all.skip(n as int), all) =~= Seq::<
                (Seq<char>, MotorV3View),
            >::empty());
            assert(result_tags@ =~= spec_migrate_tags(all, all));
        }
        ConfigurationV3 {
            version: configuration_v2.version,
            port: configuration_v2.port,
            tags: result_tags,
        }
    }
}

impl Default for ConfigurationV3 {
    /// The compiled-in default: fixed port and an empty tag map.
    fn default() -> (r: ConfigurationV3)
        ensures
            r@.version == CONFIG_VERSION as int,
            r@.port == DEFAULT_PORT,
            r@.tags.len() == 0,
    {
        ConfigurationV3 { version: CONFIG_VERSION, port: DEFAULT_PORT, tags: TagMap::new() }
    }
}

/// Does some entry of the legacy mapping place a contraction motor on the
/// named device?
pub open spec fn spec_device_has_contraction(
    tags: Seq<(Seq<char>, MotorV2View)>,
    name: Seq<char>,
) -> bool {
    exists|i: int|
        0 <= i < tags.len() && (#[trigger] tags[i]).1.device_name == name && tags[i].1.feature_type
            == MotorTypeV2::Contraction
}

/// The migrated tag entries: entries on contraction devices are dropped,
/// the rest are converted one to one, in order.
pub open spec fn spec_migrate_tags(
    tags: Seq<(Seq<char>, MotorV2View)>,
    all: Seq<(Seq<char>, MotorV2View)>,
) -> Seq<(Seq<char>, MotorV3View)>
    decreases tags.len(),
{
    if tags.len() == 0 {
        Seq::empty()
    } else {
        let rest = spec_migrate_tags(tags.drop_first(), all);
        if spec_device_has_contraction(all, tags[0].1.device_name) {
            rest
        } else {
            match spec_motor_v3_of_v2(tags[0].1) {
                Some(m) => seq![(tags[0].0, m)] + rest,
                None => rest,
            }
        }
    }
}

/// With unique tags, every entry under a looked-up tag carries the found
/// motor.
proof fn lemma_lookup_v2_entries(tags: Seq<(Seq<char>, MotorV2View)>, t: Seq<char>, mv: MotorV2View)
    requires
        forall|i: int, j: int|
            0 <= i < j < tags.len() ==> (#[trigger] tags[i]).0 != (#[trigger] tags[j]).0,
        crate::configuration_v2::spec_lookup_v2(tags, t) == Some(mv),
    ensures
        forall|i: int| 0 <= i < tags.len() && (#[trigger] tags[i]).0 == t ==> tags[i].1 == mv,
    decreases tags.len(),
{
    if tags.len() > 0 {
        let rest = tags.drop_first();
        if tags[0].0 == t {
            assert forall|i: int| 0 <= i < tags.len() && (#[trigger] tags[i]).0 == t implies tags[i].1 == mv by {
                if i > 0 {
                    assert(tags[0].0 != tags[i].0);
                }
            }
        } else {
            assert forall|i: int, j: int| 0 <= i < j < rest.len() implies (#[trigger] rest[i]).0
                != (#[trigger] rest[j]).0 by {
                assert(rest[i] == tags[i + 1]);
                assert(rest[j] == tags[j + 1]);
            }
            lemma_lookup_v2_entries(rest, t, mv);
            assert forall|i: int| 0 <= i < tags.len() && (#[trigger] tags[i]).0 == t implies tags[i].1 == mv by {
                assert(i > 0);
                assert(rest[i - 1] == tags[i]);
            }
        }
    }
}

/// No migrated entry keeps a tag whose every binding sits on a contraction
/// device.
proof fn lemma_migrate_drops_key(
    tags: Seq<(Seq<char>, MotorV2View)>,
    all: Seq<(Seq<char>, MotorV2View)>,
    t: Seq<char>,
)
    requires
        forall|i: int|
            0 <= i < tags.len() && (#[trigger] tags[i]).0 == t ==> spec_device_has_contraction(
                all,
                tags[i].1.device_name,
            ),
    ensures
        spec_lookup(spec_migrate_tags(tags, all), t) is None,
    decreases tags.len(),
{
    if tags.len() > 0 {
        let rest = tags.drop_first();
        assert forall|i: int| 0 <= i < rest.len() && (#[trigger] rest[i]).0 == t implies
            spec_device_has_contraction(all, rest[i].1.device_name) by {
            assert(rest[i] == tags[i + 1]);
        }
        lemma_migrate_drops_key(rest, all, t);
        let m = spec_migrate_tags(tags, all);
        if spec_device_has_contraction(all, tags[0].1.device_name) {
        } else {
            assert(tags[0].0 != t);
            match spec_motor_v3_of_v2(tags[0].1) {
                Some(h) => {
                    let r = spec_migrate_tags(rest, all);
                    assert(m == seq![(tags[0].0, h)] + r);
                    assert(m[0].0 == tags[0].0);
                    assert(m.drop_first() =~= r);
                },
                None => {},
            }
        }
    }
}

/// Migration filters at device level: a tag bound to any motor of a device
/// that owns a contraction motor — even one of the device's representable
/// motors — is dropped entirely by the migration.
pub proof fn lemma_migration_device_level_filtering(
    configuration_v2: ConfigV2View,
    t: Seq<char>,
    mv: MotorV2View,
)
    requires
        forall|i: int, j: int|
            0 <= i < j < configuration_v2.tags.len() ==> (#[trigger] configuration_v2.tags[i]).0
                != (#[trigger] configuration_v2.tags[j]).0,
        crate::configuration_v2::spec_lookup_v2(configuration_v2.tags, t) == Some(mv),
        spec_device_has_contraction(configuration_v2.tags, mv.device_name),
    ensures
        spec_lookup(
            spec_migrate_tags(configuration_v2.tags, configuration_v2.tags),
            t,
        ) is None,
{
    lemma_lookup_v2_entries(configuration_v2.tags, t, mv);
    lemma_migrate_drops_key(configuration_v2.tags, configuration_v2.tags, t);
}

/// Migration keeps tags unique: every migrated entry keeps its original
/// key, in order, so distinct keys stay distinct.
pub proof fn lemma_migrate_tags_wf(tags: Seq<(Seq<char>, MotorV2View)>)
    requires
        forall|i: int, j: int|
            0 <= i < j < tags.len() ==> (#[trigger] tags[i]).0 != (#[trigger] tags[j]).0,
    ensures
        forall|i: int, j: int|
            0 <= i < j < spec_migrate_tags(tags, tags).len() ==> (#[trigger] spec_migrate_tags(
                tags,
                tags,
            )[i]).0 != (#[trigger] spec_migrate_tags(tags, tags)[j]).0,
{
    lemma_migrate_tags_unique(tags, tags);
}

/// Each key of the migrated entries occurs among the source keys, and when
/// the source keys are unique so are the migrated ones.
proof fn lemma_migrate_tags_unique(
    tags: Seq<(Seq<char>, MotorV2View)>,
    all: Seq<(Seq<char>, MotorV2View)>,
)
    requires
        forall|i: int, j: int|
            0 <= i < j < tags.len() ==> (#[trigger] tags[i]).0 != (#[trigger] tags[j]).0,
    ensures
        forall|k: int|
            0 <= k < spec_migrate_tags(tags, all).len() ==> exists|i: int|
                0 <= i < tags.len() && (#[trigger] spec_migrate_tags(tags, all)[k]).0 == (
                #[trigger] tags[i]).0,
        forall|i: int, j: int|
            0 <= i < j < spec_migrate_tags(tags, all).len() ==> (#[trigger] spec_migrate_tags(
                tags,
                all,
            )[i]).0 != (#[trigger] spec_migrate_tags(tags, all)[j]).0,
    decreases tags.len(),
{
    if tags.len() > 0 {
        let rest = tags.drop_first();
        assert forall|i: int, j: int| 0 <= i < j < rest.len() implies (#[trigger] rest[i]).0 != (
        #[trigger] rest[j]).0 by {
            assert(rest[i] == tags[i + 1]);
            assert(rest[j] == tags[j + 1]);
        }
        lemma_migrate_tags_unique(rest, all);
        let m = spec_migrate_tags(tags, all);
        let mr = spec_migrate_tags(rest, all);
        let kept = !spec_device_has_contraction(all, tags[0].1.device_name)
            && spec_motor_v3_of_v2(tags[0].1) is Some;
        if kept {
            let head = spec_motor_v3_of_v2(tags[0].1).unwrap();
            assert(m == seq![(tags[0].0, head)] + mr);
            assert forall|k: int| 0 <= k < m.len() implies exists|i: int|
                0 <= i < tags.len() && (#[trigger] m[k]).0 == (#[trigger] tags[i]).0 by {
                if k == 0 {
                    assert(m[0].0 == tags[0].0);
                } else {
                    assert(m[k] == mr[k - 1]);
                    let i = choose|i: int|
                        0 <= i < rest.len() && (#[trigger] mr[k - 1]).0 == (#[trigger] rest[i]).0;
                    assert(tags[i + 1].0 == m[k].0);
                }
            }
            assert forall|i: int, j: int| 0 <= i < j < m.len() implies (#[trigger] m[i]).0 != (
            #[trigger] m[j]).0 by {
                if i == 0 {
                    assert(m[j] == mr[j - 1]);
                    let w = choose|w: int|
                        0 <= w < rest.len() && (#[trigger] mr[j - 1]).0 == (#[trigger] rest[w]).0;
                    assert(rest[w] == tags[w + 1]);
                    assert(tags[0].0 != tags[w + 1].0);
                    assert(m[0].0 == tags[0].0);
                } else {
                    assert(m[i] == mr[i - 1]);
                    assert(m[j] == mr[j - 1]);
                }
            }
        } else {
            assert(m == mr);
            assert forall|k: int| 0 <= k < m.len() implies exists|i: int|
                0 <= i < tags.len() && (#[trigger] m[k]).0 == (#[trigger] tags[i]).0 by {
                let i = choose|i: int|
                    0 <= i < rest.len() && (#[trigger] mr[k]).0 == (#[trigger] rest[i]).0;
                assert(tags[i + 1].0 == m[k].0);
            }
        }
    }
}

/// Does the named device own a contraction motor in this legacy
/// configuration?
pub fn device_has_contraction(configuration_v2: &ConfigurationV2, name: &str) -> (r: bool)
    ensures
        r == spec_device_has_contraction(configuration_v2@.tags, name@),
{
    let mut i: usize = 0;
    let n: usize = configuration_v2.tags.len();
    while i < n
        invariant
            n == configuration_v2@.tags.len(),
            i <= n,
            forall|j: int|
                0 <= j < i ==> !((#[trigger] configuration_v2@.tags[j]).1.device_name == name@
                    && configuration_v2@.tags[j].1.feature_type == MotorTypeV2::Contraction),
        decreases n - i,
    {
        let entry = configuration_v2.tags.entry(i);
        let is_contraction = match entry.1.feature_type {
            MotorTypeV2::Contraction => true,
            _ => false,
        };
        if is_contraction && crate::text::str_eq(entry.1.device_name.as_str(), name) {
            proof {
                assert(configuration_v2@.tags[i as int].1.device_name == name@);
            }
            return true;
        }
        i = i + 1;
    }
    false
}

} // verus!
