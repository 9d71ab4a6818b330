//! The legacy (version 2) configuration schema: tag-to-motor mappings whose
//! motor kinds include a discrete contraction actuator that the current
//! schema cannot represent.

use vstd::prelude::*;

verus! {

/// Schema version of the legacy configuration format.
pub const LEGACY_CONFIG_VERSION: i32 = 2;

/// Default network port when no configuration exists.
pub const DEFAULT_PORT: u16 = 3031;

/// The motor kinds of the legacy schema.
#[derive(Clone, Copy, PartialEq, Eq, Structural, Debug)]
pub enum MotorTypeV2 {
    Linear,
    Rotation,
    Vibration,
    Contraction,
}

impl MotorTypeV2 {
    /// All legacy motor kinds, in their display order.
    pub fn iter() -> (r: Vec<MotorTypeV2>)
        ensures
            r@ == seq![
                MotorTypeV2::Vibration,
                MotorTypeV2::Linear,
                MotorTypeV2::Rotation,
                MotorTypeV2::Contraction,
            ],
    {
        let mut r: Vec<MotorTypeV2> = Vec::new();
        r.push(MotorTypeV2::Vibration);
        r.push(MotorTypeV2::Linear);
        r.push(MotorTypeV2::Rotation);
        r.push(MotorTypeV2::Contraction);
        proof {
            assert(r@ =~= seq![
                MotorTypeV2::Vibration,
                MotorTypeV2::Linear,
                MotorTypeV2::Rotation,
                MotorTypeV2::Contraction,
            ]);
        }
        r
    }
}

/// The mathematical value of a legacy motor address.
pub ghost struct MotorV2View {
    pub device_name: Seq<char>,
    pub feature_type: MotorTypeV2,
    pub feature_index: u32,
}

/// The address of a specific motor in the legacy schema.
#[derive(Clone, PartialEq, Eq, Debug)]
pub struct MotorConfigurationV2 {
    pub device_name: String,
    pub feature_type: MotorTypeV2,
    pub feature_index: u32,
}

impl View for MotorConfigurationV2 {
    type V = MotorV2View;

    open spec fn view(&self) -> MotorV2View {
        MotorV2View {
            device_name: self.device_name@,
            feature_type: self.feature_type,
            feature_index: self.feature_index,
        }
    }
}

impl MotorConfigurationV2 {
    /// A deep copy whose value equals this one.
    pub fn duplicate(&self) -> (r: MotorConfigurationV2)
        ensures
            r@ == self@,
    {
        MotorConfigurationV2 {
            device_name: self.device_name.clone(),
            feature_type: self.feature_type,
            feature_index: self.feature_index,
        }
    }
}

/// Look a tag up in an association sequence: the value of the first entry
/// whose key matches, if any.
pub open spec fn spec_lookup_v2(
    s: Seq<(Seq<char>, MotorV2View)>,
    tag: Seq<char>,
) -> Option<MotorV2View>
    decreases s.len(),
{
    if s.len() == 0 {
        None
    } else if s[0].0 == tag {
        Some(s[0].1)
    } else {
        spec_lookup_v2(s.drop_first(), tag)
    }
}

/// The legacy tag-to-motor mapping, stored as an association list whose keys
/// are unique.
pub struct TagMapV2 {
    pub entries: Vec<(String, MotorConfigurationV2)>,
}

impl View for TagMapV2 {
    type V = Seq<(Seq<char>, MotorV2View)>;

    open spec fn view(&self) -> Seq<(Seq<char>, MotorV2View)> {
        Seq::new(self.entries@.len(), |i: int| (self.entries@[i].0@, self.entries@[i].1@))
    }
}

impl TagMapV2 {
    /// Keys are pairwise distinct.
    pub open spec fn wf(&self) -> bool {
        forall|i: int, j: int|
            0 <= i < j < self@.len() ==> (#[trigger] self@[i]).0 != (#[trigger] self@[j]).0
    }

    /// An empty mapping.
    pub fn new() -> (r: TagMapV2)
        ensures
            r@ == Seq::<(Seq<char>, MotorV2View)>::empty(),
            r.wf(),
    {
        let r = TagMapV2 { entries: Vec::new() };
        proof {
            assert(r@ =~= Seq::<(Seq<char>, MotorV2View)>::empty());
        }
        r
    }

    /// Number of entries.
    pub fn len(&self) -> (r: usize)
        ensures
            r == self@.len(),
    {
        self.entries.len()
    }

    /// The entry at a position.
    pub fn entry(&self, i: usize) -> (r: &(String, MotorConfigurationV2))
        requires
            i < self@.len(),
        ensures
            r.0@ == self@[i as int].0,
            r.1@ == self@[i as int].1,
    {
        &self.entries[i]
    }

    /// Whether some entry already uses this key.
    pub open spec fn spec_contains_key(&self, tag: Seq<char>) -> bool {
        exists|i: int| 0 <= i < self@.len() && (#[trigger] self@[i]).0 == tag
    }

    /// Add an entry under a key not yet present.
    pub fn insert_new(&mut self, tag: String, motor: MotorConfigurationV2)
        requires
            old(self).wf(),
            !old(self).spec_contains_key(tag@),
        ensures
            final(self)@ == old(self)@ + seq![(tag@, motor@)],
            final(self).wf(),
    {
        let ghost old_view = self@;
        let ghost tag_view = tag@;
        let ghost motor_view = motor@;
        self.entries.push((tag, motor));
        proof {
            assert(self@ =~= old_view + seq![(tag_view, motor_view)]);
            assert forall|i: int, j: int| 0 <= i < j < self@.len() implies
                (#[trigger] self@[i]).0 != (#[trigger] self@[j]).0 by {
                if j < old_view.len() {
                    assert(old_view[i].0 != old_view[j].0);
                }
            }
        }
    }

    /// Does the map contain this key?
    pub fn contains_key(&self, tag: &str) -> (r: bool)
        ensures
            r == self.spec_contains_key(tag@),
    {
        let mut i: usize = 0;
        while i < self.entries.len()
            invariant
                i <= self@.len(),
                self@.len() == self.entries@.len(),
                forall|j: int| 0 <= j < i ==> (#[trigger] self@[j]).0 != tag@,
            decreases self@.len() - i,
        {
            if crate::text::str_eq(self.entries[i].0.as_str(), tag) {
                proof {
                    assert((self@[i as int]).0 == tag@);
                }
                return true;
            }
            i = i + 1;
        }
        false
    }

    /// Pure lookup of the motor mapped to a tag.
    pub fn get(&self, tag: &str) -> (r: Option<&MotorConfigurationV2>)
        ensures
            match r {
                Some(m) => spec_lookup_v2(self@, tag@) == Some(m@),
                None => spec_lookup_v2(self@, tag@) is None,
            },
    {
        let mut i: usize = 0;
        proof {
            assert(self@.skip(0) =~= self@);
        }
        while i < self.entries.len()
            invariant
                i <= self@.len(),
                self@.len() == self.entries@.len(),
                spec_lookup_v2(self@, tag@) == spec_lookup_v2(self@.skip(i as int), tag@),
            decreases self@.len() - i,
        {
            proof {
                assert(self@.skip(i as int)[0] == self@[i as int]);
                assert(self@.skip(i as int).drop_first() =~= self@.skip(i as int + 1));
            }
            if crate::text::str_eq(self.entries[i].0.as_str(), tag) {
                return Some(&self.entries[i].1);
            }
            i = i + 1;
        }
        proof {
            assert(self@.skip(self@.len() as int).len() == 0);
        }
        None
    }
}

/// The mathematical value of a legacy configuration.
pub ghost struct ConfigV2View {
    pub version: int,
    pub port: u16,
    pub tags: Seq<(Seq<char>, MotorV2View)>,
}

/// The durable legacy configuration: schema version, network port, and the
/// tag-to-motor mapping.
pub struct ConfigurationV2 {
    pub version: i32,
    pub port: u16,
    pub tags: TagMapV2,
}

impl View for ConfigurationV2 {
    type V = ConfigV2View;

    open spec fn view(&self) -> ConfigV2View {
        ConfigV2View { version: self.version as int, port: self.port, tags: self.tags@ }
    }
}

impl ConfigurationV2 {
    /// A legacy configuration stamped with the legacy schema version.
    pub fn new(port: u16, tags: TagMapV2) -> (r: ConfigurationV2)
        ensures
            r@.version == LEGACY_CONFIG_VERSION as int,
            r@.port == port,
            r@.tags == tags@,
    {
        ConfigurationV2 { version: LEGACY_CONFIG_VERSION, port, tags }
    }

    /// The same mapping re-stamped with the legacy schema version.
    pub fn new_with_current_version(&self) -> (r: ConfigurationV2)
        ensures
            r@.version == LEGACY_CONFIG_VERSION as int,
            r@.port == self@.port,
            r@.tags == self@.tags,
    {
        let mut tags = TagMapV2 { entries: Vec::new() };
        let mut i: usize = 0;
        while i < self.tags.len()
            invariant
                i <= self@.tags.len(),
                tags@.len() == i,
                forall|j: int| 0 <= j < i ==> tags@[j] == self@.tags[j],
            decreases self@.tags.len() - i,
        {
            let entry = self.tags.entry(i);
            let key = entry.0.clone();
            let motor = entry.1.duplicate();
            let ghost key_view = key@;
            let ghost motor_view = motor@;
            proof {
                assert(key_view == self@.tags[i as int].0);
                assert(motor_view == self@.tags[i as int].1);
            }
            let ghost prev = tags@;
            tags.entries.push((key, motor));
            i = i + 1;
            proof {
                assert forall|j: int| 0 <= j < i implies tags@[j] == self@.tags[j] by {
                    if j == i - 1 {
                        assert(tags.entries@[j].0@ == key_view);
                        assert(tags.entries@[j].1@ == motor_view);
                    } else {
                        assert(prev[j] == self@.tags[j]);
                        assert(tags.entries@[j] == tags.entries@.drop_last()[j]);
                    }
                }
            }
        }
        proof {
            assert(tags@ =~= self@.tags);
        }
        ConfigurationV2 { version: LEGACY_CONFIG_VERSION, port: self.port, tags }
    }

    /// Pure lookup of the motor mapped to a tag.
    pub fn motor_from_tag(&self, tag: &str) -> (r: Option<&MotorConfigurationV2>)
        ensures
            match r {
                Some(m) => spec_lookup_v2(self@.tags, tag@) == Some(m@),
                None => spec_lookup_v2(self@.tags, tag@) is None,
            },
    {
        self.tags.get(tag)
    }

    /// Is a stored version older than the legacy schema version?
    pub fn is_version_outdated(version: i32) -> (r: bool)
        ensures
            r == (version < LEGACY_CONFIG_VERSION),
    {
        version < LEGACY_CONFIG_VERSION
    }

    /// Is this configuration older than the legacy schema version?
    pub fn is_outdated(&self) -> (r: bool)
        ensures
            r == (self@.version < LEGACY_CONFIG_VERSION as int),
    {
        ConfigurationV2::is_version_outdated(self.version)
    }
}

impl Default for ConfigurationV2 {
    /// The compiled-in legacy default: fixed port and an empty tag map.
    fn default() -> (r: ConfigurationV2)
        ensures
            r@.version == LEGACY_CONFIG_VERSION as int,
            r@.port == DEFAULT_PORT,
            r@.tags.len() == 0,
    {
        ConfigurationV2 { version: LEGACY_CONFIG_VERSION, port: DEFAULT_PORT, tags: TagMapV2::new() }
    }
}

} // verus!
