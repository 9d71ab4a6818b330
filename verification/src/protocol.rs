//! The command protocol decoder: one line of semicolon-delimited commands,
//! each `tag:field[:field...]`, becomes a per-device batch of pending motor
//! settings, resolved against a configuration snapshot.
//!
//! Decoding is all-or-nothing per line: a malformed or missing numeric field
//! anywhere aborts the whole line, while an unknown tag only skips its own
//! segment. When two segments address the same device and feature index,
//! the later one wins.

use vstd::prelude::*;

use crate::assoc::{
    lemma_map_of_absent, lemma_map_of_at, lemma_map_of_push, lemma_map_of_remove,
    lemma_map_of_update, map_of, unique_keys,
};
use crate::configuration_v3::{ActuatorType, ConfigurationV3, MotorTypeV3, MotorV3View, spec_lookup};
use crate::number::{spec_rotation_value, spec_unit_value};
use crate::text::{parse_u32_spec, split_on};
use vstd::pervasive::VecAdditionalExecFns;

verus! {

/// The mathematical value of the pending settings of one device: per feature
/// index, the scalar intensity (millionths and actuator type), the rotation
/// speed (millionths and direction), and the linear target (duration in
/// milliseconds and position in millionths).
pub ghost struct MotorSettingsView {
    pub scalar: Map<u32, (u32, ActuatorType)>,
    pub rotate: Map<u32, (u32, bool)>,
    pub linear: Map<u32, (u32, u32)>,
}

/// Settings with no pending entries.
pub open spec fn empty_settings() -> MotorSettingsView {
    MotorSettingsView { scalar: Map::empty(), rotate: Map::empty(), linear: Map::empty() }
}

/// Desired settings for all the motors in a single device, one per decoded
/// command line.
#[derive(Debug)]
pub struct MotorSettings {
    pub scalar_map: Vec<(u32, (u32, ActuatorType))>,
    pub rotate_map: Vec<(u32, (u32, bool))>,
    pub linear_map: Vec<(u32, (u32, u32))>,
}

impl View for MotorSettings {
    type V = MotorSettingsView;

    open spec fn view(&self) -> MotorSettingsView {
        MotorSettingsView {
            scalar: map_of(self.scalar_map@),
            rotate: map_of(self.rotate_map@),
            linear: map_of(self.linear_map@),
        }
    }
}

impl MotorSettings {
    /// Feature indices are unique within each kind.
    pub open spec fn wf(&self) -> bool {
        unique_keys(self.scalar_map@) && unique_keys(self.rotate_map@) && unique_keys(
            self.linear_map@,
        )
    }

    /// Settings with no pending entries.
    pub fn new() -> (r: MotorSettings)
        ensures
            r@ == empty_settings(),
            r.wf(),
    {
        let r = MotorSettings { scalar_map: Vec::new(), rotate_map: Vec::new(), linear_map: Vec::new() };
        proof {
            assert(r@.scalar =~= empty_settings().scalar);
            assert(r@.rotate =~= empty_settings().rotate);
            assert(r@.linear =~= empty_settings().linear);
        }
        r
    }
}

/// Set the value of a feature index, replacing an earlier value.
fn keyed_insert<T: Copy>(entries: &mut Vec<(u32, T)>, key: u32, value: T)
    requires
        unique_keys(old(entries)@),
    ensures
        map_of(final(entries)@) == map_of(old(entries)@).insert(key, value),
        unique_keys(final(entries)@),
{
    let ghost s = entries@;
    let mut i: usize = 0;
    while i < entries.len()
        invariant
            s == entries@,
            s == old(entries)@,
            i <= s.len(),
            unique_keys(s),
            forall|j: int| 0 <= j < i ==> (#[trigger] s[j]).0 != key,
        decreases s.len() - i,
    {
        if entries[i].0 == key {
            entries.set(i, (key, value));
            proof {
                assert(entries@ =~= s.update(i as int, (s[i as int].0, value)));
                lemma_map_of_update(s, i as int, value);
                assert forall|a: int, b: int| 0 <= a < b < entries@.len() implies (
                #[trigger] entries@[a]).0 != (#[trigger] entries@[b]).0 by {
                    assert(entries@[a].0 == s[a].0);
                    assert(entries@[b].0 == s[b].0);
                }
            }
            return;
        }
        i = i + 1;
    }
    entries.push((key, value));
    proof {
        assert(entries@ =~= s + seq![(key, value)]);
        lemma_map_of_push(s, key, value);
        assert forall|a: int, b: int| 0 <= a < b < entries@.len() implies (
        #[trigger] entries@[a]).0 != (#[trigger] entries@[b]).0 by {
            if b < s.len() {
                assert(entries@[a].0 == s[a].0);
                assert(entries@[b].0 == s[b].0);
            } else {
                assert(entries@[a].0 == s[a].0);
                assert(entries@[b] == (key, value));
            }
        }
    }
}

/// The decoded per-device settings of one command line, keyed by device
/// name, stored as an association list with unique keys.
#[derive(Debug)]
pub struct DeviceMap {
    pub entries: Vec<(String, MotorSettings)>,
}

impl View for DeviceMap {
    type V = Seq<(Seq<char>, MotorSettingsView)>;

    open spec fn view(&self) -> Seq<(Seq<char>, MotorSettingsView)> {
        Seq::new(self.entries@.len(), |i: int| (self.entries@[i].0@, self.entries@[i].1@))
    }
}

impl DeviceMap {
    /// The map this list denotes.
    pub open spec fn as_map(&self) -> Map<Seq<char>, MotorSettingsView> {
        map_of(self@)
    }

    /// Device names are unique and each device's settings are well formed.
    pub open spec fn wf(&self) -> bool {
        unique_keys(self@) && (forall|i: int|
            0 <= i < self.entries@.len() ==> (#[trigger] self.entries@[i]).1.wf())
    }

    /// An empty map.
    pub fn new() -> (r: DeviceMap)
        ensures
            r.as_map() == Map::<Seq<char>, MotorSettingsView>::empty(),
            r@.len() == 0,
            r.wf(),
    {
        let r = DeviceMap { entries: Vec::new() };
        proof {
            assert(r@ =~= Seq::<(Seq<char>, MotorSettingsView)>::empty());
        }
        r
    }

    /// Number of devices with pending settings.
    pub fn len(&self) -> (r: usize)
        ensures
            r == self@.len(),
    {
        self.entries.len()
    }

    /// Find the position of a device by name.
    fn find(&self, name: &str) -> (r: Option<usize>)
        ensures
            match r {
                Some(i) => i < self@.len() && self@[i as int].0 == name@,
                None => forall|j: int| 0 <= j < self@.len() ==> (#[trigger] self@[j]).0 != name@,
            },
    {
        let mut i: usize = 0;
        while i < self.entries.len()
            invariant
                i <= self@.len(),
                self@.len() == self.entries@.len(),
                forall|j: int| 0 <= j < i ==> (#[trigger] self@[j]).0 != name@,
            decreases self@.len() - i,
        {
            if crate::text::str_eq(self.entries[i].0.as_str(), name) {
                proof {
                    assert(self@[i as int].0 == name@);
                }
                return Some(i);
            }
            i = i + 1;
        }
        None
    }

    /// Take the pending settings of a device out of the map, if any.
    pub fn remove(&mut self, name: &str) -> (r: Option<MotorSettings>)
        requires
            old(self).wf(),
        ensures
            final(self).wf(),
            match r {
                Some(ms) => old(self).as_map().contains_key(name@) && ms@ == old(
                    self,
                ).as_map()[name@] && ms.wf() && final(self).as_map() == old(self).as_map().remove(
                    name@,
                ),
                None => !old(self).as_map().contains_key(name@) && *final(self) == *old(self),
            },
    {
        let ghost s = self@;
        match self.find(name) {
            Some(i) => {
                proof {
                    lemma_map_of_at(s, i as int);
                    lemma_map_of_remove(s, i as int);
                }
                let entry = self.entries.remove(i);
                proof {
                    assert(self@ =~= s.remove(i as int));
                    assert forall|a: int, b: int| 0 <= a < b < self@.len() implies (
                    #[trigger] self@[a]).0 != (#[trigger] self@[b]).0 by {
                        let sa = if a < i { a } else { a + 1 };
                        let sb = if b < i { b } else { b + 1 };
                        assert(self@[a].0 == s[sa].0);
                        assert(self@[b].0 == s[sb].0);
                    }
                    assert forall|j: int| 0 <= j < self.entries@.len() implies (
                    #[trigger] self.entries@[j]).1.wf() by {
                        let sj = if j < i { j } else { j + 1 };
                        assert(self.entries@[j] == old(self).entries@[sj]);
                    }
                }
                Some(entry.1)
            },
            None => {
                proof {
                    lemma_map_of_absent(s, name@);
                }
                None
            },
        }
    }
}

/// Record a scalar setting for a device and feature index, replacing an
/// earlier one.
pub open spec fn spec_insert_scalar(
    m: Map<Seq<char>, MotorSettingsView>,
    name: Seq<char>,
    index: u32,
    value: (u32, ActuatorType),
) -> Map<Seq<char>, MotorSettingsView> {
    let ms = if m.contains_key(name) {
        m[name]
    } else {
        empty_settings()
    };
    m.insert(name, MotorSettingsView { scalar: ms.scalar.insert(index, value), ..ms })
}

/// Record a rotation setting for a device and feature index, replacing an
/// earlier one.
pub open spec fn spec_insert_rotate(
    m: Map<Seq<char>, MotorSettingsView>,
    name: Seq<char>,
    index: u32,
    value: (u32, bool),
) -> Map<Seq<char>, MotorSettingsView> {
    let ms = if m.contains_key(name) {
        m[name]
    } else {
        empty_settings()
    };
    m.insert(name, MotorSettingsView { rotate: ms.rotate.insert(index, value), ..ms })
}

/// Record a linear setting for a device and feature index, replacing an
/// earlier one.
pub open spec fn spec_insert_linear(
    m: Map<Seq<char>, MotorSettingsView>,
    name: Seq<char>,
    index: u32,
    value: (u32, u32),
) -> Map<Seq<char>, MotorSettingsView> {
    let ms = if m.contains_key(name) {
        m[name]
    } else {
        empty_settings()
    };
    m.insert(name, MotorSettingsView { linear: ms.linear.insert(index, value), ..ms })
}

impl DeviceMap {
    /// Record a scalar setting for a device, creating its entry on demand.
    pub fn insert_scalar(&mut self, name: &str, index: u32, value: (u32, ActuatorType))
        requires
            old(self).wf(),
        ensures
            final(self).wf(),
            final(self).as_map() == spec_insert_scalar(old(self).as_map(), name@, index, value),
    {
        let ghost s = self@;
        match self.find(name) {
            Some(i) => {
                proof {
                    lemma_map_of_at(s, i as int);
                }
                let mut entry = self.entries.remove(i);
                keyed_insert(&mut entry.1.scalar_map, index, value);
                let ghost msv = entry.1@;
                self.entries.insert(i, entry);
                proof {
                    assert(self@ =~= s.update(i as int, (s[i as int].0, msv)));
                    lemma_map_of_update(s, i as int, msv);
                    self.lemma_restored_wf(s, i as int, msv);
                }
            },
            None => {
                proof {
                    lemma_map_of_absent(s, name@);
                }
                let mut ms = MotorSettings::new();
                keyed_insert(&mut ms.scalar_map, index, value);
                let ghost msv = ms@;
                self.entries.push((name.to_owned(), ms));
                proof {
                    assert(self@ =~= s + seq![(name@, msv)]);
                    lemma_map_of_push(s, name@, msv);
                    self.lemma_pushed_wf(s, name@, msv);
                }
            },
        }
    }

    /// Record a rotation setting for a device, creating its entry on demand.
    pub fn insert_rotate(&mut self, name: &str, index: u32, value: (u32, bool))
        requires
            old(self).wf(),
        ensures
            final(self).wf(),
            final(self).as_map() == spec_insert_rotate(old(self).as_map(), name@, index, value),
    {
        let ghost s = self@;
        match self.find(name) {
            Some(i) => {
                proof {
                    lemma_map_of_at(s, i as int);
                }
                let mut entry = self.entries.remove(i);
                keyed_insert(&mut entry.1.rotate_map, index, value);
                let ghost msv = entry.1@;
                self.entries.insert(i, entry);
                proof {
                    assert(self@ =~= s.update(i as int, (s[i as int].0, msv)));
                    lemma_map_of_update(s, i as int, msv);
                    self.lemma_restored_wf(s, i as int, msv);
                }
            },
            None => {
                proof {
                    lemma_map_of_absent(s, name@);
                }
                let mut ms = MotorSettings::new();
                keyed_insert(&mut ms.rotate_map, index, value);
                let ghost msv = ms@;
                self.entries.push((name.to_owned(), ms));
                proof {
                    assert(self@ =~= s + seq![(name@, msv)]);
                    lemma_map_of_push(s, name@, msv);
                    self.lemma_pushed_wf(s, name@, msv);
                }
            },
        }
    }

    /// Record a linear setting for a device, creating its entry on demand.
    pub fn insert_linear(&mut self, name: &str, index: u32, value: (u32, u32))
        requires
            old(self).wf(),
        ensures
            final(self).wf(),
            final(self).as_map() == spec_insert_linear(old(self).as_map(), name@, index, value),
    {
        let ghost s = self@;
        match self.find(name) {
            Some(i) => {
                proof {
                    lemma_map_of_at(s, i as int);
                }
                let mut entry = self.entries.remove(i);
                keyed_insert(&mut entry.1.linear_map, index, value);
                let ghost msv = entry.1@;
                self.entries.insert(i, entry);
                proof {
                    assert(self@ =~= s.update(i as int, (s[i as int].0, msv)));
                    lemma_map_of_update(s, i as int, msv);
                    self.lemma_restored_wf(s, i as int, msv);
                }
            },
            None => {
                proof {
                    lemma_map_of_absent(s, name@);
                }
                let mut ms = MotorSettings::new();
                keyed_insert(&mut ms.linear_map, index, value);
                let ghost msv = ms@;
                self.entries.push((name.to_owned(), ms));
                proof {
                    assert(self@ =~= s + seq![(name@, msv)]);
                    lemma_map_of_push(s, name@, msv);
                    self.lemma_pushed_wf(s, name@, msv);
                }
            },
        }
    }

    /// Replacing one device's settings with well-formed settings keeps the
    /// map well formed.
    proof fn lemma_restored_wf(&self, s: Seq<(Seq<char>, MotorSettingsView)>, i: int, msv: MotorSettingsView)
        requires
            unique_keys(s),
            0 <= i < s.len(),
            self@ == s.update(i, (s[i].0, msv)),
            self@.len() == self.entries@.len(),
            forall|j: int|
                0 <= j < self.entries@.len() && j != i ==> (#[trigger] self.entries@[j]).1.wf(),
            0 <= i < self.entries@.len() ==> self.entries@[i].1.wf(),
        ensures
            self.wf(),
    {
        assert forall|a: int, b: int| 0 <= a < b < self@.len() implies (#[trigger] self@[a]).0 != (
        #[trigger] self@[b]).0 by {
            assert(self@[a].0 == s[a].0);
            assert(self@[b].0 == s[b].0);
        }
    }

    /// Appending a device with well-formed settings keeps the map well
    /// formed.
    proof fn lemma_pushed_wf(&self, s: Seq<(Seq<char>, MotorSettingsView)>, name: Seq<char>, msv: MotorSettingsView)
        requires
            unique_keys(s),
            forall|j: int| 0 <= j < s.len() ==> (#[trigger] s[j]).0 != name,
            self@ == s + seq![(name, msv)],
            self@.len() == self.entries@.len(),
            forall|j: int|
                0 <= j < self.entries@.len() - 1 ==> (#[trigger] self.entries@[j]).1.wf(),
            self.entries@.len() > 0 ==> self.entries@[self.entries@.len() - 1].1.wf(),
        ensures
            self.wf(),
    {
        assert forall|a: int, b: int| 0 <= a < b < self@.len() implies (#[trigger] self@[a]).0 != (
        #[trigger] self@[b]).0 by {
            if b < s.len() {
                assert(self@[a].0 == s[a].0);
                assert(self@[b].0 == s[b].0);
            } else {
                assert(self@[a].0 == s[a].0);
                assert(self@[b].0 == name);
            }
        }
    }
}

/// Why a command line was rejected: a kind-specific field was missing, or a
/// numeric field failed to parse. Either aborts the whole line.
#[derive(Clone, Copy, PartialEq, Eq, Structural, Debug)]
pub enum DecodeError {
    MissingIntensity,
    MalformedIntensity,
    MissingDuration,
    MalformedDuration,
    MissingPosition,
    MalformedPosition,
    MissingSpeed,
    MalformedSpeed,
}

/// The segments of a command line: split at every `;`, tolerating one
/// trailing separator.
pub open spec fn spec_segments(s: Seq<char>) -> Seq<Seq<char>> {
    if s.len() == 0 {
        Seq::empty()
    } else if s.last() == ';' {
        split_on(s, ';').drop_last()
    } else {
        split_on(s, ';')
    }
}

/// Apply one segment to the pending per-device map. The first `:`-field is
/// the tag; an unknown tag skips the segment, and the resolved motor's kind
/// determines how many further fields are consumed and how they are parsed.
/// Surplus fields are ignored.
pub open spec fn spec_apply_segment(
    m: Map<Seq<char>, MotorSettingsView>,
    seg: Seq<char>,
    tags: Seq<(Seq<char>, MotorV3View)>,
) -> Result<Map<Seq<char>, MotorSettingsView>, DecodeError> {
    let fields = split_on(seg, ':');
    match spec_lookup(tags, fields[0]) {
        None => Ok(m),
        Some(motor) => match motor.feature_type {
            MotorTypeV3::Scalar { actuator_type } => if fields.len() < 2 {
                Err(DecodeError::MissingIntensity)
            } else {
                match spec_unit_value(fields[1]) {
                    Some(intensity) => Ok(
                        spec_insert_scalar(
                            m,
                            motor.device_name,
                            motor.feature_index,
                            (intensity, actuator_type),
                        ),
                    ),
                    None => Err(DecodeError::MalformedIntensity),
                }
            },
            MotorTypeV3::Linear => if fields.len() < 2 {
                Err(DecodeError::MissingDuration)
            } else {
                match parse_u32_spec(fields[1]) {
                    None => Err(DecodeError::MalformedDuration),
                    Some(duration) => if fields.len() < 3 {
                        Err(DecodeError::MissingPosition)
                    } else {
                        match spec_unit_value(fields[2]) {
                            Some(position) => Ok(
                                spec_insert_linear(
                                    m,
                                    motor.device_name,
                                    motor.feature_index,
                                    (duration, position),
                                ),
                            ),
                            None => Err(DecodeError::MalformedPosition),
                        }
                    },
                }
            },
            MotorTypeV3::Rotation => if fields.len() < 2 {
                Err(DecodeError::MissingSpeed)
            } else {
                match spec_rotation_value(fields[1]) {
                    Some(speed) => Ok(
                        spec_insert_rotate(m, motor.device_name, motor.feature_index, speed),
                    ),
                    None => Err(DecodeError::MalformedSpeed),
                }
            },
        },
    }
}

/// Decode a list of segments in order, starting from an empty map; the
/// first failing segment aborts the whole line.
pub open spec fn spec_decode(
    segments: Seq<Seq<char>>,
    tags: Seq<(Seq<char>, MotorV3View)>,
) -> Result<Map<Seq<char>, MotorSettingsView>, DecodeError>
    decreases segments.len(),
{
    if segments.len() == 0 {
        Ok(Map::empty())
    } else {
        match spec_decode(segments.drop_last(), tags) {
            Err(e) => Err(e),
            Ok(m) => spec_apply_segment(m, segments.last(), tags),
        }
    }
}

/// What decoding a whole command line yields.
pub open spec fn spec_build_vibration_map(
    command: Seq<char>,
    tags: Seq<(Seq<char>, MotorV3View)>,
) -> Result<Map<Seq<char>, MotorSettingsView>, DecodeError> {
    spec_decode(spec_segments(command), tags)
}

/// A failing prefix decides the whole line: once some prefix of the
/// segments fails to decode, the full list fails with the same error, and
/// no per-device map is produced at all.
pub proof fn lemma_decode_error_stops(
    segments: Seq<Seq<char>>,
    tags: Seq<(Seq<char>, MotorV3View)>,
    j: int,
)
    requires
        0 <= j <= segments.len(),
        spec_decode(segments.take(j), tags) is Err,
    ensures
        spec_decode(segments, tags) == spec_decode(segments.take(j), tags),
    decreases segments.len() - j,
{
    if j == segments.len() {
        assert(segments.take(j) =~= segments);
    } else {
        assert(segments.take(j + 1).drop_last() =~= segments.take(j));
        assert(spec_decode(segments.take(j + 1), tags) == spec_decode(segments.take(j), tags));
        lemma_decode_error_stops(segments, tags, j + 1);
    }
}

/// An unknown tag is non-fatal: a segment whose tag resolves to no motor
/// leaves the pending map unchanged and raises no error.
pub proof fn lemma_unknown_tag_skipped(
    m: Map<Seq<char>, MotorSettingsView>,
    seg: Seq<char>,
    tags: Seq<(Seq<char>, MotorV3View)>,
)
    requires
        spec_lookup(tags, split_on(seg, ':')[0]) is None,
    ensures
        spec_apply_segment(m, seg, tags) == Ok::<_, DecodeError>(m),
{
}

/// Last write wins: when two segments resolve to scalar motors on the same
/// device and feature index and both decode, applying them in order leaves
/// the later segment's intensity, whatever the earlier one wrote.
pub proof fn lemma_last_write_wins(
    m: Map<Seq<char>, MotorSettingsView>,
    seg_a: Seq<char>,
    seg_b: Seq<char>,
    tags: Seq<(Seq<char>, MotorV3View)>,
    ma: MotorV3View,
    mb: MotorV3View,
    m1: Map<Seq<char>, MotorSettingsView>,
    m2: Map<Seq<char>, MotorSettingsView>,
)
    requires
        spec_lookup(tags, split_on(seg_a, ':')[0]) == Some(ma),
        spec_lookup(tags, split_on(seg_b, ':')[0]) == Some(mb),
        ma.device_name == mb.device_name,
        ma.feature_index == mb.feature_index,
        ma.feature_type is Scalar,
        mb.feature_type is Scalar,
        spec_apply_segment(m, seg_a, tags) == Ok::<_, DecodeError>(m1),
        spec_apply_segment(m1, seg_b, tags) == Ok::<_, DecodeError>(m2),
    ensures
        m2.contains_key(mb.device_name),
        split_on(seg_b, ':').len() >= 2,
        m2[mb.device_name].scalar.contains_key(mb.feature_index),
        m2[mb.device_name].scalar[mb.feature_index] == (
            spec_unit_value(split_on(seg_b, ':')[1]).unwrap(),
            mb.feature_type->Scalar_actuator_type,
        ),
{
}

/// Decode one command line against a configuration snapshot into per-device
/// pending settings; `Err` reports the first malformed segment and yields
/// no settings at all.
pub fn build_vibration_map(configuration: &ConfigurationV3, command: &str) -> (r: Result<
    DeviceMap,
    DecodeError,
>)
    ensures
        match r {
            Ok(dm) => dm.wf() && spec_build_vibration_map(command@, configuration@.tags) == Ok::<
                _,
                DecodeError,
            >(dm.as_map()),
            Err(e) => spec_build_vibration_map(command@, configuration@.tags) == Err::<
                Map<Seq<char>, MotorSettingsView>,
                _,
            >(e),
        },
{
    let chars = crate::text::chars_of(command);
    let ghost tags = configuration@.tags;
    let mut dm = DeviceMap::new();
    if chars.len() == 0 {
        proof {
            assert(spec_segments(command@) =~~= Seq::<Seq<char>>::empty());
        }
        return Ok(dm);
    }
    let mut segs = crate::text::split_chars(chars.as_slice(), ';');
    if chars[chars.len() - 1] == ';' {
        let _ = segs.pop();
    }
    let ghost seglist = spec_segments(command@);
    proof {
        if command@.last() == ';' {
            assert(segs.deep_view() =~~= seglist);
        } else {
            assert(segs.deep_view() =~~= seglist);
        }
        assert(seglist.take(0) =~~= Seq::<Seq<char>>::empty());
    }
    let n: usize = segs.len();
    let mut i: usize = 0;
    while i < n
        invariant
            n == segs@.len(),
            i <= n,
            segs.deep_view() == seglist,
            tags == configuration@.tags,
            seglist == spec_segments(command@),
            dm.wf(),
            spec_decode(seglist.take(i as int), tags) == Ok::<_, DecodeError>(dm.as_map()),
        decreases n - i,
    {
        let ghost seg = seglist[i as int];
        proof {
            assert(seglist.take(i as int + 1).drop_last() =~= seglist.take(i as int));
            assert(seglist.take(i as int + 1).last() == seg);
            assert(segs@[i as int]@ == seg);
        }
        let fields = crate::text::split_chars(segs[i].as_slice(), ':');
        let ghost sfields = split_on(seg, ':');
        proof {
            assert(fields.deep_view() == sfields);
            assert(fields@[0]@ == sfields[0]);
        }
        match configuration.tags.get_chars(fields[0].as_slice()) {
            None => {
                // unknown tag: skip this segment
            },
            Some(motor) => {
                let name: &str = motor.device_name.as_str();
                let index: u32 = motor.feature_index;
                match motor.feature_type {
                    MotorTypeV3::Scalar { actuator_type } => {
                        if fields.len() < 2 {
                            proof {
                                lemma_decode_error_stops(seglist, tags, i as int + 1);
                            }
                            return Err(DecodeError::MissingIntensity);
                        }
                        proof {
                            assert(fields@[1]@ == sfields[1]);
                        }
                        match crate::number::parse_unit_value(fields[1].as_slice()) {
                            Some(intensity) => {
                                dm.insert_scalar(name, index, (intensity, actuator_type));
                            },
                            None => {
                                proof {
                                    lemma_decode_error_stops(seglist, tags, i as int + 1);
                                }
                                return Err(DecodeError::MalformedIntensity);
                            },
                        }
                    },
                    MotorTypeV3::Linear => {
                        if fields.len() < 2 {
                            proof {
                                lemma_decode_error_stops(seglist, tags, i as int + 1);
                            }
                            return Err(DecodeError::MissingDuration);
                        }
                        proof {
                            assert(fields@[1]@ == sfields[1]);
                        }
                        let duration = match crate::text::parse_u32_chars(fields[1].as_slice()) {
                            Some(d) => d,
                            None => {
                                proof {
                                    lemma_decode_error_stops(seglist, tags, i as int + 1);
                                }
                                return Err(DecodeError::MalformedDuration);
                            },
                        };
                        if fields.len() < 3 {
                            proof {
                                lemma_decode_error_stops(seglist, tags, i as int + 1);
                            }
                            return Err(DecodeError::MissingPosition);
                        }
                        proof {
                            assert(fields@[2]@ == sfields[2]);
                        }
                        match crate::number::parse_unit_value(fields[2].as_slice()) {
                            Some(position) => {
                                dm.insert_linear(name, index, (duration, position));
                            },
                            None => {
                                proof {
                                    lemma_decode_error_stops(seglist, tags, i as int + 1);
                                }
                                return Err(DecodeError::MalformedPosition);
                            },
                        }
                    },
                    MotorTypeV3::Rotation => {
                        if fields.len() < 2 {
                            proof {
                                lemma_decode_error_stops(seglist, tags, i as int + 1);
                            }
                            return Err(DecodeError::MissingSpeed);
                        }
                        proof {
                            assert(fields@[1]@ == sfields[1]);
                        }
                        match crate::number::parse_rotation_value(fields[1].as_slice()) {
                            Some(speed) => {
                                dm.insert_rotate(name, index, speed);
                            },
                            None => {
                                proof {
                                    lemma_decode_error_stops(seglist, tags, i as int + 1);
                                }
                                return Err(DecodeError::MalformedSpeed);
                            },
                        }
                    },
                }
            },
        }
        i = i + 1;
    }
    proof {
        assert(seglist.take(n as int) =~= seglist);
    }
    Ok(dm)
}

} // verus!
