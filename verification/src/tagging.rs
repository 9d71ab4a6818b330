//! The tag editing model: motors optionally labelled with a user-chosen
//! tag, the tag validity rule, and the pure functions the editing surface
//! uses to turn an edited motor list back into a configuration.

use vstd::prelude::*;

use crate::assoc::{lemma_map_of_at, lemma_map_of_push, lemma_map_of_update, map_of, unique_keys};
use crate::configuration_v3::{
    ActuatorType, ConfigurationV3, MotorConfigurationV3, MotorTypeV3, MotorV3View, TagMap,
};
use crate::devices::DeviceStatus;

verus! {

/// An edit to one motor's tag.
pub enum MotorMessage {
    TagUpdated { tag: String, valid: bool },
    TagDeleted,
}

impl MotorMessage {
    /// The tag an edit carries, if any.
    pub fn tag(&self) -> (r: Option<&str>)
        ensures
            match self {
                MotorMessage::TagUpdated { tag, .. } => match r {
                    Some(s) => s@ == tag@,
                    None => false,
                },
                MotorMessage::TagDeleted => r is None,
            },
    {
        match self {
            MotorMessage::TagUpdated { tag, .. } => Some(tag.as_str()),
            MotorMessage::TagDeleted => None,
        }
    }
}

/// Whether a motor currently carries a tag, and whether that tag passes
/// validation.
pub enum TaggedMotorState {
    Tagged { tag: String, valid: bool },
    Untagged,
}

/// The mathematical value of an optionally tagged motor.
pub ghost struct TaggedMotorView {
    pub motor: MotorV3View,
    pub state: Option<(Seq<char>, bool)>,
}

/// An optionally tagged motor.
pub struct TaggedMotor {
    pub motor: MotorConfigurationV3,
    pub state: TaggedMotorState,
}

impl View for TaggedMotor {
    type V = TaggedMotorView;

    open spec fn view(&self) -> TaggedMotorView {
        TaggedMotorView {
            motor: self.motor@,
            state: match self.state {
                TaggedMotorState::Tagged { tag, valid } => Some((tag@, valid)),
                TaggedMotorState::Untagged => None,
            },
        }
    }
}

/// The tag a motor carries, if any.
pub open spec fn spec_tag_of(t: TaggedMotorView) -> Option<Seq<char>> {
    match t.state {
        Some((tag, valid)) => Some(tag),
        None => None,
    }
}

impl TaggedMotor {
    /// A motor with an optional tag; a fresh tag starts out valid.
    pub fn new(motor: MotorConfigurationV3, tag: Option<String>) -> (r: TaggedMotor)
        ensures
            r@.motor == motor@,
            r@.state == (match tag {
                Some(t) => Some((t@, true)),
                None => None::<(Seq<char>, bool)>,
            }),
    {
        let state = match tag {
            Some(tag) => TaggedMotorState::Tagged { tag, valid: true },
            None => TaggedMotorState::Untagged,
        };
        TaggedMotor { motor, state }
    }

    /// The tag this motor carries, if any.
    pub fn tag(&self) -> (r: Option<&str>)
        ensures
            match r {
                Some(s) => spec_tag_of(self@) == Some(s@),
                None => spec_tag_of(self@) is None,
            },
    {
        match &self.state {
            TaggedMotorState::Tagged { tag, .. } => Some(tag.as_str()),
            TaggedMotorState::Untagged => None,
        }
    }

    /// Apply one edit: an empty tag untags the motor, a non-empty tag
    /// replaces it together with its validity, and a deletion untags.
    pub fn update(&mut self, message: MotorMessage)
        ensures
            final(self)@.motor == old(self)@.motor,
            final(self)@.state == (match message {
                MotorMessage::TagUpdated { tag, valid } => if tag@.len() == 0 {
                    None::<(Seq<char>, bool)>
                } else {
                    Some((tag@, valid))
                },
                MotorMessage::TagDeleted => None::<(Seq<char>, bool)>,
            }),
    {
        match message {
            MotorMessage::TagUpdated { tag, valid } => {
                if tag.as_str().is_empty() {
                    self.state = TaggedMotorState::Untagged;
                } else {
                    self.state = TaggedMotorState::Tagged { tag, valid };
                }
            },
            MotorMessage::TagDeleted => {
                self.state = TaggedMotorState::Untagged;
            },
        }
    }
}

/// Is a tag acceptable? It must not contain the protocol's field separator
/// or command separator.
pub open spec fn spec_tag_valid(tag: Seq<char>) -> bool {
    !tag.contains(':') && !tag.contains(';')
}

/// Validate a tag before acceptance.
pub fn is_tag_valid(tag: &str) -> (r: bool)
    ensures
        r == spec_tag_valid(tag@),
{
    let chars = crate::text::chars_of(tag);
    let mut i: usize = 0;
    while i < chars.len()
        invariant
            i <= chars@.len(),
            chars@ == tag@,
            forall|j: int| 0 <= j < i ==> chars@[j] != ':' && chars@[j] != ';',
        decreases chars@.len() - i,
    {
        let c: char = chars[i];
        if c == ':' || c == ';' {
            proof {
                assert(tag@[i as int] == c);
            }
            return false;
        }
        i = i + 1;
    }
    proof {
        if tag@.contains(':') {
            let w = choose|w: int| 0 <= w < tag@.len() && tag@[w] == ':';
            assert(chars@[w] == ':');
        }
        if tag@.contains(';') {
            let w = choose|w: int| 0 <= w < tag@.len() && tag@[w] == ';';
            assert(chars@[w] == ';');
        }
    }
    true
}

/// The configured tag entries as tagged motors, in entry order.
pub fn motors_to_tagged(tags: &TagMap) -> (r: Vec<TaggedMotor>)
    ensures
        r@.len() == tags@.len(),
        forall|i: int|
            0 <= i < r@.len() ==> (#[trigger] r@[i])@ == (TaggedMotorView {
                motor: tags@[i].1,
                state: Some((tags@[i].0, true)),
            }),
{
    let mut out: Vec<TaggedMotor> = Vec::new();
    let n: usize = tags.len();
    let mut i: usize = 0;
    while i < n
        invariant
            n == tags@.len(),
            i <= n,
            out@.len() == i,
            forall|j: int|
                0 <= j < i ==> (#[trigger] out@[j])@ == (TaggedMotorView {
                    motor: tags@[j].1,
                    state: Some((tags@[j].0, true)),
                }),
        decreases n - i,
    {
        let entry = tags.entry(i);
        let tagged = TaggedMotor::new(entry.1.duplicate(), Some(entry.0.clone()));
        out.push(tagged);
        i = i + 1;
    }
    out
}

/// The tag of one list position, with one position's value overridden:
/// used while an edit is in flight to validate the list as it will be.
pub fn override_tag_at_index<'a>(
    slice: &'a [TaggedMotor],
    read_index: usize,
    override_index: usize,
    override_value: Option<&'a str>,
) -> (r: Option<&'a str>)
    requires
        read_index == override_index || read_index < slice@.len(),
    ensures
        ({
            let expected = if read_index == override_index {
                match override_value {
                    Some(s) => Some(s@),
                    None => None,
                }
            } else {
                spec_tag_of(slice@[read_index as int]@)
            };
            match r {
                Some(s) => expected == Some(s@),
                None => expected is None,
            }
        }),
{
    if read_index == override_index {
        override_value
    } else {
        slice[read_index].tag()
    }
}

impl TagMap {
    /// Bind a tag to a motor, replacing an earlier binding of the same tag.
    pub fn set(&mut self, tag: String, motor: MotorConfigurationV3)
        requires
            old(self).wf(),
        ensures
            final(self).wf(),
            map_of(final(self)@) == map_of(old(self)@).insert(tag@, motor@),
    {
        let ghost s = self@;
        let mut i: usize = 0;
        while i < self.entries.len()
            invariant
                s == self@,
                s == old(self)@,
                old(self).wf(),
                i <= s.len(),
                s.len() == self.entries@.len(),
                forall|j: int| 0 <= j < i ==> (#[trigger] s[j]).0 != tag@,
            decreases s.len() - i,
        {
            if crate::text::str_eq(self.entries[i].0.as_str(), tag.as_str()) {
                proof {
                    assert((s[i as int]).0 == tag@);
                }
                let ghost motor_view = motor@;
                let mut entry = self.entries.remove(i);
                entry.1 = motor;
                self.entries.insert(i, entry);
                proof {
                    assert(self@ =~= s.update(i as int, (s[i as int].0, motor_view)));
                    lemma_map_of_update(s, i as int, motor_view);
                    assert forall|a: int, b: int| 0 <= a < b < self@.len() implies (
                    #[trigger] self@[a]).0 != (#[trigger] self@[b]).0 by {
                        assert(self@[a].0 == s[a].0);
                        assert(self@[b].0 == s[b].0);
                    }
                }
                return;
            }
            i = i + 1;
        }
        let ghost tag_view = tag@;
        let ghost motor_view = motor@;
        self.entries.push((tag, motor));
        proof {
            assert(self@ =~= s + seq![(tag_view, motor_view)]);
            lemma_map_of_push(s, tag_view, motor_view);
            assert forall|a: int, b: int| 0 <= a < b < self@.len() implies (
            #[trigger] self@[a]).0 != (#[trigger] self@[b]).0 by {
                if b < s.len() {
                    assert(self@[a].0 == s[a].0);
                    assert(self@[b].0 == s[b].0);
                } else {
                    assert(self@[a].0 == s[a].0);
                    assert(self@[b] == (tag_view, motor_view));
                }
            }
        }
    }
}

/// The tag bindings an edited motor list denotes: each tagged motor binds
/// its tag, a later binding of the same tag winning.
pub open spec fn spec_collect_tags(motors: Seq<TaggedMotorView>) -> Map<Seq<char>, MotorV3View>
    decreases motors.len(),
{
    if motors.len() == 0 {
        Map::empty()
    } else {
        let m = spec_collect_tags(motors.drop_last());
        match spec_tag_of(motors.last()) {
            Some(t) => m.insert(t, motors.last().motor),
            None => m,
        }
    }
}

/// Turn an edited motor list back into the tag mapping it denotes.
pub fn tags_from_application_status(motors: &Vec<TaggedMotor>) -> (r: TagMap)
    ensures
        r.wf(),
        map_of(r@) == spec_collect_tags(Seq::new(motors@.len(), |i: int| motors@[i]@)),
{
    let ghost views = Seq::new(motors@.len(), |i: int| motors@[i]@);
    let mut out = TagMap::new();
    let mut i: usize = 0;
    proof {
        assert(views.take(0).len() == 0);
        assert(map_of(out@) =~= spec_collect_tags(views.take(0)));
    }
    while i < motors.len()
        invariant
            i <= motors@.len(),
            views == Seq::new(motors@.len(), |k: int| motors@[k]@),
            out.wf(),
            map_of(out@) == spec_collect_tags(views.take(i as int)),
        decreases motors@.len() - i,
    {
        proof {
            assert(views.take(i as int + 1).drop_last() =~= views.take(i as int));
            assert(views.take(i as int + 1).last() == views[i as int]);
            assert(views[i as int] == motors@[i as int]@);
        }
        let m = &motors[i];
        match &m.state {
            TaggedMotorState::Tagged { tag, .. } => {
                out.set(tag.clone(), m.motor.duplicate());
            },
            TaggedMotorState::Untagged => {},
        }
        i = i + 1;
    }
    proof {
        assert(views.take(motors@.len() as int) =~= views);
    }
    out
}

/// The example line for one tagged motor: a plausible field value for its
/// kind.
pub open spec fn spec_example_part(tag: Seq<char>, t: MotorTypeV3) -> Seq<char> {
    match t {
        MotorTypeV3::Linear => tag + ":20:0.5"@,
        MotorTypeV3::Rotation => tag + ":-0.5"@,
        MotorTypeV3::Scalar { .. } => tag + ":0.5"@,
    }
}

/// The example parts of a motor list, one per tagged motor, in order.
pub open spec fn spec_example_parts(motors: Seq<TaggedMotorView>) -> Seq<Seq<char>>
    decreases motors.len(),
{
    if motors.len() == 0 {
        Seq::empty()
    } else {
        spec_example_parts(motors.drop_last()) + (match spec_tag_of(motors.last()) {
            Some(t) => seq![spec_example_part(t, motors.last().motor.feature_type)],
            None => Seq::empty(),
        })
    }
}

/// Parts joined with the command separator, without a trailing separator.
pub open spec fn spec_join_semi(parts: Seq<Seq<char>>) -> Seq<char>
    decreases parts.len(),
{
    if parts.len() == 0 {
        Seq::empty()
    } else if parts.len() == 1 {
        parts[0]
    } else {
        spec_join_semi(parts.drop_last()) + ";"@ + parts.last()
    }
}

/// An example command line exercising every tagged motor once.
pub fn build_example_message(motors: &Vec<TaggedMotor>) -> (r: String)
    ensures
        r@ == spec_join_semi(spec_example_parts(Seq::new(motors@.len(), |i: int| motors@[i]@))),
{
    let ghost views = Seq::new(motors@.len(), |i: int| motors@[i]@);
    let mut out: Vec<char> = Vec::new();
    let mut first: bool = true;
    let mut i: usize = 0;
    proof {
        assert(views.take(0).len() == 0);
        assert(spec_example_parts(views.take(0)).len() == 0);
        assert(out@ =~= spec_join_semi(spec_example_parts(views.take(0))));
    }
    while i < motors.len()
        invariant
            i <= motors@.len(),
            views == Seq::new(motors@.len(), |k: int| motors@[k]@),
            out@ == spec_join_semi(spec_example_parts(views.take(i as int))),
            first == (spec_example_parts(views.take(i as int)).len() == 0),
        decreases motors@.len() - i,
    {
        let ghost parts_pre = spec_example_parts(views.take(i as int));
        proof {
            assert(views.take(i as int + 1).drop_last() =~= views.take(i as int));
            assert(views.take(i as int + 1).last() == views[i as int]);
            assert(views[i as int] == motors@[i as int]@);
        }
        let m = &motors[i];
        match &m.state {
            TaggedMotorState::Tagged { tag, .. } => {
                let ghost part = spec_example_part(tag@, m.motor.feature_type);
                if first {
                    first = false;
                } else {
                    out.push(';');
                }
                let tchars = crate::text::chars_of(tag.as_str());
                crate::codec::append_chars(&mut out, tchars.as_slice());
                match m.motor.feature_type {
                    MotorTypeV3::Linear => {
                        let tail = crate::text::chars_of(":20:0.5");
                        crate::codec::append_chars(&mut out, tail.as_slice());
                    },
                    MotorTypeV3::Rotation => {
                        let tail = crate::text::chars_of(":-0.5");
                        crate::codec::append_chars(&mut out, tail.as_slice());
                    },
                    MotorTypeV3::Scalar { .. } => {
                        let tail = crate::text::chars_of(":0.5");
                        crate::codec::append_chars(&mut out, tail.as_slice());
                    },
                }
                proof {
                    let parts_post = spec_example_parts(views.take(i as int + 1));
                    assert(parts_post =~~= parts_pre + seq![part]);
                    if parts_pre.len() == 0 {
                        assert(parts_post.len() == 1);
                        assert(parts_post[0] == part);
                        assert(out@ =~= spec_join_semi(parts_post));
                    } else {
                        assert(parts_post.drop_last() =~~= parts_pre);
                        assert(parts_post.last() == part);
                        reveal_strlit(";");
                        assert(";"@ =~= seq![';']);
                        assert(out@ =~= spec_join_semi(parts_post));
                    }
                }
            },
            TaggedMotorState::Untagged => {
                proof {
                    assert(spec_example_parts(views.take(i as int + 1)) =~~= parts_pre);
                }
            },
        }
        i = i + 1;
    }
    proof {
        assert(views.take(motors@.len() as int) =~= views);
    }
    crate::text::string_from_chars(out.as_slice())
}

/// The identity of a device as the dispatcher matches it: name and
/// optional stable identifier.
#[derive(Clone, PartialEq, Eq, Hash, Debug)]
pub struct DeviceId {
    pub name: String,
    pub identifier: Option<String>,
}

impl DeviceId {
    /// The same device identity with the stable identifier dropped, for
    /// matching entries loaded from a legacy configuration.
    pub fn without_identifier(&self) -> (r: DeviceId)
        ensures
            r.name@ == self.name@,
            r.identifier is None,
    {
        DeviceId { name: self.name.clone(), identifier: None }
    }

    /// The device identity a motor address names.
    pub fn from_motor(motor_config: &MotorConfigurationV3) -> (r: DeviceId)
        ensures
            r.name@ == motor_config@.device_name,
            (match (r.identifier, motor_config@.device_identifier) {
                (Some(a), Some(b)) => a@ == b,
                (None, None) => true,
                _ => false,
            }),
    {
        DeviceId {
            name: motor_config.device_name.clone(),
            identifier: match &motor_config.device_identifier {
                Some(s) => Some(s.clone()),
                None => None,
            },
        }
    }
}

/// Everything the editing surface shows: the motor list with tags, the
/// connected device statuses, and the configuration snapshot.
pub struct ApplicationStatus {
    pub motors: Vec<TaggedMotor>,
    pub devices: Vec<DeviceStatus>,
    pub configuration: ConfigurationV3,
}

/// Lexicographic order on character sequences.
pub open spec fn lex_le(a: Seq<char>, b: Seq<char>) -> bool
    decreases a.len(),
{
    if a.len() == 0 {
        true
    } else if b.len() == 0 {
        false
    } else if a[0] != b[0] {
        a[0] < b[0]
    } else {
        lex_le(a.drop_first(), b.drop_first())
    }
}

/// The lexicographic order is total.
pub proof fn lemma_lex_total(a: Seq<char>, b: Seq<char>)
    ensures
        lex_le(a, b) || lex_le(b, a),
    decreases a.len(),
{
    if a.len() > 0 && b.len() > 0 && a[0] == b[0] {
        lemma_lex_total(a.drop_first(), b.drop_first());
    }
}

/// Compare two strings lexicographically.
pub fn lex_le_exec(a: &str, b: &str) -> (r: bool)
    ensures
        r == lex_le(a@, b@),
{
    let na: usize = a.unicode_len();
    let nb: usize = b.unicode_len();
    let mut i: usize = 0;
    proof {
        assert(a@.skip(0) =~= a@);
        assert(b@.skip(0) =~= b@);
    }
    while i < na && i < nb
        invariant
            na == a@.len(),
            nb == b@.len(),
            i <= na,
            i <= nb,
            lex_le(a@, b@) == lex_le(a@.skip(i as int), b@.skip(i as int)),
        decreases na - i,
    {
        let ca: char = a.get_char(i);
        let cb: char = b.get_char(i);
        proof {
            assert(a@.skip(i as int)[0] == ca);
            assert(b@.skip(i as int)[0] == cb);
            assert(a@.skip(i as int).drop_first() =~= a@.skip(i as int + 1));
            assert(b@.skip(i as int).drop_first() =~= b@.skip(i as int + 1));
        }
        if ca != cb {
            return ca < cb;
        }
        i = i + 1;
    }
    proof {
        if i >= na {
            assert(a@.skip(i as int).len() == 0);
        } else {
            assert(b@.skip(i as int).len() == 0);
            assert(a@.skip(i as int).len() > 0);
        }
    }
    na <= nb
}

/// Order on optional strings: absent sorts before present.
pub open spec fn opt_lex_le(a: Option<Seq<char>>, b: Option<Seq<char>>) -> bool {
    match (a, b) {
        (None, _) => true,
        (Some(_), None) => false,
        (Some(x), Some(y)) => lex_le(x, y),
    }
}

/// The rank of a motor kind in the display order: linear, rotation, then
/// the scalar kinds by actuator type.
pub open spec fn spec_kind_rank(t: MotorTypeV3) -> int {
    match t {
        MotorTypeV3::Linear => 0,
        MotorTypeV3::Rotation => 1,
        MotorTypeV3::Scalar { actuator_type } => 2 + (match actuator_type {
            ActuatorType::Vibrate => 0int,
            ActuatorType::Rotate => 1,
            ActuatorType::Oscillate => 2,
            ActuatorType::Constrict => 3,
            ActuatorType::Inflate => 4,
            ActuatorType::Position => 5,
            ActuatorType::Unknown => 6,
        }),
    }
}

/// The rank of a motor kind, computed.
pub fn kind_rank(t: MotorTypeV3) -> (r: u32)
    ensures
        r as int == spec_kind_rank(t),
{
    match t {
        MotorTypeV3::Linear => 0,
        MotorTypeV3::Rotation => 1,
        MotorTypeV3::Scalar { actuator_type } => 2 + (match actuator_type {
            ActuatorType::Vibrate => 0u32,
            ActuatorType::Rotate => 1,
            ActuatorType::Oscillate => 2,
            ActuatorType::Constrict => 3,
            ActuatorType::Inflate => 4,
            ActuatorType::Position => 5,
            ActuatorType::Unknown => 6,
        }),
    }
}

/// The display order on motor addresses: by device name, then stable
/// identifier, then feature index, then kind.
pub open spec fn motor_le(a: MotorV3View, b: MotorV3View) -> bool {
    if a.device_name != b.device_name {
        lex_le(a.device_name, b.device_name)
    } else if a.device_identifier != b.device_identifier {
        opt_lex_le(a.device_identifier, b.device_identifier)
    } else if a.feature_index != b.feature_index {
        a.feature_index <= b.feature_index
    } else {
        spec_kind_rank(a.feature_type) <= spec_kind_rank(b.feature_type)
    }
}

/// The display order on tagged motors: by motor, then by tag, the untagged
/// first.
pub open spec fn tagged_le(a: TaggedMotorView, b: TaggedMotorView) -> bool {
    if a.motor != b.motor {
        motor_le(a.motor, b.motor)
    } else {
        opt_lex_le(spec_tag_of(a), spec_tag_of(b))
    }
}

/// The display order is total.
pub proof fn lemma_tagged_total(a: TaggedMotorView, b: TaggedMotorView)
    ensures
        tagged_le(a, b) || tagged_le(b, a),
{
    lemma_lex_total(a.motor.device_name, b.motor.device_name);
    match (a.motor.device_identifier, b.motor.device_identifier) {
        (Some(x), Some(y)) => lemma_lex_total(x, y),
        _ => {},
    }
    match (spec_tag_of(a), spec_tag_of(b)) {
        (Some(x), Some(y)) => lemma_lex_total(x, y),
        _ => {},
    }
}

/// Compare two tagged motors in the display order.
pub fn tagged_le_exec(a: &TaggedMotor, b: &TaggedMotor) -> (r: bool)
    ensures
        r == tagged_le(a@, b@),
{
    if !crate::text::str_eq(a.motor.device_name.as_str(), b.motor.device_name.as_str()) {
        return lex_le_exec(a.motor.device_name.as_str(), b.motor.device_name.as_str());
    }
    let ids_equal: bool = match (&a.motor.device_identifier, &b.motor.device_identifier) {
        (None, None) => true,
        (Some(x), Some(y)) => crate::text::str_eq(x.as_str(), y.as_str()),
        _ => false,
    };
    if !ids_equal {
        let r = match (&a.motor.device_identifier, &b.motor.device_identifier) {
            (None, _) => true,
            (Some(_), None) => false,
            (Some(x), Some(y)) => lex_le_exec(x.as_str(), y.as_str()),
        };
        return r;
    }
    if a.motor.feature_index != b.motor.feature_index {
        return a.motor.feature_index <= b.motor.feature_index;
    }
    let ra = kind_rank(a.motor.feature_type);
    let rb = kind_rank(b.motor.feature_type);
    if ra != rb || a.motor.feature_type != b.motor.feature_type {
        proof {
            assert(a.motor.feature_type == b.motor.feature_type ==> ra == rb);
        }
        if a.motor.feature_type == b.motor.feature_type {
            return true;
        }
        proof {
            assert(a@.motor != b@.motor);
        }
        return ra <= rb;
    }
    proof {
        assert(a@.motor == b@.motor);
    }
    match (&a.state, &b.state) {
        (TaggedMotorState::Untagged, _) => true,
        (TaggedMotorState::Tagged { .. }, TaggedMotorState::Untagged) => false,
        (TaggedMotorState::Tagged { tag: x, .. }, TaggedMotorState::Tagged { tag: y, .. }) => {
            lex_le_exec(x.as_str(), y.as_str())
        },
    }
}

/// The views of a tagged motor list.
pub open spec fn tagged_views(s: Seq<TaggedMotor>) -> Seq<TaggedMotorView> {
    Seq::new(s.len(), |i: int| s[i]@)
}

/// Sort tagged motors into the display order; the result is a permutation
/// of the input.
pub fn sort_tagged_motors(motors: Vec<TaggedMotor>) -> (r: Vec<TaggedMotor>)
    ensures
        r@.len() == motors@.len(),
        forall|i: int, j: int|
            0 <= i < j < r@.len() ==> tagged_le(#[trigger] r@[i]@, #[trigger] r@[j]@),
        tagged_views(r@).to_multiset() == tagged_views(motors@).to_multiset(),
{
    broadcast use vstd::seq_lib::group_to_multiset_ensures;

    let ghost orig = tagged_views(motors@);
    let mut rem = motors;
    let mut out: Vec<TaggedMotor> = Vec::new();
    proof {
        assert(tagged_views(out@).to_multiset() =~= vstd::multiset::Multiset::<TaggedMotorView>::empty());
        assert(tagged_views(out@).to_multiset().add(tagged_views(rem@).to_multiset())
            =~= orig.to_multiset());
    }
    while rem.len() > 0
        invariant
            tagged_views(out@).to_multiset().add(tagged_views(rem@).to_multiset())
                == orig.to_multiset(),
            forall|i: int, j: int|
                0 <= i < j < out@.len() ==> tagged_le(#[trigger] out@[i]@, #[trigger] out@[j]@),
            forall|i: int, j: int|
                0 <= i < out@.len() && 0 <= j < rem@.len() ==> tagged_le(
                    #[trigger] out@[i]@,
                    #[trigger] rem@[j]@,
                ),
            out@.len() + rem@.len() == orig.len(),
        decreases rem@.len(),
    {
        // find the least remaining element
        let mut min: usize = 0;
        let mut k: usize = 1;
        proof {
            lemma_tagged_refl(rem@[0]@);
        }
        while k < rem.len()
            invariant
                k <= rem@.len(),
                min < rem@.len(),
                rem@.len() > 0,
                forall|j: int| 0 <= j < k ==> tagged_le(rem@[min as int]@, #[trigger] rem@[j]@),
            decreases rem@.len() - k,
        {
            if !tagged_le_exec(&rem[min], &rem[k]) {
                let ghost old_min = min as int;
                min = k;
                proof {
                    lemma_tagged_total(rem@[old_min]@, rem@[k as int]@);
                    lemma_tagged_refl(rem@[k as int]@);
                    assert forall|j: int| 0 <= j < k + 1 implies tagged_le(
                        rem@[min as int]@,
                        #[trigger] rem@[j]@,
                    ) by {
                        if j < k {
                            lemma_tagged_trans(rem@[min as int]@, rem@[old_min]@, rem@[j]@);
                        }
                    }
                }
            }
            k = k + 1;
        }
        let ghost rem_pre = rem@;
        let ghost out_pre = out@;
        let picked = rem.remove(min);
        let ghost picked_view = picked@;
        out.push(picked);
        proof {
            tagged_views(rem_pre).to_multiset_ensures();
            tagged_views(out_pre).to_multiset_ensures();
            assert(tagged_views(rem_pre).remove(min as int) =~= tagged_views(rem@));
            assert(tagged_views(rem_pre)[min as int] == picked_view);
            assert(tagged_views(out@) =~= tagged_views(out_pre).push(picked_view));
            assert(tagged_views(rem_pre).remove(min as int).to_multiset() =~= tagged_views(
                rem_pre,
            ).to_multiset().remove(picked_view));
            assert(tagged_views(out_pre).push(picked_view).to_multiset() =~= tagged_views(
                out_pre,
            ).to_multiset().insert(picked_view));
            assert(tagged_views(rem_pre).contains(picked_view));
            assert(tagged_views(rem_pre).to_multiset().count(picked_view) > 0);
            assert(tagged_views(out@).to_multiset().add(tagged_views(rem@).to_multiset())
                =~= orig.to_multiset());
            assert forall|i: int, j: int| 0 <= i < out@.len() && 0 <= j < rem@.len() implies
                tagged_le(#[trigger] out@[i]@, #[trigger] rem@[j]@) by {
                let src = if j < min { j } else { j + 1 };
                assert(rem@[j] == rem_pre[src]);
                if i < out@.len() - 1 {
                    assert(out@[i] == out_pre[i]);
                } else {
                    assert(out@[i]@ == picked_view);
                    assert(tagged_le(picked_view, rem_pre[src]@));
                }
            }
            assert forall|i: int, j: int| 0 <= i < j < out@.len() implies tagged_le(
                #[trigger] out@[i]@,
                #[trigger] out@[j]@,
            ) by {
                if j == out@.len() - 1 {
                    assert(out@[i] == out_pre[i]);
                    assert(tagged_le(out_pre[i]@, rem_pre[min as int]@));
                } else {
                    assert(out@[i] == out_pre[i]);
                    assert(out@[j] == out_pre[j]);
                }
            }
        }
    }
    proof {
        assert(tagged_views(rem@).to_multiset() =~= vstd::multiset::Multiset::<TaggedMotorView>::empty());
        assert(tagged_views(out@).to_multiset() =~= orig.to_multiset());
    }
    out
}

/// The lexicographic order is reflexive.
pub proof fn lemma_lex_refl(a: Seq<char>)
    ensures
        lex_le(a, a),
    decreases a.len(),
{
    if a.len() > 0 {
        lemma_lex_refl(a.drop_first());
    }
}

/// The display order is reflexive.
pub proof fn lemma_tagged_refl(a: TaggedMotorView)
    ensures
        tagged_le(a, a),
{
    match spec_tag_of(a) {
        Some(x) => lemma_lex_refl(x),
        None => {},
    }
}

/// Optional strings: each at most the other means equal.
proof fn lemma_opt_antisym(a: Option<Seq<char>>, b: Option<Seq<char>>)
    requires
        opt_lex_le(a, b),
        opt_lex_le(b, a),
    ensures
        a == b,
{
    match (a, b) {
        (Some(x), Some(y)) => {
            lemma_lex_antisym(x, y);
        },
        _ => {},
    }
}

/// Optional strings: the order is transitive.
proof fn lemma_opt_trans(a: Option<Seq<char>>, b: Option<Seq<char>>, c: Option<Seq<char>>)
    requires
        opt_lex_le(a, b),
        opt_lex_le(b, c),
    ensures
        opt_lex_le(a, c),
{
    match (a, b, c) {
        (Some(x), Some(y), Some(z)) => {
            lemma_lex_trans(x, y, z);
        },
        _ => {},
    }
}

/// Equal kind ranks mean equal kinds.
proof fn lemma_rank_injective(a: MotorTypeV3, b: MotorTypeV3)
    requires
        spec_kind_rank(a) == spec_kind_rank(b),
    ensures
        a == b,
{
}

/// The motor order: each at most the other means equal.
proof fn lemma_motor_antisym(a: MotorV3View, b: MotorV3View)
    requires
        motor_le(a, b),
        motor_le(b, a),
    ensures
        a == b,
{
    if a.device_name != b.device_name {
        lemma_lex_antisym(a.device_name, b.device_name);
    } else if a.device_identifier != b.device_identifier {
        lemma_opt_antisym(a.device_identifier, b.device_identifier);
    } else if a.feature_index != b.feature_index {
    } else {
        lemma_rank_injective(a.feature_type, b.feature_type);
    }
}

/// The motor order is transitive.
proof fn lemma_motor_trans(a: MotorV3View, b: MotorV3View, c: MotorV3View)
    requires
        motor_le(a, b),
        motor_le(b, c),
    ensures
        motor_le(a, c),
{
    if a.device_name == b.device_name {
        if b.device_name == c.device_name {
            // names all equal: compare the next component
            if a.device_identifier == b.device_identifier {
                if b.device_identifier == c.device_identifier {
                } else {
                }
            } else {
                if b.device_identifier == c.device_identifier {
                } else {
                    lemma_opt_trans(
                        a.device_identifier,
                        b.device_identifier,
                        c.device_identifier,
                    );
                    if a.device_identifier == c.device_identifier {
                        lemma_opt_antisym(a.device_identifier, b.device_identifier);
                    }
                }
            }
        } else {
        }
    } else {
        if b.device_name == c.device_name {
        } else {
            lemma_lex_trans(a.device_name, b.device_name, c.device_name);
            if a.device_name == c.device_name {
                lemma_lex_antisym(a.device_name, b.device_name);
            }
        }
    }
}

/// The display order is transitive.
pub proof fn lemma_tagged_trans(a: TaggedMotorView, b: TaggedMotorView, c: TaggedMotorView)
    requires
        tagged_le(a, b),
        tagged_le(b, c),
    ensures
        tagged_le(a, c),
{
    if a.motor == b.motor {
        if b.motor == c.motor {
            lemma_opt_trans(spec_tag_of(a), spec_tag_of(b), spec_tag_of(c));
        } else {
        }
    } else {
        if b.motor == c.motor {
        } else {
            lemma_motor_trans(a.motor, b.motor, c.motor);
            if a.motor == c.motor {
                lemma_motor_antisym(a.motor, b.motor);
            }
        }
    }
}

/// The lexicographic order is transitive.
pub proof fn lemma_lex_trans(a: Seq<char>, b: Seq<char>, c: Seq<char>)
    requires
        lex_le(a, b),
        lex_le(b, c),
    ensures
        lex_le(a, c),
    decreases a.len(),
{
    if a.len() > 0 && b.len() > 0 && c.len() > 0 && a[0] == b[0] && b[0] == c[0] {
        lemma_lex_trans(a.drop_first(), b.drop_first(), c.drop_first());
    }
}

/// Two sequences each at most the other are equal.
pub proof fn lemma_lex_antisym(a: Seq<char>, b: Seq<char>)
    requires
        lex_le(a, b),
        lex_le(b, a),
    ensures
        a == b,
    decreases a.len(),
{
    if a.len() > 0 && b.len() > 0 && a[0] == b[0] {
        lemma_lex_antisym(a.drop_first(), b.drop_first());
        assert(seq![a[0]] + a.drop_first() =~= a);
        assert(seq![b[0]] + b.drop_first() =~= b);
        assert(a =~= b);
    } else if a.len() == 0 {
        assert(b.len() == 0);
        assert(a =~= b);
    }
}

/// Is some tagged motor built on this motor address?
pub open spec fn spec_has_motor(tagged: Seq<TaggedMotorView>, m: MotorV3View) -> bool {
    exists|i: int| 0 <= i < tagged.len() && (#[trigger] tagged[i]).motor == m
}

/// Compare two motor addresses for equality.
pub fn motor_eq(a: &MotorConfigurationV3, b: &MotorConfigurationV3) -> (r: bool)
    ensures
        r == (a@ == b@),
{
    let names = crate::text::str_eq(a.device_name.as_str(), b.device_name.as_str());
    let ids = match (&a.device_identifier, &b.device_identifier) {
        (None, None) => true,
        (Some(x), Some(y)) => crate::text::str_eq(x.as_str(), y.as_str()),
        _ => false,
    };
    let r = names && ids && a.feature_index == b.feature_index && a.feature_type == b.feature_type;
    proof {
        if r {
            assert(a@ == b@);
        } else {
            assert(a@ != b@);
        }
    }
    r
}

/// The display order on device statuses: by device name.
pub open spec fn device_le(a: crate::devices::DeviceStatusView, b: crate::devices::DeviceStatusView) -> bool {
    lex_le(a.name, b.name)
}

/// The views of a device status list.
pub open spec fn device_views(s: Seq<DeviceStatus>) -> Seq<crate::devices::DeviceStatusView> {
    Seq::new(s.len(), |i: int| s[i]@)
}

/// Sort device statuses by name; the result is a permutation of the input.
pub fn sort_device_statuses(devices: Vec<DeviceStatus>) -> (r: Vec<DeviceStatus>)
    ensures
        r@.len() == devices@.len(),
        forall|i: int, j: int|
            0 <= i < j < r@.len() ==> device_le(#[trigger] r@[i]@, #[trigger] r@[j]@),
        device_views(r@).to_multiset() == device_views(devices@).to_multiset(),
{
    broadcast use vstd::seq_lib::group_to_multiset_ensures;

    let ghost orig = device_views(devices@);
    let mut rem = devices;
    let mut out: Vec<DeviceStatus> = Vec::new();
    proof {
        assert(device_views(out@).to_multiset() =~= vstd::multiset::Multiset::<
            crate::devices::DeviceStatusView,
        >::empty());
        assert(device_views(out@).to_multiset().add(device_views(rem@).to_multiset())
            =~= orig.to_multiset());
    }
    while rem.len() > 0
        invariant
            device_views(out@).to_multiset().add(device_views(rem@).to_multiset())
                == orig.to_multiset(),
            forall|i: int, j: int|
                0 <= i < j < out@.len() ==> device_le(#[trigger] out@[i]@, #[trigger] out@[j]@),
            forall|i: int, j: int|
                0 <= i < out@.len() && 0 <= j < rem@.len() ==> device_le(
                    #[trigger] out@[i]@,
                    #[trigger] rem@[j]@,
                ),
            out@.len() + rem@.len() == orig.len(),
        decreases rem@.len(),
    {
        // find the least remaining element
        let mut min: usize = 0;
        let mut k: usize = 1;
        proof {
            lemma_lex_refl(rem@[0]@.name);
        }
        while k < rem.len()
            invariant
                k <= rem@.len(),
                min < rem@.len(),
                rem@.len() > 0,
                forall|j: int| 0 <= j < k ==> device_le(rem@[min as int]@, #[trigger] rem@[j]@),
            decreases rem@.len() - k,
        {
            if !lex_le_exec(rem[min].name.as_str(), rem[k].name.as_str()) {
                let ghost old_min = min as int;
                min = k;
                proof {
                    lemma_lex_total(rem@[old_min]@.name, rem@[k as int]@.name);
                    lemma_lex_refl(rem@[k as int]@.name);
                    assert forall|j: int| 0 <= j < k + 1 implies device_le(
                        rem@[min as int]@,
                        #[trigger] rem@[j]@,
                    ) by {
                        if j < k {
                            lemma_lex_trans(rem@[min as int]@.name, rem@[old_min]@.name, rem@[j]@.name);
                        }
                    }
                }
            }
            k = k + 1;
        }
        let ghost rem_pre = rem@;
        let ghost out_pre = out@;
        let picked = rem.remove(min);
        let ghost picked_view = picked@;
        out.push(picked);
        proof {
            device_views(rem_pre).to_multiset_ensures();
            device_views(out_pre).to_multiset_ensures();
            assert(device_views(rem_pre).remove(min as int) =~= device_views(rem@));
            assert(device_views(rem_pre)[min as int] == picked_view);
            assert(device_views(out@) =~= device_views(out_pre).push(picked_view));
            assert(device_views(rem_pre).remove(min as int).to_multiset() =~= device_views(
                rem_pre,
            ).to_multiset().remove(picked_view));
            assert(device_views(out_pre).push(picked_view).to_multiset() =~= device_views(
                out_pre,
            ).to_multiset().insert(picked_view));
            assert(device_views(rem_pre).contains(picked_view));
            assert(device_views(rem_pre).to_multiset().count(picked_view) > 0);
            assert(device_views(out@).to_multiset().add(device_views(rem@).to_multiset())
                =~= orig.to_multiset());
            assert forall|i: int, j: int| 0 <= i < out@.len() && 0 <= j < rem@.len() implies
                device_le(#[trigger] out@[i]@, #[trigger] rem@[j]@) by {
                let src = if j < min { j } else { j + 1 };
                assert(rem@[j] == rem_pre[src]);
                if i < out@.len() - 1 {
                    assert(out@[i] == out_pre[i]);
                } else {
                    assert(out@[i]@ == picked_view);
                    assert(device_le(picked_view, rem_pre[src]@));
                }
            }
            assert forall|i: int, j: int| 0 <= i < j < out@.len() implies device_le(
                #[trigger] out@[i]@,
                #[trigger] out@[j]@,
            ) by {
                if j == out@.len() - 1 {
                    assert(out@[i] == out_pre[i]);
                    assert(device_le(out_pre[i]@, rem_pre[min as int]@));
                } else {
                    assert(out@[i] == out_pre[i]);
                    assert(out@[j] == out_pre[j]);
                }
            }
        }
    }
    proof {
        assert(device_views(rem@).to_multiset() =~= vstd::multiset::Multiset::<
            crate::devices::DeviceStatusView,
        >::empty());
        assert(device_views(out@).to_multiset() =~= orig.to_multiset());
    }
    out
}

/// Everything the editing surface needs, assembled from a configuration
/// snapshot and the device layer's reports: the configured tags as tagged
/// motors, every connected motor without a tag as an untagged entry, the
/// whole list in display order, and the device statuses sorted by name.
pub fn get_tagged_devices(
    configuration: &ConfigurationV3,
    motors: Vec<MotorConfigurationV3>,
    devices: Vec<DeviceStatus>,
) -> (r: ApplicationStatus)
    ensures
        r.configuration@ == configuration@,
        forall|i: int, j: int|
            0 <= i < j < r.motors@.len() ==> tagged_le(
                #[trigger] r.motors@[i]@,
                #[trigger] r.motors@[j]@,
            ),
        tagged_views(r.motors@).to_multiset() == (tagged_views_of_tags(configuration@.tags)
            + missing_views(motors@, configuration@.tags)).to_multiset(),
        forall|i: int, j: int|
            0 <= i < j < r.devices@.len() ==> device_le(
                #[trigger] r.devices@[i]@,
                #[trigger] r.devices@[j]@,
            ),
        device_views(r.devices@).to_multiset() == device_views(devices@).to_multiset(),
{
    broadcast use vstd::seq_lib::group_to_multiset_ensures;

    let mut tagged = motors_to_tagged(&configuration.tags);
    proof {
        assert(tagged_views(tagged@) =~= tagged_views_of_tags(configuration@.tags));
    }
    let ghost base = tagged_views(tagged@);
    let n: usize = motors.len();
    let mut i: usize = 0;
    proof {
        assert(missing_views(motors@.take(0), configuration@.tags) =~= Seq::<
            TaggedMotorView,
        >::empty());
        assert(tagged_views(tagged@) =~= base + missing_views(
            motors@.take(0),
            configuration@.tags,
        ));
    }
    while i < n
        invariant
            n == motors@.len(),
            i <= n,
            base == tagged_views_of_tags(configuration@.tags),
            tagged_views(tagged@) == base + missing_views(motors@.take(i as int), configuration@.tags),
        decreases n - i,
    {
        let ghost tags_view = configuration@.tags;
        let ghost mview = motors@[i as int]@;
        proof {
            assert(motors@.take(i as int + 1).drop_last() =~= motors@.take(i as int));
            assert(motors@.take(i as int + 1).last() == motors@[i as int]);
        }
        // is this motor already present under some tag?
        let mut found: bool = false;
        let mut t: usize = 0;
        let nt: usize = configuration.tags.len();
        while t < nt && !found
            invariant
                nt == configuration@.tags.len(),
                t <= nt,
                i < n,
                n == motors@.len(),
                mview == motors@[i as int]@,
                found ==> spec_has_motor(tagged_views_of_tags(configuration@.tags), mview),
                !found ==> forall|j: int|
                    0 <= j < t ==> (#[trigger] tagged_views_of_tags(configuration@.tags)[j]).motor
                        != mview,
            decreases nt - t,
        {
            let entry = configuration.tags.entry(t);
            if motor_eq(&entry.1, &motors[i]) {
                proof {
                    assert(tagged_views_of_tags(configuration@.tags)[t as int].motor == mview);
                }
                found = true;
            }
            t = t + 1;
        }
        let ghost pre_views = tagged_views(tagged@);
        if !found {
            proof {
                assert(!spec_has_motor(tagged_views_of_tags(configuration@.tags), mview));
            }
            let m = motors[i].duplicate();
            let fresh = TaggedMotor::new(m, None);
            let ghost fresh_view = fresh@;
            tagged.push(fresh);
            proof {
                assert(tagged_views(tagged@) =~= pre_views + seq![fresh_view]);
                assert(missing_views(motors@.take(i as int + 1), configuration@.tags)
                    =~= missing_views(motors@.take(i as int), configuration@.tags) + seq![
                    fresh_view,
                ]);
                assert(tagged_views(tagged@) =~= base + missing_views(
                    motors@.take(i as int + 1),
                    configuration@.tags,
                ));
            }
        } else {
            proof {
                assert(missing_views(motors@.take(i as int + 1), configuration@.tags)
                    =~= missing_views(motors@.take(i as int), configuration@.tags));
            }
        }
        i = i + 1;
    }
    proof {
        assert(motors@.take(n as int) =~= motors@);
    }
    let sorted = sort_tagged_motors(tagged);
    let sorted_devices = sort_device_statuses(devices);
    let configuration_copy = ConfigurationV3 {
        version: configuration.version,
        port: configuration.port,
        tags: configuration.tags.duplicate(),
    };
    ApplicationStatus { motors: sorted, devices: sorted_devices, configuration: configuration_copy }
}

/// The configured tag entries as tagged motor views, in entry order.
pub open spec fn tagged_views_of_tags(
    tags: Seq<(Seq<char>, MotorV3View)>,
) -> Seq<TaggedMotorView> {
    Seq::new(tags.len(), |i: int| TaggedMotorView { motor: tags[i].1, state: Some((tags[i].0, true)) })
}

/// The connected motors that no tag points at, as untagged entries, in
/// device order.
pub open spec fn missing_views(
    motors: Seq<MotorConfigurationV3>,
    tags: Seq<(Seq<char>, MotorV3View)>,
) -> Seq<TaggedMotorView>
    decreases motors.len(),
{
    if motors.len() == 0 {
        Seq::empty()
    } else {
        missing_views(motors.drop_last(), tags) + (if spec_has_motor(
            tagged_views_of_tags(tags),
            motors.last()@,
        ) {
            Seq::empty()
        } else {
            seq![TaggedMotorView { motor: motors.last()@, state: None }]
        })
    }
}

} // verus!