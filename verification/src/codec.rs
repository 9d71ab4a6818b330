//! The durable configuration format: a strict, canonical TOML-shaped text.
//!
//! A file is a sequence of newline-terminated lines: an optional `version`
//! assignment, a `port` assignment, then one section per tag:
//!
//! ```text
//! version = 3
//! port = 3031
//! [tags."throttle"]
//! device_name = "Example Device"
//! device_identifier = "proto://aa:bb/0"
//! feature_index = 0
//! feature_type = "Scalar"
//! actuator_type = "Vibrate"
//! ```
//!
//! `device_identifier` is present only when known, `actuator_type` only for
//! scalar motors, and the legacy (version 2) shape carries `device_name`,
//! `feature_type`, `feature_index` with the legacy kind names. Strings are
//! quoted, with `\"`, `\\`, `\n` and `\r` escapes.
//!
//! The encoder always writes this exact form, so a saved configuration
//! reads back to the same value. The parser also accepts what a general
//! TOML serializer writes for the same data: blank lines between tables,
//! bare (unquoted) section keys, a bare `[tags]` header for an empty tag
//! table, and the feature kind as a nested `[tags.<key>.feature_type]`
//! table holding a `type` assignment instead of the flat `feature_type`
//! line. Key order within a section is fixed, as a serializer following
//! field declaration order writes it.

use vstd::prelude::*;

use crate::text::{all_dec_digits, dec_rep, digit_val, digits_val, is_dec_digit, split_on};

verus! {

/// The escaped form of one character.
pub open spec fn esc_char(c: char) -> Seq<char> {
    if c == '"' {
        seq!['\\', '"']
    } else if c == '\\' {
        seq!['\\', '\\']
    } else if c == '\n' {
        seq!['\\', 'n']
    } else if c == '\r' {
        seq!['\\', 'r']
    } else {
        seq![c]
    }
}

/// The escaped form of a string: quotes, backslashes and line breaks are
/// escaped, everything else passes through.
pub open spec fn escape(s: Seq<char>) -> Seq<char>
    decreases s.len(),
{
    if s.len() == 0 {
        Seq::empty()
    } else {
        esc_char(s[0]) + escape(s.drop_first())
    }
}

/// The string an escaped form denotes, if it is well formed: a backslash
/// must start a known escape, and bare quotes or line breaks cannot occur.
pub open spec fn unescape(s: Seq<char>) -> Option<Seq<char>>
    decreases s.len(),
{
    if s.len() == 0 {
        Some(Seq::empty())
    } else if s[0] == '\\' {
        if s.len() < 2 {
            None
        } else {
            let c = if s[1] == '"' {
                Some('"')
            } else if s[1] == '\\' {
                Some('\\')
            } else if s[1] == 'n' {
                Some('\n')
            } else if s[1] == 'r' {
                Some('\r')
            } else {
                None
            };
            match (c, unescape(s.skip(2))) {
                (Some(c), Some(rest)) => Some(seq![c] + rest),
                _ => None,
            }
        }
    } else if s[0] == '"' || s[0] == '\n' || s[0] == '\r' {
        None
    } else {
        match unescape(s.drop_first()) {
            Some(rest) => Some(seq![s[0]] + rest),
            None => None,
        }
    }
}

/// Unescaping inverts escaping, and an escaped form never contains a line
/// break or a bare quote.
pub proof fn lemma_escape_roundtrip(s: Seq<char>)
    ensures
        unescape(escape(s)) == Some(s),
        forall|i: int|
            0 <= i < escape(s).len() ==> #[trigger] escape(s)[i] != '\n' && escape(s)[i] != '\r',
    decreases s.len(),
{
    if s.len() > 0 {
        lemma_escape_roundtrip(s.drop_first());
        let e = escape(s);
        let h = esc_char(s[0]);
        let t = escape(s.drop_first());
        assert(e == h + t);
        if s[0] == '"' || s[0] == '\\' || s[0] == '\n' || s[0] == '\r' {
            assert(h.len() == 2);
            assert(e[0] == '\\');
            assert(e[1] == h[1]);
            assert(e.skip(2) =~= t);
            assert(seq![s[0]] + s.drop_first() =~= s);
        } else {
            assert(h.len() == 1);
            assert(e[0] == s[0]);
            assert(e.drop_first() =~= t);
            assert(seq![s[0]] + s.drop_first() =~= s);
        }
        assert forall|i: int| 0 <= i < e.len() implies #[trigger] e[i] != '\n' && e[i] != '\r' by {
            if i < h.len() {
                assert(e[i] == h[i]);
            } else {
                assert(e[i] == t[i - h.len()]);
            }
        }
    }
}

/// Is `c` allowed in an assignment key?
pub open spec fn is_key_char(c: char) -> bool {
    ('a' <= c && c <= 'z') || c == '_'
}

/// The value of one parsed line: a tag section header, the nested
/// feature-kind table header of a section, the bare root header written for
/// an empty tag table, or an assignment.
pub ghost enum LineView {
    Section(Seq<char>),
    Subsection(Seq<char>),
    TagsRoot,
    AssignInt(Seq<char>, int),
    AssignStr(Seq<char>, Seq<char>),
}

/// The fixed opening of a tag section header.
pub open spec fn section_prefix() -> Seq<char> {
    seq!['[', 't', 'a', 'g', 's', '.']
}

/// The bare root header written for an empty tag table.
pub open spec fn tags_root_line() -> Seq<char> {
    seq!['[', 't', 'a', 'g', 's', ']']
}

/// The suffix naming the nested feature-kind table of a section.
pub open spec fn feature_type_suffix() -> Seq<char> {
    seq!['.', 'f', 'e', 'a', 't', 'u', 'r', 'e', '_', 't', 'y', 'p', 'e']
}

/// Is `c` allowed in a bare (unquoted) section key?
pub open spec fn is_bare_key_char(c: char) -> bool {
    ('a' <= c && c <= 'z') || ('A' <= c && c <= 'Z') || ('0' <= c && c <= '9') || c == '_' || c
        == '-'
}

/// The tag a section key denotes: a quoted, escaped form, or a bare name.
pub open spec fn spec_parse_section_key(k: Seq<char>) -> Option<Seq<char>> {
    if k.len() >= 2 && k[0] == '"' {
        if k.last() == '"' {
            unescape(k.subrange(1, k.len() - 1))
        } else {
            None
        }
    } else if k.len() >= 1 && (forall|j: int|
        0 <= j < k.len() ==> is_bare_key_char(#[trigger] k[j])) {
        Some(k)
    } else {
        None
    }
}

/// What parsing a bracketed line yields: the bare `[tags]` root, a tag
/// section header with a quoted or bare key, or the section's nested
/// feature-kind table header.
pub open spec fn spec_parse_bracket_line(line: Seq<char>) -> Option<LineView> {
    if line == tags_root_line() {
        Some(LineView::TagsRoot)
    } else if line.len() >= 8 && line.take(6) == section_prefix() && line.last() == ']' {
        let rest = line.subrange(6, line.len() - 1);
        match spec_parse_section_key(rest) {
            Some(tag) => Some(LineView::Section(tag)),
            None => if rest.len() > feature_type_suffix().len() && rest.skip(
                rest.len() - feature_type_suffix().len(),
            ) == feature_type_suffix() {
                match spec_parse_section_key(
                    rest.take(rest.len() - feature_type_suffix().len()),
                ) {
                    Some(tag) => Some(LineView::Subsection(tag)),
                    None => None,
                }
            } else {
                None
            },
        }
    } else {
        None
    }
}

/// The first position of a space, if any.
pub open spec fn find_space(s: Seq<char>) -> Option<int>
    decreases s.len(),
{
    if s.len() == 0 {
        None
    } else if s[0] == ' ' {
        Some(0)
    } else {
        match find_space(s.drop_first()) {
            Some(i) => Some(i + 1),
            None => None,
        }
    }
}

/// `find_space` yields the least space position.
pub proof fn lemma_find_space(s: Seq<char>)
    ensures
        match find_space(s) {
            Some(i) => 0 <= i < s.len() && s[i] == ' ' && (forall|j: int| 0 <= j < i ==> s[j] != ' '),
            None => forall|j: int| 0 <= j < s.len() ==> s[j] != ' ',
        },
    decreases s.len(),
{
    if s.len() > 0 && s[0] != ' ' {
        lemma_find_space(s.drop_first());
        assert forall|j: int| 1 <= j < s.len() implies s[j] == s.drop_first()[j - 1] by {}
    }
}

/// What parsing a signed decimal value yields: an optional minus sign and
/// digits, bounded to `i64` so the value is representable.
pub open spec fn spec_parse_int_value(v: Seq<char>) -> Option<int> {
    let neg = v.len() > 0 && v[0] == '-';
    let d = if neg {
        v.drop_first()
    } else {
        v
    };
    if d.len() > 0 && all_dec_digits(d) && digits_val(d) <= i64::MAX as nat {
        Some(
            if neg {
                -(digits_val(d) as int)
            } else {
                digits_val(d) as int
            },
        )
    } else {
        None
    }
}

/// What parsing one line yields, if it is well formed: a tag section header
/// `[tags."…"]`, or an assignment `key = value` whose value is a quoted
/// string or a signed integer.
pub open spec fn spec_parse_line(line: Seq<char>) -> Option<LineView> {
    if line.len() > 0 && line[0] == '[' {
        spec_parse_bracket_line(line)
    } else {
        match find_space(line) {
            None => None,
            Some(i) => {
                let key = line.take(i);
                let value = line.skip(i + 3);
                if key.len() > 0 && (forall|j: int| 0 <= j < key.len() ==> is_key_char(#[trigger] key[j]))
                    && line.len() >= i + 3 && line.subrange(i, i + 3) == seq![' ', '=', ' '] {
                    if value.len() >= 2 && value[0] == '"' {
                        if value.last() == '"' {
                            match unescape(value.subrange(1, value.len() - 1)) {
                                Some(s) => Some(LineView::AssignStr(key, s)),
                                None => None,
                            }
                        } else {
                            None
                        }
                    } else {
                        match spec_parse_int_value(value) {
                            Some(n) => Some(LineView::AssignInt(key, n)),
                            None => None,
                        }
                    }
                } else {
                    None
                }
            },
        }
    }
}

/// The lines of a file: split at every newline, tolerating the final
/// newline the encoder always writes.
pub open spec fn lines_of(text: Seq<char>) -> Seq<Seq<char>> {
    if text.len() == 0 {
        Seq::empty()
    } else if text.last() == '\n' {
        split_on(text, '\n').drop_last()
    } else {
        split_on(text, '\n')
    }
}

/// The non-blank lines of a file: a general TOML serializer separates
/// tables with blank lines, which carry nothing.
pub open spec fn nonblank(lines: Seq<Seq<char>>) -> Seq<Seq<char>>
    decreases lines.len(),
{
    if lines.len() == 0 {
        Seq::empty()
    } else {
        nonblank(lines.drop_last()) + (if lines.last().len() == 0 {
            Seq::<Seq<char>>::empty()
        } else {
            seq![lines.last()]
        })
    }
}

/// A file without blank lines keeps all its lines.
pub proof fn lemma_nonblank_identity(lines: Seq<Seq<char>>)
    requires
        forall|i: int| 0 <= i < lines.len() ==> (#[trigger] lines[i]).len() > 0,
    ensures
        nonblank(lines) == lines,
    decreases lines.len(),
{
    if lines.len() > 0 {
        let d = lines.drop_last();
        assert forall|i: int| 0 <= i < d.len() implies (#[trigger] d[i]).len() > 0 by {
            assert(d[i] == lines[i]);
        }
        lemma_nonblank_identity(d);
        assert(lines.last().len() > 0);
        assert(nonblank(lines) =~~= lines);
    }
}

/// The content of a file: its non-blank lines.
pub open spec fn content_lines(text: Seq<char>) -> Seq<Seq<char>> {
    nonblank(lines_of(text))
}

/// Prepending one newline-free line and a newline prepends that line.
pub proof fn lemma_lines_cons(line: Seq<char>, t: Seq<char>)
    requires
        forall|i: int| 0 <= i < line.len() ==> #[trigger] line[i] != '\n',
        t.len() == 0 || t.last() == '\n',
    ensures
        lines_of(line + seq!['\n'] + t) == seq![line] + lines_of(t),
{
    let text = line + seq!['\n'] + t;
    assert(text.len() > 0);
    assert forall|j: int| 0 <= j < line.len() implies text[j] != '\n' by {
        assert(text[j] == line[j]);
    }
    assert(text[line.len() as int] == '\n');
    crate::text::lemma_split_on_head(text, '\n', line.len() as int);
    assert(text.take(line.len() as int) =~= line);
    assert(text.skip(line.len() as int + 1) =~= t);
    assert(split_on(text, '\n') == seq![line] + split_on(t, '\n'));
    crate::text::lemma_split_on_len(t, '\n');
    if t.len() == 0 {
        assert(text.last() == '\n');
        assert(split_on(t, '\n') =~~= seq![Seq::<char>::empty()]);
        assert(lines_of(text) =~~= (seq![line] + seq![Seq::<char>::empty()]).drop_last());
        assert(lines_of(text) =~~= seq![line]);
        assert(lines_of(t) =~~= Seq::<Seq<char>>::empty());
        assert(seq![line] + lines_of(t) =~~= seq![line]);
    } else {
        assert(text.last() == t.last());
        assert(text.last() == '\n');
        assert(lines_of(text) =~~= (seq![line] + split_on(t, '\n')).drop_last());
        assert(lines_of(t) =~~= split_on(t, '\n').drop_last());
        assert((seq![line] + split_on(t, '\n')).drop_last() =~~= seq![line] + split_on(
            t,
            '\n',
        ).drop_last());
    }
}

/// The keys of the format.
pub open spec fn key_version() -> Seq<char> {
    seq!['v', 'e', 'r', 's', 'i', 'o', 'n']
}

pub open spec fn key_port() -> Seq<char> {
    seq!['p', 'o', 'r', 't']
}

pub open spec fn key_device_name() -> Seq<char> {
    seq!['d', 'e', 'v', 'i', 'c', 'e', '_', 'n', 'a', 'm', 'e']
}

pub open spec fn key_device_identifier() -> Seq<char> {
    seq!['d', 'e', 'v', 'i', 'c', 'e', '_', 'i', 'd', 'e', 'n', 't', 'i', 'f', 'i', 'e', 'r']
}

pub open spec fn key_feature_index() -> Seq<char> {
    seq!['f', 'e', 'a', 't', 'u', 'r', 'e', '_', 'i', 'n', 'd', 'e', 'x']
}

pub open spec fn key_feature_type() -> Seq<char> {
    seq!['f', 'e', 'a', 't', 'u', 'r', 'e', '_', 't', 'y', 'p', 'e']
}

pub open spec fn key_actuator_type() -> Seq<char> {
    seq!['a', 'c', 't', 'u', 'a', 't', 'o', 'r', '_', 't', 'y', 'p', 'e']
}

pub open spec fn key_type() -> Seq<char> {
    seq!['t', 'y', 'p', 'e']
}

/// The names of the current motor kinds.
pub open spec fn name_linear() -> Seq<char> {
    seq!['L', 'i', 'n', 'e', 'a', 'r']
}

pub open spec fn name_rotation() -> Seq<char> {
    seq!['R', 'o', 't', 'a', 't', 'i', 'o', 'n']
}

pub open spec fn name_scalar() -> Seq<char> {
    seq!['S', 'c', 'a', 'l', 'a', 'r']
}

/// The names of the legacy motor kinds.
pub open spec fn name_vibration() -> Seq<char> {
    seq!['V', 'i', 'b', 'r', 'a', 't', 'i', 'o', 'n']
}

pub open spec fn name_contraction() -> Seq<char> {
    seq!['C', 'o', 'n', 't', 'r', 'a', 'c', 't', 'i', 'o', 'n']
}

/// The name of an actuator type in the durable format.
pub open spec fn spec_actuator_name(a: crate::configuration_v3::ActuatorType) -> Seq<char> {
    match a {
        crate::configuration_v3::ActuatorType::Vibrate => seq!['V', 'i', 'b', 'r', 'a', 't', 'e'],
        crate::configuration_v3::ActuatorType::Rotate => seq!['R', 'o', 't', 'a', 't', 'e'],
        crate::configuration_v3::ActuatorType::Oscillate => seq![
            'O',
            's',
            'c',
            'i',
            'l',
            'l',
            'a',
            't',
            'e',
        ],
        crate::configuration_v3::ActuatorType::Constrict => seq![
            'C',
            'o',
            'n',
            's',
            't',
            'r',
            'i',
            'c',
            't',
        ],
        crate::configuration_v3::ActuatorType::Inflate => seq!['I', 'n', 'f', 'l', 'a', 't', 'e'],
        crate::configuration_v3::ActuatorType::Position => seq![
            'P',
            'o',
            's',
            'i',
            't',
            'i',
            'o',
            'n',
        ],
        crate::configuration_v3::ActuatorType::Unknown => seq!['U', 'n', 'k', 'n', 'o', 'w', 'n'],
    }
}

/// The actuator type a name denotes, if any.
pub open spec fn spec_actuator_of_name(s: Seq<char>) -> Option<
    crate::configuration_v3::ActuatorType,
> {
    if s == spec_actuator_name(crate::configuration_v3::ActuatorType::Vibrate) {
        Some(crate::configuration_v3::ActuatorType::Vibrate)
    } else if s == spec_actuator_name(crate::configuration_v3::ActuatorType::Rotate) {
        Some(crate::configuration_v3::ActuatorType::Rotate)
    } else if s == spec_actuator_name(crate::configuration_v3::ActuatorType::Oscillate) {
        Some(crate::configuration_v3::ActuatorType::Oscillate)
    } else if s == spec_actuator_name(crate::configuration_v3::ActuatorType::Constrict) {
        Some(crate::configuration_v3::ActuatorType::Constrict)
    } else if s == spec_actuator_name(crate::configuration_v3::ActuatorType::Inflate) {
        Some(crate::configuration_v3::ActuatorType::Inflate)
    } else if s == spec_actuator_name(crate::configuration_v3::ActuatorType::Position) {
        Some(crate::configuration_v3::ActuatorType::Position)
    } else if s == spec_actuator_name(crate::configuration_v3::ActuatorType::Unknown) {
        Some(crate::configuration_v3::ActuatorType::Unknown)
    } else {
        None
    }
}

/// Does an association sequence already bind this key?
pub open spec fn spec_has_key<V>(s: Seq<(Seq<char>, V)>, k: Seq<char>) -> bool {
    exists|i: int| 0 <= i < s.len() && (#[trigger] s[i]).0 == k
}

/// Parse one tag section body of the current schema, starting at line `k`:
/// `device_name`, an optional `device_identifier`, `feature_index`,
/// `feature_type`, and for scalar motors `actuator_type`, in this order.
/// Yields the motor and the index of the first line after the body.
/// The feature kind read at line `k` of a tag section body, and the index
/// of the first line after it: either the flat `feature_type = "…"`
/// assignment the canonical encoder writes, or the nested
/// `[tags.<tag>.feature_type]` table with a `type` assignment, as a general
/// TOML serializer writes an internally tagged kind. Scalar kinds read the
/// `actuator_type` assignment that follows.
pub open spec fn spec_parse_kind_v3(lines: Seq<Seq<char>>, k: int, tag: Seq<char>) -> Option<
    (crate::configuration_v3::MotorTypeV3, int),
> {
    if !(0 <= k < lines.len()) {
        None
    } else {
        match spec_parse_line(lines[k]) {
            Some(LineView::AssignStr(kt, t)) => if kt == key_feature_type() {
                spec_parse_kind_names(lines, k, t)
            } else {
                None
            },
            Some(LineView::Subsection(t2)) => if t2 == tag && k + 1 < lines.len() {
                match spec_parse_line(lines[k + 1]) {
                    Some(LineView::AssignStr(ktype, t)) => if ktype == key_type() {
                        spec_parse_kind_names(lines, k + 1, t)
                    } else {
                        None
                    },
                    _ => None,
                }
            } else {
                None
            },
            _ => None,
        }
    }
}

/// The kind a name at line `k` denotes, and the index of the first line
/// after the kind: scalar kinds consume the `actuator_type` assignment on
/// the next line.
pub open spec fn spec_parse_kind_names(lines: Seq<Seq<char>>, k: int, t: Seq<char>) -> Option<
    (crate::configuration_v3::MotorTypeV3, int),
> {
    if t == name_linear() {
        Some((crate::configuration_v3::MotorTypeV3::Linear, k + 1))
    } else if t == name_rotation() {
        Some((crate::configuration_v3::MotorTypeV3::Rotation, k + 1))
    } else if t == name_scalar() {
        if k + 1 < lines.len() {
            match spec_parse_line(lines[k + 1]) {
                Some(LineView::AssignStr(ka, a)) => if ka == key_actuator_type() {
                    match spec_actuator_of_name(a) {
                        Some(act) => Some(
                            (
                                crate::configuration_v3::MotorTypeV3::Scalar {
                                    actuator_type: act,
                                },
                                k + 2,
                            ),
                        ),
                        None => None,
                    }
                } else {
                    None
                },
                _ => None,
            }
        } else {
            None
        }
    } else {
        None
    }
}

/// Parse one tag section body of the current schema, starting at line `k`:
/// `device_name`, an optional `device_identifier`, `feature_index`, then
/// the feature kind in either of its two written forms, in this order.
/// Yields the motor and the index of the first line after the body.
pub open spec fn spec_parse_block_v3(lines: Seq<Seq<char>>, k: int, tag: Seq<char>) -> Option<
    (crate::configuration_v3::MotorV3View, int),
> {
    if !(0 <= k < lines.len()) {
        None
    } else {
        match spec_parse_line(lines[k]) {
            Some(LineView::AssignStr(kn, name)) => if kn == key_device_name() {
                let parsed_ident = if k + 1 < lines.len() {
                    match spec_parse_line(lines[k + 1]) {
                        Some(LineView::AssignStr(ki, idv)) => if ki == key_device_identifier() {
                            Some(idv)
                        } else {
                            None
                        },
                        _ => None,
                    }
                } else {
                    None
                };
                let ident = parsed_ident;
                let k1 = if parsed_ident is Some {
                    k + 2
                } else {
                    k + 1
                };
                if !(0 <= k1 < lines.len()) {
                    None
                } else {
                    match spec_parse_line(lines[k1]) {
                        Some(LineView::AssignInt(kf, n)) => if kf == key_feature_index() && 0 <= n
                            <= u32::MAX as int {
                            match spec_parse_kind_v3(lines, k1 + 1, tag) {
                                Some((ft, k2)) => Some(
                                    (
                                        crate::configuration_v3::MotorV3View {
                                            device_name: name,
                                            device_identifier: ident,
                                            feature_index: n as u32,
                                            feature_type: ft,
                                        },
                                        k2,
                                    ),
                                ),
                                None => None,
                            }
                        } else {
                            None
                        },
                        _ => None,
                    }
                }
            } else {
                None
            },
            _ => None,
        }
    }
}

/// Parse the tag sections of the current schema from line `k` on.
pub open spec fn spec_parse_entries_v3(
    lines: Seq<Seq<char>>,
    k: int,
    acc: Seq<(Seq<char>, crate::configuration_v3::MotorV3View)>,
) -> Option<Seq<(Seq<char>, crate::configuration_v3::MotorV3View)>>
    decreases lines.len() - k,
{
    if k >= lines.len() {
        Some(acc)
    } else {
        match spec_parse_line(lines[k]) {
            Some(LineView::Section(tag)) => {
                if spec_has_key(acc, tag) {
                    None
                } else {
                    match spec_parse_block_v3(lines, k + 1, tag) {
                        Some((motor, k2)) => if k < k2 <= lines.len() {
                            spec_parse_entries_v3(lines, k2, acc + seq![(tag, motor)])
                        } else {
                            None
                        },
                        None => None,
                    }
                }
            },
            _ => None,
        }
    }
}

/// What parsing a stored file under the current schema yields: an optional
/// `version` line (defaulting to 1), a `port` line, then the tag sections.
pub open spec fn spec_parse_v3(text: Seq<char>) -> Option<
    crate::configuration_v3::ConfigV3View,
> {
    let lines = content_lines(text);
    let with_version = lines.len() > 0 && (match spec_parse_line(lines[0]) {
        Some(LineView::AssignInt(k, v)) => k == key_version(),
        _ => false,
    });
    let version = if with_version {
        match spec_parse_line(lines[0]) {
            Some(LineView::AssignInt(k, v)) => v,
            _ => 1,
        }
    } else {
        1
    };
    let k0 = if with_version {
        1int
    } else {
        0int
    };
    if !(i32::MIN <= version <= i32::MAX) {
        None
    } else if k0 < lines.len() && (match spec_parse_line(lines[k0]) {
        Some(LineView::AssignInt(k, p)) => k == key_port() && 0 <= p <= u16::MAX as int,
        _ => false,
    }) {
        let port = match spec_parse_line(lines[k0]) {
            Some(LineView::AssignInt(k, p)) => p,
            _ => 0,
        };
        let k1 = if k0 + 1 < lines.len() && (match spec_parse_line(lines[k0 + 1]) {
            Some(LineView::TagsRoot) => true,
            _ => false,
        }) {
            k0 + 2
        } else {
            k0 + 1
        };
        match spec_parse_entries_v3(lines, k1, Seq::empty()) {
            Some(tags) => Some(
                crate::configuration_v3::ConfigV3View { version, port: port as u16, tags },
            ),
            None => None,
        }
    } else {
        None
    }
}

/// Parse one tag section body of the legacy schema, starting at line `k`:
/// `device_name`, `feature_type` with a legacy kind name, `feature_index`.
pub open spec fn spec_parse_block_v2(lines: Seq<Seq<char>>, k: int) -> Option<
    (crate::configuration_v2::MotorV2View, int),
> {
    if !(0 <= k && k + 2 < lines.len()) {
        None
    } else {
        match (
            spec_parse_line(lines[k]),
            spec_parse_line(lines[k + 1]),
            spec_parse_line(lines[k + 2]),
        ) {
            (
                Some(LineView::AssignStr(kn, name)),
                Some(LineView::AssignStr(kt, t)),
                Some(LineView::AssignInt(kf, n)),
            ) => {
                if kn == key_device_name() && kt == key_feature_type() && kf == key_feature_index()
                    && 0 <= n <= u32::MAX as int {
                    let kind = if t == name_linear() {
                        Some(crate::configuration_v2::MotorTypeV2::Linear)
                    } else if t == name_rotation() {
                        Some(crate::configuration_v2::MotorTypeV2::Rotation)
                    } else if t == name_vibration() {
                        Some(crate::configuration_v2::MotorTypeV2::Vibration)
                    } else if t == name_contraction() {
                        Some(crate::configuration_v2::MotorTypeV2::Contraction)
                    } else {
                        None
                    };
                    match kind {
                        Some(ft) => Some(
                            (
                                crate::configuration_v2::MotorV2View {
                                    device_name: name,
                                    feature_type: ft,
                                    feature_index: n as u32,
                                },
                                k + 3,
                            ),
                        ),
                        None => None,
                    }
                } else {
                    None
                }
            },
            _ => None,
        }
    }
}

/// Parse the tag sections of the legacy schema from line `k` on.
pub open spec fn spec_parse_entries_v2(
    lines: Seq<Seq<char>>,
    k: int,
    acc: Seq<(Seq<char>, crate::configuration_v2::MotorV2View)>,
) -> Option<Seq<(Seq<char>, crate::configuration_v2::MotorV2View)>>
    decreases lines.len() - k,
{
    if k >= lines.len() {
        Some(acc)
    } else {
        match spec_parse_line(lines[k]) {
            Some(LineView::Section(tag)) => {
                if spec_has_key(acc, tag) {
                    None
                } else {
                    match spec_parse_block_v2(lines, k + 1) {
                        Some((motor, k2)) => if k < k2 <= lines.len() {
                            spec_parse_entries_v2(lines, k2, acc + seq![(tag, motor)])
                        } else {
                            None
                        },
                        None => None,
                    }
                }
            },
            _ => None,
        }
    }
}

/// What parsing a stored file under the legacy schema yields.
pub open spec fn spec_parse_v2(text: Seq<char>) -> Option<
    crate::configuration_v2::ConfigV2View,
> {
    let lines = content_lines(text);
    let with_version = lines.len() > 0 && (match spec_parse_line(lines[0]) {
        Some(LineView::AssignInt(k, v)) => k == key_version(),
        _ => false,
    });
    let version = if with_version {
        match spec_parse_line(lines[0]) {
            Some(LineView::AssignInt(k, v)) => v,
            _ => 1,
        }
    } else {
        1
    };
    let k0 = if with_version {
        1int
    } else {
        0int
    };
    if !(i32::MIN <= version <= i32::MAX) {
        None
    } else if k0 < lines.len() && (match spec_parse_line(lines[k0]) {
        Some(LineView::AssignInt(k, p)) => k == key_port() && 0 <= p <= u16::MAX as int,
        _ => false,
    }) {
        let port = match spec_parse_line(lines[k0]) {
            Some(LineView::AssignInt(k, p)) => p,
            _ => 0,
        };
        let k1 = if k0 + 1 < lines.len() && (match spec_parse_line(lines[k0 + 1]) {
            Some(LineView::TagsRoot) => true,
            _ => false,
        }) {
            k0 + 2
        } else {
            k0 + 1
        };
        match spec_parse_entries_v2(lines, k1, Seq::empty()) {
            Some(tags) => Some(
                crate::configuration_v2::ConfigV2View { version, port: port as u16, tags },
            ),
            None => None,
        }
    } else {
        None
    }
}

/// What reading just the version envelope yields: the value of a leading
/// `version` line, 1 when the file starts otherwise or is empty, and
/// nothing when the first line is not even a well-formed line.
pub open spec fn spec_parse_minimal(text: Seq<char>) -> Option<i32> {
    let lines = content_lines(text);
    if lines.len() == 0 {
        Some(1)
    } else {
        match spec_parse_line(lines[0]) {
            Some(LineView::AssignInt(k, v)) => if k == key_version() {
                if i32::MIN <= v <= i32::MAX {
                    Some(v as i32)
                } else {
                    None
                }
            } else {
                Some(1)
            },
            Some(_) => Some(1),
            None => None,
        }
    }
}

/// An assignment line with an integer value.
pub open spec fn int_line(key: Seq<char>, n: int) -> Seq<char> {
    key + seq![' ', '=', ' '] + crate::text::dec_rep_signed(n)
}

/// An assignment line with a quoted string value.
pub open spec fn str_line(key: Seq<char>, s: Seq<char>) -> Seq<char> {
    key + seq![' ', '=', ' ', '"'] + escape(s) + seq!['"']
}

/// A tag section header line.
pub open spec fn section_line(tag: Seq<char>) -> Seq<char> {
    section_prefix() + seq!['"'] + escape(tag) + seq!['"', ']']
}

/// The name of a current motor kind in the durable format.
pub open spec fn spec_kind_name_v3(t: crate::configuration_v3::MotorTypeV3) -> Seq<char> {
    match t {
        crate::configuration_v3::MotorTypeV3::Linear => name_linear(),
        crate::configuration_v3::MotorTypeV3::Rotation => name_rotation(),
        crate::configuration_v3::MotorTypeV3::Scalar { .. } => name_scalar(),
    }
}

/// The lines of one encoded tag section.
pub open spec fn spec_block_lines_v3(
    tag: Seq<char>,
    m: crate::configuration_v3::MotorV3View,
) -> Seq<Seq<char>> {
    seq![section_line(tag), str_line(key_device_name(), m.device_name)] + (match m.device_identifier {
        Some(id) => seq![str_line(key_device_identifier(), id)],
        None => Seq::empty(),
    }) + seq![
        int_line(key_feature_index(), m.feature_index as int),
        str_line(key_feature_type(), spec_kind_name_v3(m.feature_type)),
    ] + (match m.feature_type {
        crate::configuration_v3::MotorTypeV3::Scalar { actuator_type } => seq![
            str_line(key_actuator_type(), spec_actuator_name(actuator_type)),
        ],
        _ => Seq::empty(),
    })
}

/// The lines of all encoded tag sections, in order.
pub open spec fn spec_tags_lines_v3(
    tags: Seq<(Seq<char>, crate::configuration_v3::MotorV3View)>,
) -> Seq<Seq<char>>
    decreases tags.len(),
{
    if tags.len() == 0 {
        Seq::empty()
    } else {
        spec_block_lines_v3(tags[0].0, tags[0].1) + spec_tags_lines_v3(tags.drop_first())
    }
}

/// The lines of an encoded configuration.
pub open spec fn spec_config_lines_v3(c: crate::configuration_v3::ConfigV3View) -> Seq<Seq<char>> {
    seq![int_line(key_version(), c.version), int_line(key_port(), c.port as int)]
        + spec_tags_lines_v3(c.tags)
}

/// Lines joined into a file: every line is newline-terminated.
pub open spec fn join_lines(lines: Seq<Seq<char>>) -> Seq<char>
    decreases lines.len(),
{
    if lines.len() == 0 {
        Seq::empty()
    } else {
        lines[0] + seq!['\n'] + join_lines(lines.drop_first())
    }
}

/// The canonical encoded form of a configuration.
pub open spec fn spec_encode_v3(c: crate::configuration_v3::ConfigV3View) -> Seq<char> {
    join_lines(spec_config_lines_v3(c))
}

/// A line holds no newline.
pub open spec fn newline_free(line: Seq<char>) -> bool {
    forall|i: int| 0 <= i < line.len() ==> #[trigger] line[i] != '\n'
}

/// Splitting a joined file recovers its lines.
pub proof fn lemma_lines_of_join(lines: Seq<Seq<char>>)
    requires
        forall|i: int| 0 <= i < lines.len() ==> newline_free(#[trigger] lines[i]),
    ensures
        lines_of(join_lines(lines)) == lines,
        join_lines(lines).len() == 0 <==> lines.len() == 0,
        lines.len() > 0 ==> join_lines(lines).last() == '\n',
    decreases lines.len(),
{
    if lines.len() > 0 {
        let rest = lines.drop_first();
        assert forall|i: int| 0 <= i < rest.len() implies newline_free(#[trigger] rest[i]) by {
            assert(rest[i] == lines[i + 1]);
        }
        lemma_lines_of_join(rest);
        let t = join_lines(rest);
        assert(newline_free(lines[0]));
        lemma_lines_cons(lines[0], t);
        assert(lines_of(lines[0] + seq!['\n'] + t) =~~= seq![lines[0]] + lines_of(t));
        assert(seq![lines[0]] + rest =~~= lines);
        let j = join_lines(lines);
        assert(j == lines[0] + seq!['\n'] + t);
        if t.len() == 0 {
            assert(j.last() == '\n');
        } else {
            assert(j.last() == t.last());
        }
    }
}

/// Are all characters of the key legal key characters?
pub open spec fn valid_key(key: Seq<char>) -> bool {
    key.len() > 0 && (forall|j: int| 0 <= j < key.len() ==> is_key_char(#[trigger] key[j]))
}

/// An encoded integer line parses back to its key and value.
pub proof fn lemma_parse_int_line(key: Seq<char>, n: int)
    requires
        valid_key(key),
        -(i64::MAX as int) <= n <= i64::MAX as int,
    ensures
        spec_parse_line(int_line(key, n)) == Some(LineView::AssignInt(key, n)),
        newline_free(int_line(key, n)),
        int_line(key, n).len() > 0,
{
    let line = int_line(key, n);
    let mag: nat = if n < 0 {
        (-n) as nat
    } else {
        n as nat
    };
    crate::text::lemma_dec_rep_val(mag);
    let dec = crate::text::dec_rep_signed(n);
    assert forall|i: int| 0 <= i < line.len() implies #[trigger] line[i] != '\n' by {
        if i < key.len() {
            assert(line[i] == key[i]);
            assert(is_key_char(key[i]));
        } else if i < key.len() + 3 {
            assert(line[i] == seq![' ', '=', ' '][i - key.len()]);
        } else {
            assert(line[i] == dec[i - key.len() - 3]);
            if n < 0 && i == key.len() + 3 {
                assert(dec[0] == '-');
            } else {
                let dd = crate::text::dec_rep(mag);
                if n < 0 {
                    assert(dec[i - key.len() - 3] == dd[i - key.len() - 4]);
                    assert(is_dec_digit(dd[i - key.len() - 4]));
                } else {
                    assert(is_dec_digit(dd[i - key.len() - 3]));
                }
            }
        }
    }
    // not a bracketed line
    assert(line[0] == key[0]);
    assert(is_key_char(key[0]));
    assert(line[0] != '[');
    // the first space ends the key
    lemma_find_space(line);
    assert(line[key.len() as int] == ' ');
    assert forall|j: int| 0 <= j < key.len() implies line[j] != ' ' by {
        assert(line[j] == key[j]);
        assert(is_key_char(key[j]));
    }
    match find_space(line) {
        None => {
            assert(false);
        },
        Some(i) => {
            if i < key.len() {
                assert(line[i] != ' ');
                assert(false);
            }
            if i > key.len() {
                assert(line[key.len() as int] != ' ');
                assert(false);
            }
            assert(i == key.len());
            assert(line.take(i) =~= key);
            assert(line.subrange(i, i + 3) =~= seq![' ', '=', ' ']);
            let value = line.skip(i + 3);
            assert(value =~= dec);
            if n < 0 {
                assert(value[0] == '-');
                assert(value.drop_first() =~= crate::text::dec_rep(mag));
                assert(spec_parse_int_value(value) == Some(n));
            } else {
                assert(value[0] == crate::text::dec_rep(mag)[0]);
                assert(is_dec_digit(value[0]));
                assert(value[0] != '-');
                assert(value[0] != '"');
                assert(spec_parse_int_value(value) == Some(n));
            }
        },
    }
}

/// An encoded string line parses back to its key and value.
pub proof fn lemma_parse_str_line(key: Seq<char>, s: Seq<char>)
    requires
        valid_key(key),
    ensures
        spec_parse_line(str_line(key, s)) == Some(LineView::AssignStr(key, s)),
        newline_free(str_line(key, s)),
        str_line(key, s).len() > 0,
{
    let line = str_line(key, s);
    lemma_escape_roundtrip(s);
    let e = escape(s);
    assert forall|i: int| 0 <= i < line.len() implies #[trigger] line[i] != '\n' by {
        if i < key.len() {
            assert(line[i] == key[i]);
            assert(is_key_char(key[i]));
        } else if i < key.len() + 4 {
            assert(line[i] == seq![' ', '=', ' ', '"'][i - key.len()]);
        } else if i < key.len() + 4 + e.len() {
            assert(line[i] == e[i - key.len() - 4]);
        } else {
            assert(line[i] == '"');
        }
    }
    assert(line[0] == key[0]);
    assert(is_key_char(key[0]));
    assert(line[0] != '[');
    lemma_find_space(line);
    assert(line[key.len() as int] == ' ');
    assert forall|j: int| 0 <= j < key.len() implies line[j] != ' ' by {
        assert(line[j] == key[j]);
        assert(is_key_char(key[j]));
    }
    match find_space(line) {
        None => {
            assert(false);
        },
        Some(i) => {
            if i < key.len() {
                assert(line[i] != ' ');
                assert(false);
            }
            if i > key.len() {
                assert(line[key.len() as int] != ' ');
                assert(false);
            }
            assert(i == key.len());
            assert(line.take(i) =~= key);
            assert(line.subrange(i, i + 3) =~= seq![' ', '=', ' ']);
            let value = line.skip(i + 3);
            assert(value =~= seq!['"'] + e + seq!['"']);
            assert(value.len() >= 2);
            assert(value[0] == '"');
            assert(value.last() == '"');
            assert(value.subrange(1, value.len() - 1) =~= e);
        },
    }
}

/// An encoded section header parses back to its tag.
pub proof fn lemma_parse_section_line(tag: Seq<char>)
    ensures
        spec_parse_line(section_line(tag)) == Some(LineView::Section(tag)),
        newline_free(section_line(tag)),
        section_line(tag).len() > 0,
{
    let line = section_line(tag);
    lemma_escape_roundtrip(tag);
    let e = escape(tag);
    assert forall|i: int| 0 <= i < line.len() implies #[trigger] line[i] != '\n' by {
        if i < 6 {
            assert(line[i] == section_prefix()[i]);
        } else if i == 6 {
            assert(line[i] == '"');
        } else if i < 7 + e.len() {
            assert(line[i] == e[i - 7]);
        } else {
            assert(line[i] == seq!['"', ']'][i - 7 - e.len()]);
        }
    }
    assert(line.len() >= 9);
    assert(line[0] == '[');
    // not the bare root header: the lengths differ, or the dot does
    assert(line != tags_root_line()) by {
        if line.len() == 6 {
            assert(false);
        }
    }
    assert(line.take(6) =~= section_prefix());
    assert(line.last() == ']');
    let rest = line.subrange(6, line.len() - 1);
    assert(rest =~= seq!['"'] + e + seq!['"']);
    assert(rest.len() >= 2);
    assert(rest[0] == '"');
    assert(rest.last() == '"');
    assert(rest.subrange(1, rest.len() - 1) =~= e);
    assert(spec_parse_section_key(rest) == Some(tag));
}

/// The body of an encoded section (everything after the header line).
pub open spec fn spec_body_lines_v3(m: crate::configuration_v3::MotorV3View) -> Seq<Seq<char>> {
    spec_block_lines_v3(Seq::empty(), m).drop_first()
}

/// The format's keys are well formed.
proof fn lemma_keys_valid()
    ensures
        valid_key(key_version()),
        valid_key(key_port()),
        valid_key(key_device_name()),
        valid_key(key_device_identifier()),
        valid_key(key_feature_index()),
        valid_key(key_feature_type()),
        valid_key(key_actuator_type()),
{
}

/// An encoded section body parses back to its motor.
#[verifier::rlimit(100)]
#[verifier::spinoff_prover]
proof fn lemma_parse_block_v3_encoded(
    lines: Seq<Seq<char>>,
    k: int,
    m: crate::configuration_v3::MotorV3View,
    tag: Seq<char>,
)
    requires
        0 <= k,
        k + spec_body_lines_v3(m).len() <= lines.len(),
        forall|j: int|
            0 <= j < spec_body_lines_v3(m).len() ==> lines[k + j] == #[trigger] spec_body_lines_v3(
                m,
            )[j],
    ensures
        spec_parse_block_v3(lines, k, tag) == Some((m, k + spec_body_lines_v3(m).len())),
{
    lemma_keys_valid();
    let body = spec_body_lines_v3(m);
    let block = spec_block_lines_v3(Seq::empty(), m);
    lemma_parse_str_line(key_device_name(), m.device_name);
    lemma_parse_int_line(key_feature_index(), m.feature_index as int);
    lemma_parse_str_line(key_feature_type(), spec_kind_name_v3(m.feature_type));
    match m.device_identifier {
        Some(id) => {
            lemma_parse_str_line(key_device_identifier(), id);
            assert(body[0] == str_line(key_device_name(), m.device_name));
            assert(body[1] == str_line(key_device_identifier(), id));
            assert(body[2] == int_line(key_feature_index(), m.feature_index as int));
            assert(body[3] == str_line(key_feature_type(), spec_kind_name_v3(m.feature_type)));
            match m.feature_type {
                crate::configuration_v3::MotorTypeV3::Scalar { actuator_type } => {
                    lemma_parse_str_line(key_actuator_type(), spec_actuator_name(actuator_type));
                    assert(body[4] == str_line(
                        key_actuator_type(),
                        spec_actuator_name(actuator_type),
                    ));
                    assert(spec_actuator_of_name(spec_actuator_name(actuator_type))
                        == Some(actuator_type));
                },
                _ => {},
            }
        },
        None => {
            assert(body[0] == str_line(key_device_name(), m.device_name));
            assert(body[1] == int_line(key_feature_index(), m.feature_index as int));
            assert(body[2] == str_line(key_feature_type(), spec_kind_name_v3(m.feature_type)));
            match m.feature_type {
                crate::configuration_v3::MotorTypeV3::Scalar { actuator_type } => {
                    lemma_parse_str_line(key_actuator_type(), spec_actuator_name(actuator_type));
                    assert(body[3] == str_line(
                        key_actuator_type(),
                        spec_actuator_name(actuator_type),
                    ));
                    assert(spec_actuator_of_name(spec_actuator_name(actuator_type))
                        == Some(actuator_type));
                },
                _ => {},
            }
        },
    }
}

/// Every encoded line of the tag sections is newline-free and non-empty.
#[verifier::rlimit(100)]
#[verifier::spinoff_prover]
proof fn lemma_tags_lines_newline_free(tags: Seq<(Seq<char>, crate::configuration_v3::MotorV3View)>)
    ensures
        forall|i: int|
            0 <= i < spec_tags_lines_v3(tags).len() ==> newline_free(
                #[trigger] spec_tags_lines_v3(tags)[i],
            ),
        forall|i: int|
            0 <= i < spec_tags_lines_v3(tags).len() ==> (#[trigger] spec_tags_lines_v3(
                tags,
            )[i]).len() > 0,
    decreases tags.len(),
{
    if tags.len() > 0 {
        lemma_tags_lines_newline_free(tags.drop_first());
        let block = spec_block_lines_v3(tags[0].0, tags[0].1);
        let rest = spec_tags_lines_v3(tags.drop_first());
        lemma_parse_section_line(tags[0].0);
        lemma_parse_str_line(key_device_name(), tags[0].1.device_name);
        lemma_parse_int_line(key_feature_index(), tags[0].1.feature_index as int);
        lemma_parse_str_line(key_feature_type(), spec_kind_name_v3(tags[0].1.feature_type));
        if tags[0].1.device_identifier is Some {
            lemma_parse_str_line(key_device_identifier(), tags[0].1.device_identifier.unwrap());
        }
        match tags[0].1.feature_type {
            crate::configuration_v3::MotorTypeV3::Scalar { actuator_type } => {
                lemma_parse_str_line(key_actuator_type(), spec_actuator_name(actuator_type));
            },
            _ => {},
        }
        lemma_keys_valid();
        assert forall|i: int| 0 <= i < spec_tags_lines_v3(tags).len() implies newline_free(
            #[trigger] spec_tags_lines_v3(tags)[i],
        ) && (#[trigger] spec_tags_lines_v3(tags)[i]).len() > 0 by {
            if i < block.len() {
                assert(spec_tags_lines_v3(tags)[i] == block[i]);
                assert(spec_body_lines_v3(tags[0].1) =~~= spec_block_lines_v3(
                    tags[0].0,
                    tags[0].1,
                ).drop_first());
            } else {
                assert(spec_tags_lines_v3(tags)[i] == rest[i - block.len()]);
            }
        }
    }
}

/// The section header and body of one tag stand at the head of its encoded
/// block.
proof fn lemma_block_shape(tag: Seq<char>, m: crate::configuration_v3::MotorV3View)
    ensures
        spec_block_lines_v3(tag, m).len() == 1 + spec_body_lines_v3(m).len(),
        spec_block_lines_v3(tag, m)[0] == section_line(tag),
        forall|j: int|
            0 <= j < spec_body_lines_v3(m).len() ==> spec_block_lines_v3(tag, m)[1 + j]
                == #[trigger] spec_body_lines_v3(m)[j],
{
    let block = spec_block_lines_v3(tag, m);
    let canon = spec_block_lines_v3(Seq::empty(), m);
    assert(block.len() == canon.len());
    assert forall|j: int| 0 <= j < spec_body_lines_v3(m).len() implies block[1 + j]
        == #[trigger] spec_body_lines_v3(m)[j] by {
        assert(spec_body_lines_v3(m)[j] == canon[1 + j]);
    }
}

/// Encoded tag sections parse back to exactly their entries.
proof fn lemma_parse_entries_v3_encoded(
    lines: Seq<Seq<char>>,
    k: int,
    acc: Seq<(Seq<char>, crate::configuration_v3::MotorV3View)>,
    tags: Seq<(Seq<char>, crate::configuration_v3::MotorV3View)>,
)
    requires
        0 <= k,
        k + spec_tags_lines_v3(tags).len() == lines.len(),
        forall|j: int|
            0 <= j < spec_tags_lines_v3(tags).len() ==> lines[k + j]
                == #[trigger] spec_tags_lines_v3(tags)[j],
        crate::assoc::unique_keys(acc + tags),
    ensures
        spec_parse_entries_v3(lines, k, acc) == Some(acc + tags),
    decreases tags.len(),
{
    if tags.len() == 0 {
        assert(k >= lines.len());
        assert(acc + tags =~= acc);
    } else {
        let tag0 = tags[0].0;
        let m0 = tags[0].1;
        let block = spec_block_lines_v3(tag0, m0);
        let body = spec_body_lines_v3(m0);
        let rest = tags.drop_first();
        let rest_flat = spec_tags_lines_v3(rest);
        lemma_block_shape(tag0, m0);
        assert(lines[k] == spec_tags_lines_v3(tags)[0]);
        assert(spec_tags_lines_v3(tags)[0] == block[0]);
        lemma_parse_section_line(tag0);
        // the tag is not yet bound
        assert(!spec_has_key(acc, tag0)) by {
            if spec_has_key(acc, tag0) {
                let i = choose|i: int| 0 <= i < acc.len() && (#[trigger] acc[i]).0 == tag0;
                assert((acc + tags)[i].0 == tag0);
                assert((acc + tags)[acc.len() as int].0 == tag0);
            }
        }
        // the body parses to the motor
        assert forall|j: int| 0 <= j < body.len() implies lines[k + 1 + j] == #[trigger] body[j] by {
            assert(spec_tags_lines_v3(tags)[1 + j] == block[1 + j]);
            assert(lines[k + 1 + j] == spec_tags_lines_v3(tags)[1 + j]);
        }
        lemma_parse_block_v3_encoded(lines, k + 1, m0, tag0);
        let k2 = k + 1 + body.len();
        assert forall|j: int| 0 <= j < rest_flat.len() implies lines[k2 + j]
            == #[trigger] rest_flat[j] by {
            assert(spec_tags_lines_v3(tags)[block.len() + j] == rest_flat[j]);
            assert(lines[k + block.len() + j] == spec_tags_lines_v3(tags)[block.len() + j]);
        }
        let acc2 = acc + seq![(tag0, m0)];
        assert(acc2 + rest =~= acc + tags);
        lemma_parse_entries_v3_encoded(lines, k2, acc2, rest);
    }
}

/// Round trip: parsing a just-encoded configuration yields exactly the
/// configuration that was encoded, so saving a just-loaded configuration
/// writes byte-identical content.
pub proof fn lemma_config_round_trip(c: crate::configuration_v3::ConfigV3View)
    requires
        crate::assoc::unique_keys(c.tags),
        i32::MIN <= c.version <= i32::MAX,
    ensures
        spec_parse_v3(spec_encode_v3(c)) == Some(c),
{
    lemma_keys_valid();
    let lines = spec_config_lines_v3(c);
    lemma_parse_int_line(key_version(), c.version);
    lemma_parse_int_line(key_port(), c.port as int);
    lemma_tags_lines_newline_free(c.tags);
    assert forall|i: int| 0 <= i < lines.len() implies newline_free(#[trigger] lines[i]) by {
        if i >= 2 {
            assert(lines[i] == spec_tags_lines_v3(c.tags)[i - 2]);
        }
    }
    lemma_lines_of_join(lines);
    assert(lines_of(spec_encode_v3(c)) == lines);
    assert forall|i: int| 0 <= i < lines.len() implies (#[trigger] lines[i]).len() > 0 by {
        if i >= 2 {
            assert(lines[i] == spec_tags_lines_v3(c.tags)[i - 2]);
        }
    }
    lemma_nonblank_identity(lines);
    assert(content_lines(spec_encode_v3(c)) == lines);
    assert(lines[0] == int_line(key_version(), c.version));
    assert(lines[1] == int_line(key_port(), c.port as int));
    assert forall|j: int| 0 <= j < spec_tags_lines_v3(c.tags).len() implies lines[2 + j]
        == #[trigger] spec_tags_lines_v3(c.tags)[j] by {}
    // the canonical form writes no bare root header after the port line
    if 2 < lines.len() {
        assert(lines[2] == spec_tags_lines_v3(c.tags)[0]);
        let tag0 = c.tags[0].0;
        let m0 = c.tags[0].1;
        assert(spec_tags_lines_v3(c.tags)[0] == spec_block_lines_v3(tag0, m0)[0]);
        lemma_block_shape(tag0, m0);
        lemma_parse_section_line(tag0);
        assert(spec_parse_line(lines[2]) == Some(LineView::Section(tag0)));
    }
    assert(Seq::<(Seq<char>, crate::configuration_v3::MotorV3View)>::empty() + c.tags =~= c.tags);
    lemma_parse_entries_v3_encoded(lines, 2, Seq::empty(), c.tags);
}

/// Appending one character to the input appends its escaped form.
proof fn lemma_escape_snoc(a: Seq<char>, c: char)
    ensures
        escape(a + seq![c]) == escape(a) + esc_char(c),
    decreases a.len(),
{
    if a.len() == 0 {
        let t = a + seq![c];
        assert(t.len() == 1);
        assert(t[0] == c);
        assert(t.drop_first() =~= Seq::<char>::empty());
        assert(escape(Seq::<char>::empty()) =~= Seq::<char>::empty());
        assert(escape(t) == esc_char(c) + escape(t.drop_first()));
        assert(escape(t) =~= esc_char(c));
        assert(escape(a) =~= Seq::<char>::empty());
        assert(escape(a) + esc_char(c) =~= esc_char(c));
    } else {
        let t = a + seq![c];
        assert(t[0] == a[0]);
        assert(t.drop_first() =~= a.drop_first() + seq![c]);
        lemma_escape_snoc(a.drop_first(), c);
        assert(escape(t) =~= escape(a) + esc_char(c));
    }
}

/// Append the escaped form of a string.
fn append_escaped(out: &mut Vec<char>, s: &[char])
    ensures
        final(out)@ == old(out)@ + escape(s@),
{
    let ghost base = out@;
    let mut i: usize = 0;
    proof {
        assert(s@.take(0).len() == 0);
        assert(out@ =~= base + escape(s@.take(0)));
    }
    while i < s.len()
        invariant
            i <= s@.len(),
            out@ == base + escape(s@.take(i as int)),
        decreases s@.len() - i,
    {
        let c: char = s[i];
        proof {
            assert(s@.take(i as int) + seq![c] =~= s@.take(i as int + 1));
            lemma_escape_snoc(s@.take(i as int), c);
        }
        if c == '"' {
            out.push('\\');
            out.push('"');
        } else if c == '\\' {
            out.push('\\');
            out.push('\\');
        } else if c == '\n' {
            out.push('\\');
            out.push('n');
        } else if c == '\r' {
            out.push('\\');
            out.push('r');
        } else {
            out.push(c);
        }
        i = i + 1;
        proof {
            assert(out@ =~= base + escape(s@.take(i as int)));
        }
    }
    proof {
        assert(s@.take(s@.len() as int) =~= s@);
    }
}

/// Append a plain run of characters.
pub fn append_chars(out: &mut Vec<char>, s: &[char])
    ensures
        final(out)@ == old(out)@ + s@,
{
    let ghost base = out@;
    let mut i: usize = 0;
    while i < s.len()
        invariant
            i <= s@.len(),
            out@ == base + s@.take(i as int),
        decreases s@.len() - i,
    {
        out.push(s[i]);
        i = i + 1;
        proof {
            assert(out@ =~= base + s@.take(i as int));
        }
    }
    proof {
        assert(s@.take(s@.len() as int) =~= s@);
    }
}

/// Undo escaping over `v[from..to)`.
fn unescape_chars(v: &[char], from: usize, to: usize) -> (r: Option<Vec<char>>)
    requires
        from <= to <= v@.len(),
    ensures
        match unescape(v@.subrange(from as int, to as int)) {
            None => r is None,
            Some(s) => match r {
                Some(out) => out@ == s,
                None => false,
            },
        },
{
    let mut out: Vec<char> = Vec::new();
    let mut i: usize = from;
    proof {
        assert(v@.subrange(from as int, to as int).skip(0) =~= v@.subrange(from as int, to as int));
    }
    while i < to
        invariant
            from <= i <= to <= v@.len(),
            ({
                let whole = v@.subrange(from as int, to as int);
                let rem = whole.skip(i - from);
                match unescape(rem) {
                    Some(rest) => unescape(whole) == Some(out@ + rest),
                    None => unescape(whole) is None,
                }
            }),
        decreases to - i,
    {
        let ghost whole = v@.subrange(from as int, to as int);
        let ghost rem = whole.skip(i - from);
        let c: char = v[i];
        proof {
            assert(rem[0] == c);
        }
        if c == '\\' {
            if i + 1 >= to {
                proof {
                    assert(rem.len() == 1);
                }
                return None;
            }
            let d: char = v[i + 1];
            proof {
                assert(rem[1] == d);
                assert(rem.skip(2) =~= whole.skip(i - from + 2));
            }
            if d == '"' {
                out.push('"');
            } else if d == '\\' {
                out.push('\\');
            } else if d == 'n' {
                out.push('\n');
            } else if d == 'r' {
                out.push('\r');
            } else {
                return None;
            }
            i = i + 2;
            proof {
                assert(out@.drop_last() + seq![out@.last()] =~= out@);
                match unescape(whole.skip(i - from)) {
                    Some(rest) => {
                        assert(unescape(rem) == Some(seq![out@.last()] + rest));
                        assert(out@.drop_last() + (seq![out@.last()] + rest) =~= out@ + rest);
                    },
                    None => {},
                }
            }
        } else if c == '"' || c == '\n' || c == '\r' {
            return None;
        } else {
            out.push(c);
            i = i + 1;
            proof {
                assert(rem.drop_first() =~= whole.skip(i - from));
                assert(out@.drop_last() + seq![out@.last()] =~= out@);
                match unescape(whole.skip(i - from)) {
                    Some(rest) => {
                        assert(unescape(rem) == Some(seq![c] + rest));
                        assert(out@.drop_last() + (seq![c] + rest) =~= out@ + rest);
                    },
                    None => {},
                }
            }
        }
    }
    proof {
        let whole = v@.subrange(from as int, to as int);
        assert(whole.skip(to - from).len() == 0);
        assert(unescape(whole.skip(to - from)) == Some(Seq::<char>::empty()));
        assert(out@ + Seq::<char>::empty() =~= out@);
    }
    Some(out)
}

/// One parsed line, over plain values.
pub enum ParsedLine {
    Section(Vec<char>),
    Subsection(Vec<char>),
    TagsRoot,
    AssignInt(Vec<char>, i64),
    AssignStr(Vec<char>, Vec<char>),
}

impl View for ParsedLine {
    type V = LineView;

    open spec fn view(&self) -> LineView {
        match self {
            ParsedLine::Section(t) => LineView::Section(t@),
            ParsedLine::Subsection(t) => LineView::Subsection(t@),
            ParsedLine::TagsRoot => LineView::TagsRoot,
            ParsedLine::AssignInt(k, n) => LineView::AssignInt(k@, *n as int),
            ParsedLine::AssignStr(k, v) => LineView::AssignStr(k@, v@),
        }
    }
}

/// Parse the digits of a signed decimal value within the `i64` range.
fn parse_digits_i64(v: &[char], from: usize, to: usize) -> (r: Option<i64>)
    requires
        from <= to <= v@.len(),
    ensures
        ({
            let d = v@.subrange(from as int, to as int);
            if d.len() > 0 && all_dec_digits(d) && digits_val(d) <= i64::MAX as nat {
                match r {
                    Some(n) => n >= 0 && n as nat == digits_val(d),
                    None => false,
                }
            } else {
                r is None
            }
        }),
{
    let ghost d = v@.subrange(from as int, to as int);
    if from == to {
        return None;
    }
    let mut val: u64 = 0;
    let mut i: usize = from;
    while i < to
        invariant
            from <= i <= to <= v@.len(),
            from < to,
            d == v@.subrange(from as int, to as int),
            all_dec_digits(d.take(i - from)),
            val as nat == digits_val(d.take(i - from)),
            val <= i64::MAX as u64,
        decreases to - i,
    {
        let c: char = v[i];
        proof {
            assert(d[i - from] == c);
        }
        if !('0' <= c && c <= '9') {
            proof {
                assert(!is_dec_digit(c));
                assert(!all_dec_digits(d));
            }
            return None;
        }
        let dig: u64 = ((c as u32) - 48) as u64;
        let ghost pre = d.take(i - from);
        let ghost post = d.take(i - from + 1);
        proof {
            assert(post.drop_last() =~= pre);
            assert(post.last() == c);
            assert(digits_val(post) == digits_val(pre) * 10 + digit_val(c));
            assert(dig as nat == digit_val(c));
        }
        if val > 922337203685477580 || (val == 922337203685477580 && dig > 7) {
            proof {
                assert(digits_val(post) > i64::MAX as nat);
                crate::text::lemma_digits_val_prefix_monotone(d, i - from + 1);
            }
            return None;
        }
        val = val * 10 + dig;
        i = i + 1;
    }
    proof {
        assert(d.take(to - from) =~= d);
    }
    Some(val as i64)
}

/// Parse a section key: a quoted, escaped form or a bare name.
fn parse_section_key(v: &[char], from: usize, to: usize) -> (r: Option<Vec<char>>)
    requires
        from <= to <= v@.len(),
    ensures
        match spec_parse_section_key(v@.subrange(from as int, to as int)) {
            None => r is None,
            Some(t) => match r {
                Some(out) => out@ == t,
                None => false,
            },
        },
{
    let ghost k = v@.subrange(from as int, to as int);
    if to - from >= 2 && v[from] == '"' {
        proof {
            assert(k[0] == '"');
        }
        if v[to - 1] == '"' {
            proof {
                assert(k.last() == '"');
                assert(k.subrange(1, k.len() - 1) =~= v@.subrange(from as int + 1, to as int - 1));
            }
            unescape_chars(v, from + 1, to - 1)
        } else {
            proof {
                assert(k.last() == v@[to as int - 1]);
            }
            None
        }
    } else {
        proof {
            if k.len() >= 2 && k[0] == '"' {
                assert(v@[from as int] == k[0]);
                assert(false);
            }
        }
        if to == from {
            return None;
        }
        let mut i: usize = from;
        while i < to
            invariant
                from <= i <= to <= v@.len(),
                from < to,
                k == v@.subrange(from as int, to as int),
                !(k.len() >= 2 && k[0] == '"'),
                forall|j: int| 0 <= j < i - from ==> is_bare_key_char(#[trigger] k[j]),
            decreases to - i,
        {
            let c: char = v[i];
            proof {
                assert(k[i - from] == c);
            }
            if !(('a' <= c && c <= 'z') || ('A' <= c && c <= 'Z') || ('0' <= c && c <= '9') || c
                == '_' || c == '-') {
                proof {
                    assert(!is_bare_key_char(k[i - from]));
                }
                return None;
            }
            i = i + 1;
        }
        Some(crate::text::copy_range(v, from, to))
    }
}

/// Parse a bracketed line: the `[tags]` root, a tag section header, or a
/// section's nested feature-kind table header.
#[verifier::rlimit(100)]
#[verifier::spinoff_prover]
fn parse_bracket_line(line: &[char]) -> (r: Option<ParsedLine>)
    requires
        line@.len() > 0,
        line@[0] == '[',
    ensures
        match spec_parse_bracket_line(line@) {
            None => r is None,
            Some(lv) => match r {
                Some(p) => p@ == lv,
                None => false,
            },
        },
{
    let n: usize = line.len();
    // the bare root header written for an empty tag table
    if n == 6 && line[1] == 't' && line[2] == 'a' && line[3] == 'g' && line[4] == 's' && line[5]
        == ']' {
        proof {
            assert(line@ =~= tags_root_line());
        }
        return Some(ParsedLine::TagsRoot);
    }
    proof {
        if line@ == tags_root_line() {
            assert(line@.len() == 6);
            assert(line@[1] == 't');
            assert(line@[2] == 'a');
            assert(line@[3] == 'g');
            assert(line@[4] == 's');
            assert(line@[5] == ']');
            assert(false);
        }
    }
    if !(n >= 8 && line[1] == 't' && line[2] == 'a' && line[3] == 'g' && line[4] == 's' && line[5]
        == '.' && line[n - 1] == ']') {
        proof {
            if line@.len() >= 8 && line@.take(6) == section_prefix() && line@.last() == ']' {
                assert(line@.take(6)[1] == line@[1]);
                assert(line@.take(6)[2] == line@[2]);
                assert(line@.take(6)[3] == line@[3]);
                assert(line@.take(6)[4] == line@[4]);
                assert(line@.take(6)[5] == line@[5]);
                assert(false);
            }
        }
        return None;
    }
    proof {
        assert(line@.take(6) =~= section_prefix());
        assert(line@.last() == ']');
    }
    let ghost rest = line@.subrange(6, n as int - 1);
    match parse_section_key(line, 6, n - 1) {
        Some(tag) => Some(ParsedLine::Section(tag)),
        None => {
            proof {
                assert(feature_type_suffix().len() == 13);
            }
            if n - 7 <= 13 {
                proof {
                    assert(rest.len() <= feature_type_suffix().len());
                }
                return None;
            }
            let sfrom: usize = n - 14;
            let ok: bool = line[sfrom] == '.' && line[sfrom + 1] == 'f' && line[sfrom + 2] == 'e'
                && line[sfrom + 3] == 'a' && line[sfrom + 4] == 't' && line[sfrom + 5] == 'u'
                && line[sfrom + 6] == 'r' && line[sfrom + 7] == 'e' && line[sfrom + 8] == '_'
                && line[sfrom + 9] == 't' && line[sfrom + 10] == 'y' && line[sfrom + 11] == 'p'
                && line[sfrom + 12] == 'e';
            proof {
                assert forall|j: int| 0 <= j < 13 implies #[trigger] rest.skip(rest.len() - 13)[j]
                    == line@[sfrom + j] by {
                    assert(rest.skip(rest.len() - 13)[j] == rest[rest.len() - 13 + j]);
                    assert(rest[rest.len() - 13 + j] == line@[6 + rest.len() - 13 + j]);
                }
            }
            if !ok {
                proof {
                    if rest.skip(rest.len() - 13) == feature_type_suffix() {
                        assert(line@[sfrom as int] == feature_type_suffix()[0]);
                        assert(line@[sfrom as int + 1] == feature_type_suffix()[1]);
                        assert(line@[sfrom as int + 2] == feature_type_suffix()[2]);
                        assert(line@[sfrom as int + 3] == feature_type_suffix()[3]);
                        assert(line@[sfrom as int + 4] == feature_type_suffix()[4]);
                        assert(line@[sfrom as int + 5] == feature_type_suffix()[5]);
                        assert(line@[sfrom as int + 6] == feature_type_suffix()[6]);
                        assert(line@[sfrom as int + 7] == feature_type_suffix()[7]);
                        assert(line@[sfrom as int + 8] == feature_type_suffix()[8]);
                        assert(line@[sfrom as int + 9] == feature_type_suffix()[9]);
                        assert(line@[sfrom as int + 10] == feature_type_suffix()[10]);
                        assert(line@[sfrom as int + 11] == feature_type_suffix()[11]);
                        assert(line@[sfrom as int + 12] == feature_type_suffix()[12]);
                        assert(false);
                    }
                }
                return None;
            }
            proof {
                assert(rest.skip(rest.len() - 13) =~= feature_type_suffix());
                assert(rest.take(rest.len() - 13) =~= line@.subrange(6, sfrom as int));
            }
            match parse_section_key(line, 6, sfrom) {
                Some(tag) => Some(ParsedLine::Subsection(tag)),
                None => None,
            }
        },
    }
}

/// Parse one line of the durable format.
#[verifier::rlimit(100)]
#[verifier::spinoff_prover]
pub fn parse_line_chars(line: &[char]) -> (r: Option<ParsedLine>)
    ensures
        match spec_parse_line(line@) {
            None => r is None,
            Some(lv) => match r {
                Some(p) => p@ == lv,
                None => false,
            },
        },
{
    let n: usize = line.len();
    // bracketed lines: the `[tags]` root, section headers, nested kind tables
    if n > 0 && line[0] == '[' {
        return parse_bracket_line(line);
    }
    // assignment: find the first space
    let mut i: usize = 0;
    while i < n && line[i] != ' '
        invariant
            i <= n,
            n == line@.len(),
            forall|j: int| 0 <= j < i ==> line@[j] != ' ',
        decreases n - i,
    {
        i = i + 1;
    }
    proof {
        lemma_find_space(line@);
        let fs = find_space(line@);
        if i < n {
            if fs is None {
                assert(false);
            } else {
                let k = fs.unwrap();
                if k < i {
                    assert(line@[k] != ' ');
                    assert(false);
                } else if k > i {
                    assert(false);
                }
            }
        } else {
            if fs is Some {
                let k = fs.unwrap();
                assert(line@[k] != ' ');
                assert(false);
            }
        }
    }
    if i >= n {
        return None;
    }
    // key
    if i == 0 {
        return None;
    }
    proof {
        assert(find_space(line@) == Some(i as int));
        assert(!(line@.len() >= 9 && line@.take(7) == section_prefix()));
        assert(!(line@.len() > 0 && line@[0] == '['));
    }
    let mut kj: usize = 0;
    while kj < i
        invariant
            kj <= i < n,
            n == line@.len(),
            find_space(line@) == Some(i as int),
            !(line@.len() >= 9 && line@.take(7) == section_prefix()),
            !(line@.len() > 0 && line@[0] == '['),
            forall|j: int| 0 <= j < kj ==> is_key_char(#[trigger] line@.take(i as int)[j]),
        decreases i - kj,
    {
        let c: char = line[kj];
        proof {
            assert(line@.take(i as int)[kj as int] == c);
        }
        if !(('a' <= c && c <= 'z') || c == '_') {
            proof {
                assert(!is_key_char(line@.take(i as int)[kj as int]));
            }
            return None;
        }
        kj = kj + 1;
    }
    // " = "
    if n - i < 3 {
        proof {
            assert(!(line@.len() >= i + 3));
        }
        return None;
    }
    if !(line[i + 1] == '=' && line[i + 2] == ' ') {
        proof {
            assert(line@.subrange(i as int, i as int + 3)[1] == line@[i + 1]);
            assert(line@.subrange(i as int, i as int + 3)[2] == line@[i + 2]);
            assert(line@.subrange(i as int, i as int + 3) != seq![' ', '=', ' ']);
        }
        return None;
    }
    proof {
        assert(line@.subrange(i as int, i as int + 3) =~= seq![' ', '=', ' ']);
    }
    let key = crate::text::copy_range(line, 0, i);
    proof {
        assert(key@ =~= line@.take(i as int));
    }
    let vfrom: usize = i + 3;
    let ghost value = line@.skip(i as int + 3);
    proof {
        assert(value =~= line@.subrange(vfrom as int, n as int));
    }
    if n - vfrom >= 2 && line[vfrom] == '"' {
        proof {
            assert(value[0] == '"');
        }
        if line[n - 1] == '"' {
            proof {
                assert(value.last() == '"');
                assert(value.subrange(1, value.len() - 1) =~= line@.subrange(
                    vfrom as int + 1,
                    n as int - 1,
                ));
            }
            return match unescape_chars(line, vfrom + 1, n - 1) {
                Some(s) => Some(ParsedLine::AssignStr(key, s)),
                None => None,
            };
        } else {
            proof {
                assert(value.last() == line@[n - 1]);
            }
            return None;
        }
    }
    // integer value
    proof {
        if value.len() >= 2 && value[0] == '"' {
            assert(line@[vfrom as int] == value[0]);
            assert(false);
        }
    }
    let neg: bool = vfrom < n && line[vfrom] == '-';
    let dfrom: usize = if neg {
        vfrom + 1
    } else {
        vfrom
    };
    proof {
        assert(vfrom < n ==> value[0] == line@[vfrom as int]);
        if neg {
            assert(value.drop_first() =~= line@.subrange(dfrom as int, n as int));
        } else {
            assert(value =~= line@.subrange(dfrom as int, n as int));
        }
    }
    match parse_digits_i64(line, dfrom, n) {
        Some(mag) => {
            if neg {
                Some(ParsedLine::AssignInt(key, -mag))
            } else {
                Some(ParsedLine::AssignInt(key, mag))
            }
        },
        None => None,
    }
}

/// Build an integer assignment line.
fn make_int_line(key: &[char], n: i64) -> (r: Vec<char>)
    ensures
        r@ == int_line(key@, n as int),
{
    let mut out: Vec<char> = Vec::new();
    append_chars(&mut out, key);
    out.push(' ');
    out.push('=');
    out.push(' ');
    let digits = crate::text::i64_dec_chars(n);
    append_chars(&mut out, digits.as_slice());
    proof {
        assert(out@ =~= int_line(key@, n as int));
    }
    out
}

/// Build a string assignment line.
fn make_str_line(key: &[char], value: &str) -> (r: Vec<char>)
    ensures
        r@ == str_line(key@, value@),
{
    let mut out: Vec<char> = Vec::new();
    append_chars(&mut out, key);
    out.push(' ');
    out.push('=');
    out.push(' ');
    out.push('"');
    let vchars = crate::text::chars_of(value);
    append_escaped(&mut out, vchars.as_slice());
    out.push('"');
    proof {
        assert(out@ =~= str_line(key@, value@));
    }
    out
}

/// Build a tag section header line.
fn make_section_line(tag: &str) -> (r: Vec<char>)
    ensures
        r@ == section_line(tag@),
{
    let mut out: Vec<char> = Vec::new();
    out.push('[');
    out.push('t');
    out.push('a');
    out.push('g');
    out.push('s');
    out.push('.');
    out.push('"');
    let tchars = crate::text::chars_of(tag);
    append_escaped(&mut out, tchars.as_slice());
    out.push('"');
    out.push(']');
    proof {
        assert(out@ =~= section_line(tag@));
    }
    out
}

/// Joining distributes over concatenation of line lists.
proof fn lemma_join_append(a: Seq<Seq<char>>, b: Seq<Seq<char>>)
    ensures
        join_lines(a + b) == join_lines(a) + join_lines(b),
    decreases a.len(),
{
    if a.len() == 0 {
        assert(a + b =~~= b);
        assert(join_lines(a) =~= Seq::<char>::empty());
        assert(join_lines(a) + join_lines(b) =~= join_lines(b));
    } else {
        assert((a + b)[0] == a[0]);
        assert((a + b).drop_first() =~~= a.drop_first() + b);
        lemma_join_append(a.drop_first(), b);
        assert(join_lines(a + b) =~= join_lines(a) + join_lines(b));
    }
}

/// Encoding one more tag appends its block.
proof fn lemma_tags_lines_snoc(
    a: Seq<(Seq<char>, crate::configuration_v3::MotorV3View)>,
    x: (Seq<char>, crate::configuration_v3::MotorV3View),
)
    ensures
        spec_tags_lines_v3(a + seq![x]) == spec_tags_lines_v3(a) + spec_block_lines_v3(x.0, x.1),
    decreases a.len(),
{
    if a.len() == 0 {
        let t = a + seq![x];
        assert(t[0] == x);
        assert(t.drop_first() =~~= Seq::<
            (Seq<char>, crate::configuration_v3::MotorV3View),
        >::empty());
        assert(spec_tags_lines_v3(t.drop_first()) =~~= Seq::<Seq<char>>::empty());
        assert(spec_tags_lines_v3(t) =~~= spec_block_lines_v3(x.0, x.1));
        assert(spec_tags_lines_v3(a) =~~= Seq::<Seq<char>>::empty());
        assert(spec_tags_lines_v3(a) + spec_block_lines_v3(x.0, x.1) =~~= spec_block_lines_v3(
            x.0,
            x.1,
        ));
    } else {
        let t = a + seq![x];
        assert(t[0] == a[0]);
        assert(t.drop_first() =~~= a.drop_first() + seq![x]);
        lemma_tags_lines_snoc(a.drop_first(), x);
        assert(spec_tags_lines_v3(t) =~~= spec_tags_lines_v3(a) + spec_block_lines_v3(x.0, x.1));
    }
}

/// Join lines into a file.
fn join_exec(lines: &Vec<Vec<char>>) -> (r: Vec<char>)
    ensures
        r@ == join_lines(lines.deep_view()),
{
    let mut out: Vec<char> = Vec::new();
    let mut i: usize = 0;
    proof {
        assert(lines.deep_view().take(0) =~~= Seq::<Seq<char>>::empty());
        assert(out@ =~= join_lines(lines.deep_view().take(0)));
    }
    while i < lines.len()
        invariant
            i <= lines@.len(),
            lines.deep_view().len() == lines@.len(),
            out@ == join_lines(lines.deep_view().take(i as int)),
        decreases lines@.len() - i,
    {
        let ghost dv = lines.deep_view();
        append_chars(&mut out, lines[i].as_slice());
        out.push('\n');
        proof {
            assert(dv.take(i as int + 1) =~~= dv.take(i as int) + seq![dv[i as int]]);
            lemma_join_append(dv.take(i as int), seq![dv[i as int]]);
            let single = seq![dv[i as int]];
            assert(single[0] == dv[i as int]);
            assert(single.drop_first() =~~= Seq::<Seq<char>>::empty());
            assert(join_lines(single.drop_first()).len() == 0);
            assert(join_lines(single) == single[0] + seq!['\n'] + join_lines(single.drop_first()));
            assert(join_lines(single) =~= dv[i as int] + seq!['\n']);
            assert(lines@[i as int]@ == dv[i as int]);
            assert(out@ =~= join_lines(dv.take(i as int + 1)));
        }
        i = i + 1;
    }
    proof {
        assert(lines.deep_view().take(lines@.len() as int) =~~= lines.deep_view());
    }
    out
}

/// Encode a configuration into its canonical durable form.
pub fn encode_configuration(c: &crate::configuration_v3::ConfigurationV3) -> (r: String)
    ensures
        r@ == spec_encode_v3(c@),
{
    let mut lines: Vec<Vec<char>> = Vec::new();
    let key_v = crate::text::chars_of("version");
    let key_p = crate::text::chars_of("port");
    let key_dn = crate::text::chars_of("device_name");
    let key_di = crate::text::chars_of("device_identifier");
    let key_fi = crate::text::chars_of("feature_index");
    let key_ft = crate::text::chars_of("feature_type");
    let key_at = crate::text::chars_of("actuator_type");
    proof {
        reveal_strlit("version");
        reveal_strlit("port");
        reveal_strlit("device_name");
        reveal_strlit("device_identifier");
        reveal_strlit("feature_index");
        reveal_strlit("feature_type");
        reveal_strlit("actuator_type");
        assert(key_v@ =~= key_version());
        assert(key_p@ =~= key_port());
        assert(key_dn@ =~= key_device_name());
        assert(key_di@ =~= key_device_identifier());
        assert(key_fi@ =~= key_feature_index());
        assert(key_ft@ =~= key_feature_type());
        assert(key_at@ =~= key_actuator_type());
    }
    lines.push(make_int_line(key_v.as_slice(), c.version as i64));
    lines.push(make_int_line(key_p.as_slice(), c.port as i64));
    let ghost pre = seq![
        int_line(key_version(), c@.version),
        int_line(key_port(), c@.port as int),
    ];
    proof {
        assert(lines.deep_view() =~~= pre + spec_tags_lines_v3(c@.tags.take(0)));
    }
    let n: usize = c.tags.len();
    let mut i: usize = 0;
    while i < n
        invariant
            n == c@.tags.len(),
            i <= n,
            key_dn@ == key_device_name(),
            key_di@ == key_device_identifier(),
            key_fi@ == key_feature_index(),
            key_ft@ == key_feature_type(),
            key_at@ == key_actuator_type(),
            lines.deep_view() == pre + spec_tags_lines_v3(c@.tags.take(i as int)),
        decreases n - i,
    {
        let entry = c.tags.entry(i);
        let ghost tag_view = c@.tags[i as int].0;
        let ghost motor_view = c@.tags[i as int].1;
        let ghost base_dv = lines.deep_view();
        lines.push(make_section_line(entry.0.as_str()));
        lines.push(make_str_line(key_dn.as_slice(), entry.1.device_name.as_str()));
        match &entry.1.device_identifier {
            Some(id) => {
                lines.push(make_str_line(key_di.as_slice(), id.as_str()));
            },
            None => {},
        }
        lines.push(make_int_line(key_fi.as_slice(), entry.1.feature_index as i64));
        match entry.1.feature_type {
            crate::configuration_v3::MotorTypeV3::Linear => {
                let name = crate::text::chars_of("Linear");
                proof {
                    reveal_strlit("Linear");
                    assert(name@ =~= name_linear());
                }
                lines.push(make_str_line(key_ft.as_slice(), crate::text::string_from_chars(name.as_slice()).as_str()));
            },
            crate::configuration_v3::MotorTypeV3::Rotation => {
                let name = crate::text::chars_of("Rotation");
                proof {
                    reveal_strlit("Rotation");
                    assert(name@ =~= name_rotation());
                }
                lines.push(make_str_line(key_ft.as_slice(), crate::text::string_from_chars(name.as_slice()).as_str()));
            },
            crate::configuration_v3::MotorTypeV3::Scalar { actuator_type } => {
                let name = crate::text::chars_of("Scalar");
                proof {
                    reveal_strlit("Scalar");
                    assert(name@ =~= name_scalar());
                }
                lines.push(make_str_line(key_ft.as_slice(), crate::text::string_from_chars(name.as_slice()).as_str()));
                let act = actuator_name_exec(actuator_type);
                proof {
                    assert(act@ == spec_actuator_name(actuator_type));
                }
                lines.push(make_str_line(key_at.as_slice(), act.as_str()));
            },
        }
        proof {
            let block = spec_block_lines_v3(tag_view, motor_view);
            assert forall|j: int| 0 <= j < lines@.len() implies #[trigger] lines.deep_view()[j]
                == lines@[j]@ by {}
            assert(lines.deep_view() =~~= base_dv + block);
            assert(c@.tags.take(i as int + 1) =~= c@.tags.take(i as int) + seq![
                (tag_view, motor_view),
            ]);
            lemma_tags_lines_snoc(c@.tags.take(i as int), (tag_view, motor_view));
            assert(lines.deep_view() =~~= pre + spec_tags_lines_v3(c@.tags.take(i as int + 1)));
        }
        i = i + 1;
    }
    proof {
        assert(c@.tags.take(n as int) =~= c@.tags);
        assert(lines.deep_view() =~~= spec_config_lines_v3(c@));
    }
    let joined = join_exec(&lines);
    crate::text::string_from_chars(joined.as_slice())
}

/// The durable name of an actuator type.
fn actuator_name_exec(a: crate::configuration_v3::ActuatorType) -> (r: String)
    ensures
        r@ == spec_actuator_name(a),
{
    match a {
        crate::configuration_v3::ActuatorType::Vibrate => {
            let v = crate::text::chars_of("Vibrate");
            proof {
                reveal_strlit("Vibrate");
                assert(v@ =~= spec_actuator_name(a));
            }
            crate::text::string_from_chars(v.as_slice())
        },
        crate::configuration_v3::ActuatorType::Rotate => {
            let v = crate::text::chars_of("Rotate");
            proof {
                reveal_strlit("Rotate");
                assert(v@ =~= spec_actuator_name(a));
            }
            crate::text::string_from_chars(v.as_slice())
        },
        crate::configuration_v3::ActuatorType::Oscillate => {
            let v = crate::text::chars_of("Oscillate");
            proof {
                reveal_strlit("Oscillate");
                assert(v@ =~= spec_actuator_name(a));
            }
            crate::text::string_from_chars(v.as_slice())
        },
        crate::configuration_v3::ActuatorType::Constrict => {
            let v = crate::text::chars_of("Constrict");
            proof {
                reveal_strlit("Constrict");
                assert(v@ =~= spec_actuator_name(a));
            }
            crate::text::string_from_chars(v.as_slice())
        },
        crate::configuration_v3::ActuatorType::Inflate => {
            let v = crate::text::chars_of("Inflate");
            proof {
                reveal_strlit("Inflate");
                assert(v@ =~= spec_actuator_name(a));
            }
            crate::text::string_from_chars(v.as_slice())
        },
        crate::configuration_v3::ActuatorType::Position => {
            let v = crate::text::chars_of("Position");
            proof {
                reveal_strlit("Position");
                assert(v@ =~= spec_actuator_name(a));
            }
            crate::text::string_from_chars(v.as_slice())
        },
        crate::configuration_v3::ActuatorType::Unknown => {
            let v = crate::text::chars_of("Unknown");
            proof {
                reveal_strlit("Unknown");
                assert(v@ =~= spec_actuator_name(a));
            }
            crate::text::string_from_chars(v.as_slice())
        },
    }
}

/// The version envelope of an encoded configuration is its version.
pub proof fn lemma_minimal_of_encoded(c: crate::configuration_v3::ConfigV3View)
    requires
        i32::MIN <= c.version <= i32::MAX,
    ensures
        spec_parse_minimal(spec_encode_v3(c)) == Some(c.version as i32),
{
    lemma_keys_valid();
    let lines = spec_config_lines_v3(c);
    lemma_parse_int_line(key_version(), c.version);
    lemma_parse_int_line(key_port(), c.port as int);
    lemma_tags_lines_newline_free(c.tags);
    assert forall|i: int| 0 <= i < lines.len() implies newline_free(#[trigger] lines[i]) by {
        if i >= 2 {
            assert(lines[i] == spec_tags_lines_v3(c.tags)[i - 2]);
        }
    }
    lemma_lines_of_join(lines);
    assert(lines_of(spec_encode_v3(c)) == lines);
    assert forall|i: int| 0 <= i < lines.len() implies (#[trigger] lines[i]).len() > 0 by {
        if i >= 2 {
            assert(lines[i] == spec_tags_lines_v3(c.tags)[i - 2]);
        }
    }
    lemma_nonblank_identity(lines);
    assert(content_lines(spec_encode_v3(c)) == lines);
    assert(lines[0] == int_line(key_version(), c.version));
}

/// The lines of a file, as vectors of characters.
fn lines_vec(text: &str) -> (r: Vec<Vec<char>>)
    ensures
        r.deep_view() == lines_of(text@),
{
    let chars = crate::text::chars_of(text);
    if chars.len() == 0 {
        let r: Vec<Vec<char>> = Vec::new();
        proof {
            assert(r.deep_view() =~~= lines_of(text@));
        }
        return r;
    }
    let mut segs = crate::text::split_chars(chars.as_slice(), '\n');
    if chars[chars.len() - 1] == '\n' {
        let _ = segs.pop();
        proof {
            assert(segs.deep_view() =~~= lines_of(text@));
        }
    } else {
        proof {
            assert(segs.deep_view() =~~= lines_of(text@));
        }
    }
    segs
}

/// The non-blank lines of a file, as vectors of characters.
fn content_lines_vec(text: &str) -> (r: Vec<Vec<char>>)
    ensures
        r.deep_view() == content_lines(text@),
{
    let mut raw = lines_vec(text);
    let total: usize = raw.len();
    let ghost all = raw.deep_view();
    let mut out: Vec<Vec<char>> = Vec::new();
    let mut i: usize = 0;
    proof {
        assert(all.take(0).len() == 0);
        assert(nonblank(all.take(0)) =~~= Seq::<Seq<char>>::empty());
        assert(out.deep_view() =~~= nonblank(all.take(0)));
    }
    while raw.len() > 0
        invariant
            total == all.len(),
            i + raw@.len() == total,
            i <= total,
            raw.deep_view() == all.skip(i as int),
            out.deep_view() == nonblank(all.take(i as int)),
        decreases raw@.len(),
    {
        let ghost pre_out = out.deep_view();
        let ghost pre_raw = raw.deep_view();
        let line = raw.remove(0);
        proof {
            assert(raw.deep_view() =~~= pre_raw.drop_first());
            assert(pre_raw.drop_first() =~~= all.skip(i as int + 1));
            assert(line@ == pre_raw[0]);
            assert(pre_raw[0] == all[i as int]);
            assert(all.take(i as int + 1).drop_last() =~= all.take(i as int));
            assert(all.take(i as int + 1).last() == all[i as int]);
        }
        if line.len() > 0 {
            out.push(line);
            proof {
                assert(out.deep_view() =~~= pre_out + seq![all[i as int]]);
                assert(out.deep_view() =~~= nonblank(all.take(i as int + 1)));
            }
        } else {
            proof {
                assert(nonblank(all.take(i as int + 1)) =~~= nonblank(all.take(i as int)));
            }
        }
        i = i + 1;
    }
    proof {
        assert(all.take(all.len() as int) =~~= all);
    }
    out
}

/// Compare a parsed key with a fixed key.
fn key_is(key: &Vec<char>, fixed: &str) -> (r: bool)
    ensures
        r == (key@ == fixed@),
{
    crate::text::chars_eq_str(key.as_slice(), fixed)
}

/// Parse one tag section body of the current schema.
#[verifier::rlimit(100)]
#[verifier::spinoff_prover]
fn parse_block_v3_exec(lines: &Vec<Vec<char>>, k: usize, tag: &[char]) -> (r: Option<
    (crate::configuration_v3::MotorConfigurationV3, usize),
>)
    requires
        k <= lines@.len(),
    ensures
        match spec_parse_block_v3(lines.deep_view(), k as int, tag@) {
            None => r is None,
            Some((m, k2)) => match r {
                Some(p) => p.0@ == m && p.1 == k2,
                None => false,
            },
        },
{
    proof {
        reveal_strlit("device_name");
        reveal_strlit("device_identifier");
        reveal_strlit("feature_index");
        reveal_strlit("feature_type");
        reveal_strlit("actuator_type");
        reveal_strlit("Linear");
        reveal_strlit("Rotation");
        reveal_strlit("Scalar");
        assert("device_name"@ =~= key_device_name());
        assert("device_identifier"@ =~= key_device_identifier());
        assert("feature_index"@ =~= key_feature_index());
        assert("feature_type"@ =~= key_feature_type());
        assert("actuator_type"@ =~= key_actuator_type());
        assert("Linear"@ =~= name_linear());
        assert("Rotation"@ =~= name_rotation());
        assert("Scalar"@ =~= name_scalar());
    }
    let ghost dv = lines.deep_view();
    if k >= lines.len() {
        return None;
    }
    proof {
        assert(dv[k as int] == lines@[k as int]@);
    }
    let name: String = match parse_line_chars(lines[k].as_slice()) {
        Some(ParsedLine::AssignStr(kn, v)) => {
            if key_is(&kn, "device_name") {
                crate::text::string_from_chars(v.as_slice())
            } else {
                return None;
            }
        },
        _ => {
            return None;
        },
    };
    let mut ident: Option<String> = None;
    let mut k1: usize = k + 1;
    if k + 1 < lines.len() {
        proof {
            assert(dv[k as int + 1] == lines@[k as int + 1]@);
        }
        match parse_line_chars(lines[k + 1].as_slice()) {
            Some(ParsedLine::AssignStr(ki, idv)) => {
                if key_is(&ki, "device_identifier") {
                    ident = Some(crate::text::string_from_chars(idv.as_slice()));
                    k1 = k + 2;
                }
            },
            _ => {},
        }
    }
    if k1 >= lines.len() {
        return None;
    }
    proof {
        assert(dv[k1 as int] == lines@[k1 as int]@);
    }
    let index: u32 = match parse_line_chars(lines[k1].as_slice()) {
        Some(ParsedLine::AssignInt(kf, n)) => {
            if key_is(&kf, "feature_index") && 0 <= n && n <= u32::MAX as i64 {
                n as u32
            } else {
                return None;
            }
        },
        _ => {
            return None;
        },
    };
    match parse_kind_v3_exec(lines, k1 + 1, tag) {
        Some((ft, k2)) => Some(
            (
                crate::configuration_v3::MotorConfigurationV3 {
                    device_name: name,
                    device_identifier: ident,
                    feature_index: index,
                    feature_type: ft,
                },
                k2,
            ),
        ),
        None => None,
    }
}

/// Parse the feature kind at line `k` of a section body, in either of its
/// two written forms: the flat assignment or the nested table of this
/// section's tag.
#[verifier::rlimit(100)]
#[verifier::spinoff_prover]
fn parse_kind_v3_exec(lines: &Vec<Vec<char>>, k: usize, tag: &[char]) -> (r: Option<
    (crate::configuration_v3::MotorTypeV3, usize),
>)
    requires
        k <= lines@.len(),
    ensures
        match spec_parse_kind_v3(lines.deep_view(), k as int, tag@) {
            None => r is None,
            Some((ft, k2)) => match r {
                Some(p) => p.0 == ft && p.1 == k2,
                None => false,
            },
        },
{
    proof {
        reveal_strlit("feature_type");
        reveal_strlit("type");
        assert("feature_type"@ =~= key_feature_type());
        assert("type"@ =~= key_type());
    }
    let ghost dv = lines.deep_view();
    if k >= lines.len() {
        return None;
    }
    proof {
        assert(dv[k as int] == lines@[k as int]@);
    }
    match parse_line_chars(lines[k].as_slice()) {
        Some(ParsedLine::AssignStr(kt, t)) => {
            if key_is(&kt, "feature_type") {
                parse_kind_names_exec(lines, k, &t)
            } else {
                None
            }
        },
        Some(ParsedLine::Subsection(t2)) => {
            if crate::text::chars_eq(t2.as_slice(), tag) && k + 1 < lines.len() {
                proof {
                    assert(dv[k as int + 1] == lines@[k as int + 1]@);
                }
                match parse_line_chars(lines[k + 1].as_slice()) {
                    Some(ParsedLine::AssignStr(ktype, t)) => {
                        if key_is(&ktype, "type") {
                            parse_kind_names_exec(lines, k + 1, &t)
                        } else {
                            None
                        }
                    },
                    _ => None,
                }
            } else {
                None
            }
        },
        _ => None,
    }
}

/// The kind a name at line `k` denotes; scalar kinds read the actuator
/// assignment on the next line.
fn parse_kind_names_exec(lines: &Vec<Vec<char>>, k: usize, t: &Vec<char>) -> (r: Option<
    (crate::configuration_v3::MotorTypeV3, usize),
>)
    requires
        k < lines@.len(),
    ensures
        match spec_parse_kind_names(lines.deep_view(), k as int, t@) {
            None => r is None,
            Some((ft, k2)) => match r {
                Some(p) => p.0 == ft && p.1 == k2,
                None => false,
            },
        },
{
    proof {
        reveal_strlit("Linear");
        reveal_strlit("Rotation");
        reveal_strlit("Scalar");
        reveal_strlit("actuator_type");
        assert("Linear"@ =~= name_linear());
        assert("Rotation"@ =~= name_rotation());
        assert("Scalar"@ =~= name_scalar());
        assert("actuator_type"@ =~= key_actuator_type());
    }
    let ghost dv = lines.deep_view();
    let n: usize = lines.len();
    if crate::text::chars_eq_str(t.as_slice(), "Linear") {
        Some((crate::configuration_v3::MotorTypeV3::Linear, k + 1))
    } else if crate::text::chars_eq_str(t.as_slice(), "Rotation") {
        Some((crate::configuration_v3::MotorTypeV3::Rotation, k + 1))
    } else if crate::text::chars_eq_str(t.as_slice(), "Scalar") {
        if k + 1 >= n {
            return None;
        }
        proof {
            assert(dv[k as int + 1] == lines@[k as int + 1]@);
        }
        match parse_line_chars(lines[k + 1].as_slice()) {
            Some(ParsedLine::AssignStr(ka, a)) => {
                if !key_is(&ka, "actuator_type") {
                    return None;
                }
                match actuator_of_name_exec(a.as_slice()) {
                    Some(act) => Some(
                        (
                            crate::configuration_v3::MotorTypeV3::Scalar { actuator_type: act },
                            k + 2,
                        ),
                    ),
                    None => None,
                }
            },
            _ => None,
        }
    } else {
        None
    }
}

/// The actuator type a durable name denotes.
fn actuator_of_name_exec(v: &[char]) -> (r: Option<crate::configuration_v3::ActuatorType>)
    ensures
        r == spec_actuator_of_name(v@),
{
    proof {
        reveal_strlit("Vibrate");
        reveal_strlit("Rotate");
        reveal_strlit("Oscillate");
        reveal_strlit("Constrict");
        reveal_strlit("Inflate");
        reveal_strlit("Position");
        reveal_strlit("Unknown");
        assert("Vibrate"@ =~= spec_actuator_name(crate::configuration_v3::ActuatorType::Vibrate));
        assert("Rotate"@ =~= spec_actuator_name(crate::configuration_v3::ActuatorType::Rotate));
        assert("Oscillate"@ =~= spec_actuator_name(
            crate::configuration_v3::ActuatorType::Oscillate,
        ));
        assert("Constrict"@ =~= spec_actuator_name(
            crate::configuration_v3::ActuatorType::Constrict,
        ));
        assert("Inflate"@ =~= spec_actuator_name(crate::configuration_v3::ActuatorType::Inflate));
        assert("Position"@ =~= spec_actuator_name(crate::configuration_v3::ActuatorType::Position));
        assert("Unknown"@ =~= spec_actuator_name(crate::configuration_v3::ActuatorType::Unknown));
    }
    if crate::text::chars_eq_str(v, "Vibrate") {
        Some(crate::configuration_v3::ActuatorType::Vibrate)
    } else if crate::text::chars_eq_str(v, "Rotate") {
        Some(crate::configuration_v3::ActuatorType::Rotate)
    } else if crate::text::chars_eq_str(v, "Oscillate") {
        Some(crate::configuration_v3::ActuatorType::Oscillate)
    } else if crate::text::chars_eq_str(v, "Constrict") {
        Some(crate::configuration_v3::ActuatorType::Constrict)
    } else if crate::text::chars_eq_str(v, "Inflate") {
        Some(crate::configuration_v3::ActuatorType::Inflate)
    } else if crate::text::chars_eq_str(v, "Position") {
        Some(crate::configuration_v3::ActuatorType::Position)
    } else if crate::text::chars_eq_str(v, "Unknown") {
        Some(crate::configuration_v3::ActuatorType::Unknown)
    } else {
        None
    }
}

/// Parse the tag sections of the current schema.
fn parse_entries_v3_exec(
    lines: &Vec<Vec<char>>,
    k: usize,
    acc: crate::configuration_v3::TagMap,
) -> (r: Option<crate::configuration_v3::TagMap>)
    requires
        k <= lines@.len(),
        acc.wf(),
    ensures
        match spec_parse_entries_v3(lines.deep_view(), k as int, acc@) {
            None => r is None,
            Some(t) => match r {
                Some(tm) => tm@ == t && tm.wf(),
                None => false,
            },
        },
    decreases lines@.len() - k,
{
    let ghost dv = lines.deep_view();
    if k >= lines.len() {
        return Some(acc);
    }
    proof {
        assert(dv[k as int] == lines@[k as int]@);
    }
    match parse_line_chars(lines[k].as_slice()) {
        Some(ParsedLine::Section(tag)) => {
            let ghost tag_view = tag@;
            if acc.contains_key(crate::text::string_from_chars(tag.as_slice()).as_str()) {
                proof {
                    assert(spec_has_key(acc@, tag_view));
                }
                return None;
            }
            proof {
                assert(!spec_has_key(acc@, tag_view));
            }
            match parse_block_v3_exec(lines, k + 1, tag.as_slice()) {
                Some((motor, k2)) => {
                    if k2 <= k || k2 > lines.len() {
                        return None;
                    }
                    let mut acc2 = acc;
                    let ghost motor_view = motor@;
                    acc2.insert_new(crate::text::string_from_chars(tag.as_slice()), motor);
                    proof {
                        assert(acc2@ =~= acc@ + seq![(tag_view, motor_view)]);
                    }
                    parse_entries_v3_exec(lines, k2, acc2)
                },
                None => None,
            }
        },
        _ => None,
    }
}

/// Parse a stored file under the current schema.
pub fn parse_configuration_v3(text: &str) -> (r: Option<
    crate::configuration_v3::ConfigurationV3,
>)
    ensures
        match spec_parse_v3(text@) {
            None => r is None,
            Some(cv) => match r {
                Some(c) => c@ == cv && c.tags.wf(),
                None => false,
            },
        },
{
    proof {
        reveal_strlit("version");
        reveal_strlit("port");
        assert("version"@ =~= key_version());
        assert("port"@ =~= key_port());
    }
    let lines = content_lines_vec(text);
    let ghost dv = lines.deep_view();
    let mut with_version: bool = false;
    let mut version: i32 = 1;
    if lines.len() > 0 {
        proof {
            assert(dv[0] == lines@[0]@);
        }
        match parse_line_chars(lines[0].as_slice()) {
            Some(ParsedLine::AssignInt(kv, v)) => {
                if key_is(&kv, "version") {
                    with_version = true;
                    if v < i32::MIN as i64 || v > i32::MAX as i64 {
                        return None;
                    }
                    version = v as i32;
                }
            },
            _ => {},
        }
    }
    let k0: usize = if with_version {
        1
    } else {
        0
    };
    if k0 >= lines.len() {
        return None;
    }
    proof {
        assert(dv[k0 as int] == lines@[k0 as int]@);
    }
    let port: u16 = match parse_line_chars(lines[k0].as_slice()) {
        Some(ParsedLine::AssignInt(kp, p)) => {
            if key_is(&kp, "port") && 0 <= p && p <= u16::MAX as i64 {
                p as u16
            } else {
                return None;
            }
        },
        _ => {
            return None;
        },
    };
    let mut k1: usize = k0 + 1;
    if k0 + 1 < lines.len() {
        proof {
            assert(dv[k0 as int + 1] == lines@[k0 as int + 1]@);
        }
        match parse_line_chars(lines[k0 + 1].as_slice()) {
            Some(ParsedLine::TagsRoot) => {
                k1 = k0 + 2;
            },
            _ => {},
        }
    }
    let empty_tags = crate::configuration_v3::TagMap::new();
    match parse_entries_v3_exec(&lines, k1, empty_tags) {
        Some(tags) => Some(crate::configuration_v3::ConfigurationV3 { version, port, tags }),
        None => None,
    }
}

/// Parse one tag section body of the legacy schema.
#[verifier::rlimit(100)]
#[verifier::spinoff_prover]
fn parse_block_v2_exec(lines: &Vec<Vec<char>>, k: usize) -> (r: Option<
    (crate::configuration_v2::MotorConfigurationV2, usize),
>)
    requires
        k <= lines@.len(),
    ensures
        match spec_parse_block_v2(lines.deep_view(), k as int) {
            None => r is None,
            Some((m, k2)) => match r {
                Some(p) => p.0@ == m && p.1 == k2,
                None => false,
            },
        },
{
    proof {
        reveal_strlit("device_name");
        reveal_strlit("feature_index");
        reveal_strlit("feature_type");
        reveal_strlit("Linear");
        reveal_strlit("Rotation");
        reveal_strlit("Vibration");
        reveal_strlit("Contraction");
        assert("device_name"@ =~= key_device_name());
        assert("feature_index"@ =~= key_feature_index());
        assert("feature_type"@ =~= key_feature_type());
        assert("Linear"@ =~= name_linear());
        assert("Rotation"@ =~= name_rotation());
        assert("Vibration"@ =~= name_vibration());
        assert("Contraction"@ =~= name_contraction());
    }
    let ghost dv = lines.deep_view();
    if lines.len() - k < 3 {
        return None;
    }
    proof {
        assert(dv[k as int] == lines@[k as int]@);
        assert(dv[k as int + 1] == lines@[k as int + 1]@);
        assert(dv[k as int + 2] == lines@[k as int + 2]@);
    }
    let name: String = match parse_line_chars(lines[k].as_slice()) {
        Some(ParsedLine::AssignStr(kn, v)) => {
            if key_is(&kn, "device_name") {
                crate::text::string_from_chars(v.as_slice())
            } else {
                return None;
            }
        },
        _ => {
            return None;
        },
    };
    let kind: crate::configuration_v2::MotorTypeV2 = match parse_line_chars(
        lines[k + 1].as_slice(),
    ) {
        Some(ParsedLine::AssignStr(kt, t)) => {
            if !key_is(&kt, "feature_type") {
                return None;
            }
            if crate::text::chars_eq_str(t.as_slice(), "Linear") {
                crate::configuration_v2::MotorTypeV2::Linear
            } else if crate::text::chars_eq_str(t.as_slice(), "Rotation") {
                crate::configuration_v2::MotorTypeV2::Rotation
            } else if crate::text::chars_eq_str(t.as_slice(), "Vibration") {
                crate::configuration_v2::MotorTypeV2::Vibration
            } else if crate::text::chars_eq_str(t.as_slice(), "Contraction") {
                crate::configuration_v2::MotorTypeV2::Contraction
            } else {
                return None;
            }
        },
        _ => {
            return None;
        },
    };
    match parse_line_chars(lines[k + 2].as_slice()) {
        Some(ParsedLine::AssignInt(kf, n)) => {
            if key_is(&kf, "feature_index") && 0 <= n && n <= u32::MAX as i64 {
                Some(
                    (
                        crate::configuration_v2::MotorConfigurationV2 {
                            device_name: name,
                            feature_type: kind,
                            feature_index: n as u32,
                        },
                        k + 3,
                    ),
                )
            } else {
                None
            }
        },
        _ => None,
    }
}

/// Parse the tag sections of the legacy schema.
fn parse_entries_v2_exec(
    lines: &Vec<Vec<char>>,
    k: usize,
    acc: crate::configuration_v2::TagMapV2,
) -> (r: Option<crate::configuration_v2::TagMapV2>)
    requires
        k <= lines@.len(),
        acc.wf(),
    ensures
        match spec_parse_entries_v2(lines.deep_view(), k as int, acc@) {
            None => r is None,
            Some(t) => match r {
                Some(tm) => tm@ == t && tm.wf(),
                None => false,
            },
        },
    decreases lines@.len() - k,
{
    let ghost dv = lines.deep_view();
    if k >= lines.len() {
        return Some(acc);
    }
    proof {
        assert(dv[k as int] == lines@[k as int]@);
    }
    match parse_line_chars(lines[k].as_slice()) {
        Some(ParsedLine::Section(tag)) => {
            let ghost tag_view = tag@;
            if acc.contains_key(crate::text::string_from_chars(tag.as_slice()).as_str()) {
                proof {
                    assert(spec_has_key(acc@, tag_view));
                }
                return None;
            }
            proof {
                assert(!spec_has_key(acc@, tag_view));
            }
            match parse_block_v2_exec(lines, k + 1) {
                Some((motor, k2)) => {
                    if k2 <= k || k2 > lines.len() {
                        return None;
                    }
                    let mut acc2 = acc;
                    let ghost motor_view = motor@;
                    acc2.insert_new(crate::text::string_from_chars(tag.as_slice()), motor);
                    proof {
                        assert(acc2@ =~= acc@ + seq![(tag_view, motor_view)]);
                    }
                    parse_entries_v2_exec(lines, k2, acc2)
                },
                None => None,
            }
        },
        _ => None,
    }
}

/// Parse a stored file under the legacy schema.
pub fn parse_configuration_v2(text: &str) -> (r: Option<
    crate::configuration_v2::ConfigurationV2,
>)
    ensures
        match spec_parse_v2(text@) {
            None => r is None,
            Some(cv) => match r {
                Some(c) => c@ == cv && c.tags.wf(),
                None => false,
            },
        },
{
    proof {
        reveal_strlit("version");
        reveal_strlit("port");
        assert("version"@ =~= key_version());
        assert("port"@ =~= key_port());
    }
    let lines = content_lines_vec(text);
    let ghost dv = lines.deep_view();
    let mut with_version: bool = false;
    let mut version: i32 = 1;
    if lines.len() > 0 {
        proof {
            assert(dv[0] == lines@[0]@);
        }
        match parse_line_chars(lines[0].as_slice()) {
            Some(ParsedLine::AssignInt(kv, v)) => {
                if key_is(&kv, "version") {
                    with_version = true;
                    if v < i32::MIN as i64 || v > i32::MAX as i64 {
                        return None;
                    }
                    version = v as i32;
                }
            },
            _ => {},
        }
    }
    let k0: usize = if with_version {
        1
    } else {
        0
    };
    if k0 >= lines.len() {
        return None;
    }
    proof {
        assert(dv[k0 as int] == lines@[k0 as int]@);
    }
    let port: u16 = match parse_line_chars(lines[k0].as_slice()) {
        Some(ParsedLine::AssignInt(kp, p)) => {
            if key_is(&kp, "port") && 0 <= p && p <= u16::MAX as i64 {
                p as u16
            } else {
                return None;
            }
        },
        _ => {
            return None;
        },
    };
    let mut k1: usize = k0 + 1;
    if k0 + 1 < lines.len() {
        proof {
            assert(dv[k0 as int + 1] == lines@[k0 as int + 1]@);
        }
        match parse_line_chars(lines[k0 + 1].as_slice()) {
            Some(ParsedLine::TagsRoot) => {
                k1 = k0 + 2;
            },
            _ => {},
        }
    }
    let empty_tags = crate::configuration_v2::TagMapV2::new();
    match parse_entries_v2_exec(&lines, k1, empty_tags) {
        Some(tags) => Some(crate::configuration_v2::ConfigurationV2 { version, port, tags }),
        None => None,
    }
}

/// Read just the version envelope of a stored file.
pub fn parse_version_envelope(text: &str) -> (r: Option<i32>)
    ensures
        r == spec_parse_minimal(text@),
{
    proof {
        reveal_strlit("version");
        assert("version"@ =~= key_version());
    }
    let lines = content_lines_vec(text);
    let ghost dv = lines.deep_view();
    if lines.len() == 0 {
        return Some(1);
    }
    proof {
        assert(dv[0] == lines@[0]@);
    }
    match parse_line_chars(lines[0].as_slice()) {
        Some(ParsedLine::AssignInt(kv, v)) => {
            if key_is(&kv, "version") {
                if v < i32::MIN as i64 || v > i32::MAX as i64 {
                    None
                } else {
                    Some(v as i32)
                }
            } else {
                Some(1)
            }
        },
        Some(_) => Some(1),
        None => None,
    }
}

} // verus!
