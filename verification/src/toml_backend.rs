//! The TOML backend: a parser and formatter for templates whose static text
//! is TOML (1.0 or 1.1), where interpolations may stand for whole values, key
//! segments, or fragments of strings.
use vstd::prelude::*;

use crate::cursor::{
    FragmentView, InterpView,
};
use crate::syntax::{
    NormalizedDate, NormalizedLocalDateTime, NormalizedOffsetDateTime, NormalizedTemporal,
    NormalizedTime, error_shape, BackendError, ErrorKind, SourceSpan,
};
use crate::text::{
    debug_str, str_debug, str_eq, copy_str, is_white_space, is_whitespace, push_char, push_str,
    string_from_chars, chars_of,
};

verus! {

// ---------------------------------------------------------------------------
// Profiles
// ---------------------------------------------------------------------------

/// The TOML versions the backend knows.
#[derive(Clone, Copy, Debug, PartialEq, Eq, Hash)]
pub enum TomlProfile {
    V1_0,
    V1_1,
}

/// Whether a profile is TOML 1.1.
pub open spec fn is_v1_1(p: TomlProfile) -> bool {
    p == TomlProfile::V1_1
}

/// A profile's name.
pub open spec fn toml_profile_name(p: TomlProfile) -> Seq<char> {
    if is_v1_1(p) {
        "1.1"@
    } else {
        "1.0"@
    }
}

/// The profile with a name, if there is one.
pub open spec fn toml_profile_named(name: Seq<char>) -> Option<TomlProfile> {
    if name == "1.0"@ {
        Some(TomlProfile::V1_0)
    } else if name == "1.1"@ {
        Some(TomlProfile::V1_1)
    } else {
        None
    }
}

/// Profile names: `1.0` and `1.1` name the two profiles, and reading a
/// profile's name gives that profile back.
pub proof fn law_toml_profile_names_round_trip(p: TomlProfile)
    ensures
        toml_profile_name(TomlProfile::V1_0) == "1.0"@,
        toml_profile_name(TomlProfile::V1_1) == "1.1"@,
        toml_profile_named(toml_profile_name(p)) == Some(p),
{
    reveal_strlit("1.0");
    reveal_strlit("1.1");
    assert("1.0"@ != "1.1"@) by {
        assert("1.0"@[2] != "1.1"@[2]);
    }
}

impl TomlProfile {
    /// The profile's name.
    pub fn as_str(self) -> (r: &'static str)
        ensures
            r@ == toml_profile_name(self),
    {
        match self {
            Self::V1_0 => "1.0",
            Self::V1_1 => "1.1",
        }
    }

    /// Times may leave out their seconds (TOML 1.1).
    pub(crate) fn allows_missing_seconds(self) -> (r: bool)
        ensures
            r == is_v1_1(self),
    {
        matches!(self, Self::V1_1)
    }

    /// A trailing comma in an inline table gets an error of its own (TOML
    /// 1.0); under TOML 1.1 the comma must be followed by another entry.
    pub(crate) fn names_inline_trailing_commas(self) -> (r: bool)
        ensures
            r == !is_v1_1(self),
    {
        matches!(self, Self::V1_0)
    }

    /// Basic strings may use `\e` and `\xHH` (TOML 1.1).
    pub(crate) fn allows_extended_basic_string_escapes(self) -> (r: bool)
        ensures
            r == is_v1_1(self),
    {
        matches!(self, Self::V1_1)
    }
}

impl Default for TomlProfile {
    fn default() -> (r: Self)
        ensures
            r == TomlProfile::V1_1,
    {
        Self::V1_1
    }
}

/// The message for a profile name the backend does not know.
pub open spec fn unsupported_toml_profile(name: Seq<char>) -> Seq<char> {
    "Unsupported TOML profile "@ + str_debug(name) + ". Supported profiles: \"1.0\", \"1.1\"."@
}

impl TomlProfile {
    /// The profile with the given name.
    pub fn from_name(value: &str) -> (r: Result<Self, String>)
        ensures
            value@ == "1.0"@ ==> r == Ok::<_, String>(TomlProfile::V1_0),
            value@ == "1.1"@ ==> r == Ok::<_, String>(TomlProfile::V1_1),
            value@ != "1.0"@ && value@ != "1.1"@ ==> (r matches Err(m) && m@
                == unsupported_toml_profile(value@)),
            match toml_profile_named(value@) {
                Some(q) => r == Ok::<_, String>(q),
                None => r matches Err(m) && m@ == unsupported_toml_profile(value@),
            },
    {
        proof {
            reveal_strlit("1.0");
            reveal_strlit("1.1");
            assert("1.0"@ != "1.1"@) by {
                assert("1.0"@[2] != "1.1"@[2]);
            }
        }
        if str_eq(value, "1.0") {
            return Ok(Self::V1_0);
        }
        if str_eq(value, "1.1") {
            return Ok(Self::V1_1);
        }
        let mut message = copy_str("Unsupported TOML profile ");
        push_str(&mut message, debug_str(value).as_str());
        push_str(&mut message, ". Supported profiles: \"1.0\", \"1.1\".");
        Err(message)
    }
}

impl std::str::FromStr for TomlProfile {
    type Err = String;

    fn from_str(value: &str) -> (r: Result<Self, String>)
        ensures
            value@ == "1.0"@ ==> r == Ok::<_, String>(TomlProfile::V1_0),
            value@ == "1.1"@ ==> r == Ok::<_, String>(TomlProfile::V1_1),
            value@ != "1.0"@ && value@ != "1.1"@ ==> (r matches Err(m) && m@
                == unsupported_toml_profile(value@)),
            match toml_profile_named(value@) {
                Some(q) => r == Ok::<_, String>(q),
                None => r matches Err(m) && m@ == unsupported_toml_profile(value@),
            },
    {
        Self::from_name(value)
    }
}

// ---------------------------------------------------------------------------
// Char classes and small text rules
// ---------------------------------------------------------------------------

/// Control chars that TOML does not allow in strings and comments: all C0
/// controls and DEL, except tab, and except line feed in multiline strings.
pub open spec fn disallowed_control(c: char, multiline: bool) -> bool {
    if c == '\t' {
        false
    } else if multiline && c == '\n' {
        false
    } else {
        ('\u{0000}' <= c <= '\u{0008}') || c == '\u{000b}' || c == '\u{000c}' || (
        '\u{000e}' <= c <= '\u{001f}') || c == '\u{007f}'
    }
}

/// Decides `disallowed_control`.
pub fn is_disallowed_toml_control(ch: char, multiline: bool) -> (r: bool)
    ensures
        r == disallowed_control(ch, multiline),
{
    if ch == '\t' {
        return false;
    }
    if multiline && ch == '\n' {
        return false;
    }
    ('\u{0000}' <= ch && ch <= '\u{0008}') || ch == '\u{000b}' || ch == '\u{000c}' || (
    '\u{000e}' <= ch && ch <= '\u{001f}') || ch == '\u{007f}'
}

/// Whether a char is an ASCII digit.
pub open spec fn is_digit(c: char) -> bool {
    '0' <= c <= '9'
}

/// A time text whose first five chars are `HH:MM` and whose sixth char, if
/// any, is not `:`.
pub open spec fn time_without_seconds(t: Seq<char>) -> bool {
    &&& t.len() >= 5
    &&& is_digit(t[0]) && is_digit(t[1]) && t[2] == ':' && is_digit(t[3]) && is_digit(t[4])
    &&& !(t.len() > 5 && t[5] == ':')
}

fn digit(c: char) -> (r: bool)
    ensures
        r == is_digit(c),
{
    '0' <= c && c <= '9'
}

/// Decides `time_without_seconds`.
pub fn is_time_without_seconds(value: &str) -> (r: bool)
    ensures
        r == time_without_seconds(value@),
{
    let t = chars_of(value);
    if t.len() < 5 {
        return false;
    }
    if !(digit(t[0]) && digit(t[1]) && t[2] == ':' && digit(t[3]) && digit(t[4])) {
        return false;
    }
    !(t.len() > 5 && t[5] == ':')
}

/// The position of the first occurrence of `c`, if any.
pub open spec fn first_index_of(t: Seq<char>, c: char) -> Option<int>
    decreases t.len(),
{
    if t.len() == 0 {
        None
    } else if t[0] == c {
        Some(0)
    } else {
        match first_index_of(t.drop_first(), c) {
            Some(k) => Some(k + 1),
            None => None,
        }
    }
}

proof fn lemma_first_index_of(t: Seq<char>, c: char)
    ensures
        first_index_of(t, c) matches Some(k) ==> 0 <= k < t.len() && t[k] == c,
    decreases t.len(),
{
    if t.len() > 0 && t[0] != c {
        lemma_first_index_of(t.drop_first(), c);
    }
}

/// How many times `c` occurs.
pub open spec fn count_of(t: Seq<char>, c: char) -> nat
    decreases t.len(),
{
    if t.len() == 0 {
        0
    } else {
        count_of(t.drop_last(), c) + if t.last() == c {
            1nat
        } else {
            0nat
        }
    }
}

/// The second piece of `t` when it is split at `T`: the text between the
/// first `T` and the next one (or the end), if there is a first `T`.
pub open spec fn second_t_piece(t: Seq<char>) -> Option<Seq<char>> {
    match first_index_of(t, 'T') {
        None => None,
        Some(a) => {
            let rest = t.skip(a + 1);
            match first_index_of(rest, 'T') {
                Some(b) => Some(rest.take(b)),
                None => Some(rest),
            }
        },
    }
}

/// A date-time or time text, without white space, whose time has no seconds.
pub open spec fn datetime_without_seconds(t: Seq<char>) -> bool {
    if exists|k: int| 0 <= k < t.len() && is_white_space(#[trigger] t[k]) {
        false
    } else {
        match second_t_piece(t) {
            Some(piece) => time_without_seconds(piece),
            None => count_of(t, ':') == 1 && time_without_seconds(t),
        }
    }
}

proof fn lemma_first_index_absent(t: Seq<char>, c: char)
    requires
        forall|k: int| 0 <= k < t.len() ==> t[k] != c,
    ensures
        first_index_of(t, c) is None,
    decreases t.len(),
{
    if t.len() > 0 {
        lemma_first_index_absent(t.drop_first(), c);
    }
}

proof fn lemma_first_index_after(d: Seq<char>, rest: Seq<char>, c: char)
    requires
        forall|k: int| 0 <= k < d.len() ==> d[k] != c,
        rest.len() > 0,
        rest[0] == c,
    ensures
        first_index_of(d + rest, c) == Some(d.len() as int),
    decreases d.len(),
{
    if d.len() > 0 {
        lemma_first_index_after(d.drop_first(), rest, c);
        assert((d + rest).drop_first() =~= d.drop_first() + rest);
    } else {
        assert(d + rest =~= rest);
    }
}

/// Times without seconds, as TOML 1.0 refuses them: a local time `HH:MM`, and
/// a date (any text without `T` or white space) followed by `T` and `HH:MM`,
/// are times without seconds; with `:SS` after them they are not.
pub proof fn law_times_without_seconds(
    d: Seq<char>,
    h1: char,
    h2: char,
    m1: char,
    m2: char,
    s1: char,
    s2: char,
)
    requires
        forall|k: int| 0 <= k < d.len() ==> d[k] != 'T' && !is_white_space(#[trigger] d[k]),
        is_digit(h1) && is_digit(h2) && is_digit(m1) && is_digit(m2),
        is_digit(s1) && is_digit(s2),
    ensures
        datetime_without_seconds(d + seq!['T', h1, h2, ':', m1, m2]),
        !datetime_without_seconds(d + seq!['T', h1, h2, ':', m1, m2, ':', s1, s2]),
        datetime_without_seconds(seq![h1, h2, ':', m1, m2]),
        !datetime_without_seconds(seq![h1, h2, ':', m1, m2, ':', s1, s2]),
{
    let hm = seq![h1, h2, ':', m1, m2];
    let hms = seq![h1, h2, ':', m1, m2, ':', s1, s2];
    assert(d + seq!['T', h1, h2, ':', m1, m2] =~= d + (seq!['T'] + hm));
    assert(d + seq!['T', h1, h2, ':', m1, m2, ':', s1, s2] =~= d + (seq!['T'] + hms));
    assert(seq!['T'] + hm =~= seq!['T', h1, h2, ':', m1, m2]);
    assert(seq!['T'] + hms =~= seq!['T', h1, h2, ':', m1, m2, ':', s1, s2]);
    lemma_first_index_after(d, seq!['T'] + hm, 'T');
    lemma_first_index_after(d, seq!['T'] + hms, 'T');
    let ta = d + (seq!['T'] + hm);
    let tb = d + (seq!['T'] + hms);
    assert(ta.skip(d.len() as int + 1) =~= hm);
    assert(tb.skip(d.len() as int + 1) =~= hms);
    lemma_first_index_absent(hm, 'T');
    lemma_first_index_absent(hms, 'T');
    assert forall|k: int| 0 <= k < ta.len() implies !is_white_space(#[trigger] ta[k]) by {
        if k < d.len() {
            assert(ta[k] == d[k]);
        }
    }
    assert forall|k: int| 0 <= k < tb.len() implies !is_white_space(#[trigger] tb[k]) by {
        if k < d.len() {
            assert(tb[k] == d[k]);
        }
    }
    assert(second_t_piece(ta) == Some(hm));
    assert(second_t_piece(tb) == Some(hms));
    assert(!(exists|k: int| 0 <= k < ta.len() && is_white_space(#[trigger] ta[k])));
    assert(!(exists|k: int| 0 <= k < tb.len() && is_white_space(#[trigger] tb[k])));
    // A local time alone.
    assert(!(exists|k: int| 0 <= k < hm.len() && is_white_space(#[trigger] hm[k])));
    assert(second_t_piece(hm) is None);
    assert(second_t_piece(hms) is None);
    assert(count_of(hm, ':') == 1) by {
        reveal_with_fuel(count_of, 6);
    }
}

fn index_of(t: &Vec<char>, from: usize, c: char) -> (r: Option<usize>)
    requires
        from <= t.len(),
    ensures
        match first_index_of(t@.skip(from as int), c) {
            Some(k) => r == Some((from + k) as usize),
            None => r is None,
        },
        r matches Some(k) ==> from <= k < t.len(),
{
    proof {
        lemma_first_index_of(t@.skip(from as int), c);
    }
    let mut k = from;
    while k < t.len()
        invariant
            from <= k <= t.len(),
            first_index_of(t@.skip(from as int), c) == match first_index_of(
                t@.skip(k as int),
                c,
            ) {
                Some(x) => Some(x + (k - from)),
                None => None,
            },
        decreases t.len() - k,
    {
        assert(t@.skip(k as int).drop_first() == t@.skip(k + 1));
        if t[k] == c {
            return Some(k);
        }
        k += 1;
    }
    assert(t@.skip(k as int).len() == 0);
    None
}

/// Decides `datetime_without_seconds`.
pub fn is_v1_datetime_without_seconds(source: &str) -> (r: bool)
    ensures
        r == datetime_without_seconds(source@),
{
    let t = chars_of(source);
    let mut k: usize = 0;
    while k < t.len()
        invariant
            k <= t.len(),
            t@ == source@,
            forall|j: int| 0 <= j < k ==> !is_white_space(#[trigger] t@[j]),
        decreases t.len() - k,
    {
        if is_whitespace(t[k]) {
            assert(0 <= k < t@.len() && is_white_space(t@[k as int]));
            return false;
        }
        k += 1;
    }
    assert(t@.skip(0) == t@);
    proof {
        lemma_first_index_of(t@, 'T');
    }
    match index_of(&t, 0, 'T') {
        Some(a) => {
            assert(first_index_of(t@, 'T') == Some(a as int));
            let ghost rest = t@.skip(a + 1);
            let b = index_of(&t, a + 1, 'T');
            let end = match b {
                Some(b) => b,
                None => t.len(),
            };
            let mut piece: Vec<char> = Vec::new();
            let mut j = a + 1;
            while j < end
                invariant
                    a + 1 <= j <= end <= t.len(),
                    piece@ == t@.subrange(a + 1, j as int),
                decreases end - j,
            {
                piece.push(t[j]);
                j += 1;
                assert(piece@ =~= t@.subrange(a + 1, j as int));
            }
            let text = string_from_chars(&piece);
            proof {
                lemma_first_index_of(rest, 'T');
                match first_index_of(rest, 'T') {
                    Some(bb) => {
                        assert(piece@ =~= rest.take(bb));
                    },
                    None => {
                        assert(piece@ =~= rest);
                    },
                }
            }
            assert(second_t_piece(t@) == Some(piece@));
            assert(!exists|kk: int| 0 <= kk < t@.len() && is_white_space(#[trigger] t@[kk]));
            is_time_without_seconds(text.as_str())
        },
        None => {
            let mut colons: usize = 0;
            let mut i: usize = 0;
            while i < t.len()
                invariant
                    i <= t.len(),
                    colons == count_of(t@.take(i as int), ':'),
                    colons <= i,
                decreases t.len() - i,
            {
                assert(t@.take((i + 1) as int).drop_last() == t@.take(i as int));
                if t[i] == ':' {
                    colons += 1;
                }
                i += 1;
            }
            assert(t@.take(t.len() as int) == t@);
            colons == 1 && is_time_without_seconds(source)
        },
    }
}

/// Whether every char is an ASCII letter or digit, `_` or `-`.
pub open spec fn bare_key_text(t: Seq<char>) -> bool {
    forall|k: int| 0 <= k < t.len() ==> is_bare_key_char(#[trigger] t[k])
}

/// The chars of a bare key.
pub open spec fn is_bare_key_char(c: char) -> bool {
    ('A' <= c <= 'Z') || ('a' <= c <= 'z') || ('0' <= c <= '9') || c == '_' || c == '-'
}

fn bare_key_char(c: char) -> (r: bool)
    ensures
        r == is_bare_key_char(c),
{
    ('A' <= c && c <= 'Z') || ('a' <= c && c <= 'z') || ('0' <= c && c <= '9') || c == '_' || c
        == '-'
}

/// Decides `bare_key_text`.
pub fn is_bare_key(value: &str) -> (r: bool)
    ensures
        r == bare_key_text(value@),
{
    let t = chars_of(value);
    let mut k: usize = 0;
    while k < t.len()
        invariant
            k <= t.len(),
            t@ == value@,
            forall|j: int| 0 <= j < k ==> is_bare_key_char(#[trigger] t@[j]),
        decreases t.len() - k,
    {
        if !bare_key_char(t[k]) {
            return false;
        }
        k += 1;
    }
    true
}

/// The uppercase hex digit for a value below sixteen.
pub open spec fn hex_upper_digit(v: int) -> char {
    if v < 10 {
        ('0' as int + v) as char
    } else {
        ('A' as int + v - 10) as char
    }
}

/// How a char is written inside a basic string: the short escapes, `\uXXXX`
/// for the other controls, and the char itself otherwise.
pub open spec fn escape_basic_char(c: char) -> Seq<char> {
    if c == '\u{0008}' {
        seq!['\\', 'b']
    } else if c == '\t' {
        seq!['\\', 't']
    } else if c == '\n' {
        seq!['\\', 'n']
    } else if c == '\u{000c}' {
        seq!['\\', 'f']
    } else if c == '\r' {
        seq!['\\', 'r']
    } else if c == '"' {
        seq!['\\', '"']
    } else if c == '\\' {
        seq!['\\', '\\']
    } else if ('\u{0000}' <= c <= '\u{001f}') || c == '\u{007f}' {
        seq![
            '\\',
            'u',
            '0',
            '0',
            hex_upper_digit((c as int) / 16),
            hex_upper_digit((c as int) % 16),
        ]
    } else {
        seq![c]
    }
}

/// A basic string escapes only what it must: a char that is not a quote, a
/// backslash, a C0 control or DEL is written as itself; the controls with a
/// short escape get it; the other controls get `\u00XY` with the two
/// upper-case hex digits of their code.
pub proof fn law_basic_escapes_are_minimal(c: char)
    ensures
        c != '"' && c != '\\' && !('\u{0000}' <= c <= '\u{001f}') && c != '\u{007f}' ==> escape_basic_char(c)
            == seq![c],
        c == '"' ==> escape_basic_char(c) == seq!['\\', '"'],
        c == '\\' ==> escape_basic_char(c) == seq!['\\', '\\'],
        c == '\n' ==> escape_basic_char(c) == seq!['\\', 'n'],
        c == '\t' ==> escape_basic_char(c) == seq!['\\', 't'],
        c == '\r' ==> escape_basic_char(c) == seq!['\\', 'r'],
        c == '\u{0008}' ==> escape_basic_char(c) == seq!['\\', 'b'],
        c == '\u{000c}' ==> escape_basic_char(c) == seq!['\\', 'f'],
        c == '\u{001b}' ==> escape_basic_char(c) == seq!['\\', 'u', '0', '0', '1', 'B'],
        c == '\u{007f}' ==> escape_basic_char(c) == seq!['\\', 'u', '0', '0', '7', 'F'],
{
}

/// The escaped body of a basic string.
pub open spec fn escape_basic_body(t: Seq<char>) -> Seq<char>
    decreases t.len(),
{
    if t.len() == 0 {
        seq![]
    } else {
        escape_basic_body(t.drop_last()) + escape_basic_char(t.last())
    }
}

/// A text written as a quoted basic string.
pub open spec fn render_basic(t: Seq<char>) -> Seq<char> {
    seq!['"'] + escape_basic_body(t) + seq!['"']
}

fn hex_upper(v: u32) -> (r: char)
    requires
        v < 16,
    ensures
        r == hex_upper_digit(v as int),
{
    if v == 0 {
        return '0';
    }
    if v == 1 {
        return '1';
    }
    if v == 2 {
        return '2';
    }
    if v == 3 {
        return '3';
    }
    if v == 4 {
        return '4';
    }
    if v == 5 {
        return '5';
    }
    if v == 6 {
        return '6';
    }
    if v == 7 {
        return '7';
    }
    if v == 8 {
        return '8';
    }
    if v == 9 {
        return '9';
    }
    if v == 10 {
        return 'A';
    }
    if v == 11 {
        return 'B';
    }
    if v == 12 {
        return 'C';
    }
    if v == 13 {
        return 'D';
    }
    if v == 14 {
        return 'E';
    }
    'F'
}

/// Writes a text as a quoted basic string.
pub fn render_basic_string(value: &str) -> (r: String)
    ensures
        r@ == render_basic(value@),
{
    let t = chars_of(value);
    let mut rendered = String::new();
    push_char(&mut rendered, '"');
    let mut k: usize = 0;
    while k < t.len()
        invariant
            k <= t.len(),
            t@ == value@,
            rendered@ == seq!['"'] + escape_basic_body(t@.take(k as int)),
        decreases t.len() - k,
    {
        let ch = t[k];
        let ghost before = rendered@;
        if ch == '\u{0008}' {
            push_str(&mut rendered, "\\b");
        } else if ch == '\t' {
            push_str(&mut rendered, "\\t");
        } else if ch == '\n' {
            push_str(&mut rendered, "\\n");
        } else if ch == '\u{000c}' {
            push_str(&mut rendered, "\\f");
        } else if ch == '\r' {
            push_str(&mut rendered, "\\r");
        } else if ch == '"' {
            push_str(&mut rendered, "\\\"");
        } else if ch == '\\' {
            push_str(&mut rendered, "\\\\");
        } else if ('\u{0000}' <= ch && ch <= '\u{001f}') || ch == '\u{007f}' {
            let code = ch as u32;
            push_char(&mut rendered, '\\');
            push_char(&mut rendered, 'u');
            push_char(&mut rendered, '0');
            push_char(&mut rendered, '0');
            push_char(&mut rendered, hex_upper(code / 16));
            push_char(&mut rendered, hex_upper(code % 16));
        } else {
            push_char(&mut rendered, ch);
        }
        proof {
            reveal_strlit("\\b");
            reveal_strlit("\\t");
            reveal_strlit("\\n");
            reveal_strlit("\\f");
            reveal_strlit("\\r");
            reveal_strlit("\\\"");
            reveal_strlit("\\\\");
            assert(rendered@ =~= before + escape_basic_char(ch));
            assert(t@.take((k + 1) as int).drop_last() == t@.take(k as int));
        }
        k += 1;
    }
    push_char(&mut rendered, '"');
    assert(t@.take(t.len() as int) == t@);
    rendered
}

// ---------------------------------------------------------------------------
// Dates and times
// ---------------------------------------------------------------------------

/// The offset of a TOML offset date-time: `Z`, or a number of minutes.
#[derive(Clone, Copy, Debug, PartialEq, Eq)]
pub enum TomlOffset {
    Z,
    Custom(i16),
}

/// A TOML date-time as its parts: a date, a time and an offset, each where
/// present (as `toml::value::Datetime` holds them).
#[derive(Clone, Copy, Debug, PartialEq, Eq)]
pub struct TomlDatetimeParts {
    pub date: Option<NormalizedDate>,
    pub time: Option<NormalizedTime>,
    pub offset: Option<TomlOffset>,
}

/// The offset in minutes from UTC.
pub open spec fn offset_minutes(offset: TomlOffset) -> i16 {
    match offset {
        TomlOffset::Z => 0,
        TomlOffset::Custom(minutes) => minutes,
    }
}

/// The temporal value of a date-time's parts, if they form one of the four
/// TOML shapes: offset date-time, local date-time, local date, local time.
pub open spec fn temporal_of(parts: TomlDatetimeParts) -> Option<NormalizedTemporal> {
    match (parts.date, parts.time, parts.offset) {
        (Some(date), Some(time), Some(offset)) => Some(
            NormalizedTemporal::OffsetDateTime(
                NormalizedOffsetDateTime { date, time, offset_minutes: offset_minutes(offset) },
            ),
        ),
        (Some(date), Some(time), None) => Some(
            NormalizedTemporal::LocalDateTime(NormalizedLocalDateTime { date, time }),
        ),
        (Some(date), None, None) => Some(NormalizedTemporal::LocalDate(date)),
        (None, Some(time), None) => Some(NormalizedTemporal::LocalTime(time)),
        _ => None,
    }
}

/// Normalizing a date-time keeps every part as it is: a date, a time and an
/// offset give an offset date-time whose offset is the given minutes
/// unchanged (zero for `Z`); a date and a time without offset give a local
/// date-time; a date alone, a local date; a time alone, a local time.
pub proof fn law_datetime_parts_kept(date: NormalizedDate, time: NormalizedTime, minutes: i16)
    ensures
        temporal_of(
            TomlDatetimeParts {
                date: Some(date),
                time: Some(time),
                offset: Some(TomlOffset::Custom(minutes)),
            },
        ) == Some(
            NormalizedTemporal::OffsetDateTime(
                NormalizedOffsetDateTime { date, time, offset_minutes: minutes },
            ),
        ),
        temporal_of(
            TomlDatetimeParts { date: Some(date), time: Some(time), offset: Some(TomlOffset::Z) },
        ) == Some(
            NormalizedTemporal::OffsetDateTime(
                NormalizedOffsetDateTime { date, time, offset_minutes: 0 },
            ),
        ),
        temporal_of(TomlDatetimeParts { date: Some(date), time: Some(time), offset: None })
            == Some(NormalizedTemporal::LocalDateTime(NormalizedLocalDateTime { date, time })),
        temporal_of(TomlDatetimeParts { date: Some(date), time: None, offset: None }) == Some(
            NormalizedTemporal::LocalDate(date),
        ),
        temporal_of(TomlDatetimeParts { date: None, time: Some(time), offset: None }) == Some(
            NormalizedTemporal::LocalTime(time),
        ),
{
}

/// The temporal value of a TOML date-time given as its parts; `text` is how
/// the date-time is written, which the error for any other shape quotes.
pub fn normalize_datetime(parts: &TomlDatetimeParts, text: &str) -> (r: Result<
    NormalizedTemporal,
    BackendError,
>)
    ensures
        match temporal_of(*parts) {
            Some(t) => r == Ok::<NormalizedTemporal, BackendError>(t),
            None => r matches Err(e) && error_shape(
                e,
                ErrorKind::Semantic,
                "tstring.semantic"@,
                "Unsupported TOML datetime shape: "@ + text@,
                None,
            ),
        },
{
    match (parts.date, parts.time, parts.offset) {
        (Some(date), Some(time), Some(offset)) => Ok(
            NormalizedTemporal::OffsetDateTime(
                NormalizedOffsetDateTime {
                    date,
                    time,
                    offset_minutes: match offset {
                        TomlOffset::Z => 0,
                        TomlOffset::Custom(minutes) => minutes,
                    },
                },
            ),
        ),
        (Some(date), Some(time), None) => Ok(
            NormalizedTemporal::LocalDateTime(NormalizedLocalDateTime { date, time }),
        ),
        (Some(date), None, None) => Ok(NormalizedTemporal::LocalDate(date)),
        (None, Some(time), None) => Ok(NormalizedTemporal::LocalTime(time)),
        _ => {
            let mut message = copy_str("Unsupported TOML datetime shape: ");
            push_str(&mut message, text);
            Err(BackendError::semantic(message.as_str()))
        },
    }
}

// ---------------------------------------------------------------------------
// Syntax tree
// ---------------------------------------------------------------------------

/// `toml::Value`, a materialized TOML value, carried through the tree as is.
#[verifier::external_type_specification]
#[verifier::external_body]
pub struct ExTomlValue(::toml::Value);

/// `toml::map::Map`, the key/value map of a TOML table.
#[verifier::external_type_specification]
#[verifier::external_body]
#[verifier::reject_recursive_types(K)]
#[verifier::reject_recursive_types(V)]
pub struct ExTomlMap<K, V>(::toml::map::Map<K, V>);

/// What `toml::from_str::<toml::Table>` makes of a text: the table it reads,
/// or the text of its error.
pub uninterp spec fn toml_table_outcome(text: Seq<char>) -> Result<
    ::toml::map::Map<String, ::toml::Value>,
    Seq<char>,
>;

/// The keys of a TOML table.
pub uninterp spec fn toml_table_keys(table: ::toml::map::Map<String, ::toml::Value>) -> Set<
    Seq<char>,
>;

/// The value a TOML table holds under a key, if any.
pub uninterp spec fn toml_table_get(
    table: ::toml::map::Map<String, ::toml::Value>,
    key: Seq<char>,
) -> Option<::toml::Value>;

/// `toml::from_str::<toml::Table>`: the table a TOML text holds, or the text
/// of the error (its `Display`), both as `toml_table_outcome` names them.
#[verifier::external_body]
pub(crate) fn toml_table_from_str(text: &str) -> (r: Result<
    ::toml::map::Map<String, ::toml::Value>,
    String,
>)
    ensures
        match toml_table_outcome(text@) {
            Ok(t) => r == Ok::<::toml::map::Map<String, ::toml::Value>, String>(t),
            Err(m) => r matches Err(e) && e@ == m,
        },
{
    match ::toml::from_str::<::toml::Table>(text) {
        Ok(table) => Ok(table),
        Err(err) => Err(err.to_string()),
    }
}

/// `toml::map::Map::get`, with the value found cloned: the value the table
/// holds under the key, which is there exactly when the key is one of the
/// table's keys.
#[verifier::external_body]
pub(crate) fn toml_table_value(
    table: &::toml::map::Map<String, ::toml::Value>,
    key: &str,
) -> (r: Option<::toml::Value>)
    ensures
        r == toml_table_get(*table, key@),
        r is Some <==> toml_table_keys(*table).contains(key@),
{
    table.get(key).cloned()
}

/// An interpolation in a TOML template, with the role it plays there
/// (`value`, `key` or `string_fragment`).
#[derive(Clone, Debug)]
pub struct TomlInterpolationNode {
    pub span: SourceSpan,
    pub interpolation_index: usize,
    pub role: String,
}

/// A run of literal text inside a string.
#[derive(Clone, Debug)]
pub struct TomlStringChunkNode {
    pub span: SourceSpan,
    pub value: String,
}

/// A piece of a string: literal text or an interpolation.
#[derive(Clone, Debug)]
pub enum TomlStringPart {
    Chunk(TomlStringChunkNode),
    Interpolation(TomlInterpolationNode),
}

/// A string with its style (`basic`, `multiline_basic`, `literal` or
/// `multiline_literal`).
#[derive(Clone, Debug)]
pub struct TomlStringNode {
    pub span: SourceSpan,
    pub style: String,
    pub chunks: Vec<TomlStringPart>,
}

/// A bare literal (number, boolean, date or time) with its source text and
/// the value the `toml` crate reads from it.
#[derive(Debug)]
pub struct TomlLiteralNode {
    pub span: SourceSpan,
    pub source: String,
    pub value: ::toml::Value,
}

/// A key segment: bare, quoted, or an interpolation.
#[derive(Clone, Debug)]
pub enum TomlKeySegmentValue {
    Bare(String),
    String(TomlStringNode),
    Interpolation(TomlInterpolationNode),
}

/// One segment of a dotted key.
#[derive(Clone, Debug)]
pub struct TomlKeySegmentNode {
    pub span: SourceSpan,
    pub value: TomlKeySegmentValue,
    pub bare: bool,
}

/// A dotted key.
#[derive(Clone, Debug)]
pub struct TomlKeyPathNode {
    pub span: SourceSpan,
    pub segments: Vec<TomlKeySegmentNode>,
}

/// `key = value`.
#[derive(Debug)]
pub struct TomlAssignmentNode {
    pub span: SourceSpan,
    pub key_path: TomlKeyPathNode,
    pub value: TomlValueNode,
}

/// `[key]`.
#[derive(Clone, Debug)]
pub struct TomlTableHeaderNode {
    pub span: SourceSpan,
    pub key_path: TomlKeyPathNode,
}

/// `[[key]]`.
#[derive(Clone, Debug)]
pub struct TomlArrayTableHeaderNode {
    pub span: SourceSpan,
    pub key_path: TomlKeyPathNode,
}

/// An array.
#[derive(Debug)]
pub struct TomlArrayNode {
    pub span: SourceSpan,
    pub items: Vec<TomlValueNode>,
}

/// An inline table.
#[derive(Debug)]
pub struct TomlInlineTableNode {
    pub span: SourceSpan,
    pub entries: Vec<TomlAssignmentNode>,
}

/// A whole document: its statements in order.
#[derive(Debug)]
pub struct TomlDocumentNode {
    pub span: SourceSpan,
    pub statements: Vec<TomlStatementNode>,
}

/// A value.
#[derive(Debug)]
pub enum TomlValueNode {
    String(TomlStringNode),
    Literal(TomlLiteralNode),
    Interpolation(TomlInterpolationNode),
    Array(TomlArrayNode),
    InlineTable(TomlInlineTableNode),
}

/// A statement.
#[derive(Debug)]
pub enum TomlStatementNode {
    Assignment(TomlAssignmentNode),
    TableHeader(TomlTableHeaderNode),
    ArrayTableHeader(TomlArrayTableHeaderNode),
}

// ---------------------------------------------------------------------------
// What the nodes hold, as mathematical values
// ---------------------------------------------------------------------------

/// A string node as a value.
pub struct TStringView {
    pub span: SourceSpan,
    pub style: Seq<char>,
    pub chunks: Seq<FragmentView>,
}

/// A key segment's value as a value.
pub enum TSegmentValueView {
    Bare(Seq<char>),
    String(TStringView),
    Interpolation(InterpView),
}

/// A key segment as a value.
pub struct TSegmentView {
    pub span: SourceSpan,
    pub value: TSegmentValueView,
    pub bare: bool,
}

/// A dotted key as a value.
pub struct TPathView {
    pub span: SourceSpan,
    pub segments: Seq<TSegmentView>,
}

/// A value node as a value; a literal keeps its span, source and value.
pub enum TValueView {
    String(TStringView),
    Literal { span: SourceSpan, source: Seq<char>, value: Option<::toml::Value> },
    Interpolation(InterpView),
    Array { span: SourceSpan, items: Seq<TValueView> },
    InlineTable { span: SourceSpan, entries: Seq<TAssignView> },
}

/// An assignment as a value.
pub struct TAssignView {
    pub span: SourceSpan,
    pub key_path: TPathView,
    pub value: TValueView,
}

/// A statement as a value.
pub enum TStatementView {
    Assignment(TAssignView),
    TableHeader { span: SourceSpan, key_path: TPathView },
    ArrayTableHeader { span: SourceSpan, key_path: TPathView },
}

/// A document as a value.
pub struct TDocumentView {
    pub span: SourceSpan,
    pub statements: Seq<TStatementView>,
}

/// An interpolation node as a value.
pub open spec fn t_interp_view(n: TomlInterpolationNode) -> InterpView {
    InterpView { span: n.span, interpolation_index: n.interpolation_index, role: n.role@ }
}

/// A string piece as a value.
pub open spec fn t_fragment_view(p: TomlStringPart) -> FragmentView {
    match p {
        TomlStringPart::Chunk(c) => FragmentView::Text { value: c.value@, span: c.span },
        TomlStringPart::Interpolation(n) => FragmentView::Slot(t_interp_view(n)),
    }
}

/// String pieces as values.
pub open spec fn t_fragments_view(ps: Seq<TomlStringPart>) -> Seq<FragmentView> {
    Seq::new(ps.len(), |k: int| t_fragment_view(ps[k]))
}

/// A string node as a value.
pub open spec fn t_string_view(n: TomlStringNode) -> TStringView {
    TStringView { span: n.span, style: n.style@, chunks: t_fragments_view(n.chunks@) }
}

/// A key segment as a value.
pub open spec fn t_segment_view(n: TomlKeySegmentNode) -> TSegmentView {
    TSegmentView {
        span: n.span,
        value: match n.value {
            TomlKeySegmentValue::Bare(b) => TSegmentValueView::Bare(b@),
            TomlKeySegmentValue::String(s) => TSegmentValueView::String(t_string_view(s)),
            TomlKeySegmentValue::Interpolation(i) => TSegmentValueView::Interpolation(
                t_interp_view(i),
            ),
        },
        bare: n.bare,
    }
}

/// Key segments as values.
pub open spec fn t_segments_view(ns: Seq<TomlKeySegmentNode>) -> Seq<TSegmentView> {
    Seq::new(ns.len(), |k: int| t_segment_view(ns[k]))
}

/// A dotted key as a value.
pub open spec fn t_path_view(n: TomlKeyPathNode) -> TPathView {
    TPathView { span: n.span, segments: t_segments_view(n.segments@) }
}

/// A value node as a value.
pub open spec fn t_value_view(v: TomlValueNode) -> TValueView
    decreases v,
{
    match v {
        TomlValueNode::String(n) => TValueView::String(t_string_view(n)),
        TomlValueNode::Literal(n) => TValueView::Literal {
            span: n.span,
            source: n.source@,
            value: Some(n.value),
        },
        TomlValueNode::Interpolation(n) => TValueView::Interpolation(t_interp_view(n)),
        TomlValueNode::Array(a) => TValueView::Array { span: a.span, items: t_values_view(a.items@) },
        TomlValueNode::InlineTable(t) => TValueView::InlineTable {
            span: t.span,
            entries: t_assigns_view(t.entries@),
        },
    }
}

/// Value nodes as values.
pub open spec fn t_values_view(vs: Seq<TomlValueNode>) -> Seq<TValueView>
    decreases vs,
{
    if vs.len() == 0 {
        seq![]
    } else {
        t_values_view(vs.drop_last()).push(t_value_view(vs.last()))
    }
}

/// Assignments as values.
pub open spec fn t_assigns_view(es: Seq<TomlAssignmentNode>) -> Seq<TAssignView>
    decreases es,
{
    if es.len() == 0 {
        seq![]
    } else {
        t_assigns_view(es.drop_last()).push(
            TAssignView {
                span: es.last().span,
                key_path: t_path_view(es.last().key_path),
                value: t_value_view(es.last().value),
            },
        )
    }
}

/// An assignment as a value.
pub open spec fn t_assign_view(a: TomlAssignmentNode) -> TAssignView {
    TAssignView { span: a.span, key_path: t_path_view(a.key_path), value: t_value_view(a.value) }
}

/// A statement as a value.
pub open spec fn t_statement_view(st: TomlStatementNode) -> TStatementView {
    match st {
        TomlStatementNode::Assignment(a) => TStatementView::Assignment(t_assign_view(a)),
        TomlStatementNode::TableHeader(h) => TStatementView::TableHeader {
            span: h.span,
            key_path: t_path_view(h.key_path),
        },
        TomlStatementNode::ArrayTableHeader(h) => TStatementView::ArrayTableHeader {
            span: h.span,
            key_path: t_path_view(h.key_path),
        },
    }
}

/// Statements as values.
pub open spec fn t_statements_view(ss: Seq<TomlStatementNode>) -> Seq<TStatementView> {
    Seq::new(ss.len(), |k: int| t_statement_view(ss[k]))
}

/// A document as a value.
pub open spec fn t_document_view(d: TomlDocumentNode) -> TDocumentView {
    TDocumentView { span: d.span, statements: t_statements_view(d.statements@) }
}

} // verus!
