use vstd::prelude::*;

verus! {

/// What a member's value can be, as far as the record schemas care: a
/// string, the null literal, or any other scalar (a number or a boolean).
pub enum JValue {
    JStr(String),
    JNull,
    JOther,
}

/// One member of a parsed object.
pub struct JMember {
    pub key: String,
    pub value: JValue,
}

/// The mathematical content of a member's value.
pub enum JValueModel {
    VStr(Seq<char>),
    VNull,
    VOther,
}

/// The view of a member's value.
pub open spec fn value_view(v: JValue) -> JValueModel {
    match v {
        JValue::JStr(s) => JValueModel::VStr(s@),
        JValue::JNull => JValueModel::VNull,
        JValue::JOther => JValueModel::VOther,
    }
}

/// The view of a member.
pub open spec fn member_view(m: JMember) -> (Seq<char>, JValueModel) {
    (m.key@, value_view(m.value))
}

/// The views of a member list.
pub open spec fn members_view(ms: Seq<JMember>) -> Seq<(Seq<char>, JValueModel)> {
    ms.map_values(|m: JMember| member_view(m))
}

/// Where the parser stands in the line.
#[derive(PartialEq, Eq, Structural)]
pub enum JMode {
    /// Before the opening brace.
    Start,
    /// After the opening brace: a first key or the closing brace.
    BeforeFirstKey,
    /// After a comma: a key.
    BeforeKey,
    /// Inside a key.
    InKey,
    /// After a backslash inside a key.
    KeyEsc,
    /// Inside a unicode escape of a key.
    KeyU,
    /// After a high surrogate in a key: a backslash must follow.
    KeyUP,
    /// After that backslash: a `u` must follow.
    KeyUP2,
    /// After a key: a colon.
    AfterKey,
    /// After the colon: a value.
    BeforeVal,
    /// Inside a string value.
    InStr,
    /// After a backslash inside a string value.
    StrEsc,
    /// Inside a unicode escape of a string value.
    StrU,
    /// After a high surrogate in a string value: a backslash must follow.
    StrUP,
    /// After that backslash: a `u` must follow.
    StrUP2,
    /// Inside `true`, `false` or `null`.
    LitRest,
    /// After a minus sign.
    NumNeg,
    /// After a leading zero.
    NumZero,
    /// Inside the integer digits.
    NumInt,
    /// After the decimal point.
    NumDot,
    /// Inside the fraction digits.
    NumFrac,
    /// After the exponent mark.
    NumE,
    /// After the exponent's sign.
    NumESign,
    /// Inside the exponent digits.
    NumExp,
    /// Inside an object or array value, which is skipped.
    ValNest,
    /// Inside a string within a skipped value.
    ValNestStr,
    /// After a backslash within such a string.
    ValNestEsc,
    /// After a member's value: a comma or the closing brace.
    AfterVal,
    /// After the closing brace: only blank space.
    Done,
    /// The line is not an object of this grammar.
    Failed,
}

/// The parser's whole state.
#[verifier::ext_equal]
pub struct JState {
    pub mode: JMode,
    pub key: Seq<char>,
    pub acc: Seq<char>,
    pub lit: Seq<char>,
    pub lit_null: bool,
    pub members: Seq<(Seq<char>, JValueModel)>,
}

/// The state before the first character.
pub open spec fn jinit() -> JState {
    JState {
        mode: JMode::Start,
        key: Seq::empty(),
        acc: Seq::empty(),
        lit: Seq::empty(),
        lit_null: false,
        members: Seq::empty(),
    }
}

/// Blank space between tokens.
pub open spec fn is_jws(c: char) -> bool {
    c == ' ' || c == '\t' || c == '\n' || c == '\r'
}

/// What a single-character backslash escape stands for; `\u` escapes are
/// handled by the unicode-escape states.
pub open spec fn esc_char(c: char) -> Option<char> {
    if c == '"' {
        Some('"')
    } else if c == '\\' {
        Some('\\')
    } else if c == '/' {
        Some('/')
    } else if c == 'b' {
        Some((0x08 as u8) as char)
    } else if c == 'f' {
        Some((0x0C as u8) as char)
    } else if c == 'n' {
        Some('\n')
    } else if c == 'r' {
        Some('\r')
    } else if c == 't' {
        Some('\t')
    } else {
        None
    }
}

/// A decimal digit.
pub open spec fn is_jdigit(c: char) -> bool {
    0x30 <= c as u32 <= 0x39
}

/// A hexadecimal digit.
pub open spec fn is_hex_digit(c: char) -> bool {
    (0x30 <= c as u32 <= 0x39) || (0x41 <= c as u32 <= 0x46) || (0x61 <= c as u32 <= 0x66)
}

/// The numeric value of a hexadecimal digit.
pub open spec fn hex_digit_val(c: char) -> int {
    if 0x30 <= c as u32 <= 0x39 {
        c as u32 - 0x30
    } else if 0x41 <= c as u32 <= 0x46 {
        c as u32 - 0x41 + 10
    } else {
        c as u32 - 0x61 + 10
    }
}

/// The value of a hexadecimal digit sequence, most significant first.
pub open spec fn hex_val(s: Seq<char>) -> int
    decreases s.len(),
{
    if s.len() == 0 {
        0
    } else {
        hex_val(s.drop_last()) * 16 + hex_digit_val(s.last())
    }
}

/// The character with the given code point.
pub open spec fn char_of_code(code: u32) -> char {
    code as char
}

/// A high surrogate code unit: the first half of an escaped pair.
pub open spec fn is_high_surrogate(v: int) -> bool {
    0xD800 <= v <= 0xDBFF
}

/// A low surrogate code unit: the second half of an escaped pair.
pub open spec fn is_low_surrogate(v: int) -> bool {
    0xDC00 <= v <= 0xDFFF
}

/// The code point an escaped surrogate pair stands for.
pub open spec fn pair_code(hi: int, lo: int) -> int {
    0x10000 + (hi - 0xD800) * 0x400 + (lo - 0xDC00)
}

/// One step of a unicode escape: the next hexadecimal digit goes into the
/// buffer; four digits give a character or the first half of a pair,
/// eight give the pair's character.
pub open spec fn jhex_step(st: JState, c: char, in_key: bool) -> JState {
    if !is_hex_digit(c) {
        JState { mode: JMode::Failed, ..st }
    } else {
        let nl = st.lit.push(c);
        if nl.len() == 4 {
            let v = hex_val(nl);
            if is_high_surrogate(v) {
                JState {
                    mode: if in_key {
                        JMode::KeyUP
                    } else {
                        JMode::StrUP
                    },
                    lit: nl,
                    ..st
                }
            } else if is_low_surrogate(v) {
                JState { mode: JMode::Failed, lit: nl, ..st }
            } else {
                if in_key {
                    JState {
                        mode: JMode::InKey,
                        key: st.key.push(char_of_code(v as u32)),
                        lit: Seq::empty(),
                        ..st
                    }
                } else {
                    JState {
                        mode: JMode::InStr,
                        acc: st.acc.push(char_of_code(v as u32)),
                        lit: Seq::empty(),
                        ..st
                    }
                }
            }
        } else if nl.len() == 8 {
            let lo = hex_val(nl.skip(4));
            if is_low_surrogate(lo) && is_high_surrogate(hex_val(nl.take(4))) {
                let code = pair_code(hex_val(nl.take(4)), lo);
                if in_key {
                    JState {
                        mode: JMode::InKey,
                        key: st.key.push(char_of_code(code as u32)),
                        lit: Seq::empty(),
                        ..st
                    }
                } else {
                    JState {
                        mode: JMode::InStr,
                        acc: st.acc.push(char_of_code(code as u32)),
                        lit: Seq::empty(),
                        ..st
                    }
                }
            } else {
                JState { mode: JMode::Failed, lit: nl, ..st }
            }
        } else {
            JState { lit: nl, ..st }
        }
    }
}

/// The state after a number's last digit, driven by the character that
/// ended it.
pub open spec fn jnum_end(st: JState, c: char) -> JState {
    let pushed = st.members.push((st.key, JValueModel::VOther));
    if is_jws(c) {
        JState { mode: JMode::AfterVal, members: pushed, ..st }
    } else if c == ',' {
        JState { mode: JMode::BeforeKey, members: pushed, ..st }
    } else if c == '}' {
        JState { mode: JMode::Done, members: pushed, ..st }
    } else {
        JState { mode: JMode::Failed, ..st }
    }
}

/// One step of the parser on one character.
pub open spec fn jstep(st: JState, c: char) -> JState {
    match st.mode {
        JMode::Failed => st,
        JMode::Start => if is_jws(c) {
            st
        } else if c == '{' {
            JState { mode: JMode::BeforeFirstKey, ..st }
        } else {
            JState { mode: JMode::Failed, ..st }
        },
        JMode::BeforeFirstKey => if is_jws(c) {
            st
        } else if c == '"' {
            JState { mode: JMode::InKey, key: Seq::empty(), ..st }
        } else if c == '}' {
            JState { mode: JMode::Done, ..st }
        } else {
            JState { mode: JMode::Failed, ..st }
        },
        JMode::BeforeKey => if is_jws(c) {
            st
        } else if c == '"' {
            JState { mode: JMode::InKey, key: Seq::empty(), ..st }
        } else {
            JState { mode: JMode::Failed, ..st }
        },
        JMode::InKey => if c == '"' {
            JState { mode: JMode::AfterKey, ..st }
        } else if c == '\\' {
            JState { mode: JMode::KeyEsc, ..st }
        } else if (c as u32) < 0x20 {
            JState { mode: JMode::Failed, ..st }
        } else {
            JState { key: st.key.push(c), ..st }
        },
        JMode::KeyEsc => match esc_char(c) {
            Some(e) => JState { mode: JMode::InKey, key: st.key.push(e), ..st },
            None => if c == 'u' {
                JState { mode: JMode::KeyU, lit: Seq::empty(), ..st }
            } else {
                JState { mode: JMode::Failed, ..st }
            },
        },
        JMode::KeyU => jhex_step(st, c, true),
        JMode::KeyUP => if c == '\\' {
            JState { mode: JMode::KeyUP2, ..st }
        } else {
            JState { mode: JMode::Failed, ..st }
        },
        JMode::KeyUP2 => if c == 'u' {
            JState { mode: JMode::KeyU, ..st }
        } else {
            JState { mode: JMode::Failed, ..st }
        },
        JMode::AfterKey => if is_jws(c) {
            st
        } else if c == ':' {
            JState { mode: JMode::BeforeVal, ..st }
        } else {
            JState { mode: JMode::Failed, ..st }
        },
        JMode::BeforeVal => if is_jws(c) {
            st
        } else if c == '"' {
            JState { mode: JMode::InStr, acc: Seq::empty(), ..st }
        } else if c == 't' {
            JState { mode: JMode::LitRest, lit: seq!['r', 'u', 'e'], lit_null: false, ..st }
        } else if c == 'f' {
            JState { mode: JMode::LitRest, lit: seq!['a', 'l', 's', 'e'], lit_null: false, ..st }
        } else if c == 'n' {
            JState { mode: JMode::LitRest, lit: seq!['u', 'l', 'l'], lit_null: true, ..st }
        } else if c == '{' {
            JState { mode: JMode::ValNest, lit: seq!['}'], ..st }
        } else if c == '[' {
            JState { mode: JMode::ValNest, lit: seq![']'], ..st }
        } else if c == '-' {
            JState { mode: JMode::NumNeg, ..st }
        } else if c as u32 == 0x30 {
            JState { mode: JMode::NumZero, ..st }
        } else if 0x31 <= c as u32 <= 0x39 {
            JState { mode: JMode::NumInt, ..st }
        } else {
            JState { mode: JMode::Failed, ..st }
        },
        JMode::InStr => if c == '"' {
            JState {
                mode: JMode::AfterVal,
                members: st.members.push((st.key, JValueModel::VStr(st.acc))),
                ..st
            }
        } else if c == '\\' {
            JState { mode: JMode::StrEsc, ..st }
        } else if (c as u32) < 0x20 {
            JState { mode: JMode::Failed, ..st }
        } else {
            JState { acc: st.acc.push(c), ..st }
        },
        JMode::StrEsc => match esc_char(c) {
            Some(e) => JState { mode: JMode::InStr, acc: st.acc.push(e), ..st },
            None => if c == 'u' {
                JState { mode: JMode::StrU, lit: Seq::empty(), ..st }
            } else {
                JState { mode: JMode::Failed, ..st }
            },
        },
        JMode::StrU => jhex_step(st, c, false),
        JMode::StrUP => if c == '\\' {
            JState { mode: JMode::StrUP2, ..st }
        } else {
            JState { mode: JMode::Failed, ..st }
        },
        JMode::StrUP2 => if c == 'u' {
            JState { mode: JMode::StrU, ..st }
        } else {
            JState { mode: JMode::Failed, ..st }
        },
        JMode::ValNest => if c == '{' {
            JState { lit: st.lit.push('}'), ..st }
        } else if c == '[' {
            JState { lit: st.lit.push(']'), ..st }
        } else if c == '"' {
            JState { mode: JMode::ValNestStr, ..st }
        } else if st.lit.len() > 0 && c == st.lit.last() {
            if st.lit.len() == 1 {
                JState {
                    mode: JMode::AfterVal,
                    members: st.members.push((st.key, JValueModel::VOther)),
                    lit: Seq::empty(),
                    ..st
                }
            } else {
                JState { lit: st.lit.drop_last(), ..st }
            }
        } else if c == '}' || c == ']' {
            JState { mode: JMode::Failed, ..st }
        } else {
            st
        },
        JMode::ValNestStr => if c == '"' {
            JState { mode: JMode::ValNest, ..st }
        } else if c == '\\' {
            JState { mode: JMode::ValNestEsc, ..st }
        } else if (c as u32) < 0x20 {
            JState { mode: JMode::Failed, ..st }
        } else {
            st
        },
        JMode::ValNestEsc => JState { mode: JMode::ValNestStr, ..st },
        JMode::LitRest => if st.lit.len() > 0 && c == st.lit[0] {
            if st.lit.len() == 1 {
                JState {
                    mode: JMode::AfterVal,
                    members: st.members.push(
                        (
                            st.key,
                            if st.lit_null {
                                JValueModel::VNull
                            } else {
                                JValueModel::VOther
                            },
                        ),
                    ),
                    lit: Seq::empty(),
                    ..st
                }
            } else {
                JState { lit: st.lit.skip(1), ..st }
            }
        } else {
            JState { mode: JMode::Failed, ..st }
        },
        JMode::NumNeg => if c as u32 == 0x30 {
            JState { mode: JMode::NumZero, ..st }
        } else if 0x31 <= c as u32 <= 0x39 {
            JState { mode: JMode::NumInt, ..st }
        } else {
            JState { mode: JMode::Failed, ..st }
        },
        JMode::NumZero => if c == '.' {
            JState { mode: JMode::NumDot, ..st }
        } else if c == 'e' || c == 'E' {
            JState { mode: JMode::NumE, ..st }
        } else {
            jnum_end(st, c)
        },
        JMode::NumInt => if is_jdigit(c) {
            st
        } else if c == '.' {
            JState { mode: JMode::NumDot, ..st }
        } else if c == 'e' || c == 'E' {
            JState { mode: JMode::NumE, ..st }
        } else {
            jnum_end(st, c)
        },
        JMode::NumDot => if is_jdigit(c) {
            JState { mode: JMode::NumFrac, ..st }
        } else {
            JState { mode: JMode::Failed, ..st }
        },
        JMode::NumFrac => if is_jdigit(c) {
            st
        } else if c == 'e' || c == 'E' {
            JState { mode: JMode::NumE, ..st }
        } else {
            jnum_end(st, c)
        },
        JMode::NumE => if c == '+' || c == '-' {
            JState { mode: JMode::NumESign, ..st }
        } else if is_jdigit(c) {
            JState { mode: JMode::NumExp, ..st }
        } else {
            JState { mode: JMode::Failed, ..st }
        },
        JMode::NumESign => if is_jdigit(c) {
            JState { mode: JMode::NumExp, ..st }
        } else {
            JState { mode: JMode::Failed, ..st }
        },
        JMode::NumExp => if is_jdigit(c) {
            st
        } else {
            jnum_end(st, c)
        },
        JMode::AfterVal => if is_jws(c) {
            st
        } else if c == ',' {
            JState { mode: JMode::BeforeKey, ..st }
        } else if c == '}' {
            JState { mode: JMode::Done, ..st }
        } else {
            JState { mode: JMode::Failed, ..st }
        },
        JMode::Done => if is_jws(c) {
            st
        } else {
            JState { mode: JMode::Failed, ..st }
        },
    }
}

/// What the parser yields once the line ends.
pub open spec fn jfinish(st: JState) -> Option<Seq<(Seq<char>, JValueModel)>> {
    if st.mode == JMode::Done {
        Some(st.members)
    } else {
        None
    }
}

/// Runs the parser from a state over the rest of the line.
pub open spec fn jrun(st: JState, s: Seq<char>, i: int) -> Option<Seq<(Seq<char>, JValueModel)>>
    decreases s.len() - i,
{
    if i < 0 || i >= s.len() {
        jfinish(st)
    } else {
        jrun(jstep(st, s[i]), s, i + 1)
    }
}

/// The members of the line, when it is one object of the grammar: a brace
/// pair around comma-separated members, each a quoted key, a colon, and a
/// value, with blank space between tokens. A value is a quoted string
/// (with the eight single-character escapes and `\uXXXX` escapes,
/// surrogate pairs included), a number, `true`, `false`, `null`, or an
/// object or array, which is skipped: such a value is read only for its
/// bracket pairing and its quoted strings, and stands in the member list
/// as an opaque non-string.
pub open spec fn parse_object_spec(s: Seq<char>) -> Option<Seq<(Seq<char>, JValueModel)>> {
    jrun(jinit(), s, 0)
}

/// Blank space between tokens.
fn is_jws_exec(c: char) -> (r: bool)
    ensures
        r == is_jws(c),
{
    c == ' ' || c == '\t' || c == '\n' || c == '\r'
}

/// A hexadecimal digit.
fn is_hex_digit_exec(c: char) -> (r: bool)
    ensures
        r == is_hex_digit(c),
{
    let v = c as u32;
    (v >= 0x30 && v <= 0x39) || (v >= 0x41 && v <= 0x46) || (v >= 0x61 && v <= 0x66)
}

/// The numeric value of one hexadecimal digit.
fn hex_digit(c: char) -> (r: u32)
    requires
        is_hex_digit(c),
    ensures
        r == hex_digit_val(c),
        r < 16,
{
    let v = c as u32;
    if v <= 0x39 {
        v - 0x30
    } else if v <= 0x46 {
        v - 0x41 + 10
    } else {
        v - 0x61 + 10
    }
}

proof fn lemma_hex4(s: Seq<char>, i: int)
    requires
        0 <= i,
        i + 4 <= s.len(),
    ensures
        hex_val(s.subrange(i, i + 4)) == ((hex_digit_val(s[i]) * 16 + hex_digit_val(s[i + 1]))
            * 16 + hex_digit_val(s[i + 2])) * 16 + hex_digit_val(s[i + 3]),
{
    let t1 = s.subrange(i, i + 1);
    let t2 = s.subrange(i, i + 2);
    let t3 = s.subrange(i, i + 3);
    let t4 = s.subrange(i, i + 4);
    assert(t1.drop_last() =~= Seq::<char>::empty());
    assert(t1.last() == s[i]);
    assert(hex_val(Seq::<char>::empty()) == 0);
    assert(hex_val(t1) == hex_digit_val(s[i]));
    assert(t2.drop_last() =~= t1);
    assert(t2.last() == s[i + 1]);
    assert(hex_val(t2) == hex_val(t1) * 16 + hex_digit_val(s[i + 1]));
    assert(t3.drop_last() =~= t2);
    assert(t3.last() == s[i + 2]);
    assert(hex_val(t3) == hex_val(t2) * 16 + hex_digit_val(s[i + 2]));
    assert(t4.drop_last() =~= t3);
    assert(t4.last() == s[i + 3]);
    assert(hex_val(t4) == hex_val(t3) * 16 + hex_digit_val(s[i + 3]));
}

/// The value of the four hexadecimal digits starting at `from`.
fn hex4(v: &Vec<char>, from: usize) -> (r: u32)
    requires
        from + 4 <= v@.len(),
        forall|k: int| from <= k < from + 4 ==> is_hex_digit(#[trigger] v@[k]),
    ensures
        r == hex_val(v@.subrange(from as int, from as int + 4)),
        r <= 0xFFFF,
{
    proof {
        lemma_hex4(v@, from as int);
    }
    let _n = v.len();
    ((hex_digit(v[from]) * 16 + hex_digit(v[from + 1])) * 16 + hex_digit(v[from + 2])) * 16
        + hex_digit(v[from + 3])
}

/// Relies on `char::from_u32`: the character with the given code point.
#[verifier::external_body]
fn char_from_code(code: u32) -> (c: char)
    requires
        code < 0xD800 || (0xE000 <= code && code < 0x11_0000),
    ensures
        c as u32 == code,
{
    match char::from_u32(code) {
        Some(c) => c,
        None => ' ',
    }
}

/// What a backslash escape stands for.
fn esc_char_exec(c: char) -> (r: Option<char>)
    ensures
        r == esc_char(c),
{
    if c == '"' {
        Some('"')
    } else if c == '\\' {
        Some('\\')
    } else if c == '/' {
        Some('/')
    } else if c == 'b' {
        Some((0x08 as u8) as char)
    } else if c == 'f' {
        Some((0x0C as u8) as char)
    } else if c == 'n' {
        Some('\n')
    } else if c == 'r' {
        Some('\r')
    } else if c == 't' {
        Some('\t')
    } else {
        None
    }
}

proof fn lemma_members_push(ms: Seq<JMember>, m: JMember)
    ensures
        members_view(ms.push(m)) =~= members_view(ms).push(member_view(m)),
{
}

/// Reads the line as one object of the grammar, handing back its members
/// in line order; nothing when the line is not such an object.
#[verifier::rlimit(100)]
pub fn parse_flat_object(line: &Vec<char>) -> (r: Option<Vec<JMember>>)
    ensures
        r is Some <==> parse_object_spec(line@) is Some,
        r matches Some(ms) ==> parse_object_spec(line@) == Some(members_view(ms@)),
{
    let n = line.len();
    let mut mode = JMode::Start;
    let mut key: Vec<char> = Vec::new();
    let mut acc: Vec<char> = Vec::new();
    let mut lit: Vec<char> = Vec::new();
    let mut lit_null = false;
    let mut members: Vec<JMember> = Vec::new();
    let mut i: usize = 0;
    let ghost g0 = jinit();
    proof {
        assert(members_view(members@) =~= Seq::<(Seq<char>, JValueModel)>::empty());
        assert(abs_state(mode, key@, acc@, lit@, lit_null, members_view(members@)) == g0);
    }
    while i < n
        invariant
            n == line@.len(),
            i <= n,
            (mode == JMode::KeyU || mode == JMode::KeyUP || mode == JMode::KeyUP2 || mode
                == JMode::StrU || mode == JMode::StrUP || mode == JMode::StrUP2) ==> forall|
                k: int,
            | 0 <= k < lit@.len() ==> is_hex_digit(#[trigger] lit@[k]),
            jrun(
                abs_state(mode, key@, acc@, lit@, lit_null, members_view(members@)),
                line@,
                i as int,
            ) == parse_object_spec(line@),
        decreases n - i,
    {
        let c = line[i];
        let ghost pre = abs_state(mode, key@, acc@, lit@, lit_null, members_view(members@));
        match mode {
            JMode::Failed => {},
            JMode::Start => {
                if is_jws_exec(c) {
                } else if c == '{' {
                    mode = JMode::BeforeFirstKey;
                } else {
                    mode = JMode::Failed;
                }
            },
            JMode::BeforeFirstKey => {
                if is_jws_exec(c) {
                } else if c == '"' {
                    mode = JMode::InKey;
                    key = Vec::new();
                } else if c == '}' {
                    mode = JMode::Done;
                } else {
                    mode = JMode::Failed;
                }
            },
            JMode::BeforeKey => {
                if is_jws_exec(c) {
                } else if c == '"' {
                    mode = JMode::InKey;
                    key = Vec::new();
                } else {
                    mode = JMode::Failed;
                }
            },
            JMode::InKey => {
                if c == '"' {
                    mode = JMode::AfterKey;
                } else if c == '\\' {
                    mode = JMode::KeyEsc;
                } else if (c as u32) < 0x20 {
                    mode = JMode::Failed;
                } else {
                    key.push(c);
                }
            },
            JMode::KeyEsc => {
                match esc_char_exec(c) {
                    Some(e) => {
                        mode = JMode::InKey;
                        key.push(e);
                    },
                    None => {
                        if c == 'u' {
                            mode = JMode::KeyU;
                            lit = Vec::new();
                        } else {
                            mode = JMode::Failed;
                        }
                    },
                }
            },
            JMode::KeyU => {
                if !is_hex_digit_exec(c) {
                    mode = JMode::Failed;
                } else {
                    lit.push(c);
                    if lit.len() == 4 {
                        let v = hex4(&lit, 0);
                        proof {
                            assert(lit@.subrange(0, 4) =~= lit@);
                        }
                        if v >= 0xD800 && v <= 0xDBFF {
                            mode = JMode::KeyUP;
                        } else if v >= 0xDC00 && v <= 0xDFFF {
                            mode = JMode::Failed;
                        } else {
                            let ch = char_from_code(v);
                            proof {
                                assert(v as int == hex_val(lit@));
                                assert(char_of_code(v) as u32 == v);
                                assert(ch == char_of_code(v));
                            }
                            key.push(ch);
                            lit = Vec::new();
                            mode = JMode::InKey;
                        }
                    } else if lit.len() == 8 {
                        let lo = hex4(&lit, 4);
                        let hi = hex4(&lit, 0);
                        proof {
                            assert(lit@.subrange(4, 8) =~= lit@.skip(4));
                            assert(lit@.subrange(0, 4) =~= lit@.take(4));
                        }
                        if lo >= 0xDC00 && lo <= 0xDFFF && hi >= 0xD800 && hi <= 0xDBFF {
                            let code = 0x10000 + (hi - 0xD800) * 0x400 + (lo - 0xDC00);
                            let ch = char_from_code(code);
                            proof {
                                assert(code as int == pair_code(
                                    hex_val(lit@.take(4)),
                                    hex_val(lit@.skip(4)),
                                ));
                                assert(char_of_code(code) as u32 == code);
                                assert(ch == char_of_code(code));
                            }
                            key.push(ch);
                            lit = Vec::new();
                            mode = JMode::InKey;
                        } else {
                            mode = JMode::Failed;
                        }
                    }
                }
            },
            JMode::KeyUP => {
                if c == '\\' {
                    mode = JMode::KeyUP2;
                } else {
                    mode = JMode::Failed;
                }
            },
            JMode::KeyUP2 => {
                if c == 'u' {
                    mode = JMode::KeyU;
                } else {
                    mode = JMode::Failed;
                }
            },
            JMode::AfterKey => {
                if is_jws_exec(c) {
                } else if c == ':' {
                    mode = JMode::BeforeVal;
                } else {
                    mode = JMode::Failed;
                }
            },
            JMode::BeforeVal => {
                if is_jws_exec(c) {
                } else if c == '"' {
                    mode = JMode::InStr;
                    acc = Vec::new();
                } else if c == 't' {
                    mode = JMode::LitRest;
                    lit = vec!['r', 'u', 'e'];
                    lit_null = false;
                } else if c == 'f' {
                    mode = JMode::LitRest;
                    lit = vec!['a', 'l', 's', 'e'];
                    lit_null = false;
                } else if c == 'n' {
                    mode = JMode::LitRest;
                    lit = vec!['u', 'l', 'l'];
                    lit_null = true;
                } else if c == '{' {
                    mode = JMode::ValNest;
                    lit = vec!['}'];
                } else if c == '[' {
                    mode = JMode::ValNest;
                    lit = vec![']'];
                } else if c == '-' {
                    mode = JMode::NumNeg;
                } else if (c as u32) == 0x30 {
                    mode = JMode::NumZero;
                } else if (c as u32) >= 0x31 && (c as u32) <= 0x39 {
                    mode = JMode::NumInt;
                } else {
                    mode = JMode::Failed;
                }
            },
            JMode::InStr => {
                if c == '"' {
                    mode = JMode::AfterVal;
                    let ghost ms0 = members@;
                    members.push(
                        JMember {
                            key: crate::text::chars_to_string(&key),
                            value: JValue::JStr(crate::text::chars_to_string(&acc)),
                        },
                    );
                    proof {
                        lemma_members_push(ms0, members@.last());
                    }
                } else if c == '\\' {
                    mode = JMode::StrEsc;
                } else if (c as u32) < 0x20 {
                    mode = JMode::Failed;
                } else {
                    acc.push(c);
                }
            },
            JMode::StrEsc => {
                match esc_char_exec(c) {
                    Some(e) => {
                        mode = JMode::InStr;
                        acc.push(e);
                    },
                    None => {
                        if c == 'u' {
                            mode = JMode::StrU;
                            lit = Vec::new();
                        } else {
                            mode = JMode::Failed;
                        }
                    },
                }
            },
            JMode::StrU => {
                if !is_hex_digit_exec(c) {
                    mode = JMode::Failed;
                } else {
                    lit.push(c);
                    if lit.len() == 4 {
                        let v = hex4(&lit, 0);
                        proof {
                            assert(lit@.subrange(0, 4) =~= lit@);
                        }
                        if v >= 0xD800 && v <= 0xDBFF {
                            mode = JMode::StrUP;
                        } else if v >= 0xDC00 && v <= 0xDFFF {
                            mode = JMode::Failed;
                        } else {
                            let ch = char_from_code(v);
                            proof {
                                assert(v as int == hex_val(lit@));
                                assert(char_of_code(v) as u32 == v);
                                assert(ch == char_of_code(v));
                            }
                            acc.push(ch);
                            lit = Vec::new();
                            mode = JMode::InStr;
                        }
                    } else if lit.len() == 8 {
                        let lo = hex4(&lit, 4);
                        let hi = hex4(&lit, 0);
                        proof {
                            assert(lit@.subrange(4, 8) =~= lit@.skip(4));
                            assert(lit@.subrange(0, 4) =~= lit@.take(4));
                        }
                        if lo >= 0xDC00 && lo <= 0xDFFF && hi >= 0xD800 && hi <= 0xDBFF {
                            let code = 0x10000 + (hi - 0xD800) * 0x400 + (lo - 0xDC00);
                            let ch = char_from_code(code);
                            proof {
                                assert(code as int == pair_code(
                                    hex_val(lit@.take(4)),
                                    hex_val(lit@.skip(4)),
                                ));
                                assert(char_of_code(code) as u32 == code);
                                assert(ch == char_of_code(code));
                            }
                            acc.push(ch);
                            lit = Vec::new();
                            mode = JMode::InStr;
                        } else {
                            mode = JMode::Failed;
                        }
                    }
                }
            },
            JMode::StrUP => {
                if c == '\\' {
                    mode = JMode::StrUP2;
                } else {
                    mode = JMode::Failed;
                }
            },
            JMode::StrUP2 => {
                if c == 'u' {
                    mode = JMode::StrU;
                } else {
                    mode = JMode::Failed;
                }
            },
            JMode::ValNest => {
                if c == '{' {
                    lit.push('}');
                } else if c == '[' {
                    lit.push(']');
                } else if c == '"' {
                    mode = JMode::ValNestStr;
                } else if lit.len() > 0 && c == lit[lit.len() - 1] {
                    if lit.len() == 1 {
                        mode = JMode::AfterVal;
                        let ghost ms0 = members@;
                        members.push(
                            JMember {
                                key: crate::text::chars_to_string(&key),
                                value: JValue::JOther,
                            },
                        );
                        lit = Vec::new();
                        proof {
                            lemma_members_push(ms0, members@.last());
                        }
                    } else {
                        let _closed = lit.pop();
                        proof {
                            assert(lit@ =~= pre.lit.drop_last());
                        }
                    }
                } else if c == '}' || c == ']' {
                    mode = JMode::Failed;
                } else {
                }
            },
            JMode::ValNestStr => {
                if c == '"' {
                    mode = JMode::ValNest;
                } else if c == '\\' {
                    mode = JMode::ValNestEsc;
                } else if (c as u32) < 0x20 {
                    mode = JMode::Failed;
                } else {
                }
            },
            JMode::ValNestEsc => {
                mode = JMode::ValNestStr;
            },
            JMode::LitRest => {
                if lit.len() > 0 && c == lit[0] {
                    if lit.len() == 1 {
                        mode = JMode::AfterVal;
                        let ghost ms0 = members@;
                        members.push(
                            JMember {
                                key: crate::text::chars_to_string(&key),
                                value: if lit_null {
                                    JValue::JNull
                                } else {
                                    JValue::JOther
                                },
                            },
                        );
                        lit = Vec::new();
                        proof {
                            lemma_members_push(ms0, members@.last());
                        }
                    } else {
                        let rest = crate::text::tail_chars(&lit);
                        lit = rest;
                    }
                } else {
                    mode = JMode::Failed;
                }
            },
            JMode::NumNeg => {
                if (c as u32) == 0x30 {
                    mode = JMode::NumZero;
                } else if (c as u32) >= 0x31 && (c as u32) <= 0x39 {
                    mode = JMode::NumInt;
                } else {
                    mode = JMode::Failed;
                }
            },
            JMode::NumZero => {
                if c == '.' {
                    mode = JMode::NumDot;
                } else if c == 'e' || c == 'E' {
                    mode = JMode::NumE;
                } else {
                    let ghost ms0 = members@;
                    let ended = num_end_exec(
                        c,
                        &mut mode,
                        &key,
                        &mut members,
                    );
                    proof {
                        if ended {
                            lemma_members_push(ms0, members@.last());
                        }
                    }
                }
            },
            JMode::NumInt => {
                if (c as u32) >= 0x30 && (c as u32) <= 0x39 {
                } else if c == '.' {
                    mode = JMode::NumDot;
                } else if c == 'e' || c == 'E' {
                    mode = JMode::NumE;
                } else {
                    let ghost ms0 = members@;
                    let ended = num_end_exec(c, &mut mode, &key, &mut members);
                    proof {
                        if ended {
                            lemma_members_push(ms0, members@.last());
                        }
                    }
                }
            },
            JMode::NumDot => {
                if (c as u32) >= 0x30 && (c as u32) <= 0x39 {
                    mode = JMode::NumFrac;
                } else {
                    mode = JMode::Failed;
                }
            },
            JMode::NumFrac => {
                if (c as u32) >= 0x30 && (c as u32) <= 0x39 {
                } else if c == 'e' || c == 'E' {
                    mode = JMode::NumE;
                } else {
                    let ghost ms0 = members@;
                    let ended = num_end_exec(c, &mut mode, &key, &mut members);
                    proof {
                        if ended {
                            lemma_members_push(ms0, members@.last());
                        }
                    }
                }
            },
            JMode::NumE => {
                if c == '+' || c == '-' {
                    mode = JMode::NumESign;
                } else if (c as u32) >= 0x30 && (c as u32) <= 0x39 {
                    mode = JMode::NumExp;
                } else {
                    mode = JMode::Failed;
                }
            },
            JMode::NumESign => {
                if (c as u32) >= 0x30 && (c as u32) <= 0x39 {
                    mode = JMode::NumExp;
                } else {
                    mode = JMode::Failed;
                }
            },
            JMode::NumExp => {
                if (c as u32) >= 0x30 && (c as u32) <= 0x39 {
                } else {
                    let ghost ms0 = members@;
                    let ended = num_end_exec(c, &mut mode, &key, &mut members);
                    proof {
                        if ended {
                            lemma_members_push(ms0, members@.last());
                        }
                    }
                }
            },
            JMode::AfterVal => {
                if is_jws_exec(c) {
                } else if c == ',' {
                    mode = JMode::BeforeKey;
                } else if c == '}' {
                    mode = JMode::Done;
                } else {
                    mode = JMode::Failed;
                }
            },
            JMode::Done => {
                if is_jws_exec(c) {
                } else {
                    mode = JMode::Failed;
                }
            },
        }
        proof {
            assert(abs_state(mode, key@, acc@, lit@, lit_null, members_view(members@)) =~~= jstep(
                pre,
                line@[i as int],
            ));
        }
        i += 1;
    }
    match mode {
        JMode::Done => Some(members),
        _ => {
            proof {
                assert(jfinish(abs_state(mode, key@, acc@, lit@, lit_null, members_view(members@)))
                    is None);
            }
            None
        },
    }
}

/// The abstract state the concrete locals stand for.
pub open spec fn abs_state(
    mode: JMode,
    key: Seq<char>,
    acc: Seq<char>,
    lit: Seq<char>,
    lit_null: bool,
    members: Seq<(Seq<char>, JValueModel)>,
) -> JState {
    JState { mode, key, acc, lit, lit_null, members }
}

/// Ends a number member on the character after its last digit.
fn num_end_exec(c: char, mode: &mut JMode, key: &Vec<char>, members: &mut Vec<JMember>) -> (ended:
    bool)
    ensures
        ({
            let st0 = abs_state(
                *old(mode),
                key@,
                Seq::empty(),
                Seq::empty(),
                false,
                members_view(old(members)@),
            );
            let st1 = jnum_end(st0, c);
            &&& *final(mode) == st1.mode
            &&& members_view(final(members)@) == st1.members
            &&& ended == (st1.mode != JMode::Failed)
        }),
{
    let ghost ms0 = members@;
    if is_jws_exec(c) {
        *mode = JMode::AfterVal;
    } else if c == ',' {
        *mode = JMode::BeforeKey;
    } else if c == '}' {
        *mode = JMode::Done;
    } else {
        *mode = JMode::Failed;
        return false;
    }
    members.push(
        JMember { key: crate::text::chars_to_string(key), value: JValue::JOther },
    );
    proof {
        lemma_members_push(ms0, members@.last());
    }
    true
}

} // verus!
