//! The parser: a lookahead-one recursive descent over a character
//! sequence, with line/column counters kept on every consumed character.
//!
//! The spec functions below define, position by position, what the
//! parser consumes, what value it yields, and at which consumed-prefix
//! length each error is raised; the executable parser is proved to
//! follow them exactly. Fuel bounds the value-level recursion; the
//! executable parser carries the same fuel as ghost state, so its
//! contracts never meet the out-of-fuel case.

use vstd::prelude::*;

use crate::num::number_bits_of_literal;
use crate::text::{chars_of, dec_chars, push_chars, push_str_chars, spec_dec, spec_hex_val,
    string_from_chars};
use crate::value::{JsonValue, SpecValue, spec_obj_insert};

verus! {

broadcast use vstd::std_specs::vec::group_vec_axioms, vstd::seq::group_seq_axioms;

/// JSON's four whitespace characters, and no others.
pub open spec fn is_ws(c: char) -> bool {
    c == ' ' || c == '\n' || c == '\r' || c == '\t'
}

/// An ASCII decimal digit.
pub open spec fn is_digit(c: char) -> bool {
    '0' <= c && c <= '9'
}

/// The first position at or after `i` holding a non-whitespace
/// character, or the end of the text.
pub open spec fn skip_ws(s: Seq<char>, i: int) -> int
    decreases s.len() - i,
{
    if i >= s.len() {
        s.len() as int
    } else if is_ws(s[i]) {
        skip_ws(s, i + 1)
    } else {
        i
    }
}

/// Whitespace skipping moves forward and never past the end.
pub broadcast proof fn lemma_skip_ws(s: Seq<char>, i: int)
    ensures
        i <= s.len() ==> i <= #[trigger] skip_ws(s, i) <= s.len(),
        i > s.len() ==> skip_ws(s, i) == s.len(),
        skip_ws(s, i) < s.len() ==> !is_ws(s[skip_ws(s, i)]),
    decreases s.len() - i,
{
    if i < s.len() && is_ws(s[i]) {
        lemma_skip_ws(s, i + 1);
    }
}

/// The end of the digit run starting at `i`.
pub open spec fn digits_end(s: Seq<char>, i: int) -> int
    decreases s.len() - i,
{
    if i >= s.len() {
        i
    } else if is_digit(s[i]) {
        digits_end(s, i + 1)
    } else {
        i
    }
}

/// A digit run moves forward and never past the end.
pub broadcast proof fn lemma_digits_end(s: Seq<char>, i: int)
    ensures
        i <= #[trigger] digits_end(s, i),
        i <= s.len() ==> digits_end(s, i) <= s.len(),
        forall|k: int| i <= k < digits_end(s, i) ==> is_digit(#[trigger] s[k]),
        i <= s.len() && digits_end(s, i) < s.len() ==> !is_digit(s[digits_end(s, i)]),
    decreases s.len() - i,
{
    if i < s.len() && is_digit(s[i]) {
        lemma_digits_end(s, i + 1);
    }
}

/// The 1-based line number after `n` consumed characters.
pub open spec fn spec_line(s: Seq<char>, n: int) -> int
    decreases n,
{
    if n <= 0 {
        1
    } else if s[n - 1] == '\n' {
        spec_line(s, n - 1) + 1
    } else {
        spec_line(s, n - 1)
    }
}

/// The column number after `n` consumed characters: characters since
/// the last line feed.
pub open spec fn spec_col(s: Seq<char>, n: int) -> int
    decreases n,
{
    if n <= 0 {
        0
    } else if s[n - 1] == '\n' {
        0
    } else {
        spec_col(s, n - 1) + 1
    }
}

/// Line and column stay within the consumed prefix.
pub broadcast proof fn lemma_line_col_bounds(s: Seq<char>, n: int)
    ensures
        1 <= #[trigger] spec_line(s, n),
        0 <= #[trigger] spec_col(s, n),
        n >= 0 ==> spec_line(s, n) <= n + 1,
        n >= 0 ==> spec_col(s, n) <= n,
    decreases n,
{
    if n > 0 {
        lemma_line_col_bounds(s, n - 1);
    }
}

/// What went wrong, with the offending character where one was read.
#[derive(Debug, Clone, Copy, PartialEq, Eq)]
pub enum JsonErrorKind {
    /// End of input where a token or closing delimiter was expected.
    UnexpectedEof,
    /// A character no JSON value can start with.
    InvalidCharacter(char),
    /// An object key that is not a string.
    KeyNotString,
    /// Something other than `:` after an object key.
    ExpectedColon(char),
    /// Something other than `,` or `}` after an object member.
    ExpectedCommaOrCloseBrace(char),
    /// Something other than `,` or `]` after an array element.
    ExpectedCommaOrCloseBracket(char),
    /// An unknown escape after a backslash.
    InvalidEscape(char),
    /// A non-hexadecimal character inside a `\u` escape.
    InvalidUnicodeEscape(char),
    /// An unpaired or misordered UTF-16 surrogate.
    InvalidUtf16,
    /// A raw control character inside a string literal.
    ControlCharInString(char),
    /// A missing digit in a number's integer part.
    ExpectedIntDigit(char),
    /// A missing digit after a number's decimal point.
    ExpectedFracDigit(char),
    /// A missing digit in a number's exponent.
    ExpectedExpDigit(char),
    /// The wrong character inside a literal keyword; carries the
    /// character found and the one expected.
    LiteralMismatch(char, char),
    /// A non-whitespace character after the top-level value.
    TrailingCharacter(char),
}

/// One step of the specification parser: a parsed result with the
/// position after it, an error with the consumed-prefix length at which
/// it is raised, or exhausted fuel (which the contracts rule out).
pub enum SpecParse<T> {
    Parsed(T, int),
    Failed(JsonErrorKind, int),
    OutOfFuel,
}

/// What the parser consumes and yields for a number starting at `i`:
/// an optional minus, a mandatory digit run, an optional fraction, an
/// optional exponent; the accumulated literal read as a 64-bit float.
pub open spec fn spec_parse_number(s: Seq<char>, i: int) -> SpecParse<u64> {
    let i1 = if i < s.len() && s[i] == '-' {
        i + 1
    } else {
        i
    };
    if i1 >= s.len() {
        SpecParse::Failed(JsonErrorKind::UnexpectedEof, s.len() as int)
    } else if !is_digit(s[i1]) {
        SpecParse::Failed(JsonErrorKind::ExpectedIntDigit(s[i1]), i1 + 1)
    } else {
        let i2 = digits_end(s, i1 + 1);
        if i2 < s.len() && s[i2] == '.' {
            if i2 + 1 >= s.len() {
                SpecParse::Failed(JsonErrorKind::UnexpectedEof, s.len() as int)
            } else if !is_digit(s[i2 + 1]) {
                SpecParse::Failed(JsonErrorKind::ExpectedFracDigit(s[i2 + 1]), i2 + 2)
            } else {
                spec_parse_number_exp(s, i, digits_end(s, i2 + 2))
            }
        } else {
            spec_parse_number_exp(s, i, i2)
        }
    }
}

/// The exponent part of a number that started at `start` and whose
/// digits so far end at `i3`.
pub open spec fn spec_parse_number_exp(s: Seq<char>, start: int, i3: int) -> SpecParse<u64> {
    if i3 < s.len() && (s[i3] == 'e' || s[i3] == 'E') {
        let i4 = if i3 + 1 < s.len() && (s[i3 + 1] == '-' || s[i3 + 1] == '+') {
            i3 + 2
        } else {
            i3 + 1
        };
        if i4 >= s.len() {
            SpecParse::Failed(JsonErrorKind::UnexpectedEof, s.len() as int)
        } else if !is_digit(s[i4]) {
            SpecParse::Failed(JsonErrorKind::ExpectedExpDigit(s[i4]), i4 + 1)
        } else {
            let end = digits_end(s, i4 + 1);
            SpecParse::Parsed(number_bits_of_literal(s.subrange(start, end)), end)
        }
    } else {
        SpecParse::Parsed(number_bits_of_literal(s.subrange(start, i3)), i3)
    }
}

/// The text is one complete numeric literal.
pub open spec fn json_number_token(s: Seq<char>) -> bool {
    spec_parse_number(s, 0) matches SpecParse::Parsed(_, end) && end == s.len()
}

/// The character a two-character escape stands for, if the escape is
/// one of the eight the grammar names.
pub open spec fn escape_of(e: char) -> Option<char> {
    if e == '\\' {
        Some('\\')
    } else if e == '/' {
        Some('/')
    } else if e == '"' {
        Some('"')
    } else if e == 'b' {
        Some('\u{8}')
    } else if e == 'f' {
        Some('\u{c}')
    } else if e == 'n' {
        Some('\n')
    } else if e == 'r' {
        Some('\r')
    } else if e == 't' {
        Some('\t')
    } else {
        None
    }
}

/// Four hexadecimal digits read one by one, with no whitespace
/// skipping, accumulating a 16-bit code unit.
pub open spec fn spec_read_hex(s: Seq<char>, i: int, n: nat, acc: u16) -> SpecParse<u16>
    decreases n,
{
    if n == 0 {
        SpecParse::Parsed(acc, i)
    } else if i >= s.len() {
        SpecParse::Failed(JsonErrorKind::UnexpectedEof, s.len() as int)
    } else {
        match spec_hex_val(s[i]) {
            Some(d) => spec_read_hex(
                s,
                i + 1,
                (n - 1) as nat,
                (acc * 16 + d as u16) as u16,
            ),
            None => SpecParse::Failed(JsonErrorKind::InvalidUnicodeEscape(s[i]), i + 1),
        }
    }
}

/// Reading hex digits moves forward and never past the end.
pub proof fn lemma_read_hex(s: Seq<char>, i: int, n: nat, acc: u16)
    ensures
        spec_read_hex(s, i, n, acc) matches SpecParse::Parsed(_, j) ==> (n > 0 ==> i < j
            <= s.len()),
    decreases n,
{
    if n > 0 {
        if i < s.len() && spec_hex_val(s[i]) is Some {
            lemma_read_hex(s, i + 1, (n - 1) as nat, (acc * 16 + spec_hex_val(s[i])->0 as u16) as u16);
        }
    }
}

/// UTF-16 decoding of buffered `\u` code units: basic-plane units
/// directly, surrogate pairs combined, anything unpaired rejected.
pub open spec fn spec_utf16_decode(units: Seq<u16>) -> Option<Seq<char>>
    decreases units.len(),
{
    if units.len() == 0 {
        Some(Seq::empty())
    } else {
        let u = units[0];
        if u < 0xD800 || u >= 0xE000 {
            match spec_utf16_decode(units.drop_first()) {
                Some(rest) => Some(seq![(u as u32) as char] + rest),
                None => None,
            }
        } else if u < 0xDC00 && units.len() >= 2 && 0xDC00 <= units[1] && units[1] < 0xE000 {
            let cp = 0x10000 + (u - 0xD800) * 0x400 + (units[1] - 0xDC00);
            match spec_utf16_decode(units.skip(2)) {
                Some(rest) => Some(seq![(cp as u32) as char] + rest),
                None => None,
            }
        } else {
            None
        }
    }
}

/// The body of a string literal from position `i` (after the opening
/// quote), with the buffered code units and the characters built so
/// far; yields the string's characters and the position after the
/// closing quote.
pub open spec fn spec_str_body(s: Seq<char>, i: int, units: Seq<u16>, acc: Seq<char>) -> SpecParse<
    Seq<char>,
>
    decreases s.len() - i,
    via spec_str_body_dec
{
    if i >= s.len() {
        SpecParse::Failed(JsonErrorKind::UnexpectedEof, s.len() as int)
    } else {
        let c = s[i];
        if c == '\\' {
            if i + 1 >= s.len() {
                SpecParse::Failed(JsonErrorKind::UnexpectedEof, s.len() as int)
            } else {
                let e = s[i + 1];
                if e == 'u' {
                    match spec_read_hex(s, i + 2, 4, 0) {
                        SpecParse::Parsed(u, j) => spec_str_body(s, j, units.push(u), acc),
                        SpecParse::Failed(k, p) => SpecParse::Failed(k, p),
                        SpecParse::OutOfFuel => SpecParse::OutOfFuel,
                    }
                } else {
                    match escape_of(e) {
                        Some(c2) => match spec_utf16_decode(units) {
                            Some(d) => spec_str_body(s, i + 2, Seq::empty(), acc + d + seq![c2]),
                            None => SpecParse::Failed(JsonErrorKind::InvalidUtf16, i + 2),
                        },
                        None => SpecParse::Failed(JsonErrorKind::InvalidEscape(e), i + 2),
                    }
                }
            }
        } else if c == '"' {
            match spec_utf16_decode(units) {
                Some(d) => SpecParse::Parsed(acc + d, i + 1),
                None => SpecParse::Failed(JsonErrorKind::InvalidUtf16, i + 1),
            }
        } else if (c as u32) < 0x20 {
            SpecParse::Failed(JsonErrorKind::ControlCharInString(c), i + 1)
        } else {
            match spec_utf16_decode(units) {
                Some(d) => spec_str_body(s, i + 1, Seq::empty(), acc + d + seq![c]),
                None => SpecParse::Failed(JsonErrorKind::InvalidUtf16, i + 1),
            }
        }
    }
}

#[via_fn]
proof fn spec_str_body_dec(s: Seq<char>, i: int, units: Seq<u16>, acc: Seq<char>) {
    if i < s.len() && s[i] == '\\' && i + 1 < s.len() && s[i + 1] == 'u' {
        lemma_read_hex(s, i + 2, 4, 0);
    }
}

/// A whole string literal whose opening quote stands at `i`.
pub open spec fn spec_parse_string(s: Seq<char>, i: int) -> SpecParse<Seq<char>> {
    spec_str_body(s, i + 1, Seq::empty(), Seq::empty())
}

/// A literal keyword matched character by character, with no
/// whitespace skipping inside.
pub open spec fn spec_parse_literal(s: Seq<char>, i: int, lit: Seq<char>) -> SpecParse<()>
    decreases lit.len(),
{
    if lit.len() == 0 {
        SpecParse::Parsed((), i)
    } else if i >= s.len() {
        SpecParse::Failed(JsonErrorKind::UnexpectedEof, s.len() as int)
    } else if s[i] != lit[0] {
        SpecParse::Failed(JsonErrorKind::LiteralMismatch(s[i], lit[0]), i + 1)
    } else {
        spec_parse_literal(s, i + 1, lit.drop_first())
    }
}

/// One JSON value from position `i`: whitespace, then dispatch on the
/// first character.
pub open spec fn spec_parse_value(s: Seq<char>, i: int, fuel: nat) -> SpecParse<SpecValue>
    decreases fuel, 3int,
{
    if fuel == 0 {
        SpecParse::OutOfFuel
    } else {
        let j = skip_ws(s, i);
        if j >= s.len() {
            SpecParse::Failed(JsonErrorKind::UnexpectedEof, s.len() as int)
        } else {
            let c = s[j];
            if is_digit(c) || c == '-' {
                match spec_parse_number(s, j) {
                    SpecParse::Parsed(bits, k) => SpecParse::Parsed(SpecValue::Number(bits), k),
                    SpecParse::Failed(k, p) => SpecParse::Failed(k, p),
                    SpecParse::OutOfFuel => SpecParse::OutOfFuel,
                }
            } else if c == '"' {
                match spec_parse_string(s, j) {
                    SpecParse::Parsed(cs, k) => SpecParse::Parsed(SpecValue::String(cs), k),
                    SpecParse::Failed(k, p) => SpecParse::Failed(k, p),
                    SpecParse::OutOfFuel => SpecParse::OutOfFuel,
                }
            } else if c == '[' {
                spec_parse_array(s, j, fuel)
            } else if c == '{' {
                spec_parse_object(s, j, fuel)
            } else if c == 't' {
                match spec_parse_literal(s, j, seq!['t', 'r', 'u', 'e']) {
                    SpecParse::Parsed(_, k) => SpecParse::Parsed(SpecValue::Boolean(true), k),
                    SpecParse::Failed(k, p) => SpecParse::Failed(k, p),
                    SpecParse::OutOfFuel => SpecParse::OutOfFuel,
                }
            } else if c == 'f' {
                match spec_parse_literal(s, j, seq!['f', 'a', 'l', 's', 'e']) {
                    SpecParse::Parsed(_, k) => SpecParse::Parsed(SpecValue::Boolean(false), k),
                    SpecParse::Failed(k, p) => SpecParse::Failed(k, p),
                    SpecParse::OutOfFuel => SpecParse::OutOfFuel,
                }
            } else if c == 'n' {
                match spec_parse_literal(s, j, seq!['n', 'u', 'l', 'l']) {
                    SpecParse::Parsed(_, k) => SpecParse::Parsed(SpecValue::Null, k),
                    SpecParse::Failed(k, p) => SpecParse::Failed(k, p),
                    SpecParse::OutOfFuel => SpecParse::OutOfFuel,
                }
            } else {
                SpecParse::Failed(JsonErrorKind::InvalidCharacter(c), j)
            }
        }
    }
}

/// An array whose opening bracket stands at `i`: the empty case first,
/// else one element and then `spec_parse_array_rest`.
pub open spec fn spec_parse_array(s: Seq<char>, i: int, fuel: nat) -> SpecParse<SpecValue>
    decreases fuel, 2int,
{
    if fuel == 0 {
        SpecParse::OutOfFuel
    } else {
        let j = skip_ws(s, i + 1);
        if j >= s.len() {
            SpecParse::Failed(JsonErrorKind::UnexpectedEof, s.len() as int)
        } else if s[j] == ']' {
            SpecParse::Parsed(SpecValue::Array(Seq::empty()), j + 1)
        } else {
            match spec_parse_value(s, i + 1, (fuel - 1) as nat) {
                SpecParse::Parsed(v, k) => spec_parse_array_rest(s, k, seq![v], (fuel - 1) as nat),
                SpecParse::Failed(k, p) => SpecParse::Failed(k, p),
                SpecParse::OutOfFuel => SpecParse::OutOfFuel,
            }
        }
    }
}

/// After an array element: a comma and another element, the closing
/// bracket, or an error.
pub open spec fn spec_parse_array_rest(
    s: Seq<char>,
    i: int,
    acc: Seq<SpecValue>,
    fuel: nat,
) -> SpecParse<SpecValue>
    decreases fuel, 2int,
{
    if fuel == 0 {
        SpecParse::OutOfFuel
    } else {
        let j = skip_ws(s, i);
        if j >= s.len() {
            SpecParse::Failed(JsonErrorKind::UnexpectedEof, s.len() as int)
        } else if s[j] == ',' {
            match spec_parse_value(s, j + 1, (fuel - 1) as nat) {
                SpecParse::Parsed(v, k) => spec_parse_array_rest(s, k, acc.push(v), (fuel - 1) as nat),
                SpecParse::Failed(k, p) => SpecParse::Failed(k, p),
                SpecParse::OutOfFuel => SpecParse::OutOfFuel,
            }
        } else if s[j] == ']' {
            SpecParse::Parsed(SpecValue::Array(acc), j + 1)
        } else {
            SpecParse::Failed(JsonErrorKind::ExpectedCommaOrCloseBracket(s[j]), j + 1)
        }
    }
}

/// One `key: value` member of an object, from position `i`.
pub open spec fn spec_parse_member(
    s: Seq<char>,
    i: int,
    acc: Seq<(Seq<char>, SpecValue)>,
    fuel: nat,
) -> SpecParse<Seq<(Seq<char>, SpecValue)>>
    decreases fuel, 4int,
{
    if fuel == 0 {
        SpecParse::OutOfFuel
    } else {
        match spec_parse_value(s, i, fuel) {
            SpecParse::Parsed(key, k) => {
                if !(key is String) {
                    SpecParse::Failed(JsonErrorKind::KeyNotString, k)
                } else {
                    let j = skip_ws(s, k);
                    if j >= s.len() {
                        SpecParse::Failed(JsonErrorKind::UnexpectedEof, s.len() as int)
                    } else if s[j] != ':' {
                        SpecParse::Failed(JsonErrorKind::ExpectedColon(s[j]), j + 1)
                    } else {
                        match spec_parse_value(s, j + 1, fuel) {
                            SpecParse::Parsed(v, k2) => SpecParse::Parsed(
                                spec_obj_insert(acc, key->String_0, v),
                                k2,
                            ),
                            SpecParse::Failed(kk, p) => SpecParse::Failed(kk, p),
                            SpecParse::OutOfFuel => SpecParse::OutOfFuel,
                        }
                    }
                }
            },
            SpecParse::Failed(k, p) => SpecParse::Failed(k, p),
            SpecParse::OutOfFuel => SpecParse::OutOfFuel,
        }
    }
}

/// An object whose opening brace stands at `i`: the empty case first,
/// else one member and then `spec_parse_object_rest`.
pub open spec fn spec_parse_object(s: Seq<char>, i: int, fuel: nat) -> SpecParse<SpecValue>
    decreases fuel, 2int,
{
    if fuel == 0 {
        SpecParse::OutOfFuel
    } else {
        let j = skip_ws(s, i + 1);
        if j >= s.len() {
            SpecParse::Failed(JsonErrorKind::UnexpectedEof, s.len() as int)
        } else if s[j] == '}' {
            SpecParse::Parsed(SpecValue::Object(Seq::empty()), j + 1)
        } else {
            match spec_parse_member(s, i + 1, Seq::empty(), (fuel - 1) as nat) {
                SpecParse::Parsed(acc, k) => spec_parse_object_rest(s, k, acc, (fuel - 1) as nat),
                SpecParse::Failed(k, p) => SpecParse::Failed(k, p),
                SpecParse::OutOfFuel => SpecParse::OutOfFuel,
            }
        }
    }
}

/// After an object member: a comma and another member, the closing
/// brace, or an error.
pub open spec fn spec_parse_object_rest(
    s: Seq<char>,
    i: int,
    acc: Seq<(Seq<char>, SpecValue)>,
    fuel: nat,
) -> SpecParse<SpecValue>
    decreases fuel, 2int,
{
    if fuel == 0 {
        SpecParse::OutOfFuel
    } else {
        let j = skip_ws(s, i);
        if j >= s.len() {
            SpecParse::Failed(JsonErrorKind::UnexpectedEof, s.len() as int)
        } else if s[j] == ',' {
            match spec_parse_member(s, j + 1, acc, (fuel - 1) as nat) {
                SpecParse::Parsed(acc2, k) => spec_parse_object_rest(s, k, acc2, (fuel - 1) as nat),
                SpecParse::Failed(k, p) => SpecParse::Failed(k, p),
                SpecParse::OutOfFuel => SpecParse::OutOfFuel,
            }
        } else if s[j] == '}' {
            SpecParse::Parsed(SpecValue::Object(acc), j + 1)
        } else {
            SpecParse::Failed(JsonErrorKind::ExpectedCommaOrCloseBrace(s[j]), j + 1)
        }
    }
}

/// One top-level value from position `i`, with only whitespace allowed
/// to follow it.
pub open spec fn spec_parse_text(s: Seq<char>, i: int) -> SpecParse<SpecValue> {
    match spec_parse_value(s, i, (s.len() + 1) as nat) {
        SpecParse::Parsed(v, k) => {
            let j = skip_ws(s, k);
            if j < s.len() {
                SpecParse::Failed(JsonErrorKind::TrailingCharacter(s[j]), j + 1)
            } else {
                SpecParse::Parsed(v, j)
            }
        },
        SpecParse::Failed(k, p) => SpecParse::Failed(k, p),
        SpecParse::OutOfFuel => SpecParse::OutOfFuel,
    }
}

/// The whole text as one JSON value.
pub open spec fn spec_parse(s: Seq<char>) -> SpecParse<SpecValue> {
    spec_parse_text(s, 0)
}

/// The message each error kind carries.
pub open spec fn spec_message(kind: JsonErrorKind) -> Seq<char> {
    match kind {
        JsonErrorKind::UnexpectedEof => "Unexpected EOF"@,
        JsonErrorKind::InvalidCharacter(c) => "Invalid character: "@ + seq![c],
        JsonErrorKind::KeyNotString => "Key of object must be string"@,
        JsonErrorKind::ExpectedColon(c) => "':' is expected after key of object but actually found '"@
            + seq![c] + "'"@,
        JsonErrorKind::ExpectedCommaOrCloseBrace(c) => "',' or '}' is expected for object but actually found '"@
            + seq![c] + "'"@,
        JsonErrorKind::ExpectedCommaOrCloseBracket(c) => "',' or ']' is expected for array but actually found '"@
            + seq![c] + "'"@,
        JsonErrorKind::InvalidEscape(c) => "'\\"@ + seq![c] + "' is invalid escaped character"@,
        JsonErrorKind::InvalidUnicodeEscape(c) => "Unicode character must be \\uXXXX (X is hex character) format but found character '"@
            + seq![c] + "'"@,
        JsonErrorKind::InvalidUtf16 => "Invalid UTF-16 sequence"@,
        JsonErrorKind::ControlCharInString(c) => "String cannot contain control character "@
            + seq![c],
        JsonErrorKind::ExpectedIntDigit(c) => "Expected '0'~'9' for integer part of number but got "@
            + seq![c],
        JsonErrorKind::ExpectedFracDigit(c) => "At least one digit must follow after '.' but got "@
            + seq![c],
        JsonErrorKind::ExpectedExpDigit(c) => "At least one digit must follow exponent part of number but got "@
            + seq![c],
        JsonErrorKind::LiteralMismatch(found, expected) => "Unexpected character '"@ + seq![found]
            + "' while parsing '"@ + seq![expected] + "'"@,
        JsonErrorKind::TrailingCharacter(c) => "Expected EOF but got character '"@ + seq![c]
            + "'"@,
    }
}

/// The message each error kind carries.
fn message_of(kind: JsonErrorKind) -> (r: String)
    ensures
        r@ == spec_message(kind),
{
    let mut out: Vec<char> = Vec::new();
    match kind {
        JsonErrorKind::UnexpectedEof => {
            push_str_chars(&mut out, "Unexpected EOF");
        },
        JsonErrorKind::InvalidCharacter(c) => {
            push_str_chars(&mut out, "Invalid character: ");
            out.push(c);
        },
        JsonErrorKind::KeyNotString => {
            push_str_chars(&mut out, "Key of object must be string");
        },
        JsonErrorKind::ExpectedColon(c) => {
            push_str_chars(&mut out, "':' is expected after key of object but actually found '");
            out.push(c);
            push_str_chars(&mut out, "'");
        },
        JsonErrorKind::ExpectedCommaOrCloseBrace(c) => {
            push_str_chars(&mut out, "',' or '}' is expected for object but actually found '");
            out.push(c);
            push_str_chars(&mut out, "'");
        },
        JsonErrorKind::ExpectedCommaOrCloseBracket(c) => {
            push_str_chars(&mut out, "',' or ']' is expected for array but actually found '");
            out.push(c);
            push_str_chars(&mut out, "'");
        },
        JsonErrorKind::InvalidEscape(c) => {
            push_str_chars(&mut out, "'\\");
            out.push(c);
            push_str_chars(&mut out, "' is invalid escaped character");
        },
        JsonErrorKind::InvalidUnicodeEscape(c) => {
            push_str_chars(
                &mut out,
                "Unicode character must be \\uXXXX (X is hex character) format but found character '",
            );
            out.push(c);
            push_str_chars(&mut out, "'");
        },
        JsonErrorKind::InvalidUtf16 => {
            push_str_chars(&mut out, "Invalid UTF-16 sequence");
        },
        JsonErrorKind::ControlCharInString(c) => {
            push_str_chars(&mut out, "String cannot contain control character ");
            out.push(c);
        },
        JsonErrorKind::ExpectedIntDigit(c) => {
            push_str_chars(&mut out, "Expected '0'~'9' for integer part of number but got ");
            out.push(c);
        },
        JsonErrorKind::ExpectedFracDigit(c) => {
            push_str_chars(&mut out, "At least one digit must follow after '.' but got ");
            out.push(c);
        },
        JsonErrorKind::ExpectedExpDigit(c) => {
            push_str_chars(
                &mut out,
                "At least one digit must follow exponent part of number but got ",
            );
            out.push(c);
        },
        JsonErrorKind::LiteralMismatch(found, expected) => {
            push_str_chars(&mut out, "Unexpected character '");
            out.push(found);
            push_str_chars(&mut out, "' while parsing '");
            out.push(expected);
            push_str_chars(&mut out, "'");
        },
        JsonErrorKind::TrailingCharacter(c) => {
            push_str_chars(&mut out, "Expected EOF but got character '");
            out.push(c);
            push_str_chars(&mut out, "'");
        },
    }
    string_from_chars(&out)
}

/// A parse failure: a message and the 1-based line and column where
/// recognition failed.
#[derive(Debug)]
pub struct JsonParseError {
    msg: String,
    line: usize,
    col: usize,
}

impl JsonParseError {
    /// The message, for specifications.
    pub closed spec fn spec_msg(self) -> Seq<char> {
        self.msg@
    }

    /// The line number, for specifications.
    pub closed spec fn spec_line_num(self) -> int {
        self.line as int
    }

    /// The column number, for specifications.
    pub closed spec fn spec_col_num(self) -> int {
        self.col as int
    }

    /// The 1-based line where the parse error happened.
    pub fn line(&self) -> (r: usize)
        ensures
            r == self.spec_line_num(),
    {
        self.line
    }

    /// The 1-based column where the parse error happened.
    pub fn column(&self) -> (r: usize)
        ensures
            r == self.spec_col_num(),
    {
        self.col
    }

    /// The error's message.
    pub fn message(&self) -> (r: &str)
        ensures
            r@ == self.spec_msg(),
    {
        self.msg.as_str()
    }

    /// The error rendered as one line of text.
    pub fn to_display_string(&self) -> (r: String)
        ensures
            r@ == "Parse error at line:"@ + spec_dec(self.spec_line_num() as nat) + ", col:"@
                + spec_dec(self.spec_col_num() as nat) + ": "@ + self.spec_msg(),
    {
        let mut out: Vec<char> = Vec::new();
        push_str_chars(&mut out, "Parse error at line:");
        let lv = dec_chars(self.line);
        push_chars(&mut out, &lv);
        push_str_chars(&mut out, ", col:");
        let cv = dec_chars(self.col);
        push_chars(&mut out, &cv);
        push_str_chars(&mut out, ": ");
        push_str_chars(&mut out, self.msg.as_str());
        string_from_chars(&out)
    }
}

/// Convenient alias for parse results.
pub type JsonParseResult = Result<JsonValue, JsonParseError>;

/// The error value carries the message of `kind` and the line and
/// column of the position `p` in `s`.
pub open spec fn err_matches(e: JsonParseError, s: Seq<char>, kind: JsonErrorKind, p: int) -> bool {
    e.spec_msg() == spec_message(kind) && e.spec_line_num() == spec_line(s, p)
        && e.spec_col_num() == spec_col(s, p)
}

/// A run of digits bounded on both sides determines `digits_end`.
pub(crate) proof fn lemma_digits_end_range(s: Seq<char>, x: int, y: int)
    requires
        0 <= x <= y <= s.len(),
        forall|k: int| x <= k < y ==> is_digit(#[trigger] s[k]),
        y == s.len() || !is_digit(s[y]),
    ensures
        digits_end(s, x) == y,
    decreases y - x,
{
    if x < y {
        lemma_digits_end_range(s, x + 1, y);
    }
}

/// JSON's whitespace characters, and no others.
fn is_ws_char(c: char) -> (r: bool)
    ensures
        r == is_ws(c),
{
    c == ' ' || c == '\n' || c == '\r' || c == '\t'
}

/// An ASCII decimal digit.
pub(crate) fn is_digit_char(c: char) -> (r: bool)
    ensures
        r == is_digit(c),
{
    '0' <= c && c <= '9'
}

/// The recursive-descent JSON parser: a character cursor with running
/// line and column counters.
pub struct JsonParser {
    chars: Vec<char>,
    pos: usize,
    line: usize,
    col: usize,
}

impl JsonParser {
    /// The parsed text, for specifications.
    pub closed spec fn text(self) -> Seq<char> {
        self.chars@
    }

    /// The cursor position, for specifications.
    pub closed spec fn spec_pos(self) -> int {
        self.pos as int
    }

    /// The cursor is within the text and the line and column counters
    /// agree with the consumed prefix.
    pub closed spec fn wf(self) -> bool {
        &&& self.pos <= self.chars@.len()
        &&& self.chars@.len() < usize::MAX
        &&& self.line == spec_line(self.chars@, self.pos as int)
        &&& self.col == spec_col(self.chars@, self.pos as int)
    }

    /// A parser over the given text, at line 1, column 0.
    pub fn new(text: &str) -> (r: Self)
        requires
            text@.len() < usize::MAX,
        ensures
            r.wf(),
            r.text() == text@,
            r.spec_pos() == 0,
    {
        JsonParser { chars: chars_of(text), pos: 0, line: 1, col: 0 }
    }

    /// An error of the given kind at the current position.
    fn err_at(&self, kind: JsonErrorKind) -> (e: JsonParseError)
        requires
            self.wf(),
        ensures
            e.spec_msg() == spec_message(kind),
            e.spec_line_num() == spec_line(self.text(), self.spec_pos()),
            e.spec_col_num() == spec_col(self.text(), self.spec_pos()),
    {
        JsonParseError { msg: message_of(kind), line: self.line, col: self.col }
    }

    /// Step over the character under the cursor, keeping line and
    /// column counters right.
    fn advance(&mut self)
        requires
            old(self).wf(),
            old(self).spec_pos() < old(self).text().len(),
        ensures
            final(self).wf(),
            final(self).text() == old(self).text(),
            final(self).spec_pos() == old(self).spec_pos() + 1,
    {
        proof {
            lemma_line_col_bounds(self.chars@, self.pos as int);
        }
        let c = self.chars[self.pos];
        if c == '\n' {
            self.line = self.line + 1;
            self.col = 0;
        } else {
            self.col = self.col + 1;
        }
        self.pos = self.pos + 1;
    }

    /// Skip whitespace and look at the next character without
    /// consuming it; fail at the end of input.
    fn peek(&mut self) -> (r: Result<char, JsonParseError>)
        requires
            old(self).wf(),
        ensures
            final(self).wf(),
            final(self).text() == old(self).text(),
            final(self).spec_pos() == skip_ws(old(self).text(), old(self).spec_pos()),
            match r {
                Ok(c) => final(self).spec_pos() < final(self).text().len() && c == final(self).text()[final(self).spec_pos()],
                Err(e) => final(self).spec_pos() == final(self).text().len() && e.spec_msg()
                    == spec_message(JsonErrorKind::UnexpectedEof) && e.spec_line_num() == spec_line(
                    final(self).text(),
                    final(self).text().len() as int,
                ) && e.spec_col_num() == spec_col(
                    final(self).text(),
                    final(self).text().len() as int,
                ),
            },
    {
        while self.pos < self.chars.len() && is_ws_char(self.chars[self.pos])
            invariant
                self.wf(),
                self.chars@ == old(self).chars@,
                skip_ws(old(self).text(), old(self).spec_pos()) == skip_ws(
                    self.text(),
                    self.spec_pos(),
                ),
            decreases self.chars@.len() - self.pos,
        {
            self.advance();
        }
        if self.pos < self.chars.len() {
            Ok(self.chars[self.pos])
        } else {
            Err(self.err_at(JsonErrorKind::UnexpectedEof))
        }
    }

    /// Skip whitespace and consume the next character; fail at the end
    /// of input.
    fn consume(&mut self) -> (r: Result<char, JsonParseError>)
        requires
            old(self).wf(),
        ensures
            final(self).wf(),
            final(self).text() == old(self).text(),
            match r {
                Ok(c) => {
                    let j = skip_ws(old(self).text(), old(self).spec_pos());
                    j < old(self).text().len() && c == old(self).text()[j] && final(self).spec_pos() == j + 1
                },
                Err(e) => final(self).spec_pos() == final(self).text().len() && skip_ws(
                    old(self).text(),
                    old(self).spec_pos(),
                ) == final(self).text().len() && e.spec_msg() == spec_message(
                    JsonErrorKind::UnexpectedEof,
                ) && e.spec_line_num() == spec_line(
                    final(self).text(),
                    final(self).text().len() as int,
                ) && e.spec_col_num() == spec_col(
                    final(self).text(),
                    final(self).text().len() as int,
                ),
            },
    {
        match self.peek() {
            Ok(c) => {
                self.advance();
                Ok(c)
            },
            Err(e) => Err(e),
        }
    }

    /// Consume the next character with no whitespace skipping; fail at
    /// the end of input.
    fn consume_no_skip(&mut self) -> (r: Result<char, JsonParseError>)
        requires
            old(self).wf(),
        ensures
            final(self).wf(),
            final(self).text() == old(self).text(),
            match r {
                Ok(c) => old(self).spec_pos() < old(self).text().len() && c == old(self).text()[old(self).spec_pos()] && final(self).spec_pos() == old(self).spec_pos() + 1,
                Err(e) => old(self).spec_pos() == old(self).text().len() && *final(self) == *old(self) && e.spec_msg() == spec_message(JsonErrorKind::UnexpectedEof) && e.spec_line_num()
                    == spec_line(final(self).text(), final(self).text().len() as int)
                    && e.spec_col_num() == spec_col(
                    final(self).text(),
                    final(self).text().len() as int,
                ),
            },
    {
        if self.pos < self.chars.len() {
            let c = self.chars[self.pos];
            self.advance();
            Ok(c)
        } else {
            Err(self.err_at(JsonErrorKind::UnexpectedEof))
        }
    }

    /// Append the digit run under the cursor to `lit` and step over it.
    #[verifier::loop_isolation(false)]
    fn scan_digits(&mut self, lit: &mut Vec<char>)
        requires
            old(self).wf(),
        ensures
            final(self).wf(),
            final(self).text() == old(self).text(),
            final(self).spec_pos() == digits_end(old(self).text(), old(self).spec_pos()),
            final(lit)@ == old(lit)@ + old(self).text().subrange(
                old(self).spec_pos(),
                final(self).spec_pos(),
            ),
    {
        let ghost s = self.chars@;
        let ghost p0 = self.pos as int;
        while self.pos < self.chars.len() && is_digit_char(self.chars[self.pos])
            invariant
                self.wf(),
                self.chars@ == s,
                p0 <= self.pos as int <= s.len(),
                forall|k: int| p0 <= k < self.pos as int ==> is_digit(#[trigger] s[k]),
                lit@ == old(lit)@ + s.subrange(p0, self.pos as int),
            decreases s.len() - self.pos,
        {
            lit.push(self.chars[self.pos]);
            proof {
                assert(s.subrange(p0, self.pos + 1 as int) =~= s.subrange(
                    p0,
                    self.pos as int,
                ).push(s[self.pos as int]));
            }
            self.advance();
        }
        proof {
            lemma_digits_end_range(s, p0, self.pos as int);
        }
    }

    /// One number: optional minus, integer digits, optional fraction,
    /// optional exponent; the literal text read as a 64-bit float.
    #[verifier::loop_isolation(false)]
    #[verifier::rlimit(100)]
    fn parse_number(&mut self) -> (r: Result<JsonValue, JsonParseError>)
        requires
            old(self).wf(),
        ensures
            final(self).wf(),
            final(self).text() == old(self).text(),
            match spec_parse_number(old(self).text(), old(self).spec_pos()) {
                SpecParse::Parsed(bits, k) => r matches Ok(v) && v@ == SpecValue::Number(bits)
                    && final(self).spec_pos() == k && k > old(self).spec_pos(),
                SpecParse::Failed(kind, p) => r matches Err(e) && err_matches(
                    e,
                    old(self).text(),
                    kind,
                    p,
                ),
                SpecParse::OutOfFuel => false,
            },
    {
        broadcast use lemma_digits_end;

        let ghost s = self.chars@;
        let ghost i0 = self.pos as int;
        let mut lit: Vec<char> = Vec::new();
        if self.pos < self.chars.len() && self.chars[self.pos] == '-' {
            lit.push('-');
            self.advance();
        }
        let ghost i1 = self.pos as int;
        proof {
            assert(lit@ =~= s.subrange(i0, i1));
        }
        let c = match self.consume_no_skip() {
            Ok(c) => c,
            Err(e) => {
                return Err(e);
            },
        };
        if !is_digit_char(c) {
            return Err(self.err_at(JsonErrorKind::ExpectedIntDigit(c)));
        }
        lit.push(c);
        proof {
            assert(lit@ =~= s.subrange(i0, i1 + 1));
        }
        self.scan_digits(&mut lit);
        let ghost i2 = self.pos as int;
        proof {
            assert(i2 == digits_end(s, i1 + 1));
            assert(lit@ =~= s.subrange(i0, i2));
        }
        let mut has_frac: bool = false;
        if self.pos < self.chars.len() && self.chars[self.pos] == '.' {
            has_frac = true;
            lit.push('.');
            self.advance();
            let c2 = match self.consume_no_skip() {
                Ok(c2) => c2,
                Err(e) => {
                    return Err(e);
                },
            };
            if !is_digit_char(c2) {
                return Err(self.err_at(JsonErrorKind::ExpectedFracDigit(c2)));
            }
            lit.push(c2);
            proof {
                assert(lit@ =~= s.subrange(i0, i2 + 2));
            }
            self.scan_digits(&mut lit);
        }
        let ghost i3 = self.pos as int;
        proof {
            if has_frac {
                assert(i3 == digits_end(s, i2 + 2));
            } else {
                assert(i3 == i2);
            }
            assert(lit@ =~= s.subrange(i0, i3));
        }
        let mut has_exp: bool = false;
        let ghost mut i4 = i3;
        if self.pos < self.chars.len() && (self.chars[self.pos] == 'e' || self.chars[self.pos]
            == 'E') {
            has_exp = true;
            lit.push(self.chars[self.pos]);
            self.advance();
            if self.pos < self.chars.len() && (self.chars[self.pos] == '-' || self.chars[self.pos]
                == '+') {
                lit.push(self.chars[self.pos]);
                self.advance();
            }
            proof {
                i4 = self.pos as int;
            }
            let c3 = match self.consume_no_skip() {
                Ok(c3) => c3,
                Err(e) => {
                    return Err(e);
                },
            };
            if !is_digit_char(c3) {
                return Err(self.err_at(JsonErrorKind::ExpectedExpDigit(c3)));
            }
            lit.push(c3);
            proof {
                assert(lit@ =~= s.subrange(i0, i4 + 1));
            }
            self.scan_digits(&mut lit);
        }
        let ghost end = self.pos as int;
        proof {
            if has_exp {
                assert(end == digits_end(s, i4 + 1));
            }
            assert(lit@ =~= s.subrange(i0, end));
            assert(spec_parse_number(s, i0) == SpecParse::<u64>::Parsed(
                number_bits_of_literal(s.subrange(i0, end)),
                end,
            ));
            lemma_number_token(s, i0, i1, i2, has_frac, i3, has_exp, i4, end);
        }
        let txt = string_from_chars(&lit);
        match crate::num::parse_number_bits(txt.as_str()) {
            Some(bits) => Ok(JsonValue::Number(bits)),
            None => vstd::pervasive::unreached(),
        }
    }
}

/// The eight named escapes, as executable code.
fn escape_char_of(e: char) -> (r: Option<char>)
    ensures
        r == escape_of(e),
{
    if e == '\\' {
        Some('\\')
    } else if e == '/' {
        Some('/')
    } else if e == '"' {
        Some('"')
    } else if e == 'b' {
        Some('\u{8}')
    } else if e == 'f' {
        Some('\u{c}')
    } else if e == 'n' {
        Some('\n')
    } else if e == 'r' {
        Some('\r')
    } else if e == 't' {
        Some('\t')
    } else {
        None
    }
}

/// UTF-16 decoding of buffered code units, as executable code.
#[verifier::loop_isolation(false)]
fn decode_utf16_units(units: &Vec<u16>) -> (r: Option<Vec<char>>)
    ensures
        match r {
            Some(d) => spec_utf16_decode(units@) == Some(d@),
            None => spec_utf16_decode(units@) is None,
        },
{
    let mut out: Vec<char> = Vec::new();
    proof {
        assert(units@.skip(0) =~= units@);
    }
    let mut i: usize = 0;
    while i < units.len()
        invariant
            i <= units@.len(),
            spec_utf16_decode(units@) == (match spec_utf16_decode(units@.skip(i as int)) {
                Some(rest) => Some(out@ + rest),
                None => None::<Seq<char>>,
            }),
        decreases units@.len() - i,
    {
        let u = units[i];
        if u < 0xD800 || u >= 0xE000 {
            match crate::text::char_from_u32(u as u32) {
                Some(c) => {
                    proof {
                        vstd::utf8::char_u32_cast(c, u as u32);
                        assert(units@.skip(i as int).drop_first() =~= units@.skip(i + 1 as int));
                    }
                    out.push(c);
                    i = i + 1;
                },
                None => {
                    return vstd::pervasive::unreached();
                },
            }
        } else if u < 0xDC00 && i + 1 < units.len() && 0xDC00 <= units[i + 1] && units[i + 1]
            < 0xE000 {
            let lo = units[i + 1];
            let cp: u32 = 0x10000 + ((u as u32) - 0xD800) * 0x400 + ((lo as u32) - 0xDC00);
            match crate::text::char_from_u32(cp) {
                Some(c) => {
                    proof {
                        vstd::utf8::char_u32_cast(c, cp);
                        assert(units@.skip(i as int).skip(2) =~= units@.skip(i + 2 as int));
                    }
                    out.push(c);
                    i = i + 2;
                },
                None => {
                    return vstd::pervasive::unreached();
                },
            }
        } else {
            return None;
        }
    }
    proof {
        assert(units@.skip(units@.len() as int) =~= Seq::<u16>::empty());
        assert(out@ + Seq::<char>::empty() == out@);
    }
    Some(out)
}

/// Decode and append the buffered code units, emptying the buffer; a
/// failed decode reports an invalid UTF-16 sequence.
fn flush_units(units: &mut Vec<u16>, acc: &mut Vec<char>) -> (ok: bool)
    ensures
        ok ==> (spec_utf16_decode(old(units)@) matches Some(d) && final(acc)@ == old(acc)@ + d
            && final(units)@ == Seq::<u16>::empty()),
        !ok ==> spec_utf16_decode(old(units)@) is None,
{
    match decode_utf16_units(units) {
        Some(d) => {
            push_chars(acc, &d);
            units.clear();
            true
        },
        None => false,
    }
}

/// A literal laid out as minus, integer digits, fraction, exponent is
/// one complete numeric token.
#[verifier::rlimit(100)]
pub(crate) proof fn lemma_number_token(
    s: Seq<char>,
    i0: int,
    i1: int,
    i2: int,
    has_frac: bool,
    i3: int,
    has_exp: bool,
    i4: int,
    end: int,
)
    requires
        0 <= i0 <= i1 <= s.len(),
        i1 == if i0 < s.len() && s[i0] == '-' {
            i0 + 1
        } else {
            i0
        },
        i1 < s.len(),
        is_digit(s[i1]),
        i2 == digits_end(s, i1 + 1),
        has_frac <==> (i2 < s.len() && s[i2] == '.'),
        has_frac ==> i2 + 1 < s.len() && is_digit(s[i2 + 1]) && i3 == digits_end(s, i2 + 2),
        !has_frac ==> i3 == i2,
        has_exp <==> (i3 < s.len() && (s[i3] == 'e' || s[i3] == 'E')),
        has_exp ==> i4 == (if i3 + 1 < s.len() && (s[i3 + 1] == '-' || s[i3 + 1] == '+') {
            i3 + 2
        } else {
            i3 + 1
        }) && i4 < s.len() && is_digit(s[i4]) && end == digits_end(s, i4 + 1),
        !has_exp ==> i4 == i3 && end == i3,
    ensures
        json_number_token(s.subrange(i0, end)),
        number_bits_of_literal(s.subrange(i0, end)) == (match spec_parse_number(s, i0) {
            SpecParse::Parsed(bits, _) => bits,
            _ => 0,
        }),
{
    broadcast use lemma_digits_end;

    let t = s.subrange(i0, end);
    assert(i1 + 1 <= i2);
    assert(has_frac ==> i2 + 2 <= i3);
    assert(has_exp ==> i4 + 1 <= end);
    assert(i0 <= i1 <= i2 <= i3 <= i4 <= end <= s.len());
    assert(forall|k: int| 0 <= k < t.len() ==> t[k] == s[i0 + k]);
    let j1 = i1 - i0;
    let j2 = i2 - i0;
    let j3 = i3 - i0;
    let j4 = i4 - i0;
    let jend = end - i0;
    assert(j1 == if 0 < t.len() && t[0] == '-' {
        1int
    } else {
        0int
    });
    assert(is_digit(t[j1]));
    lemma_digits_end_range(t, j1 + 1, j2);
    assert(digits_end(t, j1 + 1) == j2);
    if has_frac {
        assert(t[j2] == '.');
        assert(is_digit(t[j2 + 1]));
        lemma_digits_end_range(t, j2 + 2, j3);
        assert(digits_end(t, j2 + 2) == j3);
    }
    if has_exp {
        assert(t[j3] == 'e' || t[j3] == 'E');
        assert(j4 == if j3 + 1 < t.len() && (t[j3 + 1] == '-' || t[j3 + 1] == '+') {
            j3 + 2
        } else {
            j3 + 1
        });
        assert(is_digit(t[j4]));
        lemma_digits_end_range(t, j4 + 1, jend);
        assert(digits_end(t, j4 + 1) == jend);
    }
    assert(t.subrange(0, t.len() as int) =~= t);
    assert(spec_parse_number(t, 0) == SpecParse::<u64>::Parsed(
        number_bits_of_literal(t),
        t.len() as int,
    ));
}

impl JsonParser {
    /// One string literal, the cursor standing on its opening quote.
    #[verifier::loop_isolation(false)]
    #[verifier::rlimit(100)]
    fn parse_string(&mut self) -> (r: Result<JsonValue, JsonParseError>)
        requires
            old(self).wf(),
            old(self).spec_pos() < old(self).text().len(),
        ensures
            final(self).wf(),
            final(self).text() == old(self).text(),
            match spec_parse_string(old(self).text(), old(self).spec_pos()) {
                SpecParse::Parsed(cs, k) => r matches Ok(v) && v@ == SpecValue::String(cs)
                    && final(self).spec_pos() == k && k > old(self).spec_pos(),
                SpecParse::Failed(kind, p) => r matches Err(e) && err_matches(
                    e,
                    old(self).text(),
                    kind,
                    p,
                ),
                SpecParse::OutOfFuel => false,
            },
    {
        broadcast use lemma_skip_ws;

        let ghost s = self.chars@;
        let ghost i0 = self.spec_pos();
        self.advance();
        let mut units: Vec<u16> = Vec::new();
        let mut acc: Vec<char> = Vec::new();
        proof {
            assert(spec_parse_string(s, i0) == spec_str_body(s, i0 + 1, units@, acc@));
        }
        loop
            invariant
                self.wf(),
                self.chars@ == s,
                i0 < self.spec_pos() <= s.len(),
                spec_parse_string(s, i0) == spec_str_body(s, self.spec_pos(), units@, acc@),
            decreases s.len() - self.spec_pos(),
        {
            let c = match self.consume_no_skip() {
                Ok(c) => c,
                Err(e) => {
                    return Err(e);
                },
            };
            if c == '\\' {
                let e2 = match self.consume_no_skip() {
                    Ok(x) => x,
                    Err(e) => {
                        return Err(e);
                    },
                };
                if e2 == 'u' {
                    let ghost h0 = self.spec_pos();
                    let mut u: u16 = 0;
                    let mut k: usize = 0;
                    while k < 4
                        invariant
                            self.wf(),
                            self.chars@ == s,
                            k <= 4,
                            h0 <= self.spec_pos() <= s.len(),
                            spec_read_hex(s, h0, 4nat, 0) == spec_read_hex(
                                s,
                                self.spec_pos(),
                                (4 - k) as nat,
                                u,
                            ),
                        decreases 4 - k,
                    {
                        let c2 = match self.consume_no_skip() {
                            Ok(x) => x,
                            Err(e) => {
                                return Err(e);
                            },
                        };
                        match crate::text::hex_val(c2) {
                            Some(d) => {
                                u = #[verifier::truncate] (((u as u32) * 16 + d) as u16);
                                k = k + 1;
                            },
                            None => {
                                return Err(self.err_at(JsonErrorKind::InvalidUnicodeEscape(c2)));
                            },
                        }
                    }
                    units.push(u);
                } else {
                    match escape_char_of(e2) {
                        Some(c2) => {
                            let ghost u_before = units@;
                            let ghost a_before = acc@;
                            if flush_units(&mut units, &mut acc) {
                                acc.push(c2);
                                proof {
                                    let d = spec_utf16_decode(u_before)->0;
                                    assert(acc@ =~= a_before + d + seq![c2]);
                                }
                            } else {
                                return Err(self.err_at(JsonErrorKind::InvalidUtf16));
                            }
                        },
                        None => {
                            return Err(self.err_at(JsonErrorKind::InvalidEscape(e2)));
                        },
                    }
                }
            } else if c == '"' {
                if flush_units(&mut units, &mut acc) {
                    return Ok(JsonValue::String(string_from_chars(&acc)));
                } else {
                    return Err(self.err_at(JsonErrorKind::InvalidUtf16));
                }
            } else if (c as u32) < 0x20 {
                return Err(self.err_at(JsonErrorKind::ControlCharInString(c)));
            } else {
                let ghost u_before = units@;
                let ghost a_before = acc@;
                if flush_units(&mut units, &mut acc) {
                    acc.push(c);
                    proof {
                        let d = spec_utf16_decode(u_before)->0;
                        assert(acc@ =~= a_before + d + seq![c]);
                    }
                } else {
                    return Err(self.err_at(JsonErrorKind::InvalidUtf16));
                }
            }
        }
    }

    /// One keyword, matched character by character.
    #[verifier::loop_isolation(false)]
    fn parse_literal(&mut self, lit: &Vec<char>) -> (r: Result<(), JsonParseError>)
        requires
            old(self).wf(),
        ensures
            final(self).wf(),
            final(self).text() == old(self).text(),
            match spec_parse_literal(old(self).text(), old(self).spec_pos(), lit@) {
                SpecParse::Parsed(_, k) => r is Ok && final(self).spec_pos() == k && k == old(self).spec_pos() + lit@.len(),
                SpecParse::Failed(kind, p) => r matches Err(e) && err_matches(
                    e,
                    old(self).text(),
                    kind,
                    p,
                ),
                SpecParse::OutOfFuel => false,
            },
    {
        let ghost s = self.chars@;
        let ghost p0 = self.spec_pos();
        proof {
            assert(lit@.skip(0) =~= lit@);
        }
        let mut k: usize = 0;
        while k < lit.len()
            invariant
                self.wf(),
                self.chars@ == s,
                k <= lit@.len(),
                self.spec_pos() == p0 + k,
                spec_parse_literal(s, p0, lit@) == spec_parse_literal(
                    s,
                    self.spec_pos(),
                    lit@.skip(k as int),
                ),
            decreases lit@.len() - k,
        {
            let expected = lit[k];
            let c = match self.consume_no_skip() {
                Ok(c) => c,
                Err(e) => {
                    return Err(e);
                },
            };
            if c != expected {
                return Err(self.err_at(JsonErrorKind::LiteralMismatch(c, expected)));
            }
            proof {
                assert(lit@.skip(k as int)[0] == lit@[k as int]);
                assert(lit@.skip(k as int).drop_first() =~= lit@.skip(k + 1 as int));
            }
            k = k + 1;
        }
        proof {
            assert(lit@.skip(lit@.len() as int) =~= Seq::<char>::empty());
        }
        Ok(())
    }

    /// The keyword `null`.
    fn parse_null(&mut self) -> (r: Result<JsonValue, JsonParseError>)
        requires
            old(self).wf(),
        ensures
            final(self).wf(),
            final(self).text() == old(self).text(),
            match spec_parse_literal(old(self).text(), old(self).spec_pos(), seq!['n', 'u', 'l',
            'l']) {
                SpecParse::Parsed(_, k) => r matches Ok(v) && v@ == SpecValue::Null && final(self).spec_pos() == k && k > old(self).spec_pos(),
                SpecParse::Failed(kind, p) => r matches Err(e) && err_matches(
                    e,
                    old(self).text(),
                    kind,
                    p,
                ),
                SpecParse::OutOfFuel => false,
            },
    {
        let lit = chars_of("null");
        proof {
            reveal_strlit("null");
            assert("null"@ =~= seq!['n', 'u', 'l', 'l']);
        }
        match self.parse_literal(&lit) {
            Ok(_) => Ok(JsonValue::Null),
            Err(e) => Err(e),
        }
    }

    /// The keyword `true`.
    fn parse_true(&mut self) -> (r: Result<JsonValue, JsonParseError>)
        requires
            old(self).wf(),
        ensures
            final(self).wf(),
            final(self).text() == old(self).text(),
            match spec_parse_literal(old(self).text(), old(self).spec_pos(), seq!['t', 'r', 'u',
            'e']) {
                SpecParse::Parsed(_, k) => r matches Ok(v) && v@ == SpecValue::Boolean(true)
                    && final(self).spec_pos() == k && k > old(self).spec_pos(),
                SpecParse::Failed(kind, p) => r matches Err(e) && err_matches(
                    e,
                    old(self).text(),
                    kind,
                    p,
                ),
                SpecParse::OutOfFuel => false,
            },
    {
        let lit = chars_of("true");
        proof {
            reveal_strlit("true");
            assert("true"@ =~= seq!['t', 'r', 'u', 'e']);
        }
        match self.parse_literal(&lit) {
            Ok(_) => Ok(JsonValue::Boolean(true)),
            Err(e) => Err(e),
        }
    }

    /// The keyword `false`.
    fn parse_false(&mut self) -> (r: Result<JsonValue, JsonParseError>)
        requires
            old(self).wf(),
        ensures
            final(self).wf(),
            final(self).text() == old(self).text(),
            match spec_parse_literal(old(self).text(), old(self).spec_pos(), seq!['f', 'a', 'l',
            's', 'e']) {
                SpecParse::Parsed(_, k) => r matches Ok(v) && v@ == SpecValue::Boolean(false)
                    && final(self).spec_pos() == k && k > old(self).spec_pos(),
                SpecParse::Failed(kind, p) => r matches Err(e) && err_matches(
                    e,
                    old(self).text(),
                    kind,
                    p,
                ),
                SpecParse::OutOfFuel => false,
            },
    {
        let lit = chars_of("false");
        proof {
            reveal_strlit("false");
            assert("false"@ =~= seq!['f', 'a', 'l', 's', 'e']);
        }
        match self.parse_literal(&lit) {
            Ok(_) => Ok(JsonValue::Boolean(false)),
            Err(e) => Err(e),
        }
    }
}

/// Insert with the last write winning: replace the value at an
/// existing key in place, else append the pair.
fn obj_insert(o: &mut Vec<(String, JsonValue)>, key: String, val: JsonValue)
    ensures
        crate::value::obj_model(final(o)@) =~= spec_obj_insert(
            crate::value::obj_model(old(o)@),
            key@,
            val@,
        ),
{
    broadcast use crate::value::lemma_obj_model;

    match crate::value::obj_find(o, key.as_str()) {
        Some(i) => {
            proof {
                assert(o@[i as int].0@ == key@);
                assert forall|j: int| 0 <= j < i as int implies crate::value::obj_model(
                    o@,
                )[j].0 != key@ by {
                    assert(o@[j].0@ != key@);
                }
                crate::value::lemma_obj_insert_at(crate::value::obj_model(o@), key@, i as int);
            }
            let p = &mut o[i];
            *p = (key, val);
        },
        None => {
            proof {
                assert forall|j: int| 0 <= j < crate::value::obj_model(o@).len()
                    implies crate::value::obj_model(o@)[j].0 != key@ by {
                    assert(o@[j].0@ != key@);
                }
                crate::value::lemma_obj_insert_append(crate::value::obj_model(o@), key@, val@);
            }
            o.push((key, val));
        },
    }
}

impl JsonParser {
    /// One JSON value: skip whitespace and dispatch on the first
    /// character.
    #[verifier::rlimit(100)]
    fn parse_any(&mut self, Ghost(fuel): Ghost<nat>) -> (r: Result<JsonValue, JsonParseError>)
        requires
            old(self).wf(),
            fuel >= old(self).text().len() - old(self).spec_pos() + 1,
        ensures
            final(self).wf(),
            final(self).text() == old(self).text(),
            match spec_parse_value(old(self).text(), old(self).spec_pos(), fuel) {
                SpecParse::Parsed(v, k) => r matches Ok(val) && val@ == v && final(self).spec_pos()
                    == k && k > old(self).spec_pos(),
                SpecParse::Failed(kind, p) => r matches Err(e) && err_matches(
                    e,
                    old(self).text(),
                    kind,
                    p,
                ),
                SpecParse::OutOfFuel => false,
            },
        decreases fuel, 3int,
    {
        broadcast use lemma_skip_ws;

        let c = match self.peek() {
            Ok(c) => c,
            Err(e) => {
                return Err(e);
            },
        };
        if is_digit_char(c) || c == '-' {
            self.parse_number()
        } else if c == '"' {
            self.parse_string()
        } else if c == '[' {
            self.parse_array(Ghost(fuel))
        } else if c == '{' {
            self.parse_object(Ghost(fuel))
        } else if c == 't' {
            self.parse_true()
        } else if c == 'f' {
            self.parse_false()
        } else if c == 'n' {
            self.parse_null()
        } else {
            Err(self.err_at(JsonErrorKind::InvalidCharacter(c)))
        }
    }

    /// One array, the cursor standing on its opening bracket.
    #[verifier::loop_isolation(false)]
    #[verifier::rlimit(100)]
    fn parse_array(&mut self, Ghost(fuel): Ghost<nat>) -> (r: Result<JsonValue, JsonParseError>)
        requires
            old(self).wf(),
            old(self).spec_pos() < old(self).text().len(),
            old(self).text()[old(self).spec_pos()] == '[',
            fuel >= old(self).text().len() - old(self).spec_pos() + 1,
        ensures
            final(self).wf(),
            final(self).text() == old(self).text(),
            match spec_parse_array(old(self).text(), old(self).spec_pos(), fuel) {
                SpecParse::Parsed(v, k) => r matches Ok(val) && val@ == v && final(self).spec_pos()
                    == k && k > old(self).spec_pos(),
                SpecParse::Failed(kind, p) => r matches Err(e) && err_matches(
                    e,
                    old(self).text(),
                    kind,
                    p,
                ),
                SpecParse::OutOfFuel => false,
            },
        decreases fuel, 2int,
    {
        broadcast use lemma_skip_ws, crate::value::lemma_arr_model;

        let ghost s = self.chars@;
        let ghost i0 = self.spec_pos();
        self.advance();
        let c = match self.peek() {
            Ok(c) => c,
            Err(e) => {
                return Err(e);
            },
        };
        let ghost j2 = self.spec_pos();
        if c == ']' {
            self.advance();
            let elems: Vec<JsonValue> = Vec::new();
            proof {
                assert(crate::value::arr_model(elems@) =~= Seq::<SpecValue>::empty());
            }
            return Ok(JsonValue::Array(elems));
        }
        proof {
            assert(skip_ws(s, j2) == j2);
            assert(spec_parse_value(s, i0 + 1, (fuel - 1) as nat) == spec_parse_value(
                s,
                j2,
                (fuel - 1) as nat,
            ));
        }
        let first = match self.parse_any(Ghost((fuel - 1) as nat)) {
            Ok(v) => v,
            Err(e) => {
                return Err(e);
            },
        };
        let mut elems: Vec<JsonValue> = Vec::new();
        elems.push(first);
        let ghost mut gf = (fuel - 1) as nat;
        proof {
            assert(crate::value::arr_model(elems@) =~= seq![
                spec_parse_value(s, i0 + 1, (fuel - 1) as nat)->Parsed_0,
            ]);
        }
        loop
            invariant
                self.wf(),
                self.chars@ == s,
                i0 < self.spec_pos() <= s.len(),
                gf < fuel,
                gf >= s.len() - self.spec_pos() + 1,
                spec_parse_array(s, i0, fuel) == spec_parse_array_rest(
                    s,
                    self.spec_pos(),
                    crate::value::arr_model(elems@),
                    gf,
                ),
            decreases gf,
        {
            let c2 = match self.consume() {
                Ok(c) => c,
                Err(e) => {
                    return Err(e);
                },
            };
            if c2 == ',' {
                let ghost m_before = crate::value::arr_model(elems@);
                let v = match self.parse_any(Ghost((gf - 1) as nat)) {
                    Ok(v) => v,
                    Err(e) => {
                        return Err(e);
                    },
                };
                elems.push(v);
                proof {
                    assert(crate::value::arr_model(elems@) =~= m_before.push(v@));
                    gf = (gf - 1) as nat;
                }
            } else if c2 == ']' {
                return Ok(JsonValue::Array(elems));
            } else {
                return Err(self.err_at(JsonErrorKind::ExpectedCommaOrCloseBracket(c2)));
            }
        }
    }

    /// One `key: value` member, inserted into the object being built
    /// with the last write winning.
    #[verifier::rlimit(100)]
    fn parse_member(
        &mut self,
        obj: &mut Vec<(String, JsonValue)>,
        Ghost(fuel): Ghost<nat>,
    ) -> (r: Result<(), JsonParseError>)
        requires
            old(self).wf(),
            fuel >= old(self).text().len() - old(self).spec_pos() + 1,
        ensures
            final(self).wf(),
            final(self).text() == old(self).text(),
            match spec_parse_member(
                old(self).text(),
                old(self).spec_pos(),
                crate::value::obj_model(old(obj)@),
                fuel,
            ) {
                SpecParse::Parsed(acc2, k) => r is Ok && crate::value::obj_model(final(obj)@)
                    == acc2 && final(self).spec_pos() == k && k > old(self).spec_pos(),
                SpecParse::Failed(kind, p) => r matches Err(e) && err_matches(
                    e,
                    old(self).text(),
                    kind,
                    p,
                ),
                SpecParse::OutOfFuel => false,
            },
        decreases fuel, 4int,
    {
        broadcast use lemma_skip_ws;

        let key_v = match self.parse_any(Ghost(fuel)) {
            Ok(v) => v,
            Err(e) => {
                return Err(e);
            },
        };
        let key = match key_v {
            JsonValue::String(ks) => ks,
            _ => {
                return Err(self.err_at(JsonErrorKind::KeyNotString));
            },
        };
        let c = match self.consume() {
            Ok(c) => c,
            Err(e) => {
                return Err(e);
            },
        };
        if c != ':' {
            return Err(self.err_at(JsonErrorKind::ExpectedColon(c)));
        }
        let val = match self.parse_any(Ghost(fuel)) {
            Ok(v) => v,
            Err(e) => {
                return Err(e);
            },
        };
        obj_insert(obj, key, val);
        Ok(())
    }

    /// One object, the cursor standing on its opening brace.
    #[verifier::loop_isolation(false)]
    #[verifier::rlimit(100)]
    fn parse_object(&mut self, Ghost(fuel): Ghost<nat>) -> (r: Result<JsonValue, JsonParseError>)
        requires
            old(self).wf(),
            old(self).spec_pos() < old(self).text().len(),
            old(self).text()[old(self).spec_pos()] == '{',
            fuel >= old(self).text().len() - old(self).spec_pos() + 1,
        ensures
            final(self).wf(),
            final(self).text() == old(self).text(),
            match spec_parse_object(old(self).text(), old(self).spec_pos(), fuel) {
                SpecParse::Parsed(v, k) => r matches Ok(val) && val@ == v && final(self).spec_pos()
                    == k && k > old(self).spec_pos(),
                SpecParse::Failed(kind, p) => r matches Err(e) && err_matches(
                    e,
                    old(self).text(),
                    kind,
                    p,
                ),
                SpecParse::OutOfFuel => false,
            },
        decreases fuel, 2int,
    {
        broadcast use lemma_skip_ws, crate::value::lemma_obj_model;

        let ghost s = self.chars@;
        let ghost i0 = self.spec_pos();
        self.advance();
        let c = match self.peek() {
            Ok(c) => c,
            Err(e) => {
                return Err(e);
            },
        };
        let ghost j2 = self.spec_pos();
        if c == '}' {
            self.advance();
            let obj: Vec<(String, JsonValue)> = Vec::new();
            proof {
                assert(crate::value::obj_model(obj@) =~= Seq::<(Seq<char>, SpecValue)>::empty());
            }
            return Ok(JsonValue::Object(obj));
        }
        let mut obj: Vec<(String, JsonValue)> = Vec::new();
        proof {
            assert(crate::value::obj_model(obj@) =~= Seq::<(Seq<char>, SpecValue)>::empty());
            assert(skip_ws(s, j2) == j2);
            assert(spec_parse_value(s, i0 + 1, (fuel - 1) as nat) == spec_parse_value(
                s,
                j2,
                (fuel - 1) as nat,
            ));
            assert(spec_parse_member(s, i0 + 1, Seq::empty(), (fuel - 1) as nat)
                == spec_parse_member(s, j2, Seq::empty(), (fuel - 1) as nat));
        }
        match self.parse_member(&mut obj, Ghost((fuel - 1) as nat)) {
            Ok(_) => (),
            Err(e) => {
                return Err(e);
            },
        }
        let ghost mut gf = (fuel - 1) as nat;
        loop
            invariant
                self.wf(),
                self.chars@ == s,
                i0 < self.spec_pos() <= s.len(),
                gf < fuel,
                gf >= s.len() - self.spec_pos() + 1,
                spec_parse_object(s, i0, fuel) == spec_parse_object_rest(
                    s,
                    self.spec_pos(),
                    crate::value::obj_model(obj@),
                    gf,
                ),
            decreases gf,
        {
            let c2 = match self.consume() {
                Ok(c) => c,
                Err(e) => {
                    return Err(e);
                },
            };
            if c2 == ',' {
                match self.parse_member(&mut obj, Ghost((gf - 1) as nat)) {
                    Ok(_) => (),
                    Err(e) => {
                        return Err(e);
                    },
                }
                proof {
                    gf = (gf - 1) as nat;
                }
            } else if c2 == '}' {
                return Ok(JsonValue::Object(obj));
            } else {
                return Err(self.err_at(JsonErrorKind::ExpectedCommaOrCloseBrace(c2)));
            }
        }
    }

    /// Run the parser: one JSON value, with nothing but whitespace
    /// after it.
    #[verifier::rlimit(100)]
    pub fn parse(&mut self) -> (r: JsonParseResult)
        requires
            old(self).wf(),
        ensures
            final(self).wf(),
            final(self).text() == old(self).text(),
            match spec_parse_text(old(self).text(), old(self).spec_pos()) {
                SpecParse::Parsed(v, k) => r matches Ok(val) && val@ == v && final(self).spec_pos()
                    == k,
                SpecParse::Failed(kind, p) => r matches Err(e) && err_matches(
                    e,
                    old(self).text(),
                    kind,
                    p,
                ),
                SpecParse::OutOfFuel => false,
            },
    {
        broadcast use lemma_skip_ws;

        let ghost s = self.chars@;
        let v = match self.parse_any(Ghost((s.len() + 1) as nat)) {
            Ok(v) => v,
            Err(e) => {
                return Err(e);
            },
        };
        match self.peek() {
            Ok(c) => {
                self.advance();
                Err(self.err_at(JsonErrorKind::TrailingCharacter(c)))
            },
            Err(_) => Ok(v),
        }
    }
}

} // verus!