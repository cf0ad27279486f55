//! The generator: serializing a value tree to JSON text, compactly or
//! with an indent string repeated per nesting level.
//!
//! `spec_encode` and `spec_format` define the exact text produced; the
//! executable generator is proved to emit it character for character.
//! A finite number is rendered with the fewest fraction digits that
//! still read back to the same number. NaN and the infinities have no
//! JSON form, so serializing a tree that holds one fails.

use vstd::prelude::*;

use crate::num::{
    bits_inf, bits_non_finite, render_number_minimal, spec_min_number_text, spec_non_finite_bits,
};
use crate::text::{chars_of, hex_digit, hex_digit_char, push_chars, push_str_chars,
    string_from_chars};
use crate::value::{JsonValue, SpecValue};

verus! {

broadcast use vstd::std_specs::vec::group_vec_axioms, vstd::seq::group_seq_axioms;

/// Every number in the tree is finite, so the tree has a JSON text.
pub open spec fn serializable(v: SpecValue) -> bool
    decreases v,
    via serializable_dec
{
    match v {
        SpecValue::Number(bits) => !spec_non_finite_bits(bits),
        SpecValue::Array(a) => forall|i: int|
            0 <= i < a.len() ==> serializable(#[trigger] a[i]),
        SpecValue::Object(m) => forall|i: int|
            0 <= i < m.len() ==> serializable(#[trigger] m[i].1),
        _ => true,
    }
}

#[via_fn]
proof fn serializable_dec(v: SpecValue) {
    match v {
        SpecValue::Array(a) => {
            assert forall|i: int| 0 <= i < a.len() implies decreases_to!(a => a[i]) by {}
        },
        SpecValue::Object(m) => {
            assert forall|i: int| 0 <= i < m.len() implies decreases_to!(m => m[i]) by {}
        },
        _ => (),
    }
}

/// The escape of one string character: the two-character escapes of the
/// JSON grammar, `\u00XX` for the remaining control characters, and the
/// character itself otherwise.
pub open spec fn spec_escape_char(c: char) -> Seq<char> {
    if c == '"' {
        seq!['\\', '"']
    } else if c == '\\' {
        seq!['\\', '\\']
    } else if c == '\u{8}' {
        seq!['\\', 'b']
    } else if c == '\t' {
        seq!['\\', 't']
    } else if c == '\n' {
        seq!['\\', 'n']
    } else if c == '\u{c}' {
        seq!['\\', 'f']
    } else if c == '\r' {
        seq!['\\', 'r']
    } else if (c as u32) < 0x20 {
        seq!['\\', 'u', '0', '0', hex_digit_char((c as u32) / 16), hex_digit_char(
            (c as u32) % 16,
        )]
    } else {
        seq![c]
    }
}

/// The escaped body of a string literal.
pub open spec fn spec_escape(s: Seq<char>) -> Seq<char>
    decreases s.len(),
{
    if s.len() == 0 {
        Seq::empty()
    } else {
        spec_escape_char(s[0]) + spec_escape(s.drop_first())
    }
}

/// A whole string literal: quote, escaped body, quote.
pub open spec fn spec_quote(s: Seq<char>) -> Seq<char> {
    seq!['"'] + spec_escape(s) + seq!['"']
}

/// Escaping distributes over concatenation.
pub proof fn lemma_escape_concat(s1: Seq<char>, s2: Seq<char>)
    ensures
        spec_escape(s1 + s2) == spec_escape(s1) + spec_escape(s2),
    decreases s1.len(),
{
    if s1.len() == 0 {
        assert(s1 + s2 == s2);
        assert(spec_escape(s1) + spec_escape(s2) == spec_escape(s2));
    } else {
        lemma_escape_concat(s1.drop_first(), s2);
        assert((s1 + s2).drop_first() == s1.drop_first() + s2);
        assert(spec_escape(s1 + s2) == spec_escape_char(s1[0]) + (spec_escape(s1.drop_first())
            + spec_escape(s2)));
        assert(spec_escape_char(s1[0]) + spec_escape(s1.drop_first()) + spec_escape(s2)
            == spec_escape_char(s1[0]) + (spec_escape(s1.drop_first()) + spec_escape(s2)));
    }
}

/// The compact text of a value.
pub open spec fn spec_encode(v: SpecValue) -> Seq<char>
    decreases v, 0int,
    via spec_encode_dec
{
    match v {
        SpecValue::Number(bits) => spec_min_number_text(bits),
        SpecValue::Boolean(b) => if b {
            seq!['t', 'r', 'u', 'e']
        } else {
            seq!['f', 'a', 'l', 's', 'e']
        },
        SpecValue::String(s) => spec_quote(s),
        SpecValue::Null => seq!['n', 'u', 'l', 'l'],
        SpecValue::Array(a) => seq!['['] + spec_encode_elems(a) + seq![']'],
        SpecValue::Object(m) => seq!['{'] + spec_encode_pairs(m) + seq!['}'],
    }
}

/// The compact elements of an array, joined with commas.
pub open spec fn spec_encode_elems(a: Seq<SpecValue>) -> Seq<char>
    decreases a, 1int,
    via spec_encode_elems_dec
{
    if a.len() == 0 {
        Seq::empty()
    } else if a.len() == 1 {
        spec_encode(a.last())
    } else {
        spec_encode_elems(a.drop_last()) + seq![','] + spec_encode(a.last())
    }
}

/// The compact pairs of an object, joined with commas.
pub open spec fn spec_encode_pairs(m: Seq<(Seq<char>, SpecValue)>) -> Seq<char>
    decreases m, 1int,
    via spec_encode_pairs_dec
{
    if m.len() == 0 {
        Seq::empty()
    } else if m.len() == 1 {
        spec_quote(m.last().0) + seq![':'] + spec_encode(m.last().1)
    } else {
        spec_encode_pairs(m.drop_last()) + seq![','] + spec_quote(m.last().0) + seq![':']
            + spec_encode(m.last().1)
    }
}

#[via_fn]
proof fn spec_encode_dec(v: SpecValue) {
    match v {
        SpecValue::Array(_) => (),
        SpecValue::Object(_) => (),
        _ => (),
    }
}

#[via_fn]
proof fn spec_encode_elems_dec(a: Seq<SpecValue>) {
    if a.len() > 0 {
        assert(decreases_to!(a => a[a.len() - 1]));
        if a.len() > 1 {
            assert(decreases_to!(a => a.drop_last()));
        }
    }
}

#[via_fn]
proof fn spec_encode_pairs_dec(m: Seq<(Seq<char>, SpecValue)>) {
    if m.len() > 0 {
        assert(decreases_to!(m => m[m.len() - 1]));
        if m.len() > 1 {
            assert(decreases_to!(m => m.drop_last()));
        }
    }
}

/// The indent string repeated once per nesting level.
pub open spec fn spec_indent_text(ind: Seq<char>, level: nat) -> Seq<char>
    decreases level,
{
    if level == 0 {
        Seq::empty()
    } else {
        spec_indent_text(ind, (level - 1) as nat) + ind
    }
}

/// The indented text of a value at a nesting level.
pub open spec fn spec_format(v: SpecValue, ind: Seq<char>, level: nat) -> Seq<char>
    decreases v, 0int,
    via spec_format_dec
{
    match v {
        SpecValue::Array(a) => if a.len() == 0 {
            seq!['[', ']']
        } else {
            seq!['[', '\n'] + spec_format_elems(a, ind, level + 1) + seq!['\n']
                + spec_indent_text(ind, level) + seq![']']
        },
        SpecValue::Object(m) => if m.len() == 0 {
            seq!['{', '}']
        } else {
            seq!['{', '\n'] + spec_format_pairs(m, ind, level + 1) + seq!['\n']
                + spec_indent_text(ind, level) + seq!['}']
        },
        _ => spec_encode(v),
    }
}

/// The indented elements of a non-empty array, one per line.
pub open spec fn spec_format_elems(a: Seq<SpecValue>, ind: Seq<char>, level: nat) -> Seq<char>
    decreases a, 1int,
    via spec_format_elems_dec
{
    if a.len() == 0 {
        Seq::empty()
    } else if a.len() == 1 {
        spec_indent_text(ind, level) + spec_format(a.last(), ind, level)
    } else {
        spec_format_elems(a.drop_last(), ind, level) + seq![',', '\n'] + spec_indent_text(
            ind,
            level,
        ) + spec_format(a.last(), ind, level)
    }
}

/// The indented pairs of a non-empty object, one per line.
pub open spec fn spec_format_pairs(
    m: Seq<(Seq<char>, SpecValue)>,
    ind: Seq<char>,
    level: nat,
) -> Seq<char>
    decreases m, 1int,
    via spec_format_pairs_dec
{
    if m.len() == 0 {
        Seq::empty()
    } else if m.len() == 1 {
        spec_indent_text(ind, level) + spec_quote(m.last().0) + seq![':', ' '] + spec_format(
            m.last().1,
            ind,
            level,
        )
    } else {
        spec_format_pairs(m.drop_last(), ind, level) + seq![',', '\n'] + spec_indent_text(
            ind,
            level,
        ) + spec_quote(m.last().0) + seq![':', ' '] + spec_format(m.last().1, ind, level)
    }
}

#[via_fn]
proof fn spec_format_dec(v: SpecValue, ind: Seq<char>, level: nat) {
}

#[via_fn]
proof fn spec_format_elems_dec(a: Seq<SpecValue>, ind: Seq<char>, level: nat) {
    if a.len() > 0 {
        assert(decreases_to!(a => a[a.len() - 1]));
        if a.len() > 1 {
            assert(decreases_to!(a => a.drop_last()));
        }
    }
}

#[via_fn]
proof fn spec_format_pairs_dec(m: Seq<(Seq<char>, SpecValue)>, ind: Seq<char>, level: nat) {
    if m.len() > 0 {
        assert(decreases_to!(m => m[m.len() - 1]));
        if m.len() > 1 {
            assert(decreases_to!(m => m.drop_last()));
        }
    }
}

/// The message reported for a number with no JSON form: one for the
/// infinities, one for NaN.
pub open spec fn spec_unrepresentable_msg(bits: u64) -> Seq<char> {
    if crate::num::spec_inf_bits(bits) {
        "JSON cannot represent inf"@
    } else {
        "JSON cannot represent NaN"@
    }
}

/// A serialization failure: a number with no JSON form was met.
#[derive(Debug)]
pub struct JsonGenerateError {
    msg: String,
}

impl JsonGenerateError {
    /// The message, for specifications.
    pub closed spec fn spec_msg(self) -> Seq<char> {
        self.msg@
    }

    /// The error's message.
    pub fn message(&self) -> (r: &str)
        ensures
            r@ == self.spec_msg(),
    {
        self.msg.as_str()
    }

    /// The error rendered as one line of text.
    pub fn to_display_string(&self) -> (r: String)
        ensures
            r@ == "Generate error: "@ + self.spec_msg(),
    {
        let mut out: Vec<char> = Vec::new();
        push_str_chars(&mut out, "Generate error: ");
        push_str_chars(&mut out, self.msg.as_str());
        string_from_chars(&out)
    }
}

/// Convenient alias for serialization results.
pub type JsonGenerateResult = Result<String, JsonGenerateError>;

fn inf_error() -> (r: JsonGenerateError)
    ensures
        r.spec_msg() == "JSON cannot represent inf"@,
{
    JsonGenerateError { msg: String::from_str("JSON cannot represent inf") }
}

fn nan_error() -> (r: JsonGenerateError)
    ensures
        r.spec_msg() == "JSON cannot represent NaN"@,
{
    JsonGenerateError { msg: String::from_str("JSON cannot represent NaN") }
}

/// Append the escape of one character.
fn encode_char(out: &mut Vec<char>, c: char)
    ensures
        final(out)@ == old(out)@ + spec_escape_char(c),
{
    if c == '"' {
        out.push('\\');
        out.push('"');
    } else if c == '\\' {
        out.push('\\');
        out.push('\\');
    } else if c == '\u{8}' {
        out.push('\\');
        out.push('b');
    } else if c == '\t' {
        out.push('\\');
        out.push('t');
    } else if c == '\n' {
        out.push('\\');
        out.push('n');
    } else if c == '\u{c}' {
        out.push('\\');
        out.push('f');
    } else if c == '\r' {
        out.push('\\');
        out.push('r');
    } else if (c as u32) < 0x20 {
        out.push('\\');
        out.push('u');
        out.push('0');
        out.push('0');
        out.push(hex_digit((c as u32) / 16));
        out.push(hex_digit((c as u32) % 16));
    } else {
        out.push(c);
    }
}

/// Append a whole string literal: quote, escaped body, quote.
fn encode_string(out: &mut Vec<char>, s: &str)
    ensures
        final(out)@ == old(out)@ + spec_quote(s@),
{
    let cs = chars_of(s);
    out.push('"');
    let mut i: usize = 0;
    while i < cs.len()
        invariant
            i <= cs@.len(),
            cs@ == s@,
            out@ == old(out)@ + seq!['"'] + spec_escape(cs@.take(i as int)),
        decreases cs@.len() - i,
    {
        encode_char(out, cs[i]);
        proof {
            assert(cs@.take(i + 1 as int) == cs@.take(i as int) + seq![cs@[i as int]]);
            lemma_escape_concat(cs@.take(i as int), seq![cs@[i as int]]);
            assert(spec_escape(seq![cs@[i as int]]) == spec_escape_char(cs@[i as int])
                + spec_escape(seq![cs@[i as int]].drop_first()));
            assert(seq![cs@[i as int]].drop_first() =~= Seq::<char>::empty());
        }
        i = i + 1;
    }
    out.push('"');
    proof {
        assert(cs@.take(cs@.len() as int) == cs@);
        assert(old(out)@ + seq!['"'] + spec_escape(s@) + seq!['"'] == old(out)@ + spec_quote(s@));
    }
}

/// Append a number's decimal text, or fail on NaN or an infinity.
fn encode_number(out: &mut Vec<char>, bits: u64) -> (r: Result<(), JsonGenerateError>)
    ensures
        r is Ok <==> !spec_non_finite_bits(bits),
        r is Ok ==> final(out)@ == old(out)@ + spec_min_number_text(bits),
        r matches Err(e) ==> e.spec_msg() == spec_unrepresentable_msg(bits),
{
    if bits_inf(bits) {
        Err(inf_error())
    } else if bits_non_finite(bits) {
        Err(nan_error())
    } else {
        let txt = render_number_minimal(bits);
        push_str_chars(out, txt.as_str());
        Ok(())
    }
}

/// Append the compact text of a value, or fail on the first number with
/// no JSON form.
#[verifier::loop_isolation(false)]
#[verifier::rlimit(60)]
fn encode_value(v: &JsonValue, out: &mut Vec<char>) -> (r: Result<(), JsonGenerateError>)
    ensures
        r is Ok <==> serializable(v@),
        r is Ok ==> final(out)@ == old(out)@ + spec_encode(v@),
        r matches Err(e) ==> e.spec_msg() == "JSON cannot represent inf"@ || e.spec_msg()
            == "JSON cannot represent NaN"@,
        v@ matches SpecValue::Number(bits) ==> (spec_non_finite_bits(bits) ==> (r matches Err(e)
            && e.spec_msg() == spec_unrepresentable_msg(bits))),
    decreases v,
{
    broadcast use crate::value::lemma_arr_model, crate::value::lemma_obj_model;

    match v {
        JsonValue::Number(bits) => encode_number(out, *bits),
        JsonValue::Boolean(b) => {
            if *b {
                push_str_chars(out, "true");
                proof {
                    reveal_strlit("true");
                    assert("true"@ =~= seq!['t', 'r', 'u', 'e']);
                }
            } else {
                push_str_chars(out, "false");
                proof {
                    reveal_strlit("false");
                    assert("false"@ =~= seq!['f', 'a', 'l', 's', 'e']);
                }
            }
            Ok(())
        },
        JsonValue::String(s) => {
            encode_string(out, s.as_str());
            Ok(())
        },
        JsonValue::Null => {
            push_str_chars(out, "null");
            proof {
                reveal_strlit("null");
                assert("null"@ =~= seq!['n', 'u', 'l', 'l']);
            }
            Ok(())
        },
        JsonValue::Array(a) => {
            proof {
                assert(*v == JsonValue::Array(*a));
                crate::value::lemma_arr_model(a@);
            }
            out.push('[');
            let ghost m = v@->Array_0;
            let mut i: usize = 0;
            while i < a.len()
                invariant
                    i <= a@.len(),
                    *v == JsonValue::Array(*a),
                    v@ == SpecValue::Array(m),
                    m == crate::value::arr_model(a@),
                    m.len() == a@.len(),
                    forall|j: int| 0 <= j < a@.len() ==> m[j] == crate::value::value_model(
                        #[trigger] a@[j],
                    ),
                    forall|j: int| 0 <= j < i ==> serializable(#[trigger] m[j]),
                    out@ == old(out)@ + seq!['['] + spec_encode_elems(m.take(i as int)),
                decreases a@.len() - i,
            {
                if i > 0 {
                    out.push(',');
                }
                proof {
                    assert(*v == JsonValue::Array(*a));
                    assert(decreases_to!(*a => a@));
                    assert(decreases_to!(a@ => a@[i as int]));
                }
                match encode_value(&a[i], out) {
                    Ok(_) => (),
                    Err(e) => {
                        proof {
                            assert(!serializable(m[i as int]));
                            assert(!serializable(v@)) by {
                                assert(v@ == SpecValue::Array(m));
                                assert(0 <= (i as int) && (i as int) < m.len());
                                assert(serializable(SpecValue::Array(m)) ==> serializable(
                                    m[i as int],
                                ));
                            }
                        }
                        return Err(e);
                    },
                }
                proof {
                    assert(m.take(i + 1 as int).drop_last() =~= m.take(i as int));
                    assert(m.take(i + 1 as int).last() == m[i as int]);
                    if i == 0 {
                        assert(spec_encode_elems(m.take(1int)) == spec_encode(m[0]));
                    }
                }
                i = i + 1;
            }
            out.push(']');
            proof {
                assert(m.take(m.len() as int) == m);
                assert(out@ == old(out)@ + spec_encode(v@));
            }
            Ok(())
        },
        JsonValue::Object(o) => {
            proof {
                assert(*v == JsonValue::Object(*o));
                crate::value::lemma_obj_model(o@);
            }
            out.push('{');
            let ghost m = v@->Object_0;
            let mut i: usize = 0;
            while i < o.len()
                invariant
                    i <= o@.len(),
                    *v == JsonValue::Object(*o),
                    v@ == SpecValue::Object(m),
                    m == crate::value::obj_model(o@),
                    m.len() == o@.len(),
                    forall|j: int| 0 <= j < o@.len() ==> m[j] == ((#[trigger] o@[j]).0@,
                    crate::value::value_model(o@[j].1)),
                    forall|j: int| 0 <= j < i ==> serializable((#[trigger] m[j]).1),
                    out@ == old(out)@ + seq!['{'] + spec_encode_pairs(m.take(i as int)),
                decreases o@.len() - i,
            {
                if i > 0 {
                    out.push(',');
                }
                encode_string(out, o[i].0.as_str());
                out.push(':');
                proof {
                    assert(*v == JsonValue::Object(*o));
                    assert(decreases_to!(*o => o@));
                    assert(decreases_to!(o@ => o@[i as int]));
                    assert(decreases_to!(o@[i as int] => o@[i as int].1));
                }
                match encode_value(&o[i].1, out) {
                    Ok(_) => (),
                    Err(e) => {
                        proof {
                            assert(!serializable(m[i as int].1));
                            assert(!serializable(v@)) by {
                                assert(v@ == SpecValue::Object(m));
                                assert(0 <= (i as int) && (i as int) < m.len());
                                assert(serializable(SpecValue::Object(m)) ==> serializable(
                                    m[i as int].1,
                                ));
                            }
                        }
                        return Err(e);
                    },
                }
                proof {
                    assert(m.take(i + 1 as int).drop_last() =~= m.take(i as int));
                    assert(m.take(i + 1 as int).last() == m[i as int]);
                }
                i = i + 1;
            }
            out.push('}');
            proof {
                assert(m.take(m.len() as int) == m);
                assert(out@ == old(out)@ + spec_encode(v@));
            }
            Ok(())
        },
    }
}

/// Append the indented text of a value. `prefix` holds the indent
/// string repeated `level` times and is handed back as it came.
#[verifier::loop_isolation(false)]
#[verifier::rlimit(100)]
fn format_value(
    v: &JsonValue,
    ind: &Vec<char>,
    prefix: &mut Vec<char>,
    out: &mut Vec<char>,
    Ghost(level): Ghost<nat>,
) -> (r: Result<(), JsonGenerateError>)
    requires
        old(prefix)@ == spec_indent_text(ind@, level),
    ensures
        final(prefix)@ == old(prefix)@,
        r is Ok <==> serializable(v@),
        r is Ok ==> final(out)@ == old(out)@ + spec_format(v@, ind@, level),
        r matches Err(e) ==> e.spec_msg() == "JSON cannot represent inf"@ || e.spec_msg()
            == "JSON cannot represent NaN"@,
        v@ matches SpecValue::Number(bits) ==> (spec_non_finite_bits(bits) ==> (r matches Err(e)
            && e.spec_msg() == spec_unrepresentable_msg(bits))),
    decreases v,
{
    match v {
        JsonValue::Array(a) => {
            proof {
                assert(*v == JsonValue::Array(*a));
                crate::value::lemma_arr_model(a@);
            }
            let ghost m = v@->Array_0;
            if a.len() == 0 {
                out.push('[');
                out.push(']');
                return Ok(());
            }
            out.push('[');
            out.push('\n');
            let base_len = prefix.len();
            push_chars(prefix, ind);
            let mut i: usize = 0;
            while i < a.len()
                invariant
                    i <= a@.len(),
                    prefix@ == spec_indent_text(ind@, level + 1),
                    out@ == old(out)@ + seq!['[', '\n'] + spec_format_elems(
                        m.take(i as int),
                        ind@,
                        level + 1,
                    ),
                    forall|j: int| 0 <= j < i ==> serializable(#[trigger] m[j]),
                decreases a@.len() - i,
            {
                if i > 0 {
                    out.push(',');
                    out.push('\n');
                }
                push_chars(out, prefix);
                proof {
                    assert(decreases_to!(*a => a@));
                    assert(decreases_to!(a@ => a@[i as int]));
                }
                match format_value(&a[i], ind, prefix, out, Ghost(level + 1)) {
                    Ok(_) => (),
                    Err(e) => {
                        proof {
                            assert(!serializable(m[i as int]));
                            assert(!serializable(v@)) by {
                                assert(serializable(SpecValue::Array(m)) ==> serializable(
                                    m[i as int],
                                ));
                            }
                        }
                        prefix.truncate(base_len);
                        proof {
                            assert(prefix@ =~= old(prefix)@);
                        }
                        return Err(e);
                    },
                }
                proof {
                    assert(m.take(i + 1 as int).drop_last() =~= m.take(i as int));
                    assert(m.take(i + 1 as int).last() == m[i as int]);
                }
                i = i + 1;
            }
            prefix.truncate(base_len);
            proof {
                assert(prefix@ =~= old(prefix)@);
            }
            out.push('\n');
            push_chars(out, prefix);
            out.push(']');
            proof {
                assert(m.take(m.len() as int) == m);
                assert(out@ == old(out)@ + spec_format(v@, ind@, level));
            }
            Ok(())
        },
        JsonValue::Object(o) => {
            proof {
                assert(*v == JsonValue::Object(*o));
                crate::value::lemma_obj_model(o@);
            }
            let ghost m = v@->Object_0;
            if o.len() == 0 {
                out.push('{');
                out.push('}');
                return Ok(());
            }
            out.push('{');
            out.push('\n');
            let base_len = prefix.len();
            push_chars(prefix, ind);
            let mut i: usize = 0;
            while i < o.len()
                invariant
                    i <= o@.len(),
                    prefix@ == spec_indent_text(ind@, level + 1),
                    out@ == old(out)@ + seq!['{', '\n'] + spec_format_pairs(
                        m.take(i as int),
                        ind@,
                        level + 1,
                    ),
                    forall|j: int| 0 <= j < i ==> serializable((#[trigger] m[j]).1),
                decreases o@.len() - i,
            {
                if i > 0 {
                    out.push(',');
                    out.push('\n');
                }
                push_chars(out, prefix);
                encode_string(out, o[i].0.as_str());
                out.push(':');
                out.push(' ');
                proof {
                    assert(decreases_to!(*o => o@));
                    assert(decreases_to!(o@ => o@[i as int]));
                    assert(decreases_to!(o@[i as int] => o@[i as int].1));
                }
                match format_value(&o[i].1, ind, prefix, out, Ghost(level + 1)) {
                    Ok(_) => (),
                    Err(e) => {
                        proof {
                            assert(!serializable(m[i as int].1));
                            assert(!serializable(v@)) by {
                                assert(serializable(SpecValue::Object(m)) ==> serializable(
                                    m[i as int].1,
                                ));
                            }
                        }
                        prefix.truncate(base_len);
                        proof {
                            assert(prefix@ =~= old(prefix)@);
                        }
                        return Err(e);
                    },
                }
                proof {
                    assert(m.take(i + 1 as int).drop_last() =~= m.take(i as int));
                    assert(m.take(i + 1 as int).last() == m[i as int]);
                }
                i = i + 1;
            }
            prefix.truncate(base_len);
            proof {
                assert(prefix@ =~= old(prefix)@);
            }
            out.push('\n');
            push_chars(out, prefix);
            out.push('}');
            proof {
                assert(m.take(m.len() as int) == m);
                assert(out@ == old(out)@ + spec_format(v@, ind@, level));
            }
            Ok(())
        },
        _ => {
            let r = encode_value(v, out);
            proof {
                assert(spec_format(v@, ind@, level) == spec_encode(v@));
            }
            r
        },
    }
}

/// JSON serializer for a value tree: compact by default, or with an
/// indent string set through [`JsonGenerator::indent`]. The serialized
/// text is returned as a `String`.
pub struct JsonGenerator {
    indent: Option<String>,
}

impl JsonGenerator {
    /// The indent string, for specifications.
    pub closed spec fn spec_indent(self) -> Option<Seq<char>> {
        match self.indent {
            Some(s) => Some(s@),
            None => None,
        }
    }

    /// A compact generator.
    pub fn new() -> (r: Self)
        ensures
            r.spec_indent() is None,
    {
        JsonGenerator { indent: None }
    }

    /// The same generator with an indent string set.
    pub fn indent(self, ind: &str) -> (r: Self)
        ensures
            r.spec_indent() == Some(ind@),
    {
        JsonGenerator { indent: Some(String::from_str(ind)) }
    }

    /// Serialize one value: `spec_encode` without an indent string,
    /// `spec_format` with one. Fails exactly on a tree holding NaN or an
    /// infinity.
    pub fn generate(&self, value: &JsonValue) -> (r: JsonGenerateResult)
        ensures
            r is Ok <==> serializable(value@),
            r matches Ok(s) ==> s@ == (match self.spec_indent() {
                None => spec_encode(value@),
                Some(ind) => spec_format(value@, ind, 0),
            }),
            r matches Err(e) ==> e.spec_msg() == "JSON cannot represent inf"@ || e.spec_msg()
                == "JSON cannot represent NaN"@,
            value@ matches SpecValue::Number(bits) ==> (spec_non_finite_bits(bits) ==> (
            r matches Err(e) && e.spec_msg() == spec_unrepresentable_msg(bits))),
    {
        let mut out: Vec<char> = Vec::new();
        match &self.indent {
            None => {
                match encode_value(value, &mut out) {
                    Ok(_) => Ok(string_from_chars(&out)),
                    Err(e) => Err(e),
                }
            },
            Some(ind) => {
                let iv = chars_of(ind.as_str());
                let mut prefix: Vec<char> = Vec::new();
                match format_value(value, &iv, &mut prefix, &mut out, Ghost(0nat)) {
                    Ok(_) => Ok(string_from_chars(&out)),
                    Err(e) => Err(e),
                }
            },
        }
    }
}

/// Serialize a value to compact JSON text.
pub fn stringify(value: &JsonValue) -> (r: JsonGenerateResult)
    ensures
        r is Ok <==> serializable(value@),
        r matches Ok(s) ==> s@ == spec_encode(value@),
        r matches Err(e) ==> e.spec_msg() == "JSON cannot represent inf"@ || e.spec_msg()
            == "JSON cannot represent NaN"@,
        value@ matches SpecValue::Number(bits) ==> (spec_non_finite_bits(bits) ==> (r matches Err(
            e,
        ) && e.spec_msg() == spec_unrepresentable_msg(bits))),
{
    JsonGenerator::new().generate(value)
}

/// Serialize a value to JSON text indented with two spaces.
pub fn format(value: &JsonValue) -> (r: JsonGenerateResult)
    ensures
        r is Ok <==> serializable(value@),
        r matches Ok(s) ==> s@ == spec_format(value@, seq![' ', ' '], 0),
        r matches Err(e) ==> e.spec_msg() == "JSON cannot represent inf"@ || e.spec_msg()
            == "JSON cannot represent NaN"@,
        value@ matches SpecValue::Number(bits) ==> (spec_non_finite_bits(bits) ==> (r matches Err(
            e,
        ) && e.spec_msg() == spec_unrepresentable_msg(bits))),
{
    let g = JsonGenerator::new().indent("  ");
    proof {
        reveal_strlit("  ");
        assert("  "@ =~= seq![' ', ' ']);
    }
    g.generate(value)
}

impl JsonValue {
    /// This value as compact JSON text.
    pub fn stringify(&self) -> (r: JsonGenerateResult)
        ensures
            r is Ok <==> serializable(self@),
            r matches Ok(s) ==> s@ == spec_encode(self@),
            r matches Err(e) ==> e.spec_msg() == "JSON cannot represent inf"@ || e.spec_msg()
                == "JSON cannot represent NaN"@,
            self@ matches SpecValue::Number(bits) ==> (spec_non_finite_bits(bits) ==> (
            r matches Err(e) && e.spec_msg() == spec_unrepresentable_msg(bits))),
    {
        stringify(self)
    }

    /// This value as JSON text indented with two spaces.
    pub fn format(&self) -> (r: JsonGenerateResult)
        ensures
            r is Ok <==> serializable(self@),
            r matches Ok(s) ==> s@ == spec_format(self@, seq![' ', ' '], 0),
            r matches Err(e) ==> e.spec_msg() == "JSON cannot represent inf"@ || e.spec_msg()
                == "JSON cannot represent NaN"@,
            self@ matches SpecValue::Number(bits) ==> (spec_non_finite_bits(bits) ==> (
            r matches Err(e) && e.spec_msg() == spec_unrepresentable_msg(bits))),
    {
        format(self)
    }
}

} // verus!
