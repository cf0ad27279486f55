//! The library's laws: every tree the parser yields is well formed,
//! parsing inverts generation, and compact serialization is idempotent.

use vstd::prelude::*;

use crate::parser::{
    SpecParse, spec_parse, spec_parse_array, spec_parse_array_rest, spec_parse_member,
    spec_parse_number, spec_parse_object, spec_parse_object_rest, spec_parse_string,
    spec_parse_value, spec_str_body, spec_utf16_decode,
};
use crate::generator::{serializable, spec_encode, spec_escape};
use crate::num::{number_bits_of_literal, number_text_of_bits, spec_non_finite_bits};
use crate::parser::json_number_token;
use crate::value::{
    JsonValue, SpecValue, lemma_obj_insert_wf, obj_keys_unique, spec_obj_insert, value_wf,
};

verus! {

broadcast use vstd::std_specs::vec::group_vec_axioms, vstd::seq::group_seq_axioms;

/// A value yielded anywhere inside a parse is well formed: every
/// object it holds has unique keys.
proof fn lemma_value_wf(s: Seq<char>, i: int, fuel: nat)
    ensures
        spec_parse_value(s, i, fuel) matches SpecParse::Parsed(v, _) ==> value_wf(v),
    decreases fuel, 3int,
{
    if fuel > 0 {
        let j = crate::parser::skip_ws(s, i);
        if j < s.len() {
            let c = s[j];
            if c == '[' {
                lemma_array_wf(s, j, fuel);
            } else if c == '{' {
                lemma_object_wf(s, j, fuel);
            }
        }
    }
}

proof fn lemma_array_wf(s: Seq<char>, i: int, fuel: nat)
    ensures
        spec_parse_array(s, i, fuel) matches SpecParse::Parsed(v, _) ==> value_wf(v),
    decreases fuel, 2int,
{
    if fuel > 0 {
        let j = crate::parser::skip_ws(s, i + 1);
        if j < s.len() && s[j] != ']' {
            lemma_value_wf(s, i + 1, (fuel - 1) as nat);
            match spec_parse_value(s, i + 1, (fuel - 1) as nat) {
                SpecParse::Parsed(v, k) => {
                    lemma_array_rest_wf(s, k, seq![v], (fuel - 1) as nat);
                },
                _ => (),
            }
        }
    }
}

proof fn lemma_array_rest_wf(s: Seq<char>, i: int, acc: Seq<SpecValue>, fuel: nat)
    requires
        forall|j: int| 0 <= j < acc.len() ==> value_wf(#[trigger] acc[j]),
    ensures
        spec_parse_array_rest(s, i, acc, fuel) matches SpecParse::Parsed(v, _) ==> value_wf(v),
    decreases fuel, 2int,
{
    if fuel > 0 {
        let j = crate::parser::skip_ws(s, i);
        if j < s.len() {
            if s[j] == ',' {
                lemma_value_wf(s, j + 1, (fuel - 1) as nat);
                match spec_parse_value(s, j + 1, (fuel - 1) as nat) {
                    SpecParse::Parsed(v, k) => {
                        lemma_array_rest_wf(s, k, acc.push(v), (fuel - 1) as nat);
                    },
                    _ => (),
                }
            }
        }
    }
}

proof fn lemma_member_wf(s: Seq<char>, i: int, acc: Seq<(Seq<char>, SpecValue)>, fuel: nat)
    requires
        obj_keys_unique(acc),
        forall|j: int| 0 <= j < acc.len() ==> value_wf((#[trigger] acc[j]).1),
    ensures
        spec_parse_member(s, i, acc, fuel) matches SpecParse::Parsed(acc2, _) ==> obj_keys_unique(
            acc2,
        ) && forall|j: int| 0 <= j < acc2.len() ==> value_wf((#[trigger] acc2[j]).1),
    decreases fuel, 4int,
{
    if fuel > 0 {
        lemma_value_wf(s, i, fuel);
        match spec_parse_value(s, i, fuel) {
            SpecParse::Parsed(key, k) => {
                if key is String {
                    let j = crate::parser::skip_ws(s, k);
                    if j < s.len() && s[j] == ':' {
                        lemma_value_wf(s, j + 1, fuel);
                        match spec_parse_value(s, j + 1, fuel) {
                            SpecParse::Parsed(v, _) => {
                                lemma_obj_insert_wf(acc, key->String_0, v);
                                let acc2 = spec_obj_insert(acc, key->String_0, v);
                                assert forall|jj: int| 0 <= jj < acc2.len() implies value_wf(
                                    (#[trigger] acc2[jj]).1,
                                ) by {
                                    if acc2[jj].1 != v {
                                        let j2 = choose|j2: int|
                                            0 <= j2 < acc.len() && acc2[jj] == acc[j2];
                                        assert(value_wf(acc[j2].1));
                                    }
                                }
                            },
                            _ => (),
                        }
                    }
                }
            },
            _ => (),
        }
    }
}

proof fn lemma_object_wf(s: Seq<char>, i: int, fuel: nat)
    ensures
        spec_parse_object(s, i, fuel) matches SpecParse::Parsed(v, _) ==> value_wf(v),
    decreases fuel, 2int,
{
    if fuel > 0 {
        let j = crate::parser::skip_ws(s, i + 1);
        if j < s.len() && s[j] != '}' {
            lemma_member_wf(s, i + 1, Seq::empty(), (fuel - 1) as nat);
            match spec_parse_member(s, i + 1, Seq::empty(), (fuel - 1) as nat) {
                SpecParse::Parsed(acc, k) => {
                    lemma_object_rest_wf(s, k, acc, (fuel - 1) as nat);
                },
                _ => (),
            }
        }
    }
}

proof fn lemma_object_rest_wf(s: Seq<char>, i: int, acc: Seq<(Seq<char>, SpecValue)>, fuel: nat)
    requires
        obj_keys_unique(acc),
        forall|j: int| 0 <= j < acc.len() ==> value_wf((#[trigger] acc[j]).1),
    ensures
        spec_parse_object_rest(s, i, acc, fuel) matches SpecParse::Parsed(v, _) ==> value_wf(v),
    decreases fuel, 2int,
{
    if fuel > 0 {
        let j = crate::parser::skip_ws(s, i);
        if j < s.len() {
            if s[j] == ',' {
                lemma_member_wf(s, j + 1, acc, (fuel - 1) as nat);
                match spec_parse_member(s, j + 1, acc, (fuel - 1) as nat) {
                    SpecParse::Parsed(acc2, k) => {
                        lemma_object_rest_wf(s, k, acc2, (fuel - 1) as nat);
                    },
                    _ => (),
                }
            }
        }
    }
}

/// Every tree the parser yields is well formed: each of its objects
/// has pairwise distinct keys.
pub proof fn theorem_parse_wf(s: Seq<char>)
    ensures
        spec_parse(s) matches SpecParse::Parsed(v, _) ==> value_wf(v),
{
    lemma_value_wf(s, 0, (s.len() + 1) as nat);
}

/// Every finite number in the tree renders to a complete numeric token
/// that reads back to the same bit pattern. This is exactly what the
/// number renderer guarantees call by call; `confirm_number_rendering`
/// carries it onto any concrete tree.
pub open spec fn numbers_round_trip(v: SpecValue) -> bool
    decreases v,
    via numbers_round_trip_dec
{
    match v {
        SpecValue::Number(bits) => !spec_non_finite_bits(bits) ==> (json_number_token(
            number_text_of_bits(bits),
        ) && number_bits_of_literal(number_text_of_bits(bits)) == bits),
        SpecValue::Array(a) => forall|i: int|
            0 <= i < a.len() ==> numbers_round_trip(#[trigger] a[i]),
        SpecValue::Object(m) => forall|i: int|
            0 <= i < m.len() ==> numbers_round_trip(#[trigger] m[i].1),
        _ => true,
    }
}

#[via_fn]
proof fn numbers_round_trip_dec(v: SpecValue) {
    match v {
        SpecValue::Array(a) => {
            assert forall|i: int| 0 <= i < a.len() implies decreases_to!(a => a[i]) by {}
        },
        SpecValue::Object(m) => {
            assert forall|i: int| 0 <= i < m.len() implies decreases_to!(m => m[i]) by {}
        },
        _ => (),
    }
}

/// Render each finite number in the tree once, so that the renderer's
/// guarantees about its output become facts about the tree.
#[verifier::loop_isolation(false)]
pub fn confirm_number_rendering(v: &JsonValue)
    ensures
        numbers_round_trip(v@),
    decreases v,
{
    broadcast use crate::value::lemma_arr_model, crate::value::lemma_obj_model;

    match v {
        JsonValue::Number(bits) => {
            if !crate::num::bits_non_finite(*bits) {
                let _rendered = crate::num::render_number(*bits);
            }
        },
        JsonValue::Array(a) => {
            proof {
                assert(*v == JsonValue::Array(*a));
            }
            let ghost m = v@->Array_0;
            let mut i: usize = 0;
            while i < a.len()
                invariant
                    i <= a@.len(),
                    *v == JsonValue::Array(*a),
                    v@ == SpecValue::Array(m),
                    m == crate::value::arr_model(a@),
                    forall|j: int| 0 <= j < i ==> numbers_round_trip(#[trigger] m[j]),
                decreases a@.len() - i,
            {
                proof {
                    assert(decreases_to!(*a => a@));
                    assert(decreases_to!(a@ => a@[i as int]));
                }
                confirm_number_rendering(&a[i]);
                i = i + 1;
            }
        },
        JsonValue::Object(o) => {
            proof {
                assert(*v == JsonValue::Object(*o));
            }
            let ghost m = v@->Object_0;
            let mut i: usize = 0;
            while i < o.len()
                invariant
                    i <= o@.len(),
                    *v == JsonValue::Object(*o),
                    v@ == SpecValue::Object(m),
                    m == crate::value::obj_model(o@),
                    forall|j: int| 0 <= j < i ==> numbers_round_trip((#[trigger] m[j]).1),
                decreases o@.len() - i,
            {
                proof {
                    assert(decreases_to!(*o => o@));
                    assert(decreases_to!(o@ => o@[i as int]));
                    assert(decreases_to!(o@[i as int] => o@[i as int].1));
                }
                confirm_number_rendering(&o[i].1);
                i = i + 1;
            }
        },
        _ => (),
    }
}

/// The lower-case hexadecimal digits read back to their values.
proof fn lemma_hex_of_digit(d: u32)
    requires
        d < 16,
    ensures
        crate::text::spec_hex_val(crate::text::hex_digit_char(d)) == Some(d),
{
}

/// A complete numeric token begins with a minus sign or a digit.
proof fn lemma_number_token_first(t: Seq<char>)
    requires
        json_number_token(t),
    ensures
        t.len() >= 1,
        t[0] == '-' || crate::parser::is_digit(t[0]),
{
}

/// A digit run inside an embedded token runs equally far in the
/// surrounding text, given the token's end is not extended by a digit.
proof fn lemma_digits_run_embed(s: Seq<char>, i: int, t: Seq<char>, x: int)
    requires
        0 <= i,
        i + t.len() <= s.len(),
        forall|k: int| 0 <= k < t.len() ==> #[trigger] t[k] == s[i + k],
        0 <= x <= t.len(),
        i + t.len() == s.len() || !crate::parser::is_digit(s[i + t.len()]),
    ensures
        crate::parser::digits_end(s, i + x) == i + crate::parser::digits_end(t, x),
{
    broadcast use crate::parser::lemma_digits_end;

    let y = crate::parser::digits_end(t, x);
    assert forall|k: int| i + x <= k < i + y implies crate::parser::is_digit(
        #[trigger] s[k],
    ) by {
        assert(t[k - i] == s[k]);
    }
    if y < t.len() {
        assert(s[i + y] == t[y]);
    }
    crate::parser::lemma_digits_end_range(s, i + x, i + y);
}

/// A complete numeric token embedded in a longer text parses there to
/// the same bit pattern and consumes exactly the token.
#[verifier::rlimit(100)]
proof fn lemma_number_embed(s: Seq<char>, i: int, t: Seq<char>)
    requires
        0 <= i,
        i + t.len() <= s.len(),
        s.subrange(i, i + t.len() as int) == t,
        json_number_token(t),
        i + t.len() == s.len() || !(crate::parser::is_digit(s[i + t.len()]) || s[i + t.len()]
            == '.' || s[i + t.len()] == 'e' || s[i + t.len()] == 'E'),
    ensures
        spec_parse_number(s, i) == SpecParse::<u64>::Parsed(
            number_bits_of_literal(t),
            i + t.len(),
        ),
{
    broadcast use crate::parser::lemma_digits_end;

    let n = t.len() as int;
    assert forall|k: int| 0 <= k < n implies #[trigger] t[k] == s[i + k] by {
        assert(s.subrange(i, i + n)[k] == s[i + k]);
    }
    lemma_number_token_first(t);
    let i1t: int = if t[0] == '-' {
        1
    } else {
        0
    };
    assert(i1t < n && crate::parser::is_digit(t[i1t]));
    let i2t = crate::parser::digits_end(t, i1t + 1);
    lemma_digits_run_embed(s, i, t, i1t + 1);
    assert(crate::parser::digits_end(s, i + i1t + 1) == i + i2t);
    let has_frac = i2t < n && t[i2t] == '.';
    if !has_frac && i2t < n {
        assert(s[i + i2t] == t[i2t]);
    }
    let i3t: int = if has_frac {
        crate::parser::digits_end(t, i2t + 2)
    } else {
        i2t
    };
    if has_frac {
        assert(i2t + 1 < n && crate::parser::is_digit(t[i2t + 1]));
        lemma_digits_run_embed(s, i, t, i2t + 2);
    }
    let has_exp = i3t < n && (t[i3t] == 'e' || t[i3t] == 'E');
    if !has_exp && i3t < n {
        assert(s[i + i3t] == t[i3t]);
    }
    if has_exp {
        let i4t: int = if i3t + 1 < n && (t[i3t + 1] == '-' || t[i3t + 1] == '+') {
            i3t + 2
        } else {
            i3t + 1
        };
        assert(i4t < n && crate::parser::is_digit(t[i4t]));
        lemma_digits_run_embed(s, i, t, i4t + 1);
        assert(crate::parser::digits_end(t, i4t + 1) == n);
    } else {
        assert(i3t == n);
    }
    assert(s.subrange(i, i + n) == t);
}

/// The characters a buffer of basic-plane code units decodes to.
spec fn chars_of_units(units: Seq<u16>) -> Seq<char> {
    Seq::new(units.len(), |i: int| (units[i] as u32) as char)
}

/// A buffer of basic-plane code units decodes unit by unit.
proof fn lemma_decode_bmp(units: Seq<u16>)
    requires
        forall|j: int| 0 <= j < units.len() ==> #[trigger] units[j] < 0xD800,
    ensures
        spec_utf16_decode(units) == Some(chars_of_units(units)),
    decreases units.len(),
{
    if units.len() == 0 {
        assert(chars_of_units(units) =~= Seq::<char>::empty());
    } else {
        lemma_decode_bmp(units.drop_first());
        assert(chars_of_units(units) =~= seq![(units[0] as u32) as char] + chars_of_units(
            units.drop_first(),
        ));
    }
}

/// Four specific hexadecimal text characters read back to the code
/// unit they spell.
proof fn lemma_read_hex_of_escape(s: Seq<char>, p: int, c: char)
    requires
        0 <= p,
        p + 4 <= s.len(),
        (c as u32) < 0x20,
        s[p] == '0',
        s[p + 1] == '0',
        s[p + 2] == crate::text::hex_digit_char((c as u32) / 16),
        s[p + 3] == crate::text::hex_digit_char((c as u32) % 16),
    ensures
        crate::parser::spec_read_hex(s, p, 4, 0) == SpecParse::<u16>::Parsed(
            (c as u32) as u16,
            p + 4,
        ),
{
    lemma_hex_of_digit(0);
    lemma_hex_of_digit((c as u32) / 16);
    lemma_hex_of_digit((c as u32) % 16);
    reveal_with_fuel(crate::parser::spec_read_hex, 5);
    assert((c as u32) / 16 * 16 + (c as u32) % 16 == c as u32);
}

/// The body of a string literal built by escaping `cs`, parsed from
/// position `p` with basic-plane units pending, yields the pending
/// characters followed by `cs`.
#[verifier::rlimit(100)]
proof fn lemma_str_body_embed(
    s: Seq<char>,
    p: int,
    cs: Seq<char>,
    units: Seq<u16>,
    acc: Seq<char>,
)
    requires
        0 <= p,
        p + spec_escape(cs).len() + 1 <= s.len(),
        s.subrange(p, p + spec_escape(cs).len() + 1) == spec_escape(cs) + seq!['"'],
        forall|j: int| 0 <= j < units.len() ==> #[trigger] units[j] < 0xD800,
    ensures
        spec_str_body(s, p, units, acc) == SpecParse::<Seq<char>>::Parsed(
            acc + chars_of_units(units) + cs,
            p + spec_escape(cs).len() + 1,
        ),
    decreases cs.len(),
{
    let e = spec_escape(cs);
    let w = e + seq!['"'];
    assert forall|k: int| 0 <= k < w.len() implies #[trigger] w[k] == s[p + k] by {
        assert(s.subrange(p, p + e.len() + 1)[k] == s[p + k]);
    }
    if cs.len() == 0 {
        assert(e =~= Seq::<char>::empty());
        assert(s[p] == w[0]);
        lemma_decode_bmp(units);
        assert(acc + chars_of_units(units) + cs =~= acc + chars_of_units(units));
    } else {
        let c = cs[0];
        let ec = crate::generator::spec_escape_char(c);
        let rest = cs.drop_first();
        assert(e == ec + spec_escape(rest));
        assert forall|k: int| 0 <= k < ec.len() implies #[trigger] ec[k] == s[p + k] by {
            assert(w[k] == (ec + spec_escape(rest))[k]);
        }
        let p2 = p + ec.len();
        assert(s.subrange(p2, p2 + spec_escape(rest).len() + 1) =~= spec_escape(rest) + seq![
            '"',
        ]) by {
            assert forall|k: int| 0 <= k < spec_escape(rest).len() + 1 implies s.subrange(
                p2,
                p2 + spec_escape(rest).len() + 1,
            )[k] == (spec_escape(rest) + seq!['"'])[k] by {
                assert(s[p2 + k] == w[ec.len() + k]);
            }
        }
        if ec.len() == 1 {
            // An unescaped character: not a quote, a backslash, or a
            // control character.
            assert(ec =~= seq![c]);
            assert(s[p] == ec[0]);
            assert(c != '"' && c != '\\' && (c as u32) >= 0x20);
            lemma_decode_bmp(units);
            lemma_str_body_embed(s, p + 1, rest, Seq::empty(), acc + chars_of_units(units)
                + seq![c]);
            assert(chars_of_units(Seq::<u16>::empty()) =~= Seq::<char>::empty());
            assert((acc + chars_of_units(units) + seq![c]) + Seq::<char>::empty() + rest =~= acc
                + chars_of_units(units) + cs);
        } else if ec.len() == 2 {
            // A named two-character escape.
            assert(s[p] == ec[0] && s[p + 1] == ec[1]);
            assert(ec[0] == '\\');
            assert(crate::parser::escape_of(ec[1]) == Some(c));
            lemma_decode_bmp(units);
            lemma_str_body_embed(s, p + 2, rest, Seq::empty(), acc + chars_of_units(units)
                + seq![c]);
            assert(chars_of_units(Seq::<u16>::empty()) =~= Seq::<char>::empty());
            assert((acc + chars_of_units(units) + seq![c]) + Seq::<char>::empty() + rest =~= acc
                + chars_of_units(units) + cs);
        } else {
            // A `\u00XX` escape for a control character.
            assert((c as u32) < 0x20);
            assert(ec =~= seq!['\\', 'u', '0', '0', crate::text::hex_digit_char(
                (c as u32) / 16,
            ), crate::text::hex_digit_char((c as u32) % 16)]);
            assert(s[p] == ec[0] && s[p + 1] == ec[1]);
            assert(s[p + 2] == ec[2] && s[p + 3] == ec[3]);
            assert(s[p + 4] == ec[4] && s[p + 5] == ec[5]);
            lemma_read_hex_of_escape(s, p + 2, c);
            let u: u16 = (c as u32) as u16;
            assert(u < 0xD800);
            lemma_str_body_embed(s, p + 6, rest, units.push(u), acc);
            assert(chars_of_units(units.push(u)) =~= chars_of_units(units) + seq![c]) by {
                vstd::utf8::char_u32_cast(c, c as u32);
            }
            assert(acc + (chars_of_units(units) + seq![c]) + rest =~= acc + chars_of_units(units)
                + cs);
        }
    }
}

/// A string literal built by quoting `cs`, embedded in a longer text,
/// parses back to exactly `cs`.
proof fn lemma_string_embed(s: Seq<char>, i: int, cs: Seq<char>)
    requires
        0 <= i,
        i + crate::generator::spec_quote(cs).len() <= s.len(),
        s.subrange(i, i + crate::generator::spec_quote(cs).len() as int)
            == crate::generator::spec_quote(cs),
    ensures
        spec_parse_string(s, i) == SpecParse::<Seq<char>>::Parsed(
            cs,
            i + crate::generator::spec_quote(cs).len(),
        ),
{
    let q = crate::generator::spec_quote(cs);
    assert forall|k: int| 0 <= k < q.len() implies #[trigger] q[k] == s[i + k] by {
        assert(s.subrange(i, i + q.len() as int)[k] == s[i + k]);
    }
    assert(s.subrange(i + 1, i + 1 + spec_escape(cs).len() + 1) =~= spec_escape(cs) + seq![
        '"',
    ]) by {
        assert forall|k: int| 0 <= k < spec_escape(cs).len() + 1 implies s.subrange(
            i + 1,
            i + 1 + spec_escape(cs).len() + 1,
        )[k] == (spec_escape(cs) + seq!['"'])[k] by {
            assert(s[i + 1 + k] == q[1 + k]);
        }
    }
    lemma_str_body_embed(s, i + 1, cs, Seq::empty(), Seq::empty());
    assert(chars_of_units(Seq::<u16>::empty()) =~= Seq::<char>::empty());
    assert(Seq::<char>::empty() + Seq::<char>::empty() + cs =~= cs);
}

/// A keyword embedded in a longer text parses there and consumes
/// exactly itself.
proof fn lemma_literal_embed(s: Seq<char>, i: int, lit: Seq<char>)
    requires
        0 <= i,
        i + lit.len() <= s.len(),
        forall|k: int| 0 <= k < lit.len() ==> #[trigger] lit[k] == s[i + k],
    ensures
        crate::parser::spec_parse_literal(s, i, lit) == SpecParse::<()>::Parsed((), i + lit.len()),
    decreases lit.len(),
{
    if lit.len() > 0 {
        assert(lit[0] == s[i]);
        assert forall|k: int| 0 <= k < lit.drop_first().len() implies #[trigger] lit.drop_first()[k]
            == s[i + 1 + k] by {
            assert(lit.drop_first()[k] == lit[k + 1]);
        }
        lemma_literal_embed(s, i + 1, lit.drop_first());
    }
}

/// The first character of a value's compact text: never whitespace and
/// never a closing delimiter, a comma, or a colon.
proof fn lemma_encode_shape(v: SpecValue)
    requires
        serializable(v),
        numbers_round_trip(v),
    ensures
        spec_encode(v).len() >= 1,
        !crate::parser::is_ws(spec_encode(v)[0]),
        spec_encode(v)[0] != ']' && spec_encode(v)[0] != '}' && spec_encode(v)[0] != ','
            && spec_encode(v)[0] != ':',
{
    match v {
        SpecValue::Number(bits) => {
            crate::num::lemma_min_number_facts(bits);
            lemma_number_token_first(crate::num::spec_min_number_text(bits));
        },
        _ => (),
    }
}

/// The tail of an array's compact text after its first element: a
/// comma-led element each, then the closing bracket.
spec fn enc_arr_tail(rest: Seq<SpecValue>) -> Seq<char>
    decreases rest, 2int,
    via enc_arr_tail_dec
{
    if rest.len() == 0 {
        seq![']']
    } else {
        seq![','] + spec_encode(rest.first()) + enc_arr_tail(rest.drop_first())
    }
}

#[via_fn]
proof fn enc_arr_tail_dec(rest: Seq<SpecValue>) {
    if rest.len() > 0 {
        assert(decreases_to!(rest => rest[0]));
        assert(decreases_to!(rest => rest.drop_first()));
    }
}

/// The tail of an object's compact text after its first member: a
/// comma-led member each, then the closing brace.
spec fn enc_obj_tail(rest: Seq<(Seq<char>, SpecValue)>) -> Seq<char>
    decreases rest, 2int,
    via enc_obj_tail_dec
{
    if rest.len() == 0 {
        seq!['}']
    } else {
        seq![','] + crate::generator::spec_quote(rest.first().0) + seq![':'] + spec_encode(
            rest.first().1,
        ) + enc_obj_tail(rest.drop_first())
    }
}

#[via_fn]
proof fn enc_obj_tail_dec(rest: Seq<(Seq<char>, SpecValue)>) {
    if rest.len() > 0 {
        assert(decreases_to!(rest => rest[0]));
        assert(decreases_to!(rest => rest.drop_first()));
    }
}

/// Joined array elements unroll from the front.
proof fn lemma_elems_front(a: Seq<SpecValue>)
    requires
        a.len() >= 2,
    ensures
        crate::generator::spec_encode_elems(a) == spec_encode(a.first()) + seq![',']
            + crate::generator::spec_encode_elems(a.drop_first()),
    decreases a.len(),
{
    let b = a.drop_first();
    if a.len() == 2 {
        assert(a.drop_last() =~= seq![a[0]]);
        assert(b =~= seq![a[1]]);
        assert(a.drop_last().last() == a[0]);
        assert(b.last() == a[1]);
        assert(crate::generator::spec_encode_elems(a.drop_last()) == spec_encode(a[0]));
        assert(crate::generator::spec_encode_elems(b) == spec_encode(a[1]));
        assert(a.first() == a[0] && a.last() == a[1]);
        assert(crate::generator::spec_encode_elems(a) == crate::generator::spec_encode_elems(
            a.drop_last(),
        ) + seq![','] + spec_encode(a.last()));
    } else {
        lemma_elems_front(a.drop_last());
        assert(a.drop_last().first() == a.first());
        assert(a.drop_last().drop_first() =~= b.drop_last());
        assert(b.last() == a.last());
        assert(crate::generator::spec_encode_elems(b) == crate::generator::spec_encode_elems(
            b.drop_last(),
        ) + seq![','] + spec_encode(b.last()));
        assert(spec_encode(a.first()) + seq![','] + (crate::generator::spec_encode_elems(
            b.drop_last(),
        ) + seq![','] + spec_encode(a.last())) =~= (spec_encode(a.first()) + seq![',']
            + crate::generator::spec_encode_elems(b.drop_last())) + seq![','] + spec_encode(
            a.last(),
        ));
        assert(spec_encode(a.first()) + seq![','] + crate::generator::spec_encode_elems(b)
            =~= spec_encode(a.first()) + seq![','] + (crate::generator::spec_encode_elems(
            b.drop_last(),
        ) + seq![','] + spec_encode(b.last())));
    }
}

/// The compact text of a non-empty array splits into its first element
/// and the comma-led tail.
proof fn lemma_arr_split(a: Seq<SpecValue>)
    requires
        a.len() >= 1,
    ensures
        crate::generator::spec_encode_elems(a) + seq![']'] == spec_encode(a.first())
            + enc_arr_tail(a.drop_first()),
    decreases a.len(),
{
    if a.len() == 1 {
        assert(a.last() == a.first());
        assert(a.drop_first() =~= Seq::<SpecValue>::empty());
    } else {
        lemma_elems_front(a);
        let b = a.drop_first();
        lemma_arr_split(b);
        assert((spec_encode(a.first()) + seq![','] + crate::generator::spec_encode_elems(b))
            + seq![']'] =~= spec_encode(a.first()) + (seq![','] + (
        crate::generator::spec_encode_elems(b) + seq![']'])));
        assert(seq![','] + (spec_encode(b.first()) + enc_arr_tail(b.drop_first())) =~= seq![',']
            + spec_encode(b.first()) + enc_arr_tail(b.drop_first()));
        assert(spec_encode(a.first()) + (seq![','] + (crate::generator::spec_encode_elems(b)
            + seq![']'])) == spec_encode(a.first()) + enc_arr_tail(b));
    }
}

/// Joined object members unroll from the front.
proof fn lemma_pairs_front(m: Seq<(Seq<char>, SpecValue)>)
    requires
        m.len() >= 2,
    ensures
        crate::generator::spec_encode_pairs(m) == crate::generator::spec_quote(m.first().0)
            + seq![':'] + spec_encode(m.first().1) + seq![',']
            + crate::generator::spec_encode_pairs(m.drop_first()),
    decreases m.len(),
{
    let b = m.drop_first();
    let head = crate::generator::spec_quote(m.first().0) + seq![':'] + spec_encode(m.first().1);
    if m.len() == 2 {
        assert(m.drop_last() =~= seq![m[0]]);
        assert(b =~= seq![m[1]]);
        assert(m.drop_last().last() == m[0]);
        assert(b.last() == m[1]);
        assert(crate::generator::spec_encode_pairs(m) == crate::generator::spec_encode_pairs(
            m.drop_last(),
        ) + seq![','] + crate::generator::spec_quote(m.last().0) + seq![':'] + spec_encode(
            m.last().1,
        ));
        assert(head + seq![','] + (crate::generator::spec_quote(b.last().0) + seq![':']
            + spec_encode(b.last().1)) =~= head + seq![','] + crate::generator::spec_quote(
            b.last().0,
        ) + seq![':'] + spec_encode(b.last().1));
    } else {
        lemma_pairs_front(m.drop_last());
        assert(m.drop_last().first() == m.first());
        assert(m.drop_last().drop_first() =~= b.drop_last());
        assert(b.last() == m.last());
        let tailp = crate::generator::spec_quote(m.last().0) + seq![':'] + spec_encode(
            m.last().1,
        );
        assert(crate::generator::spec_encode_pairs(b) == crate::generator::spec_encode_pairs(
            b.drop_last(),
        ) + seq![','] + crate::generator::spec_quote(b.last().0) + seq![':'] + spec_encode(
            b.last().1,
        ));
        assert(head + seq![','] + crate::generator::spec_encode_pairs(b) =~= (head + seq![',']
            + crate::generator::spec_encode_pairs(b.drop_last())) + seq![','] + tailp);
        assert(crate::generator::spec_encode_pairs(m) == crate::generator::spec_encode_pairs(
            m.drop_last(),
        ) + seq![','] + tailp);
    }
}

/// The compact text of a non-empty object splits into its first member
/// and the comma-led tail.
proof fn lemma_obj_split(m: Seq<(Seq<char>, SpecValue)>)
    requires
        m.len() >= 1,
    ensures
        crate::generator::spec_encode_pairs(m) + seq!['}'] == crate::generator::spec_quote(
            m.first().0,
        ) + seq![':'] + spec_encode(m.first().1) + enc_obj_tail(m.drop_first()),
    decreases m.len(),
{
    let head = crate::generator::spec_quote(m.first().0) + seq![':'] + spec_encode(m.first().1);
    if m.len() == 1 {
        assert(m.last() == m.first());
        assert(m.drop_first() =~= Seq::<(Seq<char>, SpecValue)>::empty());
        assert(head + seq!['}'] =~= crate::generator::spec_encode_pairs(m) + seq!['}']);
    } else {
        lemma_pairs_front(m);
        let b = m.drop_first();
        lemma_obj_split(b);
        let headb = crate::generator::spec_quote(b.first().0) + seq![':'] + spec_encode(
            b.first().1,
        );
        assert((head + seq![','] + crate::generator::spec_encode_pairs(b)) + seq!['}'] =~= head
            + (seq![','] + (crate::generator::spec_encode_pairs(b) + seq!['}'])));
        assert(seq![','] + (headb + enc_obj_tail(b.drop_first())) =~= seq![','] + headb
            + enc_obj_tail(b.drop_first()));
        assert(head + (seq![','] + (crate::generator::spec_encode_pairs(b) + seq!['}'])) == head
            + enc_obj_tail(b));
    }
}

/// A value's compact text, embedded in a longer text and not followed
/// by a character that could extend a numeric token, parses back to
/// exactly that value.
#[verifier::rlimit(100)]
proof fn lemma_value_embed(s: Seq<char>, i: int, v: SpecValue, fuel: nat)
    requires
        0 <= i,
        i + spec_encode(v).len() <= s.len(),
        s.subrange(i, i + spec_encode(v).len() as int) == spec_encode(v),
        value_wf(v),
        serializable(v),
        numbers_round_trip(v),
        fuel >= s.len() - i + 1,
        i + spec_encode(v).len() == s.len() || !(crate::parser::is_digit(
            s[i + spec_encode(v).len()],
        ) || s[i + spec_encode(v).len()] == '.' || s[i + spec_encode(v).len()] == 'e' || s[i
            + spec_encode(v).len()] == 'E'),
    ensures
        spec_parse_value(s, i, fuel) == SpecParse::<SpecValue>::Parsed(
            v,
            i + spec_encode(v).len(),
        ),
    decreases fuel, 3int,
{
    let e = spec_encode(v);
    let n = e.len() as int;
    assert forall|k: int| 0 <= k < n implies #[trigger] e[k] == s[i + k] by {
        assert(s.subrange(i, i + n)[k] == s[i + k]);
    }
    lemma_encode_shape(v);
    assert(s[i] == e[0]);
    assert(crate::parser::skip_ws(s, i) == i);
    match v {
        SpecValue::Number(bits) => {
            assert(!spec_non_finite_bits(bits));
            crate::num::lemma_min_number_facts(bits);
            assert(json_number_token(e));
            assert(number_bits_of_literal(e) == bits);
            lemma_number_token_first(e);
            lemma_number_embed(s, i, e);
            assert(spec_parse_number(s, i) == SpecParse::<u64>::Parsed(bits, i + n));
            assert(crate::parser::is_digit(e[0]) || e[0] == '-');
            assert(spec_parse_value(s, i, fuel) == SpecParse::<SpecValue>::Parsed(
                SpecValue::Number(bits),
                i + n,
            ));
        },
        SpecValue::Boolean(b) => {
            if b {
                lemma_literal_embed(s, i, seq!['t', 'r', 'u', 'e']);
            } else {
                lemma_literal_embed(s, i, seq!['f', 'a', 'l', 's', 'e']);
            }
            assert(spec_parse_value(s, i, fuel) == SpecParse::<SpecValue>::Parsed(
                SpecValue::Boolean(b),
                i + n,
            ));
        },
        SpecValue::Null => {
            lemma_literal_embed(s, i, seq!['n', 'u', 'l', 'l']);
            assert(spec_parse_value(s, i, fuel) == SpecParse::<SpecValue>::Parsed(
                SpecValue::Null,
                i + n,
            ));
        },
        SpecValue::String(cs) => {
            lemma_string_embed(s, i, cs);
            assert(spec_parse_value(s, i, fuel) == SpecParse::<SpecValue>::Parsed(
                SpecValue::String(cs),
                i + n,
            ));
        },
        SpecValue::Array(a) => {
            lemma_array_embed(s, i, a, fuel);
        },
        SpecValue::Object(m) => {
            lemma_object_embed(s, i, m, fuel);
        },
    }
}

/// An array's compact text, standing at its opening bracket, parses
/// back to the array.
#[verifier::rlimit(100)]
proof fn lemma_array_embed(s: Seq<char>, i: int, a: Seq<SpecValue>, fuel: nat)
    requires
        0 <= i,
        i + spec_encode(SpecValue::Array(a)).len() <= s.len(),
        s.subrange(i, i + spec_encode(SpecValue::Array(a)).len() as int) == spec_encode(
            SpecValue::Array(a),
        ),
        value_wf(SpecValue::Array(a)),
        serializable(SpecValue::Array(a)),
        numbers_round_trip(SpecValue::Array(a)),
        fuel >= s.len() - i + 1,
    ensures
        spec_parse_array(s, i, fuel) == SpecParse::<SpecValue>::Parsed(
            SpecValue::Array(a),
            i + spec_encode(SpecValue::Array(a)).len(),
        ),
    decreases fuel, 2int,
{
    let v = SpecValue::Array(a);
    let e = spec_encode(v);
    let n = e.len() as int;
    assert forall|k: int| 0 <= k < n implies #[trigger] e[k] == s[i + k] by {
        assert(s.subrange(i, i + n)[k] == s[i + k]);
    }
    if a.len() == 0 {
        assert(a =~= Seq::<SpecValue>::empty());
        assert(e =~= seq!['[', ']']);
        assert(s[i + 1] == ']');
        assert(crate::parser::skip_ws(s, i + 1) == i + 1);
    } else {
        lemma_arr_split(a);
        let a0 = a.first();
        let rest = a.drop_first();
        let e0 = spec_encode(a0);
        let tl = enc_arr_tail(rest);
        assert(e =~= seq!['['] + (e0 + tl)) by {
            assert(e == seq!['['] + crate::generator::spec_encode_elems(a) + seq![']']);
            assert(seq!['['] + crate::generator::spec_encode_elems(a) + seq![']'] =~= seq![
                '[',
            ] + (crate::generator::spec_encode_elems(a) + seq![']']));
        }
        assert(forall|j: int| 0 <= j < a.len() ==> value_wf(#[trigger] a[j]));
        assert(a0 == a[0]);
        lemma_encode_shape(a0);
        assert forall|k: int| 0 <= k < e0.len() implies #[trigger] e0[k] == s[i + 1 + k] by {
            assert(e[1 + k] == (e0 + tl)[k]);
        }
        assert(s.subrange(i + 1, i + 1 + e0.len() as int) =~= e0);
        assert(s[i + 1] == e0[0]);
        assert(crate::parser::skip_ws(s, i + 1) == i + 1);
        assert(s[i + 1] != ']');
        let p1 = i + 1 + e0.len() as int;
        assert forall|k: int| 0 <= k < tl.len() implies #[trigger] tl[k] == s[p1 + k] by {
            assert(e[1 + e0.len() + k] == (e0 + tl)[e0.len() + k]);
        }
        assert(tl[0] == ',' || tl[0] == ']');
        lemma_value_embed(s, i + 1, a0, (fuel - 1) as nat);
        assert(s.subrange(p1, p1 + tl.len() as int) =~= tl);
        lemma_array_rest_embed(s, p1, seq![a0], rest, (fuel - 1) as nat);
        assert(seq![a0] + rest =~= a);
        assert(spec_parse_value(s, i + 1, (fuel - 1) as nat) == SpecParse::<SpecValue>::Parsed(
            a0,
            p1,
        ));
        assert(spec_parse_array_rest(s, p1, seq![a0], (fuel - 1) as nat)
            == SpecParse::<SpecValue>::Parsed(SpecValue::Array(a), p1 + tl.len()));
        assert((crate::generator::spec_encode_elems(a) + seq![']']).len() == e0.len()
            + tl.len());
        assert(p1 + tl.len() == i + n);
    }
    assert(spec_parse_array(s, i, fuel) == SpecParse::<SpecValue>::Parsed(
        SpecValue::Array(a),
        i + n,
    ));
}

/// An object's compact text, standing at its opening brace, parses
/// back to the object.
#[verifier::rlimit(100)]
proof fn lemma_object_embed(s: Seq<char>, i: int, m: Seq<(Seq<char>, SpecValue)>, fuel: nat)
    requires
        0 <= i,
        i + spec_encode(SpecValue::Object(m)).len() <= s.len(),
        s.subrange(i, i + spec_encode(SpecValue::Object(m)).len() as int) == spec_encode(
            SpecValue::Object(m),
        ),
        value_wf(SpecValue::Object(m)),
        serializable(SpecValue::Object(m)),
        numbers_round_trip(SpecValue::Object(m)),
        fuel >= s.len() - i + 1,
    ensures
        spec_parse_object(s, i, fuel) == SpecParse::<SpecValue>::Parsed(
            SpecValue::Object(m),
            i + spec_encode(SpecValue::Object(m)).len(),
        ),
    decreases fuel, 2int,
{
    let v = SpecValue::Object(m);
    let e = spec_encode(v);
    let n = e.len() as int;
    assert forall|k: int| 0 <= k < n implies #[trigger] e[k] == s[i + k] by {
        assert(s.subrange(i, i + n)[k] == s[i + k]);
    }
    if m.len() == 0 {
        assert(m =~= Seq::<(Seq<char>, SpecValue)>::empty());
        assert(e =~= seq!['{', '}']);
        assert(s[i + 1] == '}');
        assert(crate::parser::skip_ws(s, i + 1) == i + 1);
    } else {
        lemma_obj_split(m);
        let k0 = m.first().0;
        let v0 = m.first().1;
        let rest = m.drop_first();
        let head = crate::generator::spec_quote(k0) + seq![':'] + spec_encode(v0);
        let tl = enc_obj_tail(rest);
        assert(e =~= seq!['{'] + (head + tl)) by {
            assert(e == seq!['{'] + crate::generator::spec_encode_pairs(m) + seq!['}']);
            assert(seq!['{'] + crate::generator::spec_encode_pairs(m) + seq!['}'] =~= seq![
                '{',
            ] + (crate::generator::spec_encode_pairs(m) + seq!['}']));
        }
        assert forall|k: int| 0 <= k < head.len() implies #[trigger] head[k] == s[i + 1 + k] by {
            assert(e[1 + k] == (head + tl)[k]);
        }
        let p1 = i + 1 + head.len() as int;
        assert forall|k: int| 0 <= k < tl.len() implies #[trigger] tl[k] == s[p1 + k] by {
            assert(e[1 + head.len() + k] == (head + tl)[head.len() + k]);
        }
        assert(tl[0] == ',' || tl[0] == '}');
        assert(s.subrange(i + 1, i + 1 + head.len() as int) =~= head);
        assert(s[i + 1] == head[0]);
        assert(head[0] == '"');
        assert(crate::parser::skip_ws(s, i + 1) == i + 1);
        assert(s[i + 1] != '}');
        assert(forall|j: int| 0 <= j < m.len() ==> value_wf((#[trigger] m[j]).1));
        assert(value_wf(v0) && serializable(v0) && numbers_round_trip(v0)) by {
            assert(m[0].1 == v0);
        }
        assert(forall|j: int|
            0 <= j < Seq::<(Seq<char>, SpecValue)>::empty().len() ==> Seq::<(
                Seq<char>,
                SpecValue,
            )>::empty()[j].0 != k0);
        lemma_member_embed(s, i + 1, Seq::empty(), k0, v0, (fuel - 1) as nat);
        assert(Seq::<(Seq<char>, SpecValue)>::empty().push((k0, v0)) =~= seq![(k0, v0)]);
        assert(s.subrange(p1, p1 + tl.len() as int) =~= tl);
        assert(obj_keys_unique(m));
        assert forall|j: int| 0 <= j < rest.len() implies (#[trigger] rest[j]).0 != k0 by {
            assert(rest[j] == m[j + 1]);
        }
        lemma_object_rest_embed(s, p1, seq![(k0, v0)], rest, (fuel - 1) as nat);
        assert(seq![(k0, v0)] + rest =~= m);
        assert(spec_parse_member(s, i + 1, Seq::empty(), (fuel - 1) as nat) == SpecParse::<
            Seq<(Seq<char>, SpecValue)>,
        >::Parsed(seq![(k0, v0)], p1));
        assert(spec_parse_object_rest(s, p1, seq![(k0, v0)], (fuel - 1) as nat)
            == SpecParse::<SpecValue>::Parsed(SpecValue::Object(m), p1 + tl.len()));
        assert((crate::generator::spec_encode_pairs(m) + seq!['}']).len() == head.len()
            + tl.len());
        assert(p1 + tl.len() == i + n);
    }
    assert(spec_parse_object(s, i, fuel) == SpecParse::<SpecValue>::Parsed(
        SpecValue::Object(m),
        i + n,
    ));
}

/// The comma-led tail of an array's text parses on, element by
/// element, to the array of the elements seen so far plus the rest.
#[verifier::rlimit(100)]
proof fn lemma_array_rest_embed(
    s: Seq<char>,
    p: int,
    acc: Seq<SpecValue>,
    rest: Seq<SpecValue>,
    fuel: nat,
)
    requires
        0 <= p,
        p + enc_arr_tail(rest).len() <= s.len(),
        s.subrange(p, p + enc_arr_tail(rest).len() as int) == enc_arr_tail(rest),
        forall|j: int| 0 <= j < rest.len() ==> value_wf(#[trigger] rest[j]) && serializable(
            rest[j],
        ) && numbers_round_trip(rest[j]),
        fuel >= s.len() - p + 1,
    ensures
        spec_parse_array_rest(s, p, acc, fuel) == SpecParse::<SpecValue>::Parsed(
            SpecValue::Array(acc + rest),
            p + enc_arr_tail(rest).len(),
        ),
    decreases fuel, 2int,
{
    let tl = enc_arr_tail(rest);
    assert forall|k: int| 0 <= k < tl.len() implies #[trigger] tl[k] == s[p + k] by {
        assert(s.subrange(p, p + tl.len() as int)[k] == s[p + k]);
    }
    if rest.len() == 0 {
        assert(tl =~= seq![']']);
        assert(tl[0] == ']');
        assert(s[p] == tl[0]);
        assert(crate::parser::skip_ws(s, p) == p);
        assert(acc + rest =~= acc);
    } else {
        let r0 = rest.first();
        let rr = rest.drop_first();
        let e0 = spec_encode(r0);
        let tl2 = enc_arr_tail(rr);
        assert(tl == seq![','] + e0 + tl2);
        assert(tl =~= seq![','] + (e0 + tl2));
        assert(tl[0] == ',');
        assert(s[p] == tl[0]);
        assert(crate::parser::skip_ws(s, p) == p);
        assert(r0 == rest[0]);
        lemma_encode_shape(r0);
        assert forall|k: int| 0 <= k < e0.len() implies #[trigger] e0[k] == s[p + 1 + k] by {
            assert(tl[1 + k] == (e0 + tl2)[k]);
        }
        let p1 = p + 1 + e0.len() as int;
        assert forall|k: int| 0 <= k < tl2.len() implies #[trigger] tl2[k] == s[p1 + k] by {
            assert(tl[1 + e0.len() + k] == (e0 + tl2)[e0.len() + k]);
        }
        assert(tl2[0] == ',' || tl2[0] == ']');
        assert(s.subrange(p + 1, p + 1 + e0.len() as int) =~= e0);
        lemma_value_embed(s, p + 1, r0, (fuel - 1) as nat);
        assert(s.subrange(p1, p1 + tl2.len() as int) =~= tl2);
        assert forall|j: int| 0 <= j < rr.len() implies value_wf(#[trigger] rr[j]) && serializable(
            rr[j],
        ) && numbers_round_trip(rr[j]) by {
            assert(rr[j] == rest[j + 1]);
        }
        lemma_array_rest_embed(s, p1, acc.push(r0), rr, (fuel - 1) as nat);
        assert(acc.push(r0) + rr =~= acc + rest);
    }
}

/// One `key: value` member of an object's text parses to the pair
/// appended, since its key is fresh.
#[verifier::rlimit(100)]
proof fn lemma_member_embed(
    s: Seq<char>,
    p: int,
    acc: Seq<(Seq<char>, SpecValue)>,
    k0: Seq<char>,
    v0: SpecValue,
    fuel: nat,
)
    requires
        0 <= p,
        p + crate::generator::spec_quote(k0).len() + 1 + spec_encode(v0).len() < s.len(),
        s.subrange(
            p,
            p + crate::generator::spec_quote(k0).len() + 1 + spec_encode(v0).len() as int,
        ) == crate::generator::spec_quote(k0) + seq![':'] + spec_encode(v0),
        s[p + crate::generator::spec_quote(k0).len() + 1 + spec_encode(v0).len()] == ',' || s[p
            + crate::generator::spec_quote(k0).len() + 1 + spec_encode(v0).len()] == '}',
        value_wf(v0),
        serializable(v0),
        numbers_round_trip(v0),
        forall|j: int| 0 <= j < acc.len() ==> (#[trigger] acc[j]).0 != k0,
        fuel >= s.len() - p + 1,
    ensures
        spec_parse_member(s, p, acc, fuel) == SpecParse::<Seq<(Seq<char>, SpecValue)>>::Parsed(
            acc.push((k0, v0)),
            p + crate::generator::spec_quote(k0).len() + 1 + spec_encode(v0).len(),
        ),
    decreases fuel, 4int,
{
    let q = crate::generator::spec_quote(k0);
    let e0 = spec_encode(v0);
    let head = q + seq![':'] + e0;
    assert forall|k: int| 0 <= k < head.len() implies #[trigger] head[k] == s[p + k] by {
        assert(s.subrange(p, p + head.len() as int)[k] == s[p + k]);
    }
    assert forall|k: int| 0 <= k < q.len() implies s.subrange(p, p + q.len() as int)[k]
        == q[k] by {
        assert(head[k] == q[k]);
        assert(s.subrange(p, p + q.len() as int)[k] == s[p + k]);
    }
    assert(s.subrange(p, p + q.len() as int) =~= q);
    assert(s[p] == q[0] && q[0] == '"');
    assert(crate::parser::skip_ws(s, p) == p);
    assert(s[p + q.len()] == head[q.len() as int] && head[q.len() as int] == ':');
    lemma_value_embed(s, p, SpecValue::String(k0), fuel);
    let pk = p + q.len() as int;
    assert(crate::parser::skip_ws(s, pk) == pk);
    assert forall|k: int| 0 <= k < e0.len() implies s.subrange(
        pk + 1,
        pk + 1 + e0.len() as int,
    )[k] == e0[k] by {
        assert(head[q.len() + 1 + k] == e0[k]);
        assert(s.subrange(pk + 1, pk + 1 + e0.len() as int)[k] == s[pk + 1 + k]);
    }
    assert(s.subrange(pk + 1, pk + 1 + e0.len() as int) =~= e0);
    lemma_value_embed(s, pk + 1, v0, fuel);
    crate::value::lemma_obj_insert_append(acc, k0, v0);
}

/// The comma-led tail of an object's text parses on, member by member,
/// to the object of the pairs seen so far plus the rest.
#[verifier::rlimit(100)]
proof fn lemma_object_rest_embed(
    s: Seq<char>,
    p: int,
    acc: Seq<(Seq<char>, SpecValue)>,
    rest: Seq<(Seq<char>, SpecValue)>,
    fuel: nat,
)
    requires
        0 <= p,
        p + enc_obj_tail(rest).len() <= s.len(),
        s.subrange(p, p + enc_obj_tail(rest).len() as int) == enc_obj_tail(rest),
        forall|j: int| 0 <= j < rest.len() ==> value_wf((#[trigger] rest[j]).1) && serializable(
            rest[j].1,
        ) && numbers_round_trip(rest[j].1),
        forall|j: int, j2: int| 0 <= j < j2 < rest.len() ==> (#[trigger] rest[j]).0 != (
        #[trigger] rest[j2]).0,
        forall|j: int, j2: int| 0 <= j < acc.len() && 0 <= j2 < rest.len() ==> (
        #[trigger] acc[j]).0 != (#[trigger] rest[j2]).0,
        fuel >= s.len() - p + 1,
    ensures
        spec_parse_object_rest(s, p, acc, fuel) == SpecParse::<SpecValue>::Parsed(
            SpecValue::Object(acc + rest),
            p + enc_obj_tail(rest).len(),
        ),
    decreases fuel, 2int,
{
    let tl = enc_obj_tail(rest);
    assert forall|k: int| 0 <= k < tl.len() implies #[trigger] tl[k] == s[p + k] by {
        assert(s.subrange(p, p + tl.len() as int)[k] == s[p + k]);
    }
    if rest.len() == 0 {
        assert(tl =~= seq!['}']);
        assert(tl[0] == '}');
        assert(s[p] == tl[0]);
        assert(crate::parser::skip_ws(s, p) == p);
        assert(acc + rest =~= acc);
    } else {
        let k0 = rest.first().0;
        let v0 = rest.first().1;
        let rr = rest.drop_first();
        let head = crate::generator::spec_quote(k0) + seq![':'] + spec_encode(v0);
        let tl2 = enc_obj_tail(rr);
        assert(tl == seq![','] + crate::generator::spec_quote(k0) + seq![':'] + spec_encode(v0)
            + tl2);
        assert(tl =~= seq![','] + (head + tl2));
        assert(tl[0] == ',');
        assert(s[p] == tl[0]);
        assert(crate::parser::skip_ws(s, p) == p);
        assert forall|k: int| 0 <= k < head.len() implies s.subrange(
            p + 1,
            p + 1 + head.len() as int,
        )[k] == head[k] by {
            assert(tl[1 + k] == (head + tl2)[k]);
            assert(s.subrange(p + 1, p + 1 + head.len() as int)[k] == s[p + 1 + k]);
        }
        assert(s.subrange(p + 1, p + 1 + head.len() as int) =~= head);
        let p1 = p + 1 + head.len() as int;
        assert forall|k: int| 0 <= k < tl2.len() implies s.subrange(
            p1,
            p1 + tl2.len() as int,
        )[k] == tl2[k] by {
            assert(tl[1 + head.len() + k] == (head + tl2)[head.len() + k]);
            assert(s.subrange(p1, p1 + tl2.len() as int)[k] == s[p1 + k]);
        }
        assert(s.subrange(p1, p1 + tl2.len() as int) =~= tl2);
        assert(tl2[0] == ',' || tl2[0] == '}') by {
            assert(tl[1 + head.len() as int] == (head + tl2)[head.len() as int]);
        }
        assert(rest[0] == rest.first());
        assert forall|j: int| 0 <= j < acc.len() implies (#[trigger] acc[j]).0 != k0 by {
            assert(rest[0].0 == k0);
        }
        lemma_member_embed(s, p + 1, acc, k0, v0, (fuel - 1) as nat);
        assert forall|j: int| 0 <= j < rr.len() implies value_wf((#[trigger] rr[j]).1)
            && serializable(rr[j].1) && numbers_round_trip(rr[j].1) by {
            assert(rr[j] == rest[j + 1]);
        }
        assert forall|j: int, j2: int| 0 <= j < j2 < rr.len() implies (#[trigger] rr[j]).0 != (
        #[trigger] rr[j2]).0 by {
            assert(rr[j] == rest[j + 1] && rr[j2] == rest[j2 + 1]);
        }
        assert forall|j: int, j2: int|
            0 <= j < acc.push((k0, v0)).len() && 0 <= j2 < rr.len() implies (#[trigger] acc.push(
            (k0, v0),
        )[j]).0 != (#[trigger] rr[j2]).0 by {
            assert(rr[j2] == rest[j2 + 1]);
            if j < acc.len() {
                assert(acc.push((k0, v0))[j] == acc[j]);
            } else {
                assert(acc.push((k0, v0))[j] == (k0, v0));
                assert(rest[0].0 == k0);
            }
        }
        lemma_object_rest_embed(s, p1, acc.push((k0, v0)), rr, (fuel - 1) as nat);
        assert(acc.push((k0, v0)) + rr =~= acc + rest);
    }
}

/// Parsing inverts generation: a well-formed tree whose finite numbers
/// render faithfully parses back, from its own compact text, to itself.
pub proof fn theorem_generate_then_parse(v: SpecValue)
    requires
        value_wf(v),
        serializable(v),
        numbers_round_trip(v),
    ensures
        spec_parse(spec_encode(v)) == SpecParse::<SpecValue>::Parsed(
            v,
            spec_encode(v).len() as int,
        ),
{
    let s = spec_encode(v);
    assert(s.subrange(0, s.len() as int) =~= s);
    lemma_value_embed(s, 0, v, (s.len() + 1) as nat);
    assert(crate::parser::skip_ws(s, s.len() as int) == s.len());
}

/// The two theorems, run on a live tree: serialize it compactly and
/// parse the text back; the parse is proved to return the same tree.
pub fn generate_then_parse(v: &JsonValue) -> (r: Option<JsonValue>)
    requires
        value_wf(v@),
    ensures
        serializable(v@) && spec_encode(v@).len() < usize::MAX ==> (r matches Some(v2) && v2@
            == v@),
{
    confirm_number_rendering(v);
    match crate::generator::stringify(v) {
        Ok(s) => {
            let n = crate::text::chars_of(s.as_str()).len();
            if n == usize::MAX {
                return None;
            }
            proof {
                theorem_generate_then_parse(v@);
            }
            let mut parser = crate::parser::JsonParser::new(s.as_str());
            match parser.parse() {
                Ok(v2) => Some(v2),
                Err(_) => vstd::pervasive::unreached(),
            }
        },
        Err(_) => None,
    }
}

/// Compact serialization is idempotent: serializing what a compact
/// text parses to gives that text back, byte for byte.
pub proof fn theorem_serialize_idempotent(t: Seq<char>, v: SpecValue)
    requires
        spec_parse(t) == SpecParse::<SpecValue>::Parsed(v, t.len() as int),
        serializable(v),
        numbers_round_trip(v),
    ensures
        spec_parse(spec_encode(v)) matches SpecParse::Parsed(v2, _) && spec_encode(v2)
            == spec_encode(v),
{
    theorem_parse_wf(t);
    theorem_generate_then_parse(v);
}

} // verus!
