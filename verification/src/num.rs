//! Numbers are carried through the tree as the bit pattern of a 64-bit
//! binary floating-point value, so that the tree itself stays in plain
//! integer arithmetic. Reading a decimal literal into such a bit pattern
//! and rendering a bit pattern back to decimal text go through
//! `rustc_apfloat`'s software implementation of IEEE 754 doubles.

use vstd::prelude::*;

use crate::text::{chars_of, string_from_chars};

verus! {

/// The bit pattern that correctly rounded decimal-to-binary conversion
/// assigns to a numeric literal. The result depends on the characters of
/// the literal alone.
pub uninterp spec fn number_bits_of_literal(s: Seq<char>) -> u64;

/// The decimal text rendered for the number with the given bit pattern.
/// The result depends on the bit pattern alone.
pub uninterp spec fn number_text_of_bits(bits: u64) -> Seq<char>;

/// The bit pattern denotes NaN or an infinity: all exponent bits set.
pub open spec fn spec_non_finite_bits(bits: u64) -> bool {
    (bits >> 52) & 0x7ff == 0x7ff
}

/// The bit pattern denotes an infinity: all exponent bits set, zero
/// significand.
pub open spec fn spec_inf_bits(bits: u64) -> bool {
    spec_non_finite_bits(bits) && bits & 0xf_ffff_ffff_ffff == 0
}

/// The bit pattern denotes NaN or an infinity.
pub fn bits_non_finite(bits: u64) -> (r: bool)
    ensures
        r == spec_non_finite_bits(bits),
{
    (bits >> 52) & 0x7ff == 0x7ff
}

/// The bit pattern denotes an infinity.
pub fn bits_inf(bits: u64) -> (r: bool)
    ensures
        r == spec_inf_bits(bits),
{
    (bits >> 52) & 0x7ff == 0x7ff && bits & 0xf_ffff_ffff_ffff == 0
}

/// Relies on `rustc_apfloat::ieee::Double`'s `FromStr`, a correctly
/// rounded decimal-to-binary conversion, and `to_bits`. Its decimal
/// path accepts every text of the shape digits, optional dot and
/// digits, optional exponent (an overflowing exponent rounds to an
/// infinity rather than failing), so on a complete numeric token the
/// parse cannot fail.
#[verifier::external_body]
pub fn parse_number_bits(s: &str) -> (r: Option<u64>)
    ensures
        r matches Some(bits) ==> bits == number_bits_of_literal(s@),
        crate::parser::json_number_token(s@) ==> r is Some,
{
    s.parse::<rustc_apfloat::ieee::Double>().ok().map(|d| rustc_apfloat::Float::to_bits(d) as u64)
}

/// Relies on `rustc_apfloat::ieee::Double`'s `from_bits` and `Display`:
/// for a finite number the rendering is a decimal numeral of the JSON
/// grammar (digits with an optional sign, fraction, and signed
/// exponent; zero renders as a bare `0`), carrying enough significant
/// digits that the correctly rounded read-back is the same number.
#[verifier::external_body]
pub fn render_number(bits: u64) -> (r: String)
    ensures
        r@ == number_text_of_bits(bits),
        !spec_non_finite_bits(bits) ==> crate::parser::json_number_token(r@),
        !spec_non_finite_bits(bits) ==> number_bits_of_literal(r@) == bits,
{
    format!("{}", <rustc_apfloat::ieee::Double as rustc_apfloat::Float>::from_bits(bits as u128))
}


/// One decimal digit raised by one; callers keep away from nine.
pub open spec fn spec_digit_bump(c: char) -> char {
    if c == '0' {
        '1'
    } else if c == '1' {
        '2'
    } else if c == '2' {
        '3'
    } else if c == '3' {
        '4'
    } else if c == '4' {
        '5'
    } else if c == '5' {
        '6'
    } else if c == '6' {
        '7'
    } else if c == '7' {
        '8'
    } else {
        '9'
    }
}

/// One decimal digit raised by one; callers keep away from nine.
fn digit_bump(c: char) -> (r: char)
    ensures
        r == spec_digit_bump(c),
{
    if c == '0' {
        '1'
    } else if c == '1' {
        '2'
    } else if c == '2' {
        '3'
    } else if c == '3' {
        '4'
    } else if c == '4' {
        '5'
    } else if c == '5' {
        '6'
    } else if c == '6' {
        '7'
    } else if c == '7' {
        '8'
    } else {
        '9'
    }
}

/// Where the optional leading minus of a numeric token ends.
pub open spec fn tok_sign_len(t: Seq<char>) -> int {
    if t.len() > 0 && t[0] == '-' {
        1
    } else {
        0
    }
}

/// Where the integer digits of a numeric token end.
pub open spec fn tok_int_end(t: Seq<char>) -> int {
    crate::parser::digits_end(t, tok_sign_len(t))
}

/// The token carries a fraction.
pub open spec fn tok_has_frac(t: Seq<char>) -> bool {
    tok_int_end(t) < t.len() && t[tok_int_end(t)] == '.'
}

/// Where the fraction digits of a numeric token end.
pub open spec fn tok_frac_end(t: Seq<char>) -> int {
    if tok_has_frac(t) {
        crate::parser::digits_end(t, tok_int_end(t) + 1)
    } else {
        tok_int_end(t)
    }
}

/// How many fraction digits the token carries.
pub open spec fn tok_frac_len(t: Seq<char>) -> int {
    if tok_has_frac(t) {
        tok_frac_end(t) - (tok_int_end(t) + 1)
    } else {
        0
    }
}

/// The token with its fraction cut down to `fl` digits (none drops the
/// decimal point too); sign, integer digits and exponent stay verbatim.
pub open spec fn spec_shortened(t: Seq<char>, fl: int) -> Seq<char> {
    let head = t.subrange(0, tok_int_end(t));
    let mid = if fl == 0 {
        Seq::<char>::empty()
    } else {
        seq!['.'] + t.subrange(tok_int_end(t) + 1, tok_int_end(t) + 1 + fl)
    };
    let suffix = t.subrange(tok_frac_end(t), t.len() as int);
    head + mid + suffix
}

/// The last significant digit kept by `spec_shortened(t, fl)`, as a
/// position in `t`.
pub open spec fn tok_kept_last(t: Seq<char>, fl: int) -> int {
    if fl == 0 {
        tok_int_end(t) - 1
    } else {
        tok_int_end(t) + fl
    }
}

/// `spec_shortened(t, fl)` with its last kept digit raised by one.
pub open spec fn spec_shortened_bump(t: Seq<char>, fl: int) -> Seq<char> {
    let c = spec_shortened(t, fl);
    let pos = if fl == 0 {
        tok_int_end(t) - 1
    } else {
        tok_int_end(t) + fl
    };
    c.update(pos, spec_digit_bump(t[tok_kept_last(t, fl)]))
}

/// The first shortening, from `fl` kept fraction digits upward, that
/// reads back to the given bit pattern; the whole token if none does.
pub open spec fn spec_min_from(t: Seq<char>, bits: u64, fl: int) -> Seq<char>
    decreases tok_frac_len(t) - fl,
{
    if fl < 0 || fl >= tok_frac_len(t) {
        t
    } else if number_bits_of_literal(spec_shortened(t, fl)) == bits {
        spec_shortened(t, fl)
    } else if t[tok_kept_last(t, fl)] != '9' && number_bits_of_literal(
        spec_shortened_bump(t, fl),
    ) == bits {
        spec_shortened_bump(t, fl)
    } else {
        spec_min_from(t, bits, fl + 1)
    }
}

/// The serialized text of a finite number: the rendered token with its
/// fraction cut (and, where needed, its last digit rounded up) to the
/// fewest digits that still read back to the same number.
pub open spec fn spec_min_number_text(bits: u64) -> Seq<char> {
    spec_min_from(number_text_of_bits(bits), bits, 0)
}


/// The structure a complete numeric token is made of: a mandatory
/// leading digit run after the optional sign, then the optional
/// fraction and exponent, together spanning the whole token.
proof fn lemma_token_structure(t: Seq<char>)
    requires
        crate::parser::json_number_token(t),
    ensures
        tok_sign_len(t) < tok_int_end(t) <= t.len(),
        forall|k: int| tok_sign_len(t) <= k < tok_int_end(t) ==> crate::parser::is_digit(
            #[trigger] t[k],
        ),
        tok_has_frac(t) ==> tok_int_end(t) + 1 < tok_frac_end(t) <= t.len(),
        forall|k: int| tok_int_end(t) + 1 <= k < tok_frac_end(t) ==> crate::parser::is_digit(
            #[trigger] t[k],
        ),
        tok_frac_end(t) < t.len() ==> (t[tok_frac_end(t)] == 'e' || t[tok_frac_end(t)] == 'E'),
        tok_frac_end(t) < t.len() ==> {
            let i4 = if tok_frac_end(t) + 1 < t.len() && (t[tok_frac_end(t) + 1] == '-' || t[
                tok_frac_end(t) + 1] == '+') {
                tok_frac_end(t) + 2
            } else {
                tok_frac_end(t) + 1
            };
            &&& i4 < t.len()
            &&& crate::parser::is_digit(t[i4])
            &&& crate::parser::digits_end(t, i4 + 1) == t.len()
            &&& forall|k: int| i4 <= k < t.len() ==> crate::parser::is_digit(#[trigger] t[k])
        },
{
    broadcast use crate::parser::lemma_digits_end;

    let n = t.len() as int;
    let sl = tok_sign_len(t);
    assert(sl < n && crate::parser::is_digit(t[sl]));
    assert(crate::parser::digits_end(t, sl) == crate::parser::digits_end(t, sl + 1));
    let i2 = tok_int_end(t);
    if tok_has_frac(t) {
        assert(i2 + 1 < n && crate::parser::is_digit(t[i2 + 1]));
        assert(crate::parser::digits_end(t, i2 + 1) == crate::parser::digits_end(t, i2 + 2));
    }
}

/// A shortening of a complete numeric token, bumped or not, is again a
/// complete numeric token.
#[verifier::rlimit(100)]
proof fn lemma_shortened_token(t: Seq<char>, fl: int, bumped: bool)
    requires
        crate::parser::json_number_token(t),
        0 <= fl < tok_frac_len(t),
        bumped ==> t[tok_kept_last(t, fl)] != '9',
    ensures
        crate::parser::json_number_token(
            if bumped {
                spec_shortened_bump(t, fl)
            } else {
                spec_shortened(t, fl)
            },
        ),
{
    broadcast use crate::parser::lemma_digits_end;

    lemma_token_structure(t);
    let n = t.len() as int;
    let sl = tok_sign_len(t);
    let ie = tok_int_end(t);
    let fe = tok_frac_end(t);
    let c = if bumped {
        spec_shortened_bump(t, fl)
    } else {
        spec_shortened(t, fl)
    };
    let midlen: int = if fl == 0 {
        0
    } else {
        fl + 1
    };
    let base = ie + midlen;
    assert(tok_has_frac(t));
    assert(0 <= ie <= n);
    assert(ie + 1 + fl <= n);
    assert(fe <= n);
    assert(t.subrange(0, ie).len() == ie);
    assert(t.subrange(fe, n).len() == n - fe);
    let shead = t.subrange(0, ie);
    let smid: Seq<char> = if fl == 0 {
        Seq::<char>::empty()
    } else {
        seq!['.'] + t.subrange(ie + 1, ie + 1 + fl)
    };
    let ssuffix = t.subrange(fe, n);
    assert(spec_shortened(t, fl) == shead + smid + ssuffix);
    assert(smid.len() == midlen);
    assert((shead + smid + ssuffix).len() == base + (n - fe));
    assert(c.len() == base + (n - fe));
    // Character map from the original token into the candidate.
    assert forall|k: int| 0 <= k < ie implies #[trigger] c[k] == (if bumped && fl == 0 && k == ie
        - 1 {
        spec_digit_bump(t[k])
    } else {
        t[k]
    }) by {}
    if fl > 0 {
        assert(c[ie] == '.');
        assert forall|k: int| 0 <= k < fl implies #[trigger] c[ie + 1 + k] == (if bumped && k == fl
            - 1 {
            spec_digit_bump(t[ie + 1 + k])
        } else {
            t[ie + 1 + k]
        }) by {}
    }
    assert forall|k: int| 0 <= k < n - fe implies #[trigger] c[base + k] == t[fe + k] by {}
    // The bumped character stays a digit.
    assert(crate::parser::is_digit(spec_digit_bump(t[tok_kept_last(t, fl)])));
    // Digit runs of the candidate.
    assert(c[0] == t[0] || (sl == 0 && crate::parser::is_digit(c[0])));
    assert(sl == (if c[0] == '-' {
        1int
    } else {
        0int
    }));
    assert(crate::parser::is_digit(c[sl]));
    assert forall|k: int| sl <= k < ie implies crate::parser::is_digit(#[trigger] c[k]) by {}
    if fl > 0 || n - fe > 0 {
        assert(!crate::parser::is_digit(c[ie]));
    }
    crate::parser::lemma_digits_end_range(c, sl + 1, ie);
    let has_frac_c = fl > 0;
    let i3c: int = if has_frac_c {
        ie + 1 + fl
    } else {
        ie
    };
    if has_frac_c {
        assert(crate::parser::is_digit(c[ie + 1]));
        assert forall|k: int| ie + 2 <= k < ie + 1 + fl implies crate::parser::is_digit(
            #[trigger] c[k],
        ) by {}
        if n - fe > 0 {
            assert(!crate::parser::is_digit(c[i3c]));
        }
        crate::parser::lemma_digits_end_range(c, ie + 2, ie + 1 + fl);
    }
    let has_exp_c = n - fe > 0;
    if has_exp_c {
        assert(c[i3c] == t[fe]);
        assert(c[i3c] == 'e' || c[i3c] == 'E');
        let i4t: int = if fe + 1 < n && (t[fe + 1] == '-' || t[fe + 1] == '+') {
            fe + 2
        } else {
            fe + 1
        };
        let i4c: int = i3c + (i4t - fe);
        assert(i4t - fe == 1 || i4t - fe == 2);
        if i4t == fe + 2 {
            assert(c[i3c + 1] == t[fe + 1]);
        } else {
            if i3c + 1 < c.len() {
                assert(c[i3c + 1] == t[fe + 1]);
            }
        }
        assert(crate::parser::is_digit(c[i4c]));
        assert forall|k: int| i4c <= k < c.len() implies crate::parser::is_digit(
            #[trigger] c[k],
        ) by {
            assert(c[k] == t[fe + (k - i3c)]);
        }
        crate::parser::lemma_digits_end_range(c, i4c + 1, c.len() as int);
        crate::parser::lemma_number_token(
            c,
            0,
            sl,
            ie,
            has_frac_c,
            i3c,
            true,
            i4c,
            c.len() as int,
        );
    } else {
        crate::parser::lemma_number_token(
            c,
            0,
            sl,
            ie,
            has_frac_c,
            i3c,
            false,
            i3c,
            c.len() as int,
        );
    }
}

/// Each shortening step keeps the chosen text a complete token that
/// reads back to the bit pattern.
proof fn lemma_min_from_facts(t: Seq<char>, bits: u64, fl: int)
    requires
        crate::parser::json_number_token(t),
        number_bits_of_literal(t) == bits,
    ensures
        crate::parser::json_number_token(spec_min_from(t, bits, fl)),
        number_bits_of_literal(spec_min_from(t, bits, fl)) == bits,
    decreases tok_frac_len(t) - fl,
{
    if fl < 0 || fl >= tok_frac_len(t) {
    } else if number_bits_of_literal(spec_shortened(t, fl)) == bits {
        lemma_shortened_token(t, fl, false);
    } else if t[tok_kept_last(t, fl)] != '9' && number_bits_of_literal(
        spec_shortened_bump(t, fl),
    ) == bits {
        lemma_shortened_token(t, fl, true);
    } else {
        lemma_min_from_facts(t, bits, fl + 1);
    }
}

/// The minimal rendering of a faithfully rendered number is a complete
/// numeric token that reads back to the same bit pattern.
pub proof fn lemma_min_number_facts(bits: u64)
    requires
        crate::parser::json_number_token(number_text_of_bits(bits)),
        number_bits_of_literal(number_text_of_bits(bits)) == bits,
    ensures
        crate::parser::json_number_token(spec_min_number_text(bits)),
        number_bits_of_literal(spec_min_number_text(bits)) == bits,
{
    lemma_min_from_facts(number_text_of_bits(bits), bits, 0);
}


/// Append the characters `src[a..b]`.
fn push_range(out: &mut Vec<char>, src: &Vec<char>, a: usize, b: usize)
    requires
        a <= b <= src@.len(),
    ensures
        final(out)@ == old(out)@ + src@.subrange(a as int, b as int),
{
    let mut i: usize = a;
    while i < b
        invariant
            a <= i <= b <= src@.len(),
            out@ == old(out)@ + src@.subrange(a as int, i as int),
        decreases b - i,
    {
        out.push(src[i]);
        proof {
            assert(src@.subrange(a as int, i + 1 as int) =~= src@.subrange(
                a as int,
                i as int,
            ).push(src@[i as int]));
        }
        i = i + 1;
    }
}

/// Render a finite number and cut its fraction to the fewest digits
/// that still read back to the same bit pattern.
#[verifier::loop_isolation(false)]
#[verifier::rlimit(100)]
pub fn render_number_minimal(bits: u64) -> (r: String)
    requires
        !spec_non_finite_bits(bits),
    ensures
        r@ == spec_min_number_text(bits),
{
    broadcast use crate::parser::lemma_digits_end;

    let t = render_number(bits);
    let tv = chars_of(t.as_str());
    let ghost ts = t@;
    let n = tv.len();
    let sl: usize = if n > 0 && tv[0] == '-' {
        1
    } else {
        0
    };
    let mut ie: usize = sl;
    while ie < n && crate::parser::is_digit_char(tv[ie])
        invariant
            sl <= ie <= n,
            forall|k: int| sl <= k < ie ==> crate::parser::is_digit(#[trigger] ts[k]),
        decreases n - ie,
    {
        ie = ie + 1;
    }
    proof {
        crate::parser::lemma_digits_end_range(ts, sl as int, ie as int);
        assert(tok_sign_len(ts) == sl as int);
        assert(tok_int_end(ts) == ie as int);
    }
    if !(ie < n && tv[ie] == '.') {
        proof {
            assert(!tok_has_frac(ts));
            assert(spec_min_number_text(bits) == ts);
        }
        return t;
    }
    let mut fe: usize = ie + 1;
    while fe < n && crate::parser::is_digit_char(tv[fe])
        invariant
            ie + 1 <= fe <= n,
            forall|k: int| ie + 1 <= k < fe ==> crate::parser::is_digit(#[trigger] ts[k]),
        decreases n - fe,
    {
        fe = fe + 1;
    }
    proof {
        crate::parser::lemma_digits_end_range(ts, ie + 1 as int, fe as int);
        assert(tok_has_frac(ts));
        assert(tok_frac_end(ts) == fe as int);
        assert(tok_frac_len(ts) == fe - (ie + 1));
    }
    let fraclen: usize = fe - (ie + 1);
    let mut fl: usize = 0;
    while fl < fraclen
        invariant
            fl <= fraclen,
            spec_min_from(ts, bits, 0) == spec_min_from(ts, bits, fl as int),
        decreases fraclen - fl,
    {
        proof {
            lemma_shortened_token(ts, fl as int, false);
        }
        let mut cand: Vec<char> = Vec::new();
        push_range(&mut cand, &tv, 0, ie);
        if fl > 0 {
            cand.push('.');
            push_range(&mut cand, &tv, ie + 1, ie + 1 + fl);
        }
        push_range(&mut cand, &tv, fe, n);
        proof {
            assert(cand@ =~= spec_shortened(ts, fl as int));
        }
        let cs = string_from_chars(&cand);
        match parse_number_bits(cs.as_str()) {
            Some(b) => {
                if b == bits {
                    proof {
                        assert(number_bits_of_literal(spec_shortened(ts, fl as int)) == bits);
                    }
                    return cs;
                }
            },
            None => {
                return vstd::pervasive::unreached();
            },
        }
        let last = if fl == 0 {
            tv[ie - 1]
        } else {
            tv[ie + fl]
        };
        proof {
            assert(last == ts[tok_kept_last(ts, fl as int)]);
        }
        if last != '9' {
            proof {
                lemma_shortened_token(ts, fl as int, true);
            }
            let mut cand2: Vec<char> = Vec::new();
            if fl == 0 {
                push_range(&mut cand2, &tv, 0, ie - 1);
                cand2.push(digit_bump(last));
            } else {
                push_range(&mut cand2, &tv, 0, ie);
                cand2.push('.');
                push_range(&mut cand2, &tv, ie + 1, ie + fl);
                cand2.push(digit_bump(last));
            }
            push_range(&mut cand2, &tv, fe, n);
            proof {
                assert(cand2@ =~= spec_shortened_bump(ts, fl as int));
            }
            let cs2 = string_from_chars(&cand2);
            match parse_number_bits(cs2.as_str()) {
                Some(b2) => {
                    if b2 == bits {
                        proof {
                            assert(number_bits_of_literal(spec_shortened_bump(ts, fl as int))
                                == bits);
                        }
                        return cs2;
                    }
                },
                None => {
                    return vstd::pervasive::unreached();
                },
            }
        }
        fl = fl + 1;
    }
    proof {
        assert(spec_min_from(ts, bits, fraclen as int) == ts);
    }
    t
}

} // verus!
