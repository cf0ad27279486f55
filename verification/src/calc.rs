//! A small arithmetic-expression calculator, independent of the JSON
//! core: a recursive-descent parser and evaluator for the four
//! operators and parentheses over 64-bit signed integers, with lenient
//! handling of overflow and division by zero.
//!
//! The spec functions define the value computed for every input the
//! grammar accepts; inputs the grammar rejects outright are excluded
//! by precondition. Addition, subtraction and multiplication
//! wrap; a division by zero divides by one instead; a numeric literal
//! beyond the 64-bit signed range evaluates to one.

use vstd::prelude::*;

use crate::parser::{digits_end, is_digit, lemma_digits_end};
use crate::parser::is_digit_char;
use crate::text::chars_of;

verus! {

broadcast use vstd::std_specs::vec::group_vec_axioms, vstd::seq::group_seq_axioms;

/// One step of the specification evaluator: a value with the position
/// after it, a stuck state (an input the grammar rejects), or
/// exhausted fuel (which the contracts rule out).
pub enum CalcStep {
    Done(i64, int),
    Stuck,
    OutOfFuel,
}

/// The characters the language-level whitespace class contains.
pub open spec fn is_wide_ws(c: char) -> bool {
    ||| (0x9 <= c as u32 && c as u32 <= 0xD)
    ||| c == ' '
    ||| c as u32 == 0x85
    ||| c as u32 == 0xA0
    ||| c as u32 == 0x1680
    ||| (0x2000 <= c as u32 && c as u32 <= 0x200A)
    ||| c as u32 == 0x2028
    ||| c as u32 == 0x2029
    ||| c as u32 == 0x202F
    ||| c as u32 == 0x205F
    ||| c as u32 == 0x3000
}

/// The characters the language-level whitespace class contains.
fn is_wide_ws_char(c: char) -> (r: bool)
    ensures
        r == is_wide_ws(c),
{
    let u = c as u32;
    (0x9 <= u && u <= 0xD) || u == 0x20 || u == 0x85 || u == 0xA0 || u == 0x1680 || (0x2000 <= u
        && u <= 0x200A) || u == 0x2028 || u == 0x2029 || u == 0x202F || u == 0x205F || u == 0x3000
}

/// The first position at or after `i` holding a non-whitespace
/// character, or the end of the text.
pub open spec fn wide_ws_end(s: Seq<char>, i: int) -> int
    decreases s.len() - i,
{
    if i >= s.len() {
        s.len() as int
    } else if is_wide_ws(s[i]) {
        wide_ws_end(s, i + 1)
    } else {
        i
    }
}

/// Whitespace skipping moves forward and never past the end.
pub broadcast proof fn lemma_wide_ws_end(s: Seq<char>, i: int)
    ensures
        i <= s.len() ==> i <= #[trigger] wide_ws_end(s, i) <= s.len(),
        i > s.len() ==> wide_ws_end(s, i) == s.len(),
        wide_ws_end(s, i) < s.len() ==> !is_wide_ws(s[wide_ws_end(s, i)]),
    decreases s.len() - i,
{
    if i < s.len() && is_wide_ws(s[i]) {
        lemma_wide_ws_end(s, i + 1);
    }
}

/// The value of the digit run `s[i..e)`, most significant digit first.
pub open spec fn calc_digits_val(s: Seq<char>, i: int, e: int) -> int
    decreases e - i,
{
    if e <= i {
        0
    } else {
        calc_digits_val(s, i, e - 1) * 10 + (s[e - 1] as u32 - '0' as u32)
    }
}

/// A digit run's value is never negative.
pub broadcast proof fn lemma_calc_digits_val_nonneg(s: Seq<char>, i: int, e: int)
    requires
        forall|k: int| i <= k < e ==> is_digit(#[trigger] s[k]),
    ensures
        #[trigger] calc_digits_val(s, i, e) >= 0,
    decreases e - i,
{
    if e > i {
        lemma_calc_digits_val_nonneg(s, i, e - 1);
    }
}

/// A numeric literal: the digit run under the cursor, read leniently:
/// a value beyond the 64-bit signed range becomes one.
pub open spec fn spec_calc_number(s: Seq<char>, i: int) -> CalcStep {
    let e = digits_end(s, i);
    if e == i {
        CalcStep::Stuck
    } else {
        let v = calc_digits_val(s, i, e);
        if v > i64::MAX {
            CalcStep::Done(1, e)
        } else {
            CalcStep::Done(v as i64, e)
        }
    }
}

/// A factor: a parenthesized expression or a numeric literal.
pub open spec fn spec_calc_factor(s: Seq<char>, i: int, fuel: nat) -> CalcStep
    decreases fuel, 2int,
{
    if fuel == 0 {
        CalcStep::OutOfFuel
    } else if i >= s.len() {
        CalcStep::Stuck
    } else if s[i] == '(' {
        match spec_calc_expr(s, i + 1, (fuel - 1) as nat) {
            CalcStep::Done(v, j) => {
                let j2 = wide_ws_end(s, j);
                if j2 >= s.len() {
                    CalcStep::Stuck
                } else if s[j2] == ')' {
                    CalcStep::Done(v, j2 + 1)
                } else {
                    CalcStep::Stuck
                }
            },
            CalcStep::Stuck => CalcStep::Stuck,
            CalcStep::OutOfFuel => CalcStep::OutOfFuel,
        }
    } else {
        spec_calc_number(s, i)
    }
}

/// A term: factors joined by `*` and `/`; multiplication wraps, a zero
/// divisor divides by one, and the one overflowing division is a
/// rejected input.
pub open spec fn spec_calc_term(s: Seq<char>, i: int, fuel: nat) -> CalcStep
    decreases fuel, 4int,
{
    if fuel == 0 {
        CalcStep::OutOfFuel
    } else {
        match spec_calc_factor(s, i, fuel) {
            CalcStep::Done(v, j) => spec_calc_term_rest(s, j, v, fuel),
            CalcStep::Stuck => CalcStep::Stuck,
            CalcStep::OutOfFuel => CalcStep::OutOfFuel,
        }
    }
}

/// The multiplicative continuation of a term.
pub open spec fn spec_calc_term_rest(s: Seq<char>, i: int, acc: i64, fuel: nat) -> CalcStep
    decreases fuel, 3int,
{
    if fuel == 0 {
        CalcStep::OutOfFuel
    } else if i < s.len() && s[i] == '*' {
        match spec_calc_factor(s, i + 1, (fuel - 1) as nat) {
            CalcStep::Done(v, j) => spec_calc_term_rest(
                s,
                j,
                vstd::wrapping::i64_specs::wrapping_mul(acc, v),
                (fuel - 1) as nat,
            ),
            CalcStep::Stuck => CalcStep::Stuck,
            CalcStep::OutOfFuel => CalcStep::OutOfFuel,
        }
    } else if i < s.len() && s[i] == '/' {
        match spec_calc_factor(s, i + 1, (fuel - 1) as nat) {
            CalcStep::Done(v, j) => {
                let d: i64 = if v == 0 {
                    1
                } else {
                    v
                };
                match i64::checked_div(acc, d) {
                    Some(q) => spec_calc_term_rest(s, j, q, (fuel - 1) as nat),
                    None => CalcStep::Stuck,
                }
            },
            CalcStep::Stuck => CalcStep::Stuck,
            CalcStep::OutOfFuel => CalcStep::OutOfFuel,
        }
    } else {
        CalcStep::Done(acc, i)
    }
}

/// An expression: terms joined by `+` and `-`, both wrapping.
pub open spec fn spec_calc_expr(s: Seq<char>, i: int, fuel: nat) -> CalcStep
    decreases fuel, 6int,
{
    if fuel == 0 {
        CalcStep::OutOfFuel
    } else {
        match spec_calc_term(s, i, fuel) {
            CalcStep::Done(v, j) => spec_calc_expr_rest(s, j, v, fuel),
            CalcStep::Stuck => CalcStep::Stuck,
            CalcStep::OutOfFuel => CalcStep::OutOfFuel,
        }
    }
}

/// The additive continuation of an expression.
pub open spec fn spec_calc_expr_rest(s: Seq<char>, i: int, acc: i64, fuel: nat) -> CalcStep
    decreases fuel, 5int,
{
    if fuel == 0 {
        CalcStep::OutOfFuel
    } else if i < s.len() && s[i] == '+' {
        match spec_calc_term(s, i + 1, (fuel - 1) as nat) {
            CalcStep::Done(v, j) => spec_calc_expr_rest(
                s,
                j,
                vstd::wrapping::i64_specs::wrapping_add(acc, v),
                (fuel - 1) as nat,
            ),
            CalcStep::Stuck => CalcStep::Stuck,
            CalcStep::OutOfFuel => CalcStep::OutOfFuel,
        }
    } else if i < s.len() && s[i] == '-' {
        match spec_calc_term(s, i + 1, (fuel - 1) as nat) {
            CalcStep::Done(v, j) => spec_calc_expr_rest(
                s,
                j,
                vstd::wrapping::i64_specs::wrapping_sub(acc, v),
                (fuel - 1) as nat,
            ),
            CalcStep::Stuck => CalcStep::Stuck,
            CalcStep::OutOfFuel => CalcStep::OutOfFuel,
        }
    } else {
        CalcStep::Done(acc, i)
    }
}

/// A whole input: one expression with nothing at all after it.
pub open spec fn spec_calc_parse(s: Seq<char>, i: int) -> CalcStep {
    match spec_calc_expr(s, i, (s.len() + 1) as nat) {
        CalcStep::Done(v, j) => if j < s.len() {
            CalcStep::Stuck
        } else {
            CalcStep::Done(v, j)
        },
        CalcStep::Stuck => CalcStep::Stuck,
        CalcStep::OutOfFuel => CalcStep::OutOfFuel,
    }
}

/// The recursive-descent calculator over a character cursor.
pub struct Parser {
    chars: Vec<char>,
    pos: usize,
}

impl Parser {
    /// The parsed text, for specifications.
    pub closed spec fn text(self) -> Seq<char> {
        self.chars@
    }

    /// The cursor position, for specifications.
    pub closed spec fn spec_pos(self) -> int {
        self.pos as int
    }

    /// The cursor is within the text.
    pub closed spec fn wf(self) -> bool {
        self.pos <= self.chars@.len()
    }

    /// A parser over the given text.
    pub fn new(text: &str) -> (r: Self)
        ensures
            r.wf(),
            r.text() == text@,
            r.spec_pos() == 0,
    {
        Parser { chars: chars_of(text), pos: 0 }
    }

    /// The character under the cursor, without consuming it and
    /// without skipping anything.
    fn peek(&self) -> (r: Option<char>)
        requires
            self.wf(),
        ensures
            self.spec_pos() < self.text().len() ==> r == Some(self.text()[self.spec_pos()]),
            self.spec_pos() >= self.text().len() ==> r is None,
    {
        if self.pos < self.chars.len() {
            Some(self.chars[self.pos])
        } else {
            None
        }
    }

    /// Step over the character under the cursor.
    fn bump(&mut self)
        requires
            old(self).wf(),
            old(self).spec_pos() < old(self).text().len(),
        ensures
            final(self).wf(),
            final(self).text() == old(self).text(),
            final(self).spec_pos() == old(self).spec_pos() + 1,
    {
        proof {
            assert(self.chars@.len() == self.chars.len());
        }
        self.pos = self.pos + 1;
    }

    /// Skip whitespace and consume the next character, if any.
    fn next(&mut self) -> (r: Option<char>)
        requires
            old(self).wf(),
        ensures
            final(self).wf(),
            final(self).text() == old(self).text(),
            ({
                let j = wide_ws_end(old(self).text(), old(self).spec_pos());
                match r {
                    Some(c) => j < old(self).text().len() && c == old(self).text()[j] && final(self).spec_pos() == j + 1,
                    None => j >= old(self).text().len() && final(self).spec_pos() == old(self).text().len(),
                }
            }),
    {
        while self.pos < self.chars.len() && is_wide_ws_char(self.chars[self.pos])
            invariant
                self.wf(),
                self.chars@ == old(self).chars@,
                wide_ws_end(old(self).text(), old(self).spec_pos()) == wide_ws_end(
                    self.text(),
                    self.spec_pos(),
                ),
            decreases self.chars@.len() - self.pos,
        {
            self.pos = self.pos + 1;
        }
        if self.pos < self.chars.len() {
            let c = self.chars[self.pos];
            self.pos = self.pos + 1;
            Some(c)
        } else {
            None
        }
    }

    /// One numeric literal, read leniently; nothing when no digit
    /// stands under the cursor.
    #[verifier::loop_isolation(false)]
    #[verifier::rlimit(100)]
    fn parse_number(&mut self) -> (r: Option<i64>)
        requires
            old(self).wf(),
        ensures
            final(self).wf(),
            final(self).text() == old(self).text(),
            match spec_calc_number(old(self).text(), old(self).spec_pos()) {
                CalcStep::Done(v, e) => r == Some(v) && final(self).spec_pos() == e && e > old(
                    self,
                ).spec_pos(),
                CalcStep::Stuck => r is None,
                CalcStep::OutOfFuel => false,
            },
    {
        broadcast use lemma_digits_end, lemma_calc_digits_val_nonneg;

        let ghost s = self.chars@;
        let start = self.pos;
        let ghost i0 = self.pos as int;
        let mut acc: i64 = 0;
        let mut over: bool = false;
        while self.pos < self.chars.len() && is_digit_char(self.chars[self.pos])
            invariant
                self.wf(),
                self.chars@ == s,
                i0 <= self.pos as int <= s.len(),
                forall|k: int| i0 <= k < self.pos as int ==> is_digit(#[trigger] s[k]),
                !over ==> acc == calc_digits_val(s, i0, self.pos as int) && acc >= 0,
                over ==> calc_digits_val(s, i0, self.pos as int) > i64::MAX,
            decreases s.len() - self.pos,
        {
            let c = self.chars[self.pos];
            let d = (c as u32 - '0' as u32) as i64;
            if !over {
                match acc.checked_mul(10) {
                    Some(a) => match a.checked_add(d) {
                        Some(b) => {
                            acc = b;
                        },
                        None => {
                            over = true;
                        },
                    },
                    None => {
                        over = true;
                    },
                }
            }
            proof {
                let p = self.pos as int;
                assert(calc_digits_val(s, i0, p + 1) == calc_digits_val(s, i0, p) * 10 + (s[p]
                    as u32 - '0' as u32));
                if over {
                    assert(calc_digits_val(s, i0, p) >= 0);
                }
            }
            self.bump();
        }
        proof {
            crate::parser::lemma_digits_end_range(s, i0, self.pos as int);
        }
        if self.pos == start {
            return None;
        }
        if over {
            Some(1)
        } else {
            Some(acc)
        }
    }

    /// One factor: a parenthesized expression or a numeric literal;
    /// nothing on an input the grammar rejects.
    #[verifier::rlimit(100)]
    fn parse_factor(&mut self, Ghost(fuel): Ghost<nat>) -> (r: Option<i64>)
        requires
            old(self).wf(),
            fuel >= old(self).text().len() - old(self).spec_pos() + 1,
        ensures
            final(self).wf(),
            final(self).text() == old(self).text(),
            match spec_calc_factor(old(self).text(), old(self).spec_pos(), fuel) {
                CalcStep::Done(v, j) => r == Some(v) && final(self).spec_pos() == j && j > old(
                    self,
                ).spec_pos(),
                CalcStep::Stuck => r is None,
                CalcStep::OutOfFuel => false,
            },
        decreases fuel, 2int,
    {
        broadcast use lemma_wide_ws_end;

        match self.peek() {
            Some(c) => {
                if c == '(' {
                    self.bump();
                    let v = match self.parse_expr(Ghost((fuel - 1) as nat)) {
                        Some(v) => v,
                        None => {
                            return None;
                        },
                    };
                    match self.next() {
                        Some(ch) => {
                            if ch == ')' {
                                Some(v)
                            } else {
                                None
                            }
                        },
                        None => None,
                    }
                } else {
                    self.parse_number()
                }
            },
            None => None,
        }
    }

    /// One term: factors joined by `*` and `/`; nothing on an input
    /// the grammar rejects.
    #[verifier::loop_isolation(false)]
    #[verifier::rlimit(100)]
    fn parse_term(&mut self, Ghost(fuel): Ghost<nat>) -> (r: Option<i64>)
        requires
            old(self).wf(),
            fuel >= old(self).text().len() - old(self).spec_pos() + 1,
        ensures
            final(self).wf(),
            final(self).text() == old(self).text(),
            match spec_calc_term(old(self).text(), old(self).spec_pos(), fuel) {
                CalcStep::Done(v, j) => r == Some(v) && final(self).spec_pos() == j && j > old(
                    self,
                ).spec_pos(),
                CalcStep::Stuck => r is None,
                CalcStep::OutOfFuel => false,
            },
        decreases fuel, 4int,
    {
        let ghost s = self.chars@;
        let ghost i0 = self.spec_pos();
        let mut result = match self.parse_factor(Ghost(fuel)) {
            Some(v) => v,
            None => {
                return None;
            },
        };
        let ghost mut gf = fuel;
        loop
            invariant
                self.wf(),
                self.chars@ == s,
                i0 < self.spec_pos() <= s.len(),
                gf <= fuel,
                gf >= s.len() - self.spec_pos() + 1,
                spec_calc_term(s, i0, fuel) == spec_calc_term_rest(
                    s,
                    self.spec_pos(),
                    result,
                    gf,
                ),
            decreases gf,
        {
            match self.peek() {
                Some(c) => {
                    if c == '*' {
                        self.bump();
                        let f = match self.parse_factor(Ghost((gf - 1) as nat)) {
                            Some(f) => f,
                            None => {
                                return None;
                            },
                        };
                        result = result.wrapping_mul(f);
                        proof {
                            gf = (gf - 1) as nat;
                        }
                    } else if c == '/' {
                        self.bump();
                        let f = match self.parse_factor(Ghost((gf - 1) as nat)) {
                            Some(f) => f,
                            None => {
                                return None;
                            },
                        };
                        let d: i64 = if f == 0 {
                            1
                        } else {
                            f
                        };
                        match result.checked_div(d) {
                            Some(q) => {
                                result = q;
                            },
                            None => {
                                return None;
                            },
                        }
                        proof {
                            gf = (gf - 1) as nat;
                        }
                    } else {
                        return Some(result);
                    }
                },
                None => {
                    return Some(result);
                },
            }
        }
    }

    /// One expression: terms joined by `+` and `-`; nothing on an
    /// input the grammar rejects.
    #[verifier::loop_isolation(false)]
    #[verifier::rlimit(100)]
    fn parse_expr(&mut self, Ghost(fuel): Ghost<nat>) -> (r: Option<i64>)
        requires
            old(self).wf(),
            fuel >= old(self).text().len() - old(self).spec_pos() + 1,
        ensures
            final(self).wf(),
            final(self).text() == old(self).text(),
            match spec_calc_expr(old(self).text(), old(self).spec_pos(), fuel) {
                CalcStep::Done(v, j) => r == Some(v) && final(self).spec_pos() == j && j > old(
                    self,
                ).spec_pos(),
                CalcStep::Stuck => r is None,
                CalcStep::OutOfFuel => false,
            },
        decreases fuel, 6int,
    {
        let ghost s = self.chars@;
        let ghost i0 = self.spec_pos();
        let mut result = match self.parse_term(Ghost(fuel)) {
            Some(v) => v,
            None => {
                return None;
            },
        };
        let ghost mut gf = fuel;
        loop
            invariant
                self.wf(),
                self.chars@ == s,
                i0 < self.spec_pos() <= s.len(),
                gf <= fuel,
                gf >= s.len() - self.spec_pos() + 1,
                spec_calc_expr(s, i0, fuel) == spec_calc_expr_rest(
                    s,
                    self.spec_pos(),
                    result,
                    gf,
                ),
            decreases gf,
        {
            match self.peek() {
                Some(c) => {
                    if c == '+' {
                        self.bump();
                        let t = match self.parse_term(Ghost((gf - 1) as nat)) {
                            Some(t) => t,
                            None => {
                                return None;
                            },
                        };
                        result = result.wrapping_add(t);
                        proof {
                            gf = (gf - 1) as nat;
                        }
                    } else if c == '-' {
                        self.bump();
                        let t = match self.parse_term(Ghost((gf - 1) as nat)) {
                            Some(t) => t,
                            None => {
                                return None;
                            },
                        };
                        result = result.wrapping_sub(t);
                        proof {
                            gf = (gf - 1) as nat;
                        }
                    } else {
                        return Some(result);
                    }
                },
                None => {
                    return Some(result);
                },
            }
        }
    }

    /// One whole input: an expression with nothing at all after it;
    /// nothing on an input the grammar rejects.
    pub fn parse(&mut self, Ghost(fuel): Ghost<nat>) -> (r: Option<i64>)
        requires
            old(self).wf(),
            fuel == old(self).text().len() + 1,
            old(self).spec_pos() == 0,
        ensures
            final(self).wf(),
            final(self).text() == old(self).text(),
            match spec_calc_parse(old(self).text(), 0) {
                CalcStep::Done(v, j) => r == Some(v) && final(self).spec_pos() == j,
                CalcStep::Stuck => r is None,
                CalcStep::OutOfFuel => false,
            },
    {
        let res = match self.parse_expr(Ghost(fuel)) {
            Some(v) => v,
            None => {
                return None;
            },
        };
        match self.peek() {
            Some(_) => None,
            None => Some(res),
        }
    }
}

/// Parse and evaluate one arithmetic expression, or report an input
/// the grammar rejects as nothing.
pub fn try_parse_calc(data: &str) -> (r: Option<i64>)
    ensures
        match spec_calc_parse(data@, 0) {
            CalcStep::Done(v, _) => r == Some(v),
            CalcStep::Stuck => r is None,
            CalcStep::OutOfFuel => false,
        },
{
    let mut parser = Parser::new(data);
    let ghost fuel = (data@.len() + 1) as nat;
    parser.parse(Ghost(fuel))
}

/// Parse and evaluate one arithmetic expression the grammar accepts.
pub fn parse_calc(data: &str) -> (r: i64)
    requires
        spec_calc_parse(data@, 0) is Done,
    ensures
        spec_calc_parse(data@, 0) matches CalcStep::Done(v, _) && v == r,
{
    match try_parse_calc(data) {
        Some(v) => v,
        None => vstd::pervasive::unreached(),
    }
}

} // verus!
