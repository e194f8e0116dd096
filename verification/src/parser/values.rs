//! Literal values: strings, integers, decimal numbers, booleans and ranges.

use vstd::prelude::*;
use std::ops::Range;
use crate::parser::errors::{ErrorKind, Outcome, SyntaxError};
use crate::parser::scan::{
    advance, lemma_run_end, lemma_run_end_is, literal_at, match_literal, run_end, runs_out_at,
    scan_run, text_of, to_chars, CharClass, Match,
};

verus! {

/// A typed literal.
#[derive(Debug, PartialEq)]
pub enum Value {
    /// A quoted text, without its quotes; nothing in it is escaped.
    String(String),
    /// A run of decimal digits, as a number.
    Int(i64),
    /// A decimal number as it was written: digits, a point, digits, either
    /// run possibly empty. Turning it into a binary number is the caller's.
    Float(String),
    /// `true` or `false`.
    Bool(bool),
    /// `start..end`, both runs of decimal digits. It is the half-open range
    /// of the standard library: `end` itself is not in it.
    Range(Range<i64>),
}

/// What a [`Value`] stands for.
pub enum ValueView {
    String(Seq<char>),
    Int(int),
    Float(Seq<char>),
    Bool(bool),
    Range(int, int),
}

impl View for Value {
    type V = ValueView;

    open spec fn view(&self) -> ValueView {
        match self {
            Value::String(text) => ValueView::String(text@),
            Value::Int(n) => ValueView::Int(*n as int),
            Value::Float(text) => ValueView::Float(text@),
            Value::Bool(b) => ValueView::Bool(*b),
            Value::Range(r) => ValueView::Range(r.start as int, r.end as int),
        }
    }
}

impl Clone for Value {
    fn clone(&self) -> (copy: Value)
        ensures
            copy@ == self@,
    {
        match self {
            Value::String(text) => Value::String(text.clone()),
            Value::Int(n) => Value::Int(*n),
            Value::Float(text) => Value::Float(text.clone()),
            Value::Bool(b) => Value::Bool(*b),
            Value::Range(r) => Value::Range(Range { start: r.start, end: r.end }),
        }
    }
}

/// The number that a run of decimal digits writes.
pub open spec fn decimal(digits: Seq<char>) -> nat
    decreases digits.len(),
{
    if digits.len() == 0 {
        0
    } else {
        (decimal(digits.drop_last()) * 10 + (digits.last() as int - '0' as int)) as nat
    }
}

/// Whether the number that `digits` writes fits a signed 64-bit integer.
pub open spec fn fits(digits: Seq<char>) -> bool {
    decimal(digits) <= i64::MAX
}

/// The word `true`.
pub open spec fn lit_true() -> Seq<char> {
    seq!['t', 'r', 'u', 'e']
}

/// The word `false`.
pub open spec fn lit_false() -> Seq<char> {
    seq!['f', 'a', 'l', 's', 'e']
}

/// `..`, which stands between the two numbers of a range.
pub open spec fn lit_dots() -> Seq<char> {
    seq!['.', '.']
}

/// A string literal at `pos`: the position of its closing quote.
pub open spec fn string_close(s: Seq<char>, pos: int) -> Option<int> {
    if 0 <= pos < s.len() && s[pos] == '"' && run_end(s, CharClass::Quoted, pos + 1) < s.len() {
        Some(run_end(s, CharClass::Quoted, pos + 1))
    } else {
        None
    }
}

/// A range literal at `pos`: where its first number ends and where it ends.
pub open spec fn range_shape(s: Seq<char>, pos: int) -> Option<(int, int)> {
    let first = run_end(s, CharClass::Digit, pos);
    let last = run_end(s, CharClass::Digit, first + 2);
    if pos < first && literal_at(s, first, lit_dots()) && first + 2 < last {
        Some((first, last))
    } else {
        None
    }
}

/// A decimal number at `pos`: where it ends.
pub open spec fn float_end(s: Seq<char>, pos: int) -> Option<int> {
    let point = run_end(s, CharClass::Digit, pos);
    if 0 <= point < s.len() && s[point] == '.' {
        Some(run_end(s, CharClass::Digit, point + 1))
    } else {
        None
    }
}

/// The kind of the failure when no literal form fits at `pos`.
pub open spec fn no_value_kind(s: Seq<char>, pos: int) -> ErrorKind {
    if (0 <= pos < s.len() && s[pos] == '"') || runs_out_at(s, pos, lit_true()) || runs_out_at(
        s,
        pos,
        lit_false(),
    ) {
        ErrorKind::UnexpectedEndOfInput
    } else {
        ErrorKind::MalformedLiteral
    }
}

/// The literal at `pos`. The forms are tried in a fixed order, and the first
/// that fits decides: string, range, decimal number, integer, boolean. An
/// integer or a bound of a range that does not fit 64 bits is malformed.
pub open spec fn value_at(s: Seq<char>, pos: int) -> Outcome<ValueView> {
    let digits_end = run_end(s, CharClass::Digit, pos);
    if let Some(close) = string_close(s, pos) {
        Outcome::Accepted { value: ValueView::String(s.subrange(pos + 1, close)), end: close + 1 }
    } else if let Some((first, last)) = range_shape(s, pos) {
        if fits(s.subrange(pos, first)) && fits(s.subrange(first + 2, last)) {
            Outcome::Accepted {
                value: ValueView::Range(
                    decimal(s.subrange(pos, first)) as int,
                    decimal(s.subrange(first + 2, last)) as int,
                ),
                end: last,
            }
        } else {
            Outcome::Rejected { kind: ErrorKind::MalformedLiteral, position: pos }
        }
    } else if let Some(end) = float_end(s, pos) {
        Outcome::Accepted { value: ValueView::Float(s.subrange(pos, end)), end }
    } else if pos < digits_end {
        if fits(s.subrange(pos, digits_end)) {
            Outcome::Accepted {
                value: ValueView::Int(decimal(s.subrange(pos, digits_end)) as int),
                end: digits_end,
            }
        } else {
            Outcome::Rejected { kind: ErrorKind::MalformedLiteral, position: pos }
        }
    } else if literal_at(s, pos, lit_true()) {
        Outcome::Accepted { value: ValueView::Bool(true), end: pos + 4 }
    } else if literal_at(s, pos, lit_false()) {
        Outcome::Accepted { value: ValueView::Bool(false), end: pos + 5 }
    } else {
        Outcome::Rejected { kind: no_value_kind(s, pos), position: pos }
    }
}

/// Whether a parser's result is what the grammar gives.
pub open spec fn value_agrees(
    r: Result<(Value, usize), SyntaxError>,
    o: Outcome<ValueView>,
) -> bool {
    match o {
        Outcome::Accepted { value, end } => r is Ok && r->Ok_0.0@ == value && r->Ok_0.1 == end,
        Outcome::Rejected { .. } => r == Err::<(Value, usize), SyntaxError>(o.error()),
    }
}

/// An accepted literal ends behind its start and within the text.
pub proof fn lemma_value_advances(s: Seq<char>, pos: int)
    requires
        0 <= pos <= s.len(),
    ensures
        value_at(s, pos) matches Outcome::Accepted { end, .. } ==> pos < end <= s.len(),
        value_at(s, pos) matches Outcome::Rejected { position, .. } ==> position == pos,
{
    lemma_run_end(s, CharClass::Digit, pos);
    if pos < s.len() {
        lemma_run_end(s, CharClass::Quoted, pos + 1);
    }
    let first = run_end(s, CharClass::Digit, pos);
    if first + 2 <= s.len() {
        lemma_run_end(s, CharClass::Digit, first + 2);
    }
    if first + 1 <= s.len() {
        lemma_run_end(s, CharClass::Digit, first + 1);
    }
}

/// Digits, two points and digits are a range, taken whole, if both numbers
/// fit: the first digits are not taken for an integer, nor with the first
/// point for a decimal number.
pub proof fn lemma_range_before_int(s: Seq<char>, pos: int, first: int, last: int)
    requires
        0 <= pos < first,
        first + 2 < last <= s.len(),
        forall|i: int| pos <= i < first ==> CharClass::Digit.admits(#[trigger] s[i]),
        s[first] == '.',
        s[first + 1] == '.',
        forall|i: int| first + 2 <= i < last ==> CharClass::Digit.admits(#[trigger] s[i]),
        last < s.len() ==> !CharClass::Digit.admits(s[last]),
        fits(s.subrange(pos, first)),
        fits(s.subrange(first + 2, last)),
    ensures
        value_at(s, pos) == (Outcome::Accepted {
            value: ValueView::Range(
                decimal(s.subrange(pos, first)) as int,
                decimal(s.subrange(first + 2, last)) as int,
            ),
            end: last,
        }),
{
    lemma_run_end_is(s, CharClass::Digit, pos, first);
    lemma_run_end_is(s, CharClass::Digit, first + 2, last);
    assert(s.subrange(first, first + 2) =~= lit_dots());
}

/// Digits or none, a point that no second point follows, and digits or none
/// are a decimal number, taken whole: the digits before the point are not
/// taken for an integer.
pub proof fn lemma_float_before_int(s: Seq<char>, pos: int, point: int, end: int)
    requires
        0 <= pos <= point < end <= s.len(),
        forall|i: int| pos <= i < point ==> CharClass::Digit.admits(#[trigger] s[i]),
        s[point] == '.',
        point + 1 < s.len() ==> s[point + 1] != '.',
        forall|i: int| point + 1 <= i < end ==> CharClass::Digit.admits(#[trigger] s[i]),
        end < s.len() ==> !CharClass::Digit.admits(s[end]),
    ensures
        value_at(s, pos) == (Outcome::Accepted {
            value: ValueView::Float(s.subrange(pos, end)),
            end,
        }),
{
    lemma_run_end_is(s, CharClass::Digit, pos, point);
    lemma_run_end_is(s, CharClass::Digit, point + 1, end);
    if literal_at(s, point, lit_dots()) {
        assert(s.subrange(point, point + 2)[1] == '.');
    }
}

/// One more digit: ten times the number before it, plus the digit.
pub proof fn lemma_decimal_step(s: Seq<char>, from: int, to: int)
    requires
        0 <= from <= to < s.len(),
    ensures
        decimal(s.subrange(from, to + 1)) == (decimal(s.subrange(from, to)) * 10 + (s[to] as int
            - '0' as int)) as nat,
{
    assert(s.subrange(from, to + 1).drop_last() =~= s.subrange(from, to));
}

/// A run of digits writes no less than any run it starts with.
pub proof fn lemma_decimal_grows(s: Seq<char>, from: int, mid: int, to: int)
    requires
        0 <= from <= mid <= to <= s.len(),
        forall|i: int| from <= i < to ==> CharClass::Digit.admits(#[trigger] s[i]),
    ensures
        decimal(s.subrange(from, mid)) <= decimal(s.subrange(from, to)),
    decreases to - mid,
{
    if mid < to {
        lemma_decimal_step(s, from, to - 1);
        lemma_decimal_grows(s, from, mid, to - 1);
    }
}

/// The number that the digits `chars[from..to]` write, if it fits 64 bits.
pub(crate) fn decimal_of(chars: &Vec<char>, from: usize, to: usize) -> (r: Option<i64>)
    requires
        from <= to <= chars.len(),
        forall|i: int| from <= i < to ==> CharClass::Digit.admits(#[trigger] chars@[i]),
    ensures
        r is Some == fits(chars@.subrange(from as int, to as int)),
        r matches Some(n) ==> n == decimal(chars@.subrange(from as int, to as int)),
{
    let mut n: i64 = 0;
    let mut i: usize = from;
    assert(chars@.subrange(from as int, from as int) =~= Seq::<char>::empty());
    while i < to
        invariant
            from <= i <= to <= chars.len(),
            forall|i: int| from <= i < to ==> CharClass::Digit.admits(#[trigger] chars@[i]),
            0 <= n,
            n == decimal(chars@.subrange(from as int, i as int)),
        decreases to - i,
    {
        let c = chars[i];
        assert(CharClass::Digit.admits(chars@[i as int]));
        let digit: i64 = (c as u32 - '0' as u32) as i64;
        proof {
            lemma_decimal_step(chars@, from as int, i as int);
            lemma_decimal_grows(chars@, from as int, i + 1, to as int);
        }
        if n > (i64::MAX - digit) / 10 {
            return None;
        }
        n = n * 10 + digit;
        i = i + 1;
    }
    Some(n)
}

/// Parses the literal that starts at `pos`.
pub fn value_in(chars: &Vec<char>, pos: usize) -> (r: Result<(Value, usize), SyntaxError>)
    requires
        pos <= chars.len(),
    ensures
        value_agrees(r, value_at(chars@, pos as int)),
{
    let len = chars.len();
    let ghost s = chars@;
    proof {
        lemma_value_advances(s, pos as int);
    }
    // String.
    if pos < len && chars[pos] == '"' {
        let close = scan_run(chars, CharClass::Quoted, pos + 1);
        if close < len {
            return Ok((Value::String(text_of(chars, pos + 1, close)), close + 1));
        }
        return Err(SyntaxError { kind: ErrorKind::UnexpectedEndOfInput, position: pos });
    }
    let first = scan_run(chars, CharClass::Digit, pos);
    proof {
        lemma_run_end(s, CharClass::Digit, pos as int);
    }
    // Range.
    if pos < first && first < len && len - first >= 2 && chars[first] == '.' && chars[first + 1]
        == '.' {
        assert(s.subrange(first as int, first + 2) =~= lit_dots());
        let last = scan_run(chars, CharClass::Digit, first + 2);
        proof {
            lemma_run_end(s, CharClass::Digit, first + 2);
        }
        if first + 2 < last {
            let start = decimal_of(chars, pos, first);
            let end = decimal_of(chars, first + 2, last);
            return match (start, end) {
                (Some(start), Some(end)) => Ok((Value::Range(Range { start, end }), last)),
                _ => Err(SyntaxError { kind: ErrorKind::MalformedLiteral, position: pos }),
            };
        }
    }
    assert(range_shape(s, pos as int) is None) by {
        if literal_at(s, first as int, lit_dots()) {
            assert(s.subrange(first as int, first + 2)[0] == '.');
            assert(s.subrange(first as int, first + 2)[1] == '.');
        }
    }
    // Decimal number.
    if first < len && chars[first] == '.' {
        let end = scan_run(chars, CharClass::Digit, first + 1);
        return Ok((Value::Float(text_of(chars, pos, end)), end));
    }
    // Integer.
    if pos < first {
        return match decimal_of(chars, pos, first) {
            Some(n) => Ok((Value::Int(n), first)),
            None => Err(SyntaxError { kind: ErrorKind::MalformedLiteral, position: pos }),
        };
    }
    // Boolean.
    let word_true: Vec<char> = vec!['t', 'r', 'u', 'e'];
    let word_false: Vec<char> = vec!['f', 'a', 'l', 's', 'e'];
    assert(word_true@.subrange(0, 4) =~= lit_true());
    assert(word_false@.subrange(0, 5) =~= lit_false());
    let is_true = match_literal(chars, pos, &word_true, 0, 4);
    if is_true == Match::Found {
        return Ok((Value::Bool(true), pos + 4));
    }
    let is_false = match_literal(chars, pos, &word_false, 0, 5);
    if is_false == Match::Found {
        return Ok((Value::Bool(false), pos + 5));
    }
    if is_true == Match::RanOut || is_false == Match::RanOut {
        Err(SyntaxError { kind: ErrorKind::UnexpectedEndOfInput, position: pos })
    } else {
        Err(SyntaxError { kind: ErrorKind::MalformedLiteral, position: pos })
    }
}

/// Parses the literal at the start of `s` and moves `s` behind it. A text
/// that starts with no literal is left as it is.
pub fn value(s: &mut &str) -> (r: Result<Value, SyntaxError>)
    ensures
        match value_at(old(s)@, 0) {
            Outcome::Accepted { value, end } => {
                &&& r is Ok
                &&& r->Ok_0@ == value
                &&& final(s)@ == old(s)@.skip(end)
            },
            Outcome::Rejected { kind, position } => r == Err::<Value, SyntaxError>(
                SyntaxError { kind, position: position as usize },
            ) && final(s)@ == old(s)@,
        },
{
    let chars = to_chars(*s);
    proof {
        lemma_value_advances(chars@, 0);
    }
    match value_in(&chars, 0) {
        Ok((v, end)) => {
            advance(s, end, chars.len());
            Ok(v)
        },
        Err(e) => Err(e),
    }
}

} // verus!
