//! Character classes, runs and literals: the grammar's lexical layer.

use vstd::prelude::*;
use vstd::std_specs::iter::IteratorSpec;
use vstd::string::*;
use crate::parser::errors::ErrorKind;

verus! {

/// The character classes that the grammar names.
#[derive(Clone, Copy, Debug, PartialEq, Eq, Structural)]
pub enum CharClass {
    /// `0` to `9`.
    Digit,
    /// The ASCII letters and digits.
    Alphanumeric,
    /// Space and tab.
    Blank,
    /// Space, tab, carriage return and line feed.
    Whitespace,
    /// Everything but `<`: the text of a tag's body.
    Text,
    /// Everything but `"`: the inside of a string literal.
    Quoted,
    /// Everything but space and `>`: a name that is read without its tag.
    Name,
}

impl CharClass {
    /// Whether `c` belongs to the class.
    pub open spec fn admits(self, c: char) -> bool {
        match self {
            CharClass::Digit => '0' <= c && c <= '9',
            CharClass::Alphanumeric => ('0' <= c && c <= '9') || ('a' <= c && c <= 'z') || ('A'
                <= c && c <= 'Z'),
            CharClass::Blank => c == ' ' || c == '\t',
            CharClass::Whitespace => c == ' ' || c == '\t' || c == '\r' || c == '\n',
            CharClass::Text => c != '<',
            CharClass::Quoted => c != '"',
            CharClass::Name => c != ' ' && c != '>',
        }
    }

    /// Tests `c` against the class.
    pub fn test(self, c: char) -> (r: bool)
        ensures
            r == self.admits(c),
    {
        match self {
            CharClass::Digit => '0' <= c && c <= '9',
            CharClass::Alphanumeric => ('0' <= c && c <= '9') || ('a' <= c && c <= 'z') || ('A'
                <= c && c <= 'Z'),
            CharClass::Blank => c == ' ' || c == '\t',
            CharClass::Whitespace => c == ' ' || c == '\t' || c == '\r' || c == '\n',
            CharClass::Text => c != '<',
            CharClass::Quoted => c != '"',
            CharClass::Name => c != ' ' && c != '>',
        }
    }
}

/// Where the longest run of `class` characters that starts at `pos` ends.
pub open spec fn run_end(s: Seq<char>, class: CharClass, pos: int) -> int
    decreases s.len() - pos,
{
    if 0 <= pos < s.len() && class.admits(s[pos]) {
        run_end(s, class, pos + 1)
    } else {
        pos
    }
}

/// A run ends at or behind its start, within the text, on the first character
/// outside the class; all before it are inside.
pub proof fn lemma_run_end(s: Seq<char>, class: CharClass, pos: int)
    requires
        0 <= pos <= s.len(),
    ensures
        pos <= run_end(s, class, pos) <= s.len(),
        forall|i: int| pos <= i < run_end(s, class, pos) ==> class.admits(#[trigger] s[i]),
        run_end(s, class, pos) < s.len() ==> !class.admits(s[run_end(s, class, pos)]),
    decreases s.len() - pos,
{
    if pos < s.len() && class.admits(s[pos]) {
        lemma_run_end(s, class, pos + 1);
    }
}

/// A position up to which every character is in the class, and at which the
/// text ends or leaves the class, is the end of the run.
pub proof fn lemma_run_end_is(s: Seq<char>, class: CharClass, pos: int, end: int)
    requires
        0 <= pos <= end <= s.len(),
        forall|i: int| pos <= i < end ==> class.admits(#[trigger] s[i]),
        end < s.len() ==> !class.admits(s[end]),
    ensures
        run_end(s, class, pos) == end,
    decreases end - pos,
{
    if pos < end {
        lemma_run_end_is(s, class, pos + 1, end);
    }
}

/// Whether `text` is an identifier: letters and digits, one at least.
pub open spec fn is_word(text: Seq<char>) -> bool {
    &&& text.len() > 0
    &&& forall|i: int| 0 <= i < text.len() ==> CharClass::Alphanumeric.admits(#[trigger] text[i])
}

/// Whether `lit` stands in `s` at `pos`.
pub open spec fn literal_at(s: Seq<char>, pos: int, lit: Seq<char>) -> bool {
    &&& 0 <= pos
    &&& pos + lit.len() <= s.len()
    &&& s.subrange(pos, pos + lit.len()) == lit
}

/// Whether `s` ends behind `pos` before `lit` is complete, having agreed
/// with it that far.
pub open spec fn runs_out_at(s: Seq<char>, pos: int, lit: Seq<char>) -> bool {
    &&& 0 <= pos <= s.len()
    &&& s.len() - pos < lit.len()
    &&& s.subrange(pos, s.len() as int) == lit.subrange(0, s.len() - pos)
}

/// The kind of a failure to find `lit` at `pos`: the input ran out, or `kind`.
pub open spec fn miss_kind(s: Seq<char>, pos: int, lit: Seq<char>, kind: ErrorKind) -> ErrorKind {
    if runs_out_at(s, pos, lit) {
        ErrorKind::UnexpectedEndOfInput
    } else {
        kind
    }
}

/// How a literal fared against the input.
#[derive(Clone, Copy, Debug, PartialEq, Eq, Structural)]
pub enum Match {
    /// The literal stands there.
    Found,
    /// The input ended inside the literal.
    RanOut,
    /// A character differs.
    Differs,
}

/// `String::push` of the standard library: the string afterwards is the
/// string before with `ch` at its end.
pub assume_specification[ std::string::String::push ](s: &mut std::string::String, ch: char)
    ensures
        final(s)@ == old(s)@.push(ch),
;

/// The characters of `s`, in order.
pub fn to_chars(s: &str) -> (chars: Vec<char>)
    ensures
        chars@ == s@,
{
    let mut chars: Vec<char> = Vec::new();
    let mut rest = s.chars();
    loop
        invariant
            chars@ + rest.remaining() == s@,
            rest.decrease() is Some,
        ensures
            chars@ == s@,
        decreases rest.decrease()->0,
    {
        match rest.next() {
            Some(c) => {
                chars.push(c);
            },
            None => {
                assert(chars@ =~= s@);
                break ;
            },
        }
    }
    chars
}

/// The end of the run of `class` characters that starts at `pos`.
pub fn scan_run(chars: &Vec<char>, class: CharClass, pos: usize) -> (end: usize)
    requires
        pos <= chars.len(),
    ensures
        end == run_end(chars@, class, pos as int),
        pos <= end <= chars.len(),
{
    let mut end: usize = pos;
    while end < chars.len() && class.test(chars[end])
        invariant
            pos <= end <= chars.len(),
            forall|i: int| pos <= i < end ==> class.admits(#[trigger] chars@[i]),
        decreases chars.len() - end,
    {
        end = end + 1;
    }
    proof {
        lemma_run_end_is(chars@, class, pos as int, end as int);
    }
    end
}

/// Compares the text at `pos` with `lit[from..to]`.
pub(crate) fn match_literal(
    chars: &Vec<char>,
    pos: usize,
    lit: &Vec<char>,
    from: usize,
    to: usize,
) -> (m: Match)
    requires
        pos <= chars.len(),
        from <= to <= lit.len(),
    ensures
        (m == Match::Found) == literal_at(
            chars@,
            pos as int,
            lit@.subrange(from as int, to as int),
        ),
        (m == Match::RanOut) == runs_out_at(
            chars@,
            pos as int,
            lit@.subrange(from as int, to as int),
        ),
{
    let ghost wanted = lit@.subrange(from as int, to as int);
    let mut i: usize = 0;
    while i < to - from && i < chars.len() - pos && chars[pos + i] == lit[from + i]
        invariant
            pos <= chars.len(),
            from <= to <= lit.len(),
            i <= to - from,
            i <= chars.len() - pos,
            wanted == lit@.subrange(from as int, to as int),
            forall|j: int| 0 <= j < i ==> chars@[pos + j] == #[trigger] wanted[j],
        decreases to - from - i,
    {
        i = i + 1;
    }
    if i == to - from {
        assert(chars@.subrange(pos as int, pos + wanted.len()) =~= wanted);
        Match::Found
    } else if i == chars.len() - pos {
        assert(chars@.subrange(pos as int, chars@.len() as int) =~= wanted.subrange(
            0,
            chars@.len() - pos,
        ));
        Match::RanOut
    } else {
        assert(chars@[pos + i] != wanted[i as int]);
        let ghost here = chars@.subrange(pos as int, pos + wanted.len());
        let ghost rest = chars@.subrange(pos as int, chars@.len() as int);
        assert(!literal_at(chars@, pos as int, wanted)) by {
            if literal_at(chars@, pos as int, wanted) {
                assert(here[i as int] == wanted[i as int]);
            }
        }
        assert(!runs_out_at(chars@, pos as int, wanted)) by {
            if runs_out_at(chars@, pos as int, wanted) {
                assert(rest[i as int] == wanted.subrange(0, chars@.len() - pos)[i as int]);
            }
        }
        Match::Differs
    }
}

/// The text of `chars[from..to]`.
pub(crate) fn text_of(chars: &Vec<char>, from: usize, to: usize) -> (text: String)
    requires
        from <= to <= chars.len(),
    ensures
        text@ == chars@.subrange(from as int, to as int),
{
    let mut text = String::new();
    let mut i: usize = from;
    while i < to
        invariant
            from <= i <= to <= chars.len(),
            text@ == chars@.subrange(from as int, i as int),
        decreases to - i,
    {
        text.push(chars[i]);
        i = i + 1;
        assert(text@ =~= chars@.subrange(from as int, i as int));
    }
    text
}

/// Moves the cursor `n` characters on, `len` being the length of its text.
pub(crate) fn advance<'s>(s: &mut &'s str, n: usize, len: usize)
    requires
        n <= len == old(s)@.len(),
    ensures
        final(s)@ == old(s)@.skip(n as int),
{
    let whole: &'s str = *s;
    *s = whole.substring_char(n, len);
}

} // verus!
