//! Attributes: the `key=value` pairs of a tag.

use vstd::prelude::*;
use indexmap::IndexMap;
use crate::parser::errors::{ErrorKind, Outcome, SyntaxError};
use crate::parser::ordered::{
    keys_distinct, lemma_with_entry_distinct, map_entries, map_insert, new_map, with_entry,
};
use crate::parser::scan::{advance, is_word, scan_run, text_of, to_chars, CharClass};
use crate::parser::traits::{lemma_word_bounds, word_end, word_start};
use crate::parser::values::{lemma_value_advances, value_at, value_in, Value, ValueView};

verus! {

/// Whether the key of an attribute stands at `pos`: blanks or none, then an
/// identifier, then `=`.
pub open spec fn is_key_at(s: Seq<char>, pos: int) -> bool {
    &&& 0 <= pos <= word_start(s, pos) < word_end(s, pos) < s.len()
    &&& s[word_end(s, pos)] == '='
}

/// The key of the attribute at `pos`.
pub open spec fn key_at(s: Seq<char>, pos: int) -> Seq<char> {
    s.subrange(word_start(s, pos), word_end(s, pos))
}

/// The attribute at `pos`: a key, and the literal behind its `=`. Without a
/// key, a name is missing, or the input has ended; behind a key, a failure
/// is that of the literal.
pub open spec fn attribute_at(s: Seq<char>, pos: int) -> Outcome<(Seq<char>, ValueView)> {
    if is_key_at(s, pos) {
        match value_at(s, word_end(s, pos) + 1) {
            Outcome::Accepted { value, end } => Outcome::Accepted {
                value: (key_at(s, pos), value),
                end,
            },
            Outcome::Rejected { kind, position } => Outcome::Rejected { kind, position },
        }
    } else if word_end(s, pos) >= s.len() {
        Outcome::Rejected {
            kind: ErrorKind::UnexpectedEndOfInput,
            position: word_start(s, pos),
        }
    } else {
        Outcome::Rejected { kind: ErrorKind::ExpectedTagName, position: word_start(s, pos) }
    }
}

/// The attributes from `pos` on, bound in `found`, and where they end: one
/// attribute after another until no key follows. A key that is bound already
/// keeps its place and takes the later value. A key whose literal fails makes
/// the whole fail, with the literal's failure.
pub open spec fn attributes_from(
    s: Seq<char>,
    pos: int,
    found: Seq<(Seq<char>, ValueView)>,
) -> Outcome<Seq<(Seq<char>, ValueView)>>
    decreases s.len() - pos,
    via attributes_from_decreases
{
    if is_key_at(s, pos) {
        match value_at(s, word_end(s, pos) + 1) {
            Outcome::Accepted { value, end } => attributes_from(
                s,
                end,
                with_entry(found, key_at(s, pos), value),
            ),
            Outcome::Rejected { kind, position } => Outcome::Rejected { kind, position },
        }
    } else {
        Outcome::Accepted { value: found, end: pos }
    }
}

#[via_fn]
proof fn attributes_from_decreases(s: Seq<char>, pos: int, found: Seq<(Seq<char>, ValueView)>) {
    if is_key_at(s, pos) {
        lemma_value_advances(s, word_end(s, pos) + 1);
    }
}

/// The attributes that start at `pos`, and where they end.
pub open spec fn attributes_at(s: Seq<char>, pos: int) -> Outcome<Seq<(Seq<char>, ValueView)>> {
    attributes_from(s, pos, Seq::empty())
}

/// An accepted attribute ends behind its start and within the text; a
/// rejected one was rejected within the text.
pub proof fn lemma_attribute_advances(s: Seq<char>, pos: int)
    requires
        0 <= pos <= s.len(),
    ensures
        attribute_at(s, pos) matches Outcome::Accepted { end, .. } ==> pos < end <= s.len(),
        attribute_at(s, pos) matches Outcome::Rejected { position, .. } ==> pos <= position
            <= s.len(),
{
    lemma_word_bounds(s, pos);
    if is_key_at(s, pos) {
        lemma_value_advances(s, word_end(s, pos) + 1);
    }
}

/// Accepted attributes end at or behind their start, within the text, and no
/// key among them occurs twice if none did in `found`; a rejection lies
/// within the text.
pub proof fn lemma_attributes_from(s: Seq<char>, pos: int, found: Seq<(Seq<char>, ValueView)>)
    requires
        0 <= pos <= s.len(),
        keys_distinct(found),
    ensures
        attributes_from(s, pos, found) matches Outcome::Accepted { value, end } ==> pos <= end
            <= s.len() && keys_distinct(value) && !is_key_at(s, end),
        attributes_from(s, pos, found) matches Outcome::Rejected { position, .. } ==> pos
            <= position <= s.len(),
    decreases s.len() - pos,
{
    lemma_word_bounds(s, pos);
    if is_key_at(s, pos) {
        lemma_value_advances(s, word_end(s, pos) + 1);
        match value_at(s, word_end(s, pos) + 1) {
            Outcome::Accepted { value, end } => {
                lemma_with_entry_distinct(found, key_at(s, pos), value);
                lemma_attributes_from(s, end, with_entry(found, key_at(s, pos), value));
            },
            Outcome::Rejected { .. } => {},
        }
    }
}

/// Every key bound is an identifier, if those in `found` are.
pub proof fn lemma_keys_are_words(s: Seq<char>, pos: int, found: Seq<(Seq<char>, ValueView)>)
    requires
        0 <= pos <= s.len(),
        forall|i: int| 0 <= i < found.len() ==> is_word((#[trigger] found[i]).0),
    ensures
        attributes_from(s, pos, found) matches Outcome::Accepted { value, .. } ==> forall|i: int|
            0 <= i < value.len() ==> is_word((#[trigger] value[i]).0),
    decreases s.len() - pos,
{
    lemma_word_bounds(s, pos);
    if is_key_at(s, pos) {
        lemma_value_advances(s, word_end(s, pos) + 1);
        match value_at(s, word_end(s, pos) + 1) {
            Outcome::Accepted { value, end } => {
                let key = key_at(s, pos);
                assert(is_word(key));
                let bound = with_entry(found, key, value);
                assert forall|i: int| 0 <= i < bound.len() implies is_word(
                    (#[trigger] bound[i]).0,
                ) by {
                    if i < found.len() {
                        assert(is_word(found[i].0));
                    }
                }
                lemma_keys_are_words(s, end, bound);
            },
            Outcome::Rejected { .. } => {},
        }
    }
}

/// Looks for the key of an attribute at `pos`: the bounds of the key.
pub(crate) fn key_in(chars: &Vec<char>, pos: usize) -> (r: Option<(usize, usize)>)
    requires
        pos <= chars.len(),
    ensures
        r is Some == is_key_at(chars@, pos as int),
        r matches Some((start, end)) ==> start == word_start(chars@, pos as int) && end
            == word_end(chars@, pos as int),
{
    proof {
        lemma_word_bounds(chars@, pos as int);
    }
    let start = scan_run(chars, CharClass::Blank, pos);
    let end = scan_run(chars, CharClass::Alphanumeric, start);
    if start < end && end < chars.len() && chars[end] == '=' {
        Some((start, end))
    } else {
        None
    }
}

/// Whether a parser's result for one attribute, the bounds of its key with
/// its value and its end, is what the grammar gives.
pub open spec fn attribute_agrees(
    s: Seq<char>,
    r: Result<(usize, usize, Value, usize), SyntaxError>,
    o: Outcome<(Seq<char>, ValueView)>,
) -> bool {
    match o {
        Outcome::Accepted { value, end } => {
            &&& r matches Ok((key_start, key_end, v, e))
            &&& 0 <= key_start <= key_end <= s.len()
            &&& s.subrange(key_start as int, key_end as int) == value.0
            &&& v@ == value.1
            &&& e == end
        },
        Outcome::Rejected { .. } => r == Err::<(usize, usize, Value, usize), SyntaxError>(
            o.error(),
        ),
    }
}

/// Parses the attribute at `pos`: the bounds of its key, its value, its end.
pub fn attribute_in(chars: &Vec<char>, pos: usize) -> (r: Result<
    (usize, usize, Value, usize),
    SyntaxError,
>)
    requires
        pos <= chars.len(),
    ensures
        attribute_agrees(chars@, r, attribute_at(chars@, pos as int)),
{
    proof {
        lemma_word_bounds(chars@, pos as int);
    }
    match key_in(chars, pos) {
        Some((start, end)) => match value_in(chars, end + 1) {
            Ok((value, after)) => Ok((start, end, value, after)),
            Err(e) => Err(e),
        },
        None => {
            let start = scan_run(chars, CharClass::Blank, pos);
            let end = scan_run(chars, CharClass::Alphanumeric, start);
            if end >= chars.len() {
                Err(SyntaxError { kind: ErrorKind::UnexpectedEndOfInput, position: start })
            } else {
                Err(SyntaxError { kind: ErrorKind::ExpectedTagName, position: start })
            }
        },
    }
}

/// Whether a parser's result for a run of attributes is what the grammar
/// gives.
pub open spec fn attributes_agree(
    r: Result<(IndexMap<String, Value>, usize), SyntaxError>,
    o: Outcome<Seq<(Seq<char>, ValueView)>>,
) -> bool {
    match o {
        Outcome::Accepted { value, end } => r is Ok && map_entries(r->Ok_0.0) == value && r->Ok_0.1
            == end,
        Outcome::Rejected { .. } => r is Err && r->Err_0 == o.error(),
    }
}

/// Parses the attributes that start at `pos`.
pub fn attributes_in(chars: &Vec<char>, pos: usize) -> (r: Result<
    (IndexMap<String, Value>, usize),
    SyntaxError,
>)
    requires
        pos <= chars.len(),
    ensures
        attributes_agree(r, attributes_at(chars@, pos as int)),
        r matches Ok((_, end)) ==> pos <= end <= chars.len(),
{
    let mut found = new_map();
    let mut at: usize = pos;
    loop
        invariant
            pos <= at <= chars.len(),
            keys_distinct(map_entries(found)),
            attributes_from(chars@, at as int, map_entries(found)) == attributes_at(
                chars@,
                pos as int,
            ),
        ensures
            pos <= at <= chars.len(),
            attributes_at(chars@, pos as int) == (Outcome::Accepted {
                value: map_entries(found),
                end: at as int,
            }),
        decreases chars.len() - at,
    {
        proof {
            lemma_word_bounds(chars@, at as int);
        }
        match key_in(chars, at) {
            Some((start, end)) => {
                proof {
                    lemma_value_advances(chars@, end + 1);
                }
                match value_in(chars, end + 1) {
                    Ok((value, after)) => {
                        proof {
                            lemma_with_entry_distinct(
                                map_entries(found),
                                chars@.subrange(start as int, end as int),
                                value@,
                            );
                        }
                        map_insert(&mut found, text_of(chars, start, end), value);
                        at = after;
                    },
                    Err(e) => {
                        return Err(e);
                    },
                }
            },
            None => {
                break ;
            },
        }
    }
    Ok((found, at))
}

/// Parses the attribute at the start of `s`, returns its key and value and
/// moves `s` behind it. A text that starts with no attribute is left as it is.
pub fn single<'s>(s: &mut &'s str) -> (r: Result<(&'s str, Value), SyntaxError>)
    ensures
        match attribute_at(old(s)@, 0) {
            Outcome::Accepted { value, end } => r is Ok && r->Ok_0.0@ == value.0 && r->Ok_0.1@
                == value.1 && final(s)@ == old(s)@.skip(end),
            Outcome::Rejected { kind, position } => r == Err::<(&str, Value), SyntaxError>(
                SyntaxError { kind, position: position as usize },
            ) && final(s)@ == old(s)@,
        },
{
    let whole: &'s str = *s;
    let chars = to_chars(whole);
    proof {
        lemma_attribute_advances(chars@, 0);
    }
    match attribute_in(&chars, 0) {
        Ok((start, end, value, after)) => {
            let key = whole.substring_char(start, end);
            advance(s, after, chars.len());
            Ok((key, value))
        },
        Err(e) => Err(e),
    }
}

/// Parses the attributes at the start of `s` and moves `s` behind them.
/// Where no attribute stands, the map is empty and `s` stays; a key whose
/// literal fails is an error, and `s` stays too.
pub fn many(s: &mut &str) -> (r: Result<IndexMap<String, Value>, SyntaxError>)
    ensures
        match attributes_at(old(s)@, 0) {
            Outcome::Accepted { value, end } => {
                &&& r is Ok
                &&& map_entries(r->Ok_0) == value
                &&& final(s)@ == old(s)@.skip(end)
            },
            Outcome::Rejected { kind, position } => r is Err && r->Err_0 == (SyntaxError {
                kind,
                position: position as usize,
            }) && final(s)@ == old(s)@,
        },
{
    let chars = to_chars(*s);
    match attributes_in(&chars, 0) {
        Ok((found, end)) => {
            advance(s, end, chars.len());
            Ok(found)
        },
        Err(e) => Err(e),
    }
}

} // verus!
