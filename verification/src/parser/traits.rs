//! Traits: the bare identifiers of a tag, each a flag without a value.

use vstd::prelude::*;
use indexmap::IndexSet;
use crate::parser::errors::{ErrorKind, Outcome, SyntaxError};
use crate::parser::ordered::{lemma_with_item_distinct, new_set, set_insert, set_items, with_item};
use crate::parser::scan::{
    advance, is_word, lemma_run_end, run_end, scan_run, text_of, to_chars, CharClass,
};

verus! {

/// Where the identifier that follows the blanks at `pos` starts.
pub open spec fn word_start(s: Seq<char>, pos: int) -> int {
    run_end(s, CharClass::Blank, pos)
}

/// Where the identifier that follows the blanks at `pos` ends.
pub open spec fn word_end(s: Seq<char>, pos: int) -> int {
    run_end(s, CharClass::Alphanumeric, word_start(s, pos))
}

/// Whether a trait stands at `pos`: blanks or none, then an identifier that
/// no `=` follows.
pub open spec fn is_trait_at(s: Seq<char>, pos: int) -> bool {
    &&& pos <= word_start(s, pos) < word_end(s, pos) <= s.len()
    &&& !(word_end(s, pos) < s.len() && s[word_end(s, pos)] == '=')
}

/// The trait at `pos`. With no identifier there, a name is missing or the
/// input has ended; an identifier before `=` is the key of an attribute, and
/// a trait's name is missing.
pub open spec fn trait_at(s: Seq<char>, pos: int) -> Outcome<Seq<char>> {
    let start = word_start(s, pos);
    let end = word_end(s, pos);
    if is_trait_at(s, pos) {
        Outcome::Accepted { value: s.subrange(start, end), end }
    } else if start >= s.len() {
        Outcome::Rejected { kind: ErrorKind::UnexpectedEndOfInput, position: start }
    } else {
        Outcome::Rejected { kind: ErrorKind::ExpectedTagName, position: start }
    }
}

/// The traits from `pos` on, added to `found`, and where they end: one trait
/// after another until none follows. A name that is already there is not
/// added again.
pub open spec fn traits_from(s: Seq<char>, pos: int, found: Seq<Seq<char>>) -> (Seq<Seq<char>>, int)
    decreases s.len() - pos,
{
    if is_trait_at(s, pos) {
        traits_from(
            s,
            word_end(s, pos),
            with_item(found, s.subrange(word_start(s, pos), word_end(s, pos))),
        )
    } else {
        (found, pos)
    }
}

/// The traits that start at `pos`, and where they end.
pub open spec fn traits_at(s: Seq<char>, pos: int) -> (Seq<Seq<char>>, int) {
    traits_from(s, pos, Seq::empty())
}

/// The identifier behind the blanks at `pos` lies within the text.
pub proof fn lemma_word_bounds(s: Seq<char>, pos: int)
    requires
        0 <= pos <= s.len(),
    ensures
        pos <= word_start(s, pos) <= word_end(s, pos) <= s.len(),
        forall|i: int|
            word_start(s, pos) <= i < word_end(s, pos) ==> CharClass::Alphanumeric.admits(
                #[trigger] s[i],
            ),
{
    lemma_run_end(s, CharClass::Blank, pos);
    lemma_run_end(s, CharClass::Alphanumeric, word_start(s, pos));
}

/// The traits end at or behind their start, within the text; no name among
/// them occurs twice if none did in `found`, and what was found stays.
pub proof fn lemma_traits_from(s: Seq<char>, pos: int, found: Seq<Seq<char>>)
    requires
        0 <= pos <= s.len(),
        found.no_duplicates(),
    ensures
        pos <= traits_from(s, pos, found).1 <= s.len(),
        traits_from(s, pos, found).0.no_duplicates(),
        forall|name: Seq<char>|
            found.contains(name) ==> traits_from(s, pos, found).0.contains(name),
        !is_trait_at(s, traits_from(s, pos, found).1),
    decreases s.len() - pos,
{
    lemma_word_bounds(s, pos);
    if is_trait_at(s, pos) {
        let name = s.subrange(word_start(s, pos), word_end(s, pos));
        lemma_with_item_distinct(found, name);
        lemma_traits_from(s, word_end(s, pos), with_item(found, name));
    }
}

/// Every trait found is an identifier, if those in `found` are.
pub proof fn lemma_traits_are_words(s: Seq<char>, pos: int, found: Seq<Seq<char>>)
    requires
        0 <= pos <= s.len(),
        forall|i: int| 0 <= i < found.len() ==> is_word(#[trigger] found[i]),
    ensures
        forall|i: int|
            0 <= i < traits_from(s, pos, found).0.len() ==> is_word(
                #[trigger] traits_from(s, pos, found).0[i],
            ),
    decreases s.len() - pos,
{
    lemma_word_bounds(s, pos);
    if is_trait_at(s, pos) {
        let name = s.subrange(word_start(s, pos), word_end(s, pos));
        assert(is_word(name));
        let longer = with_item(found, name);
        assert forall|i: int| 0 <= i < longer.len() implies is_word(#[trigger] longer[i]) by {
            if i < found.len() {
                assert(longer[i] == found[i]);
            }
        }
        lemma_traits_are_words(s, word_end(s, pos), longer);
        assert(traits_from(s, pos, found) == traits_from(s, word_end(s, pos), longer));
    } else {
        assert(traits_from(s, pos, found).0 == found);
    }
}

/// Parses the trait at `pos`: the bounds of its name.
pub fn trait_in(chars: &Vec<char>, pos: usize) -> (r: Result<(usize, usize), SyntaxError>)
    requires
        pos <= chars.len(),
    ensures
        r is Ok == is_trait_at(chars@, pos as int),
        r matches Ok((start, end)) ==> start == word_start(chars@, pos as int) && end == word_end(
            chars@,
            pos as int,
        ),
        r matches Err(e) ==> e == trait_at(chars@, pos as int).error(),
{
    proof {
        lemma_word_bounds(chars@, pos as int);
    }
    let start = scan_run(chars, CharClass::Blank, pos);
    let end = scan_run(chars, CharClass::Alphanumeric, start);
    if start < end && !(end < chars.len() && chars[end] == '=') {
        Ok((start, end))
    } else if start >= chars.len() {
        Err(SyntaxError { kind: ErrorKind::UnexpectedEndOfInput, position: start })
    } else {
        Err(SyntaxError { kind: ErrorKind::ExpectedTagName, position: start })
    }
}

/// Parses the traits that start at `pos`.
pub fn traits_in(chars: &Vec<char>, pos: usize) -> (r: (IndexSet<String>, usize))
    requires
        pos <= chars.len(),
    ensures
        set_items(r.0) == traits_at(chars@, pos as int).0,
        r.1 == traits_at(chars@, pos as int).1,
        pos <= r.1 <= chars.len(),
{
    let mut found = new_set();
    let mut at: usize = pos;
    proof {
        lemma_traits_from(chars@, pos as int, Seq::empty());
    }
    loop
        invariant
            pos <= at <= chars.len(),
            set_items(found).no_duplicates(),
            traits_from(chars@, at as int, set_items(found)) == traits_at(chars@, pos as int),
        ensures
            pos <= at <= chars.len(),
            (set_items(found), at as int) == traits_at(chars@, pos as int),
        decreases chars.len() - at,
    {
        proof {
            lemma_word_bounds(chars@, at as int);
        }
        match trait_in(chars, at) {
            Ok((start, end)) => {
                proof {
                    lemma_with_item_distinct(
                        set_items(found),
                        chars@.subrange(start as int, end as int),
                    );
                }
                set_insert(&mut found, text_of(chars, start, end));
                at = end;
            },
            Err(_) => {
                break ;
            },
        }
    }
    (found, at)
}

/// Parses the trait at the start of `s`, returns its name and moves `s`
/// behind it. A text that starts with no trait is left as it is.
pub fn single<'s>(s: &mut &'s str) -> (r: Result<&'s str, SyntaxError>)
    ensures
        match trait_at(old(s)@, 0) {
            Outcome::Accepted { value, end } => {
                &&& r is Ok
                &&& r->Ok_0@ == value
                &&& final(s)@ == old(s)@.skip(end)
            },
            Outcome::Rejected { kind, position } => r == Err::<&str, SyntaxError>(
                SyntaxError { kind, position: position as usize },
            ) && final(s)@ == old(s)@,
        },
{
    let whole: &'s str = *s;
    let chars = to_chars(whole);
    proof {
        lemma_word_bounds(chars@, 0);
    }
    match trait_in(&chars, 0) {
        Ok((start, end)) => {
            let name = whole.substring_char(start, end);
            advance(s, end, chars.len());
            Ok(name)
        },
        Err(e) => Err(e),
    }
}

/// Parses the traits at the start of `s` and moves `s` behind them. This
/// never fails: where no trait stands, the set is empty and `s` stays.
pub fn many(s: &mut &str) -> (r: Result<IndexSet<String>, SyntaxError>)
    ensures
        r is Ok,
        set_items(r->Ok_0) == traits_at(old(s)@, 0).0,
        final(s)@ == old(s)@.skip(traits_at(old(s)@, 0).1),
{
    let chars = to_chars(*s);
    let (found, end) = traits_in(&chars, 0);
    advance(s, end, chars.len());
    Ok(found)
}

} // verus!
