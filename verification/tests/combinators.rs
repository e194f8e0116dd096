//! The grammar written a second time, with parser combinators, and held
//! against the library on every short text over small alphabets.

use bftml::parser::tags::{Inner, Tag};
use bftml::parser::values::Value;
use bftml::parser::{attributes, tags, traits, values};
use indexmap::{IndexMap, IndexSet};
use winnow::ascii::{alphanumeric1, digit0, digit1, multispace0, space0};
use winnow::combinator::{alt, cut_err, not, repeat};
use winnow::error::{ContextError, ErrMode};
use winnow::token::take_till;
use winnow::{ModalResult, Parser};

fn number(digits: &str) -> ModalResult<i64> {
    digits.parse::<i64>().map_err(|_| ErrMode::Cut(ContextError::new()))
}

fn string(s: &mut &str) -> ModalResult<Value> {
    let _ = '"'.parse_next(s)?;
    let text = take_till(0.., ['"']).parse_next(s)?;
    let _ = '"'.parse_next(s)?;
    Ok(Value::String(text.into()))
}

fn range(s: &mut &str) -> ModalResult<Value> {
    let (start, _, end) = (digit1, "..", digit1).parse_next(s)?;
    Ok(Value::Range(number(start)?..number(end)?))
}

fn decimal(s: &mut &str) -> ModalResult<Value> {
    let text = (digit0, '.', digit0).take().parse_next(s)?;
    Ok(Value::Float(text.into()))
}

fn integer(s: &mut &str) -> ModalResult<Value> {
    let digits = digit1.parse_next(s)?;
    Ok(Value::Int(number(digits)?))
}

fn boolean(s: &mut &str) -> ModalResult<Value> {
    alt(("true".value(Value::Bool(true)), "false".value(Value::Bool(false)))).parse_next(s)
}

fn value(s: &mut &str) -> ModalResult<Value> {
    alt((string, range, decimal, integer, boolean)).parse_next(s)
}

fn one_trait<'s>(s: &mut &'s str) -> ModalResult<&'s str> {
    let _ = space0.parse_next(s)?;
    let key = alphanumeric1.parse_next(s)?;
    let _ = not('=').parse_next(s)?;
    Ok(key)
}

fn all_traits(s: &mut &str) -> ModalResult<IndexSet<String>> {
    repeat(0.., one_trait)
        .fold(IndexSet::new, |mut found: IndexSet<String>, name| {
            found.insert(name.into());
            found
        })
        .parse_next(s)
}

fn one_attribute<'s>(s: &mut &'s str) -> ModalResult<(&'s str, Value)> {
    let _ = space0.parse_next(s)?;
    let key = alphanumeric1.parse_next(s)?;
    let _ = '='.parse_next(s)?;
    let value = cut_err(value).parse_next(s)?;
    Ok((key, value))
}

fn all_attributes(s: &mut &str) -> ModalResult<IndexMap<String, Value>> {
    repeat(0.., one_attribute)
        .fold(IndexMap::new, |mut found: IndexMap<String, Value>, (key, value)| {
            found.insert(key.into(), value);
            found
        })
        .parse_next(s)
}

fn tag(s: &mut &str) -> ModalResult<Tag> {
    let _ = multispace0.parse_next(s)?;
    let _ = '<'.parse_next(s)?;
    let name: String = alphanumeric1.parse_next(s)?.into();
    let traits = all_traits.parse_next(s)?;
    let attributes = all_attributes.parse_next(s)?;
    let _ = multispace0.parse_next(s)?;
    let closed: ModalResult<&str> = "/>".parse_next(s);
    if closed.is_ok() {
        return Ok(Tag { name, traits, attributes, inner: Inner::Empty });
    }
    let _ = '>'.parse_next(s)?;
    let inner = alt((
        one_or_more_tags.map(Inner::Children),
        take_till(0.., '<').map(|text: &str| Inner::Content(text.into())),
    ))
    .parse_next(s)?;
    let _ = "</".parse_next(s)?;
    let _ = name.as_str().parse_next(s)?;
    let _ = '>'.parse_next(s)?;
    Ok(Tag { name, traits, attributes, inner })
}

/// A tag whose failure, of whatever kind, only ends the run it stands in.
fn tag_in_a_run(s: &mut &str) -> ModalResult<Tag> {
    tag(s).map_err(|error| error.backtrack())
}

fn one_or_more_tags(s: &mut &str) -> ModalResult<Vec<Tag>> {
    repeat(1.., tag_in_a_run).parse_next(s)
}

/// Every text of up to `longest` pieces, each taken from `pieces`.
fn texts(pieces: &[&str], longest: usize) -> Vec<String> {
    let mut all = vec![String::new()];
    let mut last = vec![String::new()];
    for _ in 0..longest {
        let mut next = Vec::with_capacity(last.len() * pieces.len());
        for text in &last {
            for piece in pieces {
                next.push(format!("{text}{piece}"));
            }
        }
        all.extend(next.iter().cloned());
        last = next;
    }
    all
}

/// Runs both parsers on `text`. They must both accept, with the same result
/// and the same rest, or both reject, the library leaving the text in place.
fn same<'s, T: PartialEq + std::fmt::Debug, U, E: std::fmt::Debug>(
    text: &'s str,
    library: impl Fn(&mut &'s str) -> Result<T, E>,
    combinators: impl Fn(&mut &'s str) -> ModalResult<U>,
    plain: impl Fn(U) -> T,
) -> bool {
    let mut left = text;
    let mut right = text;
    let ours = library(&mut left);
    let theirs = combinators(&mut right);
    match (ours, theirs) {
        (Ok(ours), Ok(theirs)) => {
            assert_eq!(ours, plain(theirs), "on {text:?}");
            assert_eq!(left, right, "the rest of {text:?}");
            true
        }
        (Err(_), Err(_)) => {
            assert_eq!(left, text, "the cursor after the failure on {text:?}");
            false
        }
        (ours, theirs) => panic!(
            "on {text:?}: the library {} and the combinators {}",
            if ours.is_ok() { "accepts" } else { "rejects" },
            if theirs.is_ok() { "accept" } else { "reject" },
        ),
    }
}

#[test]
fn values_agree_with_combinators() {
    let letters = ["0", "7", ".", "\"", "t", "r", "u", "e", "f", "a", "l", "s", " "];
    let mut accepted = 0;
    for text in texts(&letters, 5) {
        if same(&text, values::value, value, |v| v) {
            accepted += 1;
        }
    }
    assert!(accepted > 1000);
    for text in [
        "9223372036854775807",
        "9223372036854775808",
        "9223372036854775808.5",
        "0..9223372036854775807",
        "0..9223372036854775808",
        "9223372036854775808..0",
        "00000000000000000000001",
        "\"ünï\"cødé",
        "false..",
        "true\"",
    ] {
        same(text, values::value, value, |v| v);
    }
}

#[test]
fn traits_agree_with_combinators() {
    let letters = ["a", "B", "1", "=", " ", "\t", "\n", "-", ">"];
    let mut accepted = 0;
    for text in texts(&letters, 5) {
        if same(&text, traits::single, one_trait, |name| name) {
            accepted += 1;
        }
        assert!(same(&text, traits::many, all_traits, |found| found));
    }
    assert!(accepted > 1000);
}

#[test]
fn attributes_agree_with_combinators() {
    let pieces = ["a", "b", "=", " ", "1", ".", "\"", "true", ">", "\n"];
    let mut accepted = 0;
    for text in texts(&pieces, 5) {
        if same(&text, attributes::single, one_attribute, |pair| pair) {
            accepted += 1;
        }
        same(&text, attributes::many, all_attributes, |found| found);
    }
    assert!(accepted > 1000);
}

#[test]
fn short_tags_agree_with_combinators() {
    let letters = ["<", ">", "/", "a", "b", "=", "1", " ", "\"", "\n"];
    let mut accepted = 0;
    for text in texts(&letters, 5) {
        if same(&text, tags::single, tag, |tag| tag) {
            accepted += 1;
        }
    }
    assert!(accepted > 10);
}

#[test]
fn built_tags_agree_with_combinators() {
    let pieces = [
        "<a", "<b", ">", "/>", " />", "</a>", "</b>", " ", "text", " t", " k=1", " k=\"v\"",
        " k=", "\n",
    ];
    let mut accepted = 0;
    for text in texts(&pieces, 4) {
        if same(&text, tags::single, tag, |tag| tag) {
            accepted += 1;
        }
    }
    assert!(accepted > 100);
}

#[test]
fn nested_tags_agree_with_combinators() {
    let pieces = ["<a>", "<b>", "<a />", "</a>", "</b>", "x", " "];
    let mut accepted = 0;
    for text in texts(&pieces, 6) {
        if same(&text, tags::single, tag, |tag| tag) {
            accepted += 1;
        }
    }
    assert!(accepted > 100);
}

#[test]
fn runs_of_tags_agree_with_combinators() {
    let pieces = ["<a />", "<b>", "</b>", "<c k=x />", "<c k=1 />", "y", " ", "<"];
    let mut accepted = 0;
    for text in texts(&pieces, 5) {
        if same(&text, tags::many, one_or_more_tags, |tags| tags) {
            accepted += 1;
        }
    }
    assert!(accepted > 100);
}
