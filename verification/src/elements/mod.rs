//! Elements: what can go wrong when a tag is read as a widget, and the plain
//! form of the markup, with attributes that are bare words.

use vstd::prelude::*;
use vstd::string::*;
use crate::parser::scan::{literal_at, match_literal, run_end, scan_run, to_chars, CharClass, Match};

pub mod parser;

verus! {

/// Why a piece of markup is no element.
#[derive(Debug)]
pub enum ParseError<'a> {
    InvalidTag { tag: &'a str },
    AttributeNotFound { attribute: &'a str },
    InvalidAttribute { attribute: &'a str },
    InvalidKey { key: &'a str },
    InvalidValue { value: &'a str },
    InvalidChildren(String),
}

impl<'a> ParseError<'a> {
    /// The sentence that reports the error: the offending text and what it
    /// is not; for children, the text as it is.
    pub open spec fn message(self) -> Seq<char> {
        match self {
            ParseError::InvalidTag { tag } => tag@ + " is not a tag"@,
            ParseError::AttributeNotFound { attribute } => attribute@ + " was not found"@,
            ParseError::InvalidAttribute { attribute } => attribute@ + " is not an attribute"@,
            ParseError::InvalidKey { key } => key@ + " is not a key"@,
            ParseError::InvalidValue { value } => value@ + " is not a value"@,
            ParseError::InvalidChildren(text) => text@,
        }
    }
}

/// What the conversion returns is stated by its own contract, over
/// [`ParseError::message`]; no specification function builds a `String`.
impl<'a> vstd::std_specs::convert::FromSpecImpl<ParseError<'a>> for String {
    open spec fn obeys_from_spec() -> bool {
        false
    }

    open spec fn from_spec(value: ParseError<'a>) -> String {
        arbitrary()
    }
}

impl<'a> From<ParseError<'a>> for String {
    fn from(value: ParseError<'a>) -> (text: String)
        ensures
            text@ == value.message(),
    {
        match value {
            ParseError::InvalidTag { tag } => tag.to_owned().concat(" is not a tag"),
            ParseError::AttributeNotFound { attribute } => attribute.to_owned().concat(
                " was not found",
            ),
            ParseError::InvalidAttribute { attribute } => attribute.to_owned().concat(
                " is not an attribute",
            ),
            ParseError::InvalidKey { key } => key.to_owned().concat(" is not a key"),
            ParseError::InvalidValue { value } => value.to_owned().concat(" is not a value"),
            ParseError::InvalidChildren(text) => text,
        }
    }
}

/// The widgets that a tag can name: so far, the button.
#[derive(Clone, Copy, Debug, PartialEq, Eq, Structural)]
pub enum Widget {
    Button,
}

/// The name that makes a button.
pub open spec fn lit_button() -> Seq<char> {
    seq!['b', 'u', 't', 't', 'o', 'n']
}

/// The name in the opening marker at the start of `s`: what stands between
/// `<` and the next space or `>`, or the end of the text. Without `<`, there
/// is none.
pub open spec fn opening_name(s: Seq<char>) -> Option<Seq<char>> {
    if s.len() > 0 && s[0] == '<' {
        Some(s.subrange(1, run_end(s, CharClass::Name, 1)))
    } else {
        None
    }
}

/// The widget that the opening marker at the start of `s` names. Only the
/// name is read. A name that is no widget's is an invalid tag, and so is a
/// text that starts with no `<`, as a whole.
pub fn parse_tag<'a>(s: &'a str) -> (r: Result<Widget, ParseError<'a>>)
    ensures
        match opening_name(s@) {
            Some(name) => if name == lit_button() {
                r matches Ok(Widget::Button)
            } else {
                r matches Err(ParseError::InvalidTag { tag }) && tag@ == name
            },
            None => r matches Err(ParseError::InvalidTag { tag }) && tag@ == s@,
        },
{
    let chars = to_chars(s);
    if chars.len() == 0 || chars[0] != '<' {
        return Err(ParseError::InvalidTag { tag: s });
    }
    let end = scan_run(&chars, CharClass::Name, 1);
    let button: Vec<char> = vec!['b', 'u', 't', 't', 'o', 'n'];
    assert(button@.subrange(0, 6) =~= lit_button());
    let found = match_literal(&chars, 1, &button, 0, 6);
    if end == 7 && found == Match::Found {
        Ok(Widget::Button)
    } else {
        assert(chars@.subrange(1, end as int) != lit_button()) by {
            if end == 7 {
                assert(!literal_at(chars@, 1, lit_button()));
            } else {
                assert(chars@.subrange(1, end as int).len() != lit_button().len());
            }
        }
        Err(ParseError::InvalidTag { tag: s.substring_char(1, end) })
    }
}

} // verus!
