//! The plain form of the markup: a tag has a name, attributes whose values
//! are bare words, and tags inside it; it has no traits and no text.

use vstd::prelude::*;
use indexmap::IndexMap;
use crate::parser::attributes::{is_key_at, key_at, key_in};
use crate::parser::errors::{ErrorKind, Outcome, SyntaxError};
use crate::parser::ordered::{
    keys_distinct, lemma_with_entry_distinct, new_text_map, text_entries, text_map_clone,
    text_map_insert, with_entry,
};
use crate::parser::scan::{
    advance, lemma_run_end, literal_at, miss_kind, run_end, runs_out_at, scan_run, text_of,
    to_chars, CharClass,
};
use crate::parser::tags::{at_end_or, closing_at, closing_in, lit_self_close};
use crate::parser::traits::{lemma_word_bounds, word_end, word_start};

verus! {

/// A node of the document tree.
#[derive(Debug, PartialEq)]
pub struct Tag {
    pub name: String,
    pub attributes: IndexMap<String, String>,
    pub children: Vec<Tag>,
}

/// What a [`Tag`] stands for: its name, its attributes in the order in which
/// their keys were first bound, and the tags inside it.
pub struct TagView {
    pub name: Seq<char>,
    pub attributes: Seq<(Seq<char>, Seq<char>)>,
    pub children: Seq<TagView>,
}

/// What `tag` stands for.
pub open spec fn tag_view(tag: Tag) -> TagView
    decreases tag,
{
    TagView {
        name: tag.name@,
        attributes: text_entries(tag.attributes),
        children: Seq::new(
            tag.children@.len(),
            |i: int|
                if 0 <= i < tag.children@.len() {
                    tag_view(tag.children@[i])
                } else {
                    arbitrary()
                },
        ),
    }
}

impl View for Tag {
    type V = TagView;

    open spec fn view(&self) -> TagView {
        tag_view(*self)
    }
}

/// What a sequence of tags stands for.
pub open spec fn tag_views(tags: Seq<Tag>) -> Seq<TagView> {
    Seq::new(tags.len(), |i: int| tags[i]@)
}

/// The view of a tag holds the views of the tags inside it.
pub proof fn lemma_children_view(tag: Tag)
    ensures
        tag@.children == tag_views(tag.children@),
{
    assert(tag@.children =~= tag_views(tag.children@));
}

impl Clone for Tag {
    fn clone(&self) -> (copy: Tag)
        ensures
            copy@ == self@,
        decreases self,
    {
        let mut children: Vec<Tag> = Vec::new();
        let mut i: usize = 0;
        while i < self.children.len()
            invariant
                i <= self.children.len(),
                children@.len() == i,
                forall|j: int| 0 <= j < i ==> (#[trigger] children@[j])@ == self.children@[j]@,
            decreases self.children.len() - i,
        {
            children.push(self.children[i].clone());
            i = i + 1;
        }
        let copy = Tag {
            name: self.name.clone(),
            attributes: text_map_clone(&self.attributes),
            children,
        };
        proof {
            lemma_children_view(*self);
            lemma_children_view(copy);
            assert(tag_views(copy.children@) =~= tag_views(self.children@));
        }
        copy
    }
}

/// Where the word that is the value of the attribute at `pos` ends.
pub open spec fn word_value_end(s: Seq<char>, pos: int) -> int {
    run_end(s, CharClass::Alphanumeric, word_end(s, pos) + 1)
}

/// Whether an attribute stands at `pos`: blanks or none, a key, `=`, and a
/// word of one letter or digit at least.
pub open spec fn is_attribute_at(s: Seq<char>, pos: int) -> bool {
    &&& is_key_at(s, pos)
    &&& word_end(s, pos) + 1 < word_value_end(s, pos) <= s.len()
}

/// The attribute at `pos`. Without a key, a name is missing; without a word
/// behind the key, the value is malformed; and either is the end of the input
/// where nothing is left.
pub open spec fn attribute_at(s: Seq<char>, pos: int) -> Outcome<(Seq<char>, Seq<char>)> {
    if is_attribute_at(s, pos) {
        Outcome::Accepted {
            value: (key_at(s, pos), s.subrange(word_end(s, pos) + 1, word_value_end(s, pos))),
            end: word_value_end(s, pos),
        }
    } else if is_key_at(s, pos) {
        Outcome::Rejected {
            kind: at_end_or(s, word_end(s, pos) + 1, ErrorKind::MalformedLiteral),
            position: word_end(s, pos) + 1,
        }
    } else {
        Outcome::Rejected {
            kind: at_end_or(s, word_end(s, pos), ErrorKind::ExpectedTagName),
            position: word_start(s, pos),
        }
    }
}

/// The attributes from `pos` on, bound in `found`, and where they end: one
/// attribute after another until none follows. A key that is bound already
/// keeps its place and takes the later value.
pub open spec fn attributes_from(s: Seq<char>, pos: int, found: Seq<(Seq<char>, Seq<char>)>) -> (
    Seq<(Seq<char>, Seq<char>)>,
    int,
)
    decreases s.len() - pos,
{
    if is_attribute_at(s, pos) {
        attributes_from(
            s,
            word_value_end(s, pos),
            with_entry(
                found,
                key_at(s, pos),
                s.subrange(word_end(s, pos) + 1, word_value_end(s, pos)),
            ),
        )
    } else {
        (found, pos)
    }
}

/// The attributes that start at `pos`, and where they end.
pub open spec fn attributes_at(s: Seq<char>, pos: int) -> (Seq<(Seq<char>, Seq<char>)>, int) {
    attributes_from(s, pos, Seq::empty())
}

/// The head of the tag at `pos`: whitespace or none, `<`, a name, attributes,
/// whitespace or none, and `/>` or `>`. The result is the tag without tags
/// inside it, and whether it closed itself.
pub open spec fn head_at(s: Seq<char>, pos: int) -> Outcome<(TagView, bool)> {
    let open = run_end(s, CharClass::Whitespace, pos);
    let name_end = run_end(s, CharClass::Alphanumeric, open + 1);
    let (attributes, end) = attributes_at(s, name_end);
    let mark = run_end(s, CharClass::Whitespace, end);
    let tag = TagView { name: s.subrange(open + 1, name_end), attributes, children: Seq::empty() };
    if !(0 <= open < s.len() && s[open] == '<') {
        Outcome::Rejected { kind: at_end_or(s, open, ErrorKind::ExpectedTagOpen), position: open }
    } else if name_end <= open + 1 {
        Outcome::Rejected {
            kind: at_end_or(s, open + 1, ErrorKind::ExpectedTagName),
            position: open + 1,
        }
    } else if literal_at(s, mark, lit_self_close()) {
        Outcome::Accepted { value: (tag, true), end: mark + 2 }
    } else if 0 <= mark < s.len() && s[mark] == '>' {
        Outcome::Accepted { value: (tag, false), end: mark + 1 }
    } else {
        Outcome::Rejected {
            kind: miss_kind(s, mark, lit_self_close(), ErrorKind::ExpectedTagClose),
            position: mark,
        }
    }
}

/// The tag at `pos`: its head and, unless it closed itself, the tags inside
/// it, as many as follow one another, and its closing marker.
pub open spec fn tag_at(s: Seq<char>, pos: int) -> Outcome<TagView>
    decreases s.len() - pos, 0int,
    when 0 <= pos <= s.len()
    via tag_at_decreases
{
    match head_at(s, pos) {
        Outcome::Rejected { kind, position } => Outcome::Rejected { kind, position },
        Outcome::Accepted { value: (head, closed), end: body } => {
            if closed {
                Outcome::Accepted { value: head, end: body }
            } else {
                let (children, children_end) = tags_from(s, body, Seq::empty());
                match closing_at(s, children_end, head.name) {
                    Outcome::Rejected { kind, position } => Outcome::Rejected { kind, position },
                    Outcome::Accepted { end, .. } => Outcome::Accepted {
                        value: TagView { name: head.name, attributes: head.attributes, children },
                        end,
                    },
                }
            }
        },
    }
}

#[via_fn]
proof fn tag_at_decreases(s: Seq<char>, pos: int) {
    lemma_head_advances(s, pos);
}

/// The tags from `pos` on, behind `found`, and where they end: one tag after
/// another until none follows. (A tag that took no input would end the run
/// too; no tag does, as `lemma_tag_advances` shows.)
pub open spec fn tags_from(s: Seq<char>, pos: int, found: Seq<TagView>) -> (Seq<TagView>, int)
    decreases s.len() - pos, 1int,
{
    match tag_at(s, pos) {
        Outcome::Accepted { value, end } => if pos < end <= s.len() {
            tags_from(s, end, found.push(value))
        } else {
            (found, pos)
        },
        Outcome::Rejected { .. } => (found, pos),
    }
}

/// The tags that start at `pos`, and where they end.
pub open spec fn tags_at(s: Seq<char>, pos: int) -> (Seq<TagView>, int) {
    tags_from(s, pos, Seq::empty())
}

/// An attribute lies within the text, behind its start.
pub proof fn lemma_attribute_bounds(s: Seq<char>, pos: int)
    requires
        0 <= pos <= s.len(),
    ensures
        pos <= word_start(s, pos) <= word_end(s, pos) <= s.len(),
        is_key_at(s, pos) ==> word_end(s, pos) + 1 <= word_value_end(s, pos) <= s.len(),
        is_attribute_at(s, pos) ==> pos < word_value_end(s, pos),
{
    lemma_word_bounds(s, pos);
    if is_key_at(s, pos) {
        lemma_run_end(s, CharClass::Alphanumeric, word_end(s, pos) + 1);
    }
}

/// The attributes end at or behind their start, within the text, and no key
/// among them occurs twice if none did in `found`.
pub proof fn lemma_attributes_from(s: Seq<char>, pos: int, found: Seq<(Seq<char>, Seq<char>)>)
    requires
        0 <= pos <= s.len(),
        keys_distinct(found),
    ensures
        pos <= attributes_from(s, pos, found).1 <= s.len(),
        keys_distinct(attributes_from(s, pos, found).0),
        !is_attribute_at(s, attributes_from(s, pos, found).1),
    decreases s.len() - pos,
{
    lemma_attribute_bounds(s, pos);
    if is_attribute_at(s, pos) {
        let value = s.subrange(word_end(s, pos) + 1, word_value_end(s, pos));
        lemma_with_entry_distinct(found, key_at(s, pos), value);
        lemma_attributes_from(s, word_value_end(s, pos), with_entry(found, key_at(s, pos), value));
    }
}

/// An accepted head ends behind its start and within the text; a rejected
/// one was rejected within the text.
pub proof fn lemma_head_advances(s: Seq<char>, pos: int)
    requires
        0 <= pos <= s.len(),
    ensures
        head_at(s, pos) matches Outcome::Accepted { end, .. } ==> pos < end <= s.len(),
        head_at(s, pos) matches Outcome::Rejected { position, .. } ==> pos <= position <= s.len(),
{
    lemma_run_end(s, CharClass::Whitespace, pos);
    let open = run_end(s, CharClass::Whitespace, pos);
    if open < s.len() {
        lemma_run_end(s, CharClass::Alphanumeric, open + 1);
        let name_end = run_end(s, CharClass::Alphanumeric, open + 1);
        lemma_attributes_from(s, name_end, Seq::empty());
        lemma_run_end(s, CharClass::Whitespace, attributes_at(s, name_end).1);
    }
}

/// An accepted tag ends behind its start and within the text; a rejected one
/// was rejected within the text.
pub proof fn lemma_tag_advances(s: Seq<char>, pos: int)
    requires
        0 <= pos <= s.len(),
    ensures
        tag_at(s, pos) matches Outcome::Accepted { end, .. } ==> pos < end <= s.len(),
        tag_at(s, pos) matches Outcome::Rejected { position, .. } ==> pos <= position <= s.len(),
    decreases s.len() - pos, 0int,
{
    lemma_head_advances(s, pos);
    if let Outcome::Accepted { value: (head, closed), end: body } = head_at(s, pos) {
        if !closed {
            lemma_tags_from(s, body, Seq::empty());
        }
    }
}

/// A run of tags ends at or behind its start, within the text, where no tag
/// follows.
pub proof fn lemma_tags_from(s: Seq<char>, pos: int, found: Seq<TagView>)
    requires
        0 <= pos <= s.len(),
    ensures
        pos <= tags_from(s, pos, found).1 <= s.len(),
        tag_at(s, tags_from(s, pos, found).1) is Rejected,
    decreases s.len() - pos, 1int,
{
    lemma_tag_advances(s, pos);
    if let Outcome::Accepted { value, end } = tag_at(s, pos) {
        lemma_tags_from(s, end, found.push(value));
    }
}

/// Parses the attribute at `pos`: the bounds of its key and the end of its
/// value, which starts one behind the key.
pub fn attribute_in(chars: &Vec<char>, pos: usize) -> (r: Result<
    (usize, usize, usize),
    SyntaxError,
>)
    requires
        pos <= chars.len(),
    ensures
        r is Ok == is_attribute_at(chars@, pos as int),
        r matches Ok((start, end, value_end)) ==> start == word_start(chars@, pos as int) && end
            == word_end(chars@, pos as int) && value_end == word_value_end(chars@, pos as int),
        r matches Err(e) ==> e == attribute_at(chars@, pos as int).error(),
{
    proof {
        lemma_attribute_bounds(chars@, pos as int);
    }
    match key_in(chars, pos) {
        Some((start, end)) => {
            let value_end = scan_run(chars, CharClass::Alphanumeric, end + 1);
            if end + 1 < value_end {
                Ok((start, end, value_end))
            } else if end + 1 >= chars.len() {
                Err(SyntaxError { kind: ErrorKind::UnexpectedEndOfInput, position: end + 1 })
            } else {
                Err(SyntaxError { kind: ErrorKind::MalformedLiteral, position: end + 1 })
            }
        },
        None => {
            let start = scan_run(chars, CharClass::Blank, pos);
            let end = scan_run(chars, CharClass::Alphanumeric, start);
            if end >= chars.len() {
                Err(SyntaxError { kind: ErrorKind::UnexpectedEndOfInput, position: start })
            } else {
                Err(SyntaxError { kind: ErrorKind::ExpectedTagName, position: start })
            }
        },
    }
}

/// Parses the attributes that start at `pos`.
pub fn attributes_in(chars: &Vec<char>, pos: usize) -> (r: (IndexMap<String, String>, usize))
    requires
        pos <= chars.len(),
    ensures
        (text_entries(r.0), r.1 as int) == attributes_at(chars@, pos as int),
        pos <= r.1 <= chars.len(),
{
    let mut found = new_text_map();
    let mut at: usize = pos;
    loop
        invariant
            pos <= at <= chars.len(),
            attributes_from(chars@, at as int, text_entries(found)) == attributes_at(
                chars@,
                pos as int,
            ),
        ensures
            pos <= at <= chars.len(),
            (text_entries(found), at as int) == attributes_at(chars@, pos as int),
        decreases chars.len() - at,
    {
        proof {
            lemma_attribute_bounds(chars@, at as int);
        }
        match attribute_in(chars, at) {
            Ok((start, end, value_end)) => {
                let key = text_of(chars, start, end);
                let value = text_of(chars, end + 1, value_end);
                text_map_insert(&mut found, key, value);
                at = value_end;
            },
            Err(_) => {
                break ;
            },
        }
    }
    (found, at)
}

/// Whether a parser's result for a head, the tag without tags inside it with
/// whether it closed itself and with its end, is what the grammar gives.
pub open spec fn head_agrees(
    r: Result<(Tag, bool, usize), SyntaxError>,
    o: Outcome<(TagView, bool)>,
) -> bool {
    match o {
        Outcome::Accepted { value, end } => r is Ok && r->Ok_0.0@ == value.0 && r->Ok_0.1
            == value.1 && r->Ok_0.2 == end,
        Outcome::Rejected { .. } => r is Err && r->Err_0 == o.error(),
    }
}

/// Whether a parser's result for a tag is what the grammar gives.
pub open spec fn tag_agrees(r: Result<(Tag, usize), SyntaxError>, o: Outcome<TagView>) -> bool {
    match o {
        Outcome::Accepted { value, end } => r is Ok && r->Ok_0.0@ == value && r->Ok_0.1 == end,
        Outcome::Rejected { .. } => r is Err && r->Err_0 == o.error(),
    }
}

/// Parses the head of the tag at `pos`.
pub(crate) fn head_in(chars: &Vec<char>, pos: usize) -> (r: Result<(Tag, bool, usize), SyntaxError>)
    requires
        pos <= chars.len(),
    ensures
        head_agrees(r, head_at(chars@, pos as int)),
{
    let len = chars.len();
    let ghost s = chars@;
    proof {
        lemma_head_advances(s, pos as int);
    }
    let open = scan_run(chars, CharClass::Whitespace, pos);
    if open >= len {
        return Err(SyntaxError { kind: ErrorKind::UnexpectedEndOfInput, position: open });
    }
    if chars[open] != '<' {
        return Err(SyntaxError { kind: ErrorKind::ExpectedTagOpen, position: open });
    }
    let name_end = scan_run(chars, CharClass::Alphanumeric, open + 1);
    if name_end == open + 1 {
        let kind = if open + 1 >= len {
            ErrorKind::UnexpectedEndOfInput
        } else {
            ErrorKind::ExpectedTagName
        };
        return Err(SyntaxError { kind, position: open + 1 });
    }
    let name = text_of(chars, open + 1, name_end);
    let (attributes, end) = attributes_in(chars, name_end);
    let mark = scan_run(chars, CharClass::Whitespace, end);
    let tag = Tag { name, attributes, children: Vec::new() };
    proof {
        lemma_children_view(tag);
        assert(tag@.children =~= Seq::<TagView>::empty());
    }
    if mark < len && len - mark >= 2 && chars[mark] == '/' && chars[mark + 1] == '>' {
        assert(s.subrange(mark as int, mark + 2) =~= lit_self_close());
        return Ok((tag, true, mark + 2));
    }
    assert(!literal_at(s, mark as int, lit_self_close())) by {
        if literal_at(s, mark as int, lit_self_close()) {
            assert(s.subrange(mark as int, mark + 2)[0] == '/');
            assert(s.subrange(mark as int, mark + 2)[1] == '>');
        }
    }
    if mark < len && chars[mark] == '>' {
        return Ok((tag, false, mark + 1));
    }
    let ran_out = mark >= len || (len - mark == 1 && chars[mark] == '/');
    assert(ran_out == runs_out_at(s, mark as int, lit_self_close())) by {
        if mark < len {
            let rest = s.subrange(mark as int, s.len() as int);
            let want = lit_self_close().subrange(0, s.len() - mark);
            if len - mark == 1 {
                assert(rest[0] == s[mark as int]);
                assert(want[0] == '/');
                if chars[mark as int] == '/' {
                    assert(rest =~= want);
                }
            }
        } else {
            assert(s.subrange(mark as int, s.len() as int) =~= lit_self_close().subrange(0, 0));
        }
    }
    let kind = if ran_out {
        ErrorKind::UnexpectedEndOfInput
    } else {
        ErrorKind::ExpectedTagClose
    };
    Err(SyntaxError { kind, position: mark })
}

/// Parses the tag at `pos`.
pub fn tag_in(chars: &Vec<char>, pos: usize) -> (r: Result<(Tag, usize), SyntaxError>)
    requires
        pos <= chars.len(),
    ensures
        tag_agrees(r, tag_at(chars@, pos as int)),
    decreases chars.len() - pos, 0int,
{
    proof {
        lemma_head_advances(chars@, pos as int);
    }
    let (head, closed, body) = match head_in(chars, pos) {
        Ok(found) => found,
        Err(e) => {
            return Err(e);
        },
    };
    if closed {
        return Ok((head, body));
    }
    let (children, children_end) = tags_in(chars, body);
    match closing_in(chars, children_end, &head.name) {
        Ok(end) => {
            let tag = Tag { name: head.name, attributes: head.attributes, children };
            proof {
                lemma_children_view(tag);
            }
            Ok((tag, end))
        },
        Err(e) => Err(e),
    }
}

/// Parses the tags that start at `pos`, as many as follow one another.
pub fn tags_in(chars: &Vec<char>, pos: usize) -> (r: (Vec<Tag>, usize))
    requires
        pos <= chars.len(),
    ensures
        (tag_views(r.0@), r.1 as int) == tags_at(chars@, pos as int),
        pos <= r.1 <= chars.len(),
    decreases chars.len() - pos, 1int,
{
    let ghost s = chars@;
    let mut tags: Vec<Tag> = Vec::new();
    let mut at: usize = pos;
    assert(tag_views(tags@) =~= Seq::<TagView>::empty());
    loop
        invariant
            s == chars@,
            pos <= at <= chars.len(),
            tags_from(s, at as int, tag_views(tags@)) == tags_at(s, pos as int),
        ensures
            pos <= at <= chars.len(),
            (tag_views(tags@), at as int) == tags_at(s, pos as int),
        decreases chars.len() - at,
    {
        proof {
            lemma_tag_advances(s, at as int);
        }
        match tag_in(chars, at) {
            Ok((tag, end)) => {
                assert(tag_views(tags@.push(tag)) =~= tag_views(tags@).push(tag@));
                tags.push(tag);
                at = end;
            },
            Err(_) => {
                break ;
            },
        }
    }
    (tags, at)
}

impl Tag {
    /// A tag of that name without attributes or tags inside it.
    pub fn new(name: &str) -> (tag: Tag)
        ensures
            tag@ == (TagView { name: name@, attributes: Seq::empty(), children: Seq::empty() }),
    {
        let tag = Tag { name: name.to_owned(), attributes: new_text_map(), children: Vec::new() };
        proof {
            lemma_children_view(tag);
            assert(tag@.children =~= Seq::<TagView>::empty());
        }
        tag
    }

    /// Binds the attribute `key` to `value`, behind the others; a key that is
    /// bound stays where it is and takes the new value.
    pub fn with(&mut self, key: &str, value: &str)
        ensures
            final(self)@ == (TagView {
                attributes: with_entry(old(self)@.attributes, key@, value@),
                ..old(self)@
            }),
    {
        text_map_insert(&mut self.attributes, key.to_owned(), value.to_owned());
    }

    /// Puts `tag` inside, behind the others.
    pub fn child(&mut self, tag: Tag)
        ensures
            final(self)@ == (TagView { children: old(self)@.children.push(tag@), ..old(self)@ }),
    {
        proof {
            lemma_children_view(*self);
        }
        self.children.push(tag);
        proof {
            lemma_children_view(*self);
            assert(tag_views(old(self).children@.push(tag)) =~= tag_views(
                old(self).children@,
            ).push(tag@));
        }
    }
}

/// Parses the attribute at the start of `s`, returns its key and value and
/// moves `s` behind it. A text that starts with no attribute is left as it is.
pub fn parse_attribute<'s>(s: &mut &'s str) -> (r: Result<(&'s str, &'s str), SyntaxError>)
    ensures
        match attribute_at(old(s)@, 0) {
            Outcome::Accepted { value, end } => r is Ok && r->Ok_0.0@ == value.0 && r->Ok_0.1@
                == value.1 && final(s)@ == old(s)@.skip(end),
            Outcome::Rejected { kind, position } => r == Err::<(&str, &str), SyntaxError>(
                SyntaxError { kind, position: position as usize },
            ) && final(s)@ == old(s)@,
        },
{
    let whole: &'s str = *s;
    let chars = to_chars(whole);
    proof {
        lemma_attribute_bounds(chars@, 0);
    }
    match attribute_in(&chars, 0) {
        Ok((start, end, value_end)) => {
            let key = whole.substring_char(start, end);
            let value = whole.substring_char(end + 1, value_end);
            advance(s, value_end, chars.len());
            Ok((key, value))
        },
        Err(e) => Err(e),
    }
}

/// Parses the attributes at the start of `s` and moves `s` behind them. This
/// never fails: where no attribute stands, the map is empty and `s` stays.
pub fn parse_attributes(s: &mut &str) -> (r: Result<IndexMap<String, String>, SyntaxError>)
    ensures
        r is Ok,
        text_entries(r->Ok_0) == attributes_at(old(s)@, 0).0,
        final(s)@ == old(s)@.skip(attributes_at(old(s)@, 0).1),
{
    let chars = to_chars(*s);
    let (found, end) = attributes_in(&chars, 0);
    advance(s, end, chars.len());
    Ok(found)
}

/// Parses the tags at the start of `s`, as many as follow one another, and
/// moves `s` behind them. This never fails: where no tag stands, there are
/// none and `s` stays.
pub fn parse_children(s: &mut &str) -> (r: Result<Vec<Tag>, SyntaxError>)
    ensures
        r is Ok,
        tag_views(r->Ok_0@) == tags_at(old(s)@, 0).0,
        final(s)@ == old(s)@.skip(tags_at(old(s)@, 0).1),
{
    let chars = to_chars(*s);
    let (tags, end) = tags_in(&chars, 0);
    advance(s, end, chars.len());
    Ok(tags)
}

/// Parses the tag at the start of `s` and moves `s` behind it. A text that
/// starts with no tag is left as it is.
pub fn parse_tag(s: &mut &str) -> (r: Result<Tag, SyntaxError>)
    ensures
        match tag_at(old(s)@, 0) {
            Outcome::Accepted { value, end } => {
                &&& r is Ok
                &&& r->Ok_0@ == value
                &&& final(s)@ == old(s)@.skip(end)
            },
            Outcome::Rejected { kind, position } => r is Err && r->Err_0 == (SyntaxError {
                kind,
                position: position as usize,
            }) && final(s)@ == old(s)@,
        },
{
    let chars = to_chars(*s);
    proof {
        lemma_tag_advances(chars@, 0);
    }
    match tag_in(&chars, 0) {
        Ok((tag, end)) => {
            advance(s, end, chars.len());
            Ok(tag)
        },
        Err(e) => Err(e),
    }
}

impl std::str::FromStr for Tag {
    type Err = SyntaxError;

    /// Parses the tag at the start of `s`; what follows it is not looked at.
    fn from_str(s: &str) -> (r: Result<Tag, SyntaxError>)
        ensures
            match tag_at(s@, 0) {
                Outcome::Accepted { value, .. } => r is Ok && r->Ok_0@ == value,
                Outcome::Rejected { kind, position } => r is Err && r->Err_0 == (SyntaxError {
                    kind,
                    position: position as usize,
                }),
            },
    {
        let mut rest = s;
        parse_tag(&mut rest)
    }
}

} // verus!
