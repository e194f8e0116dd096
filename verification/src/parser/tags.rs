//! Tags: the nodes of the document tree.

use vstd::prelude::*;
use indexmap::{IndexMap, IndexSet};
use crate::parser::attributes::{
    attributes_at, attributes_in, lemma_attributes_from, lemma_keys_are_words,
};
use crate::parser::errors::{ErrorKind, Outcome, SyntaxError};
use crate::parser::ordered::{
    keys_distinct, map_clone, map_entries, map_insert, new_map, new_set, set_clone, set_insert,
    set_items, with_entry, with_item,
};
use crate::parser::scan::{
    advance, is_word, lemma_run_end, literal_at, match_literal, miss_kind, run_end, runs_out_at,
    scan_run, text_of, to_chars, CharClass, Match,
};
use crate::parser::traits::{lemma_traits_are_words, lemma_traits_from, traits_at, traits_in};
use crate::parser::values::{Value, ValueView};

verus! {

/// What stands between a tag's opening and closing markers.
#[derive(Debug, PartialEq)]
pub enum Inner {
    /// Nothing: the tag closes itself.
    Empty,
    /// Text.
    Content(String),
    /// Tags, one or more.
    Children(Vec<Tag>),
}

/// A node of the document tree.
#[derive(Debug, PartialEq)]
pub struct Tag {
    pub name: String,
    pub traits: IndexSet<String>,
    pub attributes: IndexMap<String, Value>,
    pub inner: Inner,
}

/// What an [`Inner`] stands for.
pub enum InnerView {
    Empty,
    Content(Seq<char>),
    Children(Seq<TagView>),
}

/// What a [`Tag`] stands for: its name, its traits in the order in which they
/// were set, its attributes in the order in which their keys were first
/// bound, and its body.
pub struct TagView {
    pub name: Seq<char>,
    pub traits: Seq<Seq<char>>,
    pub attributes: Seq<(Seq<char>, ValueView)>,
    pub inner: InnerView,
}

/// What `tag` stands for.
pub open spec fn tag_view(tag: Tag) -> TagView
    decreases tag,
{
    TagView {
        name: tag.name@,
        traits: set_items(tag.traits),
        attributes: map_entries(tag.attributes),
        inner: match tag.inner {
            Inner::Empty => InnerView::Empty,
            Inner::Content(text) => InnerView::Content(text@),
            Inner::Children(tags) => InnerView::Children(
                Seq::new(
                    tags@.len(),
                    |i: int|
                        if 0 <= i < tags@.len() {
                            tag_view(tags@[i])
                        } else {
                            arbitrary()
                        },
                ),
            ),
        },
    }
}

impl View for Tag {
    type V = TagView;

    open spec fn view(&self) -> TagView {
        tag_view(*self)
    }
}

/// What a sequence of tags stands for.
pub open spec fn tag_views(tags: Seq<Tag>) -> Seq<TagView> {
    Seq::new(tags.len(), |i: int| tags[i]@)
}

impl View for Inner {
    type V = InnerView;

    open spec fn view(&self) -> InnerView {
        match self {
            Inner::Empty => InnerView::Empty,
            Inner::Content(text) => InnerView::Content(text@),
            Inner::Children(tags) => InnerView::Children(tag_views(tags@)),
        }
    }
}

/// The body of a tag's view is the view of the tag's body.
pub proof fn lemma_inner_view(tag: Tag)
    ensures
        tag@.inner == tag.inner@,
{
    if let Inner::Children(tags) = tag.inner {
        assert(tag@.inner->Children_0 =~= tag_views(tags@));
    }
}

impl Clone for Inner {
    fn clone(&self) -> (copy: Inner)
        ensures
            copy@ == self@,
        decreases self,
    {
        match self {
            Inner::Empty => Inner::Empty,
            Inner::Content(text) => Inner::Content(text.clone()),
            Inner::Children(tags) => {
                let mut same: Vec<Tag> = Vec::new();
                let mut i: usize = 0;
                while i < tags.len()
                    invariant
                        i <= tags.len(),
                        *self == Inner::Children(*tags),
                        same@.len() == i,
                        forall|j: int| 0 <= j < i ==> (#[trigger] same@[j])@ == tags@[j]@,
                    decreases tags.len() - i,
                {
                    proof {
                        assert(decreases_to!(*self => self->Children_0));
                        assert(decreases_to!(*tags => tags[i as int]));
                    }
                    same.push(tags[i].clone());
                    i = i + 1;
                }
                assert(tag_views(same@) =~= tag_views(tags@));
                Inner::Children(same)
            },
        }
    }
}

impl Clone for Tag {
    fn clone(&self) -> (copy: Tag)
        ensures
            copy@ == self@,
        decreases self,
    {
        let copy = Tag {
            name: self.name.clone(),
            traits: set_clone(&self.traits),
            attributes: map_clone(&self.attributes),
            inner: self.inner.clone(),
        };
        proof {
            lemma_inner_view(*self);
            lemma_inner_view(copy);
        }
        copy
    }
}

/// `/>`, which ends the head of a tag without a body.
pub open spec fn lit_self_close() -> Seq<char> {
    seq!['/', '>']
}

/// `</`, which starts a closing marker.
pub open spec fn lit_close() -> Seq<char> {
    seq!['<', '/']
}

/// `kind`, or the end of the input if `pos` is not inside the text.
pub open spec fn at_end_or(s: Seq<char>, pos: int, kind: ErrorKind) -> ErrorKind {
    if pos >= s.len() {
        ErrorKind::UnexpectedEndOfInput
    } else {
        kind
    }
}

/// The head of the tag at `pos`: whitespace or none, `<`, a name, traits,
/// attributes, whitespace or none, and `/>` or `>`. The result is the tag
/// without a body, and whether it closed itself.
pub open spec fn head_at(s: Seq<char>, pos: int) -> Outcome<(TagView, bool)> {
    let open = run_end(s, CharClass::Whitespace, pos);
    let name_end = run_end(s, CharClass::Alphanumeric, open + 1);
    let (traits, traits_end) = traits_at(s, name_end);
    if !(0 <= open < s.len() && s[open] == '<') {
        Outcome::Rejected { kind: at_end_or(s, open, ErrorKind::ExpectedTagOpen), position: open }
    } else if name_end <= open + 1 {
        Outcome::Rejected {
            kind: at_end_or(s, open + 1, ErrorKind::ExpectedTagName),
            position: open + 1,
        }
    } else {
        match attributes_at(s, traits_end) {
            Outcome::Rejected { kind, position } => Outcome::Rejected { kind, position },
            Outcome::Accepted { value: attributes, end } => {
                let mark = run_end(s, CharClass::Whitespace, end);
                let tag = TagView {
                    name: s.subrange(open + 1, name_end),
                    traits,
                    attributes,
                    inner: InnerView::Empty,
                };
                if literal_at(s, mark, lit_self_close()) {
                    Outcome::Accepted { value: (tag, true), end: mark + 2 }
                } else if 0 <= mark < s.len() && s[mark] == '>' {
                    Outcome::Accepted { value: (tag, false), end: mark + 1 }
                } else {
                    Outcome::Rejected {
                        kind: miss_kind(s, mark, lit_self_close(), ErrorKind::ExpectedTagClose),
                        position: mark,
                    }
                }
            },
        }
    }
}

/// The closing marker of the tag `name` at `pos`: `</`, the name as it was
/// written in the opening marker, and `>`.
pub open spec fn closing_at(s: Seq<char>, pos: int, name: Seq<char>) -> Outcome<()> {
    let marker = lit_close() + name;
    let last = pos + marker.len();
    if !literal_at(s, pos, marker) {
        Outcome::Rejected {
            kind: miss_kind(s, pos, marker, ErrorKind::MismatchedClosingTag),
            position: pos,
        }
    } else if !(last < s.len() && s[last] == '>') {
        Outcome::Rejected { kind: at_end_or(s, last, ErrorKind::ExpectedTagClose), position: last }
    } else {
        Outcome::Accepted { value: (), end: last + 1 }
    }
}

/// The tag at `pos`: its head and, unless it closed itself, its body and its
/// closing marker. The body is the tags that follow the head, if there is
/// one at least, and else the text up to the next `<`.
pub open spec fn tag_at(s: Seq<char>, pos: int) -> Outcome<TagView>
    decreases s.len() - pos, 0int,
    when 0 <= pos <= s.len()
    via tag_at_decreases
{
    match head_at(s, pos) {
        Outcome::Rejected { kind, position } => Outcome::Rejected { kind, position },
        Outcome::Accepted { value: (head, closed), end: body } => {
            if closed {
                Outcome::Accepted { value: head, end: body }
            } else {
                let (tags, tags_end) = tags_from(s, body, Seq::empty());
                let text_end = run_end(s, CharClass::Text, body);
                let (inner, inner_end) = if tags.len() > 0 {
                    (InnerView::Children(tags), tags_end)
                } else {
                    (InnerView::Content(s.subrange(body, text_end)), text_end)
                };
                match closing_at(s, inner_end, head.name) {
                    Outcome::Rejected { kind, position } => Outcome::Rejected { kind, position },
                    Outcome::Accepted { end, .. } => Outcome::Accepted {
                        value: TagView {
                            name: head.name,
                            traits: head.traits,
                            attributes: head.attributes,
                            inner,
                        },
                        end,
                    },
                }
            }
        },
    }
}

#[via_fn]
proof fn tag_at_decreases(s: Seq<char>, pos: int) {
    lemma_head_advances(s, pos);
}

/// The tags from `pos` on, behind `found`, and where they end: one tag after
/// another until none follows. (A tag that took no input would end the run
/// too; no tag does, as `lemma_tag_advances` shows.)
pub open spec fn tags_from(s: Seq<char>, pos: int, found: Seq<TagView>) -> (Seq<TagView>, int)
    decreases s.len() - pos, 1int,
{
    match tag_at(s, pos) {
        Outcome::Accepted { value, end } => if pos < end <= s.len() {
            tags_from(s, end, found.push(value))
        } else {
            (found, pos)
        },
        Outcome::Rejected { .. } => (found, pos),
    }
}

/// One tag or more at `pos`: the failure of the first, if it fails, and else
/// the tags and where they end.
pub open spec fn tags_at(s: Seq<char>, pos: int) -> Outcome<Seq<TagView>> {
    match tag_at(s, pos) {
        Outcome::Rejected { kind, position } => Outcome::Rejected { kind, position },
        Outcome::Accepted { .. } => Outcome::Accepted {
            value: tags_from(s, pos, Seq::empty()).0,
            end: tags_from(s, pos, Seq::empty()).1,
        },
    }
}

/// An accepted head ends behind its start and within the text; a rejected
/// one was rejected within the text.
pub proof fn lemma_head_advances(s: Seq<char>, pos: int)
    requires
        0 <= pos <= s.len(),
    ensures
        head_at(s, pos) matches Outcome::Accepted { end, .. } ==> pos < end <= s.len(),
        head_at(s, pos) matches Outcome::Rejected { position, .. } ==> pos <= position <= s.len(),
{
    lemma_run_end(s, CharClass::Whitespace, pos);
    let open = run_end(s, CharClass::Whitespace, pos);
    if open < s.len() {
        lemma_run_end(s, CharClass::Alphanumeric, open + 1);
        let name_end = run_end(s, CharClass::Alphanumeric, open + 1);
        lemma_traits_from(s, name_end, Seq::empty());
        let traits_end = traits_at(s, name_end).1;
        lemma_attributes_from(s, traits_end, Seq::empty());
        if let Outcome::Accepted { end, .. } = attributes_at(s, traits_end) {
            lemma_run_end(s, CharClass::Whitespace, end);
        }
    }
}

/// An accepted tag ends behind its start and within the text; a rejected one
/// was rejected within the text.
pub proof fn lemma_tag_advances(s: Seq<char>, pos: int)
    requires
        0 <= pos <= s.len(),
    ensures
        tag_at(s, pos) matches Outcome::Accepted { end, .. } ==> pos < end <= s.len(),
        tag_at(s, pos) matches Outcome::Rejected { position, .. } ==> pos <= position <= s.len(),
    decreases s.len() - pos, 0int,
{
    lemma_head_advances(s, pos);
    if let Outcome::Accepted { value: (head, closed), end: body } = head_at(s, pos) {
        if !closed {
            lemma_tags_from(s, body, Seq::empty());
            lemma_run_end(s, CharClass::Text, body);
        }
    }
}

/// A run of tags ends at or behind its start, within the text, where no tag
/// follows; what was found stays in front, and a tag that stands at the start
/// is taken.
pub proof fn lemma_tags_from(s: Seq<char>, pos: int, found: Seq<TagView>)
    requires
        0 <= pos <= s.len(),
    ensures
        pos <= tags_from(s, pos, found).1 <= s.len(),
        tags_from(s, pos, found).0.len() >= found.len(),
        tag_at(s, pos) is Accepted ==> tags_from(s, pos, found).0.len() > found.len(),
        tag_at(s, tags_from(s, pos, found).1) is Rejected,
    decreases s.len() - pos, 1int,
{
    lemma_tag_advances(s, pos);
    if let Outcome::Accepted { value, end } = tag_at(s, pos) {
        lemma_tags_from(s, end, found.push(value));
    }
}

/// The form of every tag that the grammar accepts: the name and each trait
/// and key are identifiers, no trait and no key occurs twice, a text body
/// holds no `<`, and a body of tags holds one at least, each of this form.
pub open spec fn is_parsed_form(tag: TagView) -> bool
    decreases tag,
{
    &&& is_word(tag.name)
    &&& tag.traits.no_duplicates()
    &&& forall|i: int| 0 <= i < tag.traits.len() ==> is_word(#[trigger] tag.traits[i])
    &&& keys_distinct(tag.attributes)
    &&& forall|i: int| 0 <= i < tag.attributes.len() ==> is_word((#[trigger] tag.attributes[i]).0)
    &&& match tag.inner {
        InnerView::Empty => true,
        InnerView::Content(text) => forall|i: int|
            0 <= i < text.len() ==> CharClass::Text.admits(#[trigger] text[i]),
        InnerView::Children(tags) => tags.len() > 0 && forall|i: int|
            0 <= i < tags.len() ==> is_parsed_form(#[trigger] tags[i]),
    }
}

/// An accepted head has a name that is an identifier, traits and keys that
/// are identifiers, and no trait and no key twice.
pub proof fn lemma_head_parsed_form(s: Seq<char>, pos: int)
    requires
        0 <= pos <= s.len(),
    ensures
        head_at(s, pos) matches Outcome::Accepted { value, .. } ==> is_parsed_form(value.0)
            && value.0.inner is Empty,
{
    lemma_run_end(s, CharClass::Whitespace, pos);
    let open = run_end(s, CharClass::Whitespace, pos);
    if open < s.len() {
        lemma_run_end(s, CharClass::Alphanumeric, open + 1);
        let name_end = run_end(s, CharClass::Alphanumeric, open + 1);
        lemma_traits_from(s, name_end, Seq::empty());
        lemma_traits_are_words(s, name_end, Seq::empty());
        let traits_end = traits_at(s, name_end).1;
        lemma_attributes_from(s, traits_end, Seq::empty());
        lemma_keys_are_words(s, traits_end, Seq::empty());
    }
}

/// Every tag that the grammar accepts has the parsed form. So an accepted
/// tag never has a body of no tags: a body without a tag is a text, be it
/// empty; and only a tag that closed itself has no body.
pub proof fn lemma_tag_parsed_form(s: Seq<char>, pos: int)
    requires
        0 <= pos <= s.len(),
    ensures
        tag_at(s, pos) matches Outcome::Accepted { value, .. } ==> is_parsed_form(value),
        tag_at(s, pos) matches Outcome::Accepted { value, .. } ==> (value.inner is Empty
            <==> head_at(s, pos)->value.1),
    decreases s.len() - pos, 0int,
{
    lemma_head_advances(s, pos);
    lemma_head_parsed_form(s, pos);
    if let Outcome::Accepted { value: (head, closed), end: body } = head_at(s, pos) {
        if !closed {
            lemma_tags_parsed_form(s, body, Seq::empty());
            lemma_run_end(s, CharClass::Text, body);
            if let Outcome::Accepted { value, .. } = tag_at(s, pos) {
                let tags = tags_from(s, body, Seq::empty()).0;
                let text = s.subrange(body, run_end(s, CharClass::Text, body));
                if tags.len() > 0 {
                    assert(value.inner == InnerView::Children(tags));
                } else {
                    assert(value.inner == InnerView::Content(text));
                    assert forall|i: int| 0 <= i < text.len() implies CharClass::Text.admits(
                        #[trigger] text[i],
                    ) by {
                        assert(text[i] == s[body + i]);
                    }
                }
                assert(value.name == head.name);
                assert(value.traits == head.traits);
                assert(value.attributes == head.attributes);
                assert(is_parsed_form(head));
                assert(is_parsed_form(value));
            }
        }
    }
}

/// Every tag of a run has the parsed form, if those in `found` have it.
pub proof fn lemma_tags_parsed_form(s: Seq<char>, pos: int, found: Seq<TagView>)
    requires
        0 <= pos <= s.len(),
        forall|i: int| 0 <= i < found.len() ==> is_parsed_form(#[trigger] found[i]),
    ensures
        forall|i: int|
            0 <= i < tags_from(s, pos, found).0.len() ==> is_parsed_form(
                #[trigger] tags_from(s, pos, found).0[i],
            ),
    decreases s.len() - pos, 1int,
{
    lemma_tag_advances(s, pos);
    lemma_tag_parsed_form(s, pos);
    if let Outcome::Accepted { value, end } = tag_at(s, pos) {
        let longer = found.push(value);
        assert forall|i: int| 0 <= i < longer.len() implies is_parsed_form(
            #[trigger] longer[i],
        ) by {
            if i < found.len() {
                assert(longer[i] == found[i]);
            }
        }
        lemma_tags_parsed_form(s, end, longer);
        assert(tags_from(s, pos, found) == tags_from(s, end, longer));
    } else {
        assert(tags_from(s, pos, found).0 == found);
    }
}

/// An accepted tag with a body ends in its closing marker: `</`, the name
/// that its opening marker gave it, and `>`. Where the closing name differs
/// or the marker is missing, nothing is accepted.
pub proof fn lemma_closing_repeats_name(s: Seq<char>, pos: int)
    requires
        0 <= pos <= s.len(),
    ensures
        tag_at(s, pos) matches Outcome::Accepted { value, end } ==> !(value.inner is Empty) ==> {
            &&& pos + value.name.len() + 3 <= end <= s.len()
            &&& s.subrange(end - value.name.len() - 3, end) == lit_close() + value.name
                + seq!['>']
        },
{
    lemma_head_advances(s, pos);
    lemma_tag_advances(s, pos);
    if let Outcome::Accepted { value: (head, closed), end: body } = head_at(s, pos) {
        if !closed {
            lemma_tags_from(s, body, Seq::empty());
            lemma_run_end(s, CharClass::Text, body);
            if let Outcome::Accepted { value, end } = tag_at(s, pos) {
                let marker = lit_close() + head.name;
                let from = end - value.name.len() - 3;
                assert(literal_at(s, from, marker));
                assert(s.subrange(from, end) =~= s.subrange(from, from + marker.len()).push('>'));
                assert(marker.push('>') =~= lit_close() + value.name + seq!['>']);
            }
        }
    }
}

/// Two results for the same text at the same place, each as the grammar
/// gives it, are the same tree and the same end: nothing but the text
/// decides what is parsed.
pub proof fn lemma_parse_deterministic(
    s: Seq<char>,
    pos: int,
    first: Result<(Tag, usize), SyntaxError>,
    second: Result<(Tag, usize), SyntaxError>,
)
    requires
        tag_agrees(first, tag_at(s, pos)),
        tag_agrees(second, tag_at(s, pos)),
    ensures
        first is Ok == second is Ok,
        first is Ok ==> first->Ok_0.0@ == second->Ok_0.0@ && first->Ok_0.1 == second->Ok_0.1,
        first is Err ==> first->Err_0 == second->Err_0,
{
}

/// Whether a parser's result for a head, the tag without a body with whether
/// it closed itself and with its end, is what the grammar gives.
pub open spec fn head_agrees(
    r: Result<(Tag, bool, usize), SyntaxError>,
    o: Outcome<(TagView, bool)>,
) -> bool {
    match o {
        Outcome::Accepted { value, end } => r is Ok && r->Ok_0.0@ == value.0 && r->Ok_0.1
            == value.1 && r->Ok_0.2 == end,
        Outcome::Rejected { .. } => r is Err && r->Err_0 == o.error(),
    }
}

/// Whether a parser's result for a tag is what the grammar gives.
pub open spec fn tag_agrees(r: Result<(Tag, usize), SyntaxError>, o: Outcome<TagView>) -> bool {
    match o {
        Outcome::Accepted { value, end } => r is Ok && r->Ok_0.0@ == value && r->Ok_0.1 == end,
        Outcome::Rejected { .. } => r is Err && r->Err_0 == o.error(),
    }
}

/// Whether a parser's result for a run of tags is what the grammar gives.
pub open spec fn tags_agree(
    r: Result<(Vec<Tag>, usize), SyntaxError>,
    o: Outcome<Seq<TagView>>,
) -> bool {
    match o {
        Outcome::Accepted { value, end } => r is Ok && tag_views(r->Ok_0.0@) == value && r->Ok_0.1
            == end,
        Outcome::Rejected { .. } => r is Err && r->Err_0 == o.error(),
    }
}

/// Parses the head of the tag at `pos`.
pub(crate) fn head_in(chars: &Vec<char>, pos: usize) -> (r: Result<(Tag, bool, usize), SyntaxError>)
    requires
        pos <= chars.len(),
    ensures
        head_agrees(r, head_at(chars@, pos as int)),
{
    let len = chars.len();
    let ghost s = chars@;
    proof {
        lemma_head_advances(s, pos as int);
    }
    let open = scan_run(chars, CharClass::Whitespace, pos);
    if open >= len {
        return Err(SyntaxError { kind: ErrorKind::UnexpectedEndOfInput, position: open });
    }
    if chars[open] != '<' {
        return Err(SyntaxError { kind: ErrorKind::ExpectedTagOpen, position: open });
    }
    let name_end = scan_run(chars, CharClass::Alphanumeric, open + 1);
    if name_end == open + 1 {
        let kind = if open + 1 >= len {
            ErrorKind::UnexpectedEndOfInput
        } else {
            ErrorKind::ExpectedTagName
        };
        return Err(SyntaxError { kind, position: open + 1 });
    }
    let name = text_of(chars, open + 1, name_end);
    let (traits, traits_end) = traits_in(chars, name_end);
    let (attributes, end) = match attributes_in(chars, traits_end) {
        Ok(found) => found,
        Err(e) => {
            return Err(e);
        },
    };
    let mark = scan_run(chars, CharClass::Whitespace, end);
    let tag = Tag { name, traits, attributes, inner: Inner::Empty };
    if mark < len && len - mark >= 2 && chars[mark] == '/' && chars[mark + 1] == '>' {
        assert(s.subrange(mark as int, mark + 2) =~= lit_self_close());
        return Ok((tag, true, mark + 2));
    }
    assert(!literal_at(s, mark as int, lit_self_close())) by {
        if literal_at(s, mark as int, lit_self_close()) {
            assert(s.subrange(mark as int, mark + 2)[0] == '/');
            assert(s.subrange(mark as int, mark + 2)[1] == '>');
        }
    }
    if mark < len && chars[mark] == '>' {
        return Ok((tag, false, mark + 1));
    }
    let ran_out = mark >= len || (len - mark == 1 && chars[mark] == '/');
    assert(ran_out == runs_out_at(s, mark as int, lit_self_close())) by {
        if mark < len {
            let rest = s.subrange(mark as int, s.len() as int);
            let want = lit_self_close().subrange(0, s.len() - mark);
            if len - mark == 1 {
                assert(rest[0] == s[mark as int]);
                assert(want[0] == '/');
                if chars[mark as int] == '/' {
                    assert(rest =~= want);
                }
            }
        } else {
            assert(s.subrange(mark as int, s.len() as int) =~= lit_self_close().subrange(0, 0));
        }
    }
    let kind = if ran_out {
        ErrorKind::UnexpectedEndOfInput
    } else {
        ErrorKind::ExpectedTagClose
    };
    Err(SyntaxError { kind, position: mark })
}

/// Looks for the closing marker of the tag `name` at `pos`: where it ends.
pub(crate) fn closing_in(chars: &Vec<char>, pos: usize, name: &String) -> (r: Result<
    usize,
    SyntaxError,
>)
    requires
        pos <= chars.len(),
    ensures
        match closing_at(chars@, pos as int, name@) {
            Outcome::Accepted { end, .. } => r == Ok::<usize, SyntaxError>(end as usize) && pos
                < end <= chars.len(),
            Outcome::Rejected { kind, position } => r == Err::<usize, SyntaxError>(
                SyntaxError { kind, position: position as usize },
            ) && pos <= position <= chars.len(),
        },
{
    let mut marker: Vec<char> = vec!['<', '/'];
    let mut letters = to_chars(name.as_str());
    marker.append(&mut letters);
    assert(marker@ =~= lit_close() + name@);
    assert(marker@.subrange(0, marker@.len() as int) =~= marker@);
    match match_literal(chars, pos, &marker, 0, marker.len()) {
        Match::Found => {
            let last = pos + marker.len();
            if last < chars.len() && chars[last] == '>' {
                Ok(last + 1)
            } else if last >= chars.len() {
                Err(SyntaxError { kind: ErrorKind::UnexpectedEndOfInput, position: last })
            } else {
                Err(SyntaxError { kind: ErrorKind::ExpectedTagClose, position: last })
            }
        },
        Match::RanOut => Err(SyntaxError { kind: ErrorKind::UnexpectedEndOfInput, position: pos }),
        Match::Differs => Err(SyntaxError { kind: ErrorKind::MismatchedClosingTag, position: pos }),
    }
}

/// Parses the tag at `pos`.
pub fn tag_in(chars: &Vec<char>, pos: usize) -> (r: Result<(Tag, usize), SyntaxError>)
    requires
        pos <= chars.len(),
    ensures
        tag_agrees(r, tag_at(chars@, pos as int)),
    decreases chars.len() - pos, 0int,
{
    let ghost s = chars@;
    proof {
        lemma_head_advances(s, pos as int);
    }
    let (head, closed, body) = match head_in(chars, pos) {
        Ok(found) => found,
        Err(e) => {
            return Err(e);
        },
    };
    if closed {
        return Ok((head, body));
    }
    let none: Vec<Tag> = Vec::new();
    assert(tag_views(none@) =~= Seq::<TagView>::empty());
    let (tags, tags_end) = tags_from_in(chars, body, none);
    let (inner, inner_end) = if tags.len() > 0 {
        (Inner::Children(tags), tags_end)
    } else {
        let text_end = scan_run(chars, CharClass::Text, body);
        (Inner::Content(text_of(chars, body, text_end)), text_end)
    };
    match closing_in(chars, inner_end, &head.name) {
        Ok(end) => {
            let tag = Tag {
                name: head.name,
                traits: head.traits,
                attributes: head.attributes,
                inner,
            };
            proof {
                lemma_inner_view(tag);
            }
            Ok((tag, end))
        },
        Err(e) => Err(e),
    }
}

/// Parses the tags that start at `pos`, as many as follow one another, and
/// puts them behind `found`.
pub(crate) fn tags_from_in(chars: &Vec<char>, pos: usize, found: Vec<Tag>) -> (r: (Vec<Tag>, usize))
    requires
        pos <= chars.len(),
    ensures
        (tag_views(r.0@), r.1 as int) == tags_from(chars@, pos as int, tag_views(found@)),
        pos <= r.1 <= chars.len(),
    decreases chars.len() - pos, 1int,
{
    let ghost s = chars@;
    let ghost start = tag_views(found@);
    let mut tags: Vec<Tag> = found;
    let mut at: usize = pos;
    loop
        invariant
            s == chars@,
            pos <= at <= chars.len(),
            tags_from(s, at as int, tag_views(tags@)) == tags_from(s, pos as int, start),
        ensures
            pos <= at <= chars.len(),
            (tag_views(tags@), at as int) == tags_from(s, pos as int, start),
        decreases chars.len() - at,
    {
        proof {
            lemma_tag_advances(s, at as int);
        }
        match tag_in(chars, at) {
            Ok((tag, end)) => {
                assert(tag_views(tags@.push(tag)) =~= tag_views(tags@).push(tag@));
                tags.push(tag);
                at = end;
            },
            Err(_) => {
                break ;
            },
        }
    }
    (tags, at)
}

/// Parses one tag or more at `pos`.
pub fn tags_in(chars: &Vec<char>, pos: usize) -> (r: Result<(Vec<Tag>, usize), SyntaxError>)
    requires
        pos <= chars.len(),
    ensures
        tags_agree(r, tags_at(chars@, pos as int)),
        r matches Ok((_, end)) ==> pos < end <= chars.len(),
{
    proof {
        lemma_tag_advances(chars@, pos as int);
    }
    match tag_in(chars, pos) {
        Ok((first, end)) => {
            let mut found: Vec<Tag> = Vec::new();
            found.push(first);
            assert(tag_views(found@) =~= Seq::<TagView>::empty().push(first@));
            Ok(tags_from_in(chars, end, found))
        },
        Err(e) => Err(e),
    }
}

impl Tag {
    /// A tag of that name without traits, attributes or body.
    pub fn new(name: &str) -> (tag: Tag)
        ensures
            tag@ == (TagView {
                name: name@,
                traits: Seq::empty(),
                attributes: Seq::empty(),
                inner: InnerView::Empty,
            }),
    {
        Tag {
            name: name.to_owned(),
            traits: new_set(),
            attributes: new_map(),
            inner: Inner::Empty,
        }
    }

    /// Sets the trait `key`, behind the others; a trait that is set stays
    /// where it is.
    pub fn set(&mut self, key: &str)
        ensures
            final(self)@ == (TagView {
                traits: with_item(old(self)@.traits, key@),
                ..old(self)@
            }),
    {
        set_insert(&mut self.traits, key.to_owned());
    }

    /// Binds the attribute `key` to `value`, behind the others; a key that is
    /// bound stays where it is and takes the new value.
    pub fn with(&mut self, key: &str, value: Value)
        ensures
            final(self)@ == (TagView {
                attributes: with_entry(old(self)@.attributes, key@, value@),
                ..old(self)@
            }),
    {
        map_insert(&mut self.attributes, key.to_owned(), value);
    }

    /// Makes `content` the body.
    pub fn content(&mut self, content: &str)
        ensures
            final(self)@ == (TagView { inner: InnerView::Content(content@), ..old(self)@ }),
    {
        self.inner = Inner::Content(content.to_owned());
    }

    /// Makes `tags` the body.
    pub fn children(&mut self, tags: Vec<Tag>)
        ensures
            final(self)@ == (TagView {
                inner: InnerView::Children(tag_views(tags@)),
                ..old(self)@
            }),
    {
        self.inner = Inner::Children(tags);
        proof {
            lemma_inner_view(*self);
        }
    }
}

/// Parses the tag at the start of `s` and moves `s` behind it. A text that
/// starts with no tag is left as it is.
pub fn single(s: &mut &str) -> (r: Result<Tag, SyntaxError>)
    ensures
        match tag_at(old(s)@, 0) {
            Outcome::Accepted { value, end } => {
                &&& r is Ok
                &&& r->Ok_0@ == value
                &&& final(s)@ == old(s)@.skip(end)
            },
            Outcome::Rejected { kind, position } => r is Err && r->Err_0 == (SyntaxError {
                kind,
                position: position as usize,
            }) && final(s)@ == old(s)@,
        },
        r matches Ok(tag) ==> is_parsed_form(tag@),
{
    let chars = to_chars(*s);
    proof {
        lemma_tag_advances(chars@, 0);
        lemma_tag_parsed_form(chars@, 0);
    }
    match tag_in(&chars, 0) {
        Ok((tag, end)) => {
            advance(s, end, chars.len());
            Ok(tag)
        },
        Err(e) => Err(e),
    }
}

/// Parses the tags at the start of `s`, one at least, and moves `s` behind
/// them. A text that starts with no tag is left as it is.
pub fn many(s: &mut &str) -> (r: Result<Vec<Tag>, SyntaxError>)
    ensures
        match tags_at(old(s)@, 0) {
            Outcome::Accepted { value, end } => {
                &&& r is Ok
                &&& tag_views(r->Ok_0@) == value
                &&& final(s)@ == old(s)@.skip(end)
            },
            Outcome::Rejected { kind, position } => r is Err && r->Err_0 == (SyntaxError {
                kind,
                position: position as usize,
            }) && final(s)@ == old(s)@,
        },
{
    let chars = to_chars(*s);
    proof {
        lemma_tag_advances(chars@, 0);
    }
    match tags_in(&chars, 0) {
        Ok((tags, end)) => {
            advance(s, end, chars.len());
            Ok(tags)
        },
        Err(e) => Err(e),
    }
}

/// Takes the text at the start of `s` up to the next `<`, or all of it if
/// there is none, and moves `s` behind it. This never fails.
pub fn content<'s>(s: &mut &'s str) -> (r: Result<&'s str, SyntaxError>)
    ensures
        r is Ok,
        r->Ok_0@ == old(s)@.subrange(0, run_end(old(s)@, CharClass::Text, 0)),
        final(s)@ == old(s)@.skip(run_end(old(s)@, CharClass::Text, 0)),
{
    let whole: &'s str = *s;
    let chars = to_chars(whole);
    let end = scan_run(&chars, CharClass::Text, 0);
    let text = whole.substring_char(0, end);
    advance(s, end, chars.len());
    Ok(text)
}

impl std::str::FromStr for Tag {
    type Err = SyntaxError;

    /// Parses the tag at the start of `s`; what follows it is not looked at.
    fn from_str(s: &str) -> (r: Result<Tag, SyntaxError>)
        ensures
            match tag_at(s@, 0) {
                Outcome::Accepted { value, .. } => r is Ok && r->Ok_0@ == value,
                Outcome::Rejected { kind, position } => r is Err && r->Err_0 == (SyntaxError {
                    kind,
                    position: position as usize,
                }),
            },
            r matches Ok(tag) ==> is_parsed_form(tag@),
    {
        let mut rest = s;
        single(&mut rest)
    }
}

} // verus!
