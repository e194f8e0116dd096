use bftml::parser::errors::{ErrorKind, SyntaxError};
use bftml::parser::tags::{content, many, single, Inner, Tag};
use bftml::parser::values::Value;
use indexmap::{IndexMap, IndexSet};

fn failure(kind: ErrorKind, position: usize) -> Result<Tag, SyntaxError> {
    Err(SyntaxError { kind, position })
}

#[test]
fn mod_test_altogether() {
    let mut text =
        "<button default foo=\"bar\" answer=42 based=true pi=3.14 range=0..1><foo /></button>";
    let parsed = single(&mut text);
    let mut expected = Tag::new("button");
    expected.set("default");
    expected.with("foo", Value::String("bar".into()));
    expected.with("answer", Value::Int(42));
    expected.with("based", Value::Bool(true));
    expected.with("pi", Value::Float("3.14".into()));
    expected.with("range", Value::Range(0..1));
    expected.children(vec![Tag::new("foo")]);
    println!("{text}");
    assert_eq!(expected, parsed.unwrap());
    assert_eq!("", text);
}

#[test]
fn tags_test_parse_tag() {
    let expected = Tag {
        name: "button".into(),
        traits: IndexSet::new(),
        attributes: IndexMap::new(),
        inner: Inner::Content("".into()),
    };
    assert_eq!(Ok(expected), "<button></button>".parse());
}

#[test]
fn tags_test_parse_short_tag() {
    let expected = Tag {
        name: "button".into(),
        traits: IndexSet::new(),
        attributes: IndexMap::new(),
        inner: Inner::Empty,
    };
    assert_eq!(Ok(expected), "<button />".parse());
}

#[test]
fn tags_test_parse_children() {
    let parsed = many(&mut "<foo /><bar />");
    let expected = vec![Tag::new("foo"), Tag::new("bar")];
    assert_eq!(expected, parsed.unwrap())
}

#[test]
fn test_content() {
    let parsed = content(&mut "Banana<");
    let expected = "Banana";
    assert_eq!(expected, parsed.unwrap())
}

#[test]
fn tags_test_parse_tag_children() {
    let parsed = "<foo><bar /></foo>".parse::<Tag>();
    let mut expected = Tag::new("foo");
    expected.children(vec![Tag::new("bar")]);
    assert_eq!(expected, parsed.unwrap())
}

#[test]
fn test_parse_tag_content() {
    let mut input = "<foo>Bananas</foo>";
    let parsed = single(&mut input);
    let mut expected = Tag::new("foo");
    expected.content("Bananas");
    println!("{input}");
    assert_eq!(expected, parsed.unwrap())
}

#[test]
fn tags_test_parse_err() {
    let parsed = "<button".parse::<Tag>();
    assert!(parsed.is_err());
}

#[test]
fn self_closing_tag_has_no_body() {
    let mut input = "<button />";
    let tag = single(&mut input).unwrap();
    assert_eq!("", input);
    assert_eq!("button", tag.name);
    assert!(tag.traits.is_empty());
    assert!(tag.attributes.is_empty());
    assert_eq!(Inner::Empty, tag.inner);
    assert_eq!(Tag::new("button"), single(&mut "<button/>").unwrap());
}

#[test]
fn empty_body_is_empty_content_not_children() {
    let tag = single(&mut "<button></button>").unwrap();
    assert_eq!(Inner::Content(String::new()), tag.inner);
    assert_ne!(Inner::Children(vec![]), tag.inner);
}

#[test]
fn unclosed_tag_fails() {
    let mut input = "<button>";
    assert_eq!(failure(ErrorKind::UnexpectedEndOfInput, 8), single(&mut input));
    assert_eq!("<button>", input);
}

#[test]
fn closing_name_must_repeat_the_opening_name() {
    let mut input = "<button></other>";
    assert_eq!(failure(ErrorKind::MismatchedClosingTag, 8), single(&mut input));
    assert_eq!("<button></other>", input);
    assert_eq!(failure(ErrorKind::MismatchedClosingTag, 8), single(&mut "<button></Button>"));
    assert_eq!(failure(ErrorKind::MismatchedClosingTag, 8), single(&mut "<button></but>"));
    assert_eq!(failure(ErrorKind::ExpectedTagClose, 16), single(&mut "<button></buttons>"));
    assert_eq!(failure(ErrorKind::ExpectedTagClose, 16), single(&mut "<button></button x"));
}

#[test]
fn closing_marker_cut_short_runs_out_of_input() {
    assert_eq!(failure(ErrorKind::UnexpectedEndOfInput, 8), single(&mut "<button><"));
    assert_eq!(failure(ErrorKind::UnexpectedEndOfInput, 8), single(&mut "<button></butt"));
    assert_eq!(failure(ErrorKind::UnexpectedEndOfInput, 16), single(&mut "<button></button"));
}

#[test]
fn tag_needs_its_delimiters_and_name() {
    assert_eq!(failure(ErrorKind::UnexpectedEndOfInput, 0), single(&mut ""));
    assert_eq!(failure(ErrorKind::UnexpectedEndOfInput, 3), single(&mut " \n "));
    assert_eq!(failure(ErrorKind::ExpectedTagOpen, 0), single(&mut "button />"));
    assert_eq!(failure(ErrorKind::ExpectedTagOpen, 2), single(&mut "  x<a />"));
    assert_eq!(failure(ErrorKind::UnexpectedEndOfInput, 1), single(&mut "<"));
    assert_eq!(failure(ErrorKind::ExpectedTagName, 1), single(&mut "< a />"));
    assert_eq!(failure(ErrorKind::ExpectedTagName, 1), single(&mut "</a>"));
    assert_eq!(failure(ErrorKind::UnexpectedEndOfInput, 7), single(&mut "<button"));
    assert_eq!(failure(ErrorKind::UnexpectedEndOfInput, 8), single(&mut "<button /"));
    assert_eq!(failure(ErrorKind::ExpectedTagClose, 8), single(&mut "<button / >"));
    assert_eq!(failure(ErrorKind::ExpectedTagClose, 7), single(&mut "<button-x />"));
}

#[test]
fn traits_must_come_before_attributes() {
    let mut input = "<a x=1 flag />";
    assert_eq!(failure(ErrorKind::ExpectedTagClose, 7), single(&mut input));
    let tag = single(&mut "<a flag x=1 />").unwrap();
    assert!(tag.traits.contains("flag"));
    assert_eq!(Some(&Value::Int(1)), tag.attributes.get("x"));
}

#[test]
fn malformed_attribute_value_fails_the_tag() {
    assert_eq!(failure(ErrorKind::MalformedLiteral, 5), single(&mut "<a x=nope />"));
    assert_eq!(failure(ErrorKind::UnexpectedEndOfInput, 5), single(&mut "<a x=\"open />"));
}

#[test]
fn same_name_may_be_trait_and_key() {
    let tag = single(&mut "<a x x=1 />").unwrap();
    assert!(tag.traits.contains("x"));
    assert_eq!(Some(&Value::Int(1)), tag.attributes.get("x"));
}

#[test]
fn leading_whitespace_is_skipped() {
    let mut input = " \r\n\t<a />tail";
    assert_eq!(Ok(Tag::new("a")), single(&mut input));
    assert_eq!("tail", input);
}

#[test]
fn whitespace_inside_the_head() {
    let tag = single(&mut "<a\n/>");
    assert_eq!(Ok(Tag::new("a")), tag);
    let mut expected = Tag::new("a");
    expected.set("b");
    expected.with("c", Value::Int(1));
    expected.content("");
    assert_eq!(Ok(expected), single(&mut "<a \tb  c=1\r\n></a>"));
}

#[test]
fn content_runs_to_the_next_angle() {
    let mut expected = Tag::new("p");
    expected.content(" a > b \"q\" é\n");
    assert_eq!(Ok(expected), single(&mut "<p> a > b \"q\" é\n</p>"));
}

#[test]
fn text_before_a_child_is_not_a_body() {
    assert_eq!(failure(ErrorKind::MismatchedClosingTag, 7), single(&mut "<p>text<b /></p>"));
}

#[test]
fn children_may_be_apart_but_not_from_the_closing_marker() {
    let mut expected = Tag::new("ul");
    expected.children(vec![Tag::new("li"), Tag::new("li")]);
    assert_eq!(Ok(expected), single(&mut "<ul>\n  <li />\n  <li /></ul>"));
    assert_eq!(
        failure(ErrorKind::MismatchedClosingTag, 10),
        single(&mut "<ul><li />\n</ul>")
    );
}

#[test]
fn child_that_fails_ends_the_children() {
    assert_eq!(
        failure(ErrorKind::MismatchedClosingTag, 8),
        single(&mut "<a><b /><c</a>")
    );
}

#[test]
fn first_child_that_fails_makes_the_body_text() {
    let mut expected = Tag::new("a");
    expected.content(" ");
    assert_eq!(Ok(expected), single(&mut "<a> </a>"));
    assert_eq!(failure(ErrorKind::MismatchedClosingTag, 3), single(&mut "<a><b></a>"));
}

#[test]
fn deep_nesting() {
    let mut innermost = Tag::new("d");
    innermost.content("x");
    let mut c = Tag::new("c");
    c.children(vec![innermost, Tag::new("e")]);
    let mut b = Tag::new("b");
    b.set("t");
    b.children(vec![c]);
    let mut a = Tag::new("a");
    a.children(vec![b, Tag::new("f")]);
    let mut input = "<a><b t><c><d>x</d><e /></c></b><f /></a><g />";
    assert_eq!(Ok(a), single(&mut input));
    assert_eq!("<g />", input);
}

#[test]
fn nesting_a_thousand_deep() {
    let depth = 1000;
    let mut text = String::new();
    for _ in 0..depth {
        text.push_str("<n>");
    }
    text.push_str("<n />");
    for _ in 0..depth {
        text.push_str("</n>");
    }
    let mut tag = text.parse::<Tag>().unwrap();
    let mut seen = 0;
    loop {
        match tag.inner {
            Inner::Children(mut tags) => {
                assert_eq!(1, tags.len());
                tag = tags.pop().unwrap();
                seen += 1;
            }
            Inner::Empty => break,
            Inner::Content(text) => panic!("unexpected text {:?}", text),
        }
    }
    assert_eq!(depth, seen);
}

#[test]
fn many_needs_one_tag() {
    let mut input = "text";
    assert_eq!(
        Err(SyntaxError { kind: ErrorKind::ExpectedTagOpen, position: 0 }),
        many(&mut input)
    );
    assert_eq!("text", input);
}

#[test]
fn many_stops_at_the_first_failure() {
    let mut input = "<a /> <b>x</b>  </c>";
    let tags = many(&mut input).unwrap();
    let mut b = Tag::new("b");
    b.content("x");
    assert_eq!(vec![Tag::new("a"), b], tags);
    assert_eq!("  </c>", input);
}

#[test]
fn content_without_an_angle_takes_everything() {
    let mut input = "no tags here";
    assert_eq!(Ok("no tags here"), content(&mut input));
    assert_eq!("", input);

    let mut input = "<a>";
    assert_eq!(Ok(""), content(&mut input));
    assert_eq!("<a>", input);
}

#[test]
fn from_str_ignores_what_follows_the_tag() {
    assert_eq!(Ok(Tag::new("a")), "<a />trailing".parse::<Tag>());
}

#[test]
fn parsing_twice_gives_equal_trees() {
    let text = "<a x y=1 z=\"s\"><b>t</b><c r=1..2 /></a>";
    let first = text.parse::<Tag>();
    let second = text.parse::<Tag>();
    assert!(first.is_ok());
    assert_eq!(first, second);
}

#[test]
fn builders_set_what_they_name() {
    let mut tag = Tag::new("a");
    assert_eq!("a", tag.name);
    tag.set("x");
    tag.set("y");
    tag.set("x");
    assert_eq!(vec!["x", "y"], tag.traits.iter().map(|t| t.as_str()).collect::<Vec<_>>());
    tag.with("k", Value::Int(1));
    tag.with("l", Value::Int(2));
    tag.with("k", Value::Int(3));
    assert_eq!(
        vec![("k", &Value::Int(3)), ("l", &Value::Int(2))],
        tag.attributes.iter().map(|(k, v)| (k.as_str(), v)).collect::<Vec<_>>()
    );
    tag.content("text");
    assert_eq!(Inner::Content("text".into()), tag.inner);
    tag.children(vec![Tag::new("b")]);
    assert_eq!(Inner::Children(vec![Tag::new("b")]), tag.inner);
}

#[test]
fn tag_clone_is_equal() {
    let text = "<a x y=1 z=\"s\"><b>t</b><c r=1..2 p=.5><d /></c></a>";
    let tag = text.parse::<Tag>().unwrap();
    let copy = tag.clone();
    assert_eq!(tag, copy);
    assert_eq!(
        tag.traits.iter().collect::<Vec<_>>(),
        copy.traits.iter().collect::<Vec<_>>()
    );
    assert_eq!(
        tag.attributes.iter().collect::<Vec<_>>(),
        copy.attributes.iter().collect::<Vec<_>>()
    );
    assert_eq!(tag.inner.clone(), copy.inner);
}
