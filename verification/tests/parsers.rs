use toy_browser::css::{Color, Declaration, Rule, Selector, SimpleSelector, StyleSheet, Unit, Value};
use toy_browser::dom::{Node, NodeType};
use toy_browser::error::{ParseError, ParseErrorKind};
use toy_browser::source::SourceHelper;

fn css(source: &str) -> Result<StyleSheet, ParseError> {
    toy_browser::css::parse(source.to_string())
}

fn html(source: &str) -> Result<Node, ParseError> {
    toy_browser::html::parse(source.to_string())
}

fn selector(tag: Option<&str>, id: Option<&str>, classes: &[&str]) -> Selector {
    Selector::Simple(SimpleSelector {
        tag_name: tag.map(|s| s.to_string()),
        id: id.map(|s| s.to_string()),
        class: classes.iter().map(|s| s.to_string()).collect(),
    })
}

fn declaration(name: &str, value: Value) -> Declaration {
    Declaration { name: name.to_string(), value }
}

fn error(position: usize, kind: ParseErrorKind) -> ParseError {
    ParseError { position, kind }
}

fn tag(node: &Node) -> &str {
    match &node.node_type {
        NodeType::Element(data) => &data.tag_name,
        NodeType::Text(_) => panic!("an element was expected"),
    }
}

fn attribute<'a>(node: &'a Node, name: &str) -> Option<&'a str> {
    match &node.node_type {
        NodeType::Element(data) => data.attributes.get(name).map(|s| s.as_str()),
        NodeType::Text(_) => panic!("an element was expected"),
    }
}

fn data(node: &Node) -> &str {
    match &node.node_type {
        NodeType::Text(data) => data,
        NodeType::Element(_) => panic!("a text was expected"),
    }
}

#[test]
fn the_cursor_reads_character_by_character() {
    let mut s = SourceHelper::new("ab");
    assert_eq!(s.pos, 0);
    assert_eq!(s.input, vec!['a', 'b']);
    assert!(!s.eof());
    assert_eq!(s.next_char(), 'a');
    assert_eq!(s.consume_char(), 'a');
    assert_eq!(s.pos, 1);
    assert_eq!(s.next_char(), 'b');
    assert_eq!(s.consume_char(), 'b');
    assert!(s.eof());
    assert!(SourceHelper::new("").eof());
}

#[test]
fn the_cursor_counts_characters_and_not_bytes() {
    let mut s = SourceHelper::new("é<");
    assert_eq!(s.consume_char(), 'é');
    assert_eq!(s.pos, 1);
    assert_eq!(s.next_char(), '<');
    let mut t = SourceHelper::new("日本");
    assert_eq!(t.consume_while(|c| c != '<'), "日本");
    assert!(t.eof());
}

#[test]
fn starts_with_looks_at_what_follows_the_cursor() {
    let mut s = SourceHelper::new("a</b");
    assert!(s.starts_with("a<"));
    assert!(s.starts_with(""));
    assert!(!s.starts_with("</"));
    s.consume_char();
    assert!(s.starts_with("</"));
    assert!(s.starts_with("</b"));
    assert!(!s.starts_with("</bc"));
    assert!(!s.starts_with("<b"));
}

#[test]
fn consume_while_stops_at_the_first_refusal() {
    let mut s = SourceHelper::new("abc123 x");
    assert_eq!(s.consume_while(|c| c.is_alphabetic()), "abc");
    assert_eq!(s.pos, 3);
    assert_eq!(s.consume_while(|c| c.is_alphabetic()), "");
    assert_eq!(s.pos, 3);
    assert_eq!(s.consume_while(|_| true), "123 x");
    assert!(s.eof());
    assert_eq!(s.consume_while(|_| true), "");
}

#[test]
fn white_space_is_passed_over() {
    let mut s = SourceHelper::new(" \t\n\r\u{a0}x y");
    s.consume_whitespace();
    assert_eq!(s.pos, 5);
    s.consume_whitespace();
    assert_eq!(s.pos, 5);
    assert_eq!(s.next_char(), 'x');
    let mut t = SourceHelper::new("   ");
    t.consume_whitespace();
    assert!(t.eof());
}

#[test]
fn expect_reads_the_character_or_says_what_is_wrong() {
    let mut s = SourceHelper::new("a");
    assert_eq!(s.expect('b'), Err(error(0, ParseErrorKind::UnexpectedCharacter)));
    assert_eq!(s.pos, 0);
    assert_eq!(s.expect('a'), Ok(()));
    assert_eq!(s.pos, 1);
    assert_eq!(s.expect('a'), Err(error(1, ParseErrorKind::UnexpectedEnd)));
}

#[test]
fn a_document_with_one_root() {
    let root = html("<div id=\"x\"><p class='c'>t</p></div>").unwrap();
    assert_eq!(tag(&root), "div");
    assert_eq!(attribute(&root, "id"), Some("x"));
    assert_eq!(attribute(&root, "class"), None);
    assert_eq!(root.children.len(), 1);
    let p = &root.children[0];
    assert_eq!(tag(p), "p");
    assert_eq!(attribute(p, "class"), Some("c"));
    assert_eq!(p.children.len(), 1);
    assert_eq!(data(&p.children[0]), "t");
    assert!(p.children[0].children.is_empty());
}

#[test]
fn several_roots_are_put_into_an_html_element() {
    let root = html("<a></a> text <b></b>").unwrap();
    assert_eq!(tag(&root), "html");
    assert_eq!(root.children.len(), 3);
    assert_eq!(tag(&root.children[0]), "a");
    assert_eq!(data(&root.children[1]), "text ");
    assert_eq!(tag(&root.children[2]), "b");
    let empty = html("  ").unwrap();
    assert_eq!(tag(&empty), "html");
    assert!(empty.children.is_empty());
    let only_text = html("hello").unwrap();
    assert_eq!(data(&only_text), "hello");
}

#[test]
fn white_space_in_markup() {
    let root = html("  <ul  a = 'no' >\n <li>one </li>\n <li> two</li>\n</ul>  ");
    assert_eq!(root.err(), Some(error(8, ParseErrorKind::UnexpectedCharacter)));
    let root = html("  <ul  a='1'   b=\"2\" >\n <li>one </li>\n <li> two</li>\n</ul>  ").unwrap();
    assert_eq!(tag(&root), "ul");
    assert_eq!(attribute(&root, "a"), Some("1"));
    assert_eq!(attribute(&root, "b"), Some("2"));
    assert_eq!(root.children.len(), 2);
    assert_eq!(data(&root.children[0].children[0]), "one ");
    assert_eq!(data(&root.children[1].children[0]), "two");
}

#[test]
fn a_later_attribute_stands_in_place_of_an_earlier_one() {
    let root = html("<a x='1' y='2' x='3'></a>").unwrap();
    assert_eq!(attribute(&root, "x"), Some("3"));
    assert_eq!(attribute(&root, "y"), Some("2"));
    let quotes = html("<a x='say \"hi\"' y=\"it's\"></a>").unwrap();
    assert_eq!(attribute(&quotes, "x"), Some("say \"hi\""));
    assert_eq!(attribute(&quotes, "y"), Some("it's"));
}

#[test]
fn malformed_markup_is_an_error_with_its_position() {
    assert_eq!(html("<a>").err(), Some(error(3, ParseErrorKind::UnexpectedEnd)));
    assert_eq!(html("<a></b>").err(), Some(error(5, ParseErrorKind::MismatchedClosingTag)));
    assert_eq!(html("<a").err(), Some(error(2, ParseErrorKind::UnexpectedEnd)));
    assert_eq!(html("<a x></a>").err(), Some(error(4, ParseErrorKind::UnexpectedCharacter)));
    assert_eq!(html("<a x=1></a>").err(), Some(error(5, ParseErrorKind::UnexpectedCharacter)));
    assert_eq!(html("<a x='1></a>").err(), Some(error(12, ParseErrorKind::UnexpectedEnd)));
    assert_eq!(html("<a x=").err(), Some(error(5, ParseErrorKind::UnexpectedEnd)));
    assert_eq!(html("<a></a ").err(), Some(error(6, ParseErrorKind::UnexpectedCharacter)));
    assert_eq!(html("<a><b></a></b>").err(), Some(error(8, ParseErrorKind::MismatchedClosingTag)));
    assert_eq!(html("<a>text").err(), Some(error(7, ParseErrorKind::UnexpectedEnd)));
    assert_eq!(html("<a><").err(), Some(error(4, ParseErrorKind::UnexpectedEnd)));
}

#[test]
fn a_closing_tag_at_the_top_ends_the_document() {
    let root = html("<a></a></b><c></c>").unwrap();
    assert_eq!(tag(&root), "a");
}

#[test]
fn a_stylesheet_with_two_rules() {
    let sheet = css("#x { background-color: #112233; } .c { display: block; height: 20px; }").unwrap();
    assert_eq!(
        sheet,
        StyleSheet {
            rules: vec![
                Rule {
                    selectors: vec![selector(None, Some("x"), &[])],
                    declarations: vec![declaration(
                        "background-color",
                        Value::ColorValue(Color { r: 17, g: 34, b: 51, a: 255 })
                    )],
                },
                Rule {
                    selectors: vec![selector(None, None, &["c"])],
                    declarations: vec![
                        declaration("display", Value::Keyword("block".to_string())),
                        declaration("height", Value::Length(20 * 64, Unit::Px)),
                    ],
                },
            ]
        }
    );
}

#[test]
fn an_empty_stylesheet() {
    assert_eq!(css("").unwrap(), StyleSheet { rules: vec![] });
    assert_eq!(css(" \n ").unwrap(), StyleSheet { rules: vec![] });
    assert_eq!(
        css("p{}").unwrap(),
        StyleSheet { rules: vec![Rule { selectors: vec![selector(Some("p"), None, &[])], declarations: vec![] }] }
    );
}

#[test]
fn simple_selectors_of_every_kind() {
    let sheet = css("div.note.big#main, *, a#one#two, .x_y-z {}").unwrap();
    assert_eq!(
        sheet.rules[0].selectors,
        vec![
            selector(Some("div"), Some("main"), &["note", "big"]),
            selector(Some("a"), Some("two"), &[]),
            selector(None, None, &["x_y-z"]),
            selector(None, None, &[]),
        ]
    );
}

#[test]
fn selectors_are_sorted_from_the_heaviest_to_the_lightest() {
    let sheet = css("p, .a, #b, div, .c, p.a {}").unwrap();
    assert_eq!(
        sheet.rules[0].selectors,
        vec![
            selector(None, Some("b"), &[]),
            selector(Some("p"), None, &["a"]),
            selector(None, None, &["a"]),
            selector(None, None, &["c"]),
            selector(Some("p"), None, &[]),
            selector(Some("div"), None, &[]),
        ]
    );
}

#[test]
fn values_of_every_kind() {
    let sheet = css("a { w:12px; x : 7PX ; y:#A0b1C2; z:auto; f:10.75px; g:3.px; k:; }").unwrap();
    assert_eq!(
        sheet.rules[0].declarations,
        vec![
            declaration("w", Value::Length(768, Unit::Px)),
            declaration("x", Value::Length(448, Unit::Px)),
            declaration("y", Value::ColorValue(Color { r: 160, g: 177, b: 194, a: 255 })),
            declaration("z", Value::Keyword("auto".to_string())),
            declaration("f", Value::Length(688, Unit::Px)),
            declaration("g", Value::Length(192, Unit::Px)),
            declaration("k", Value::Keyword("".to_string())),
        ]
    );
}

fn length(number: &str) -> i64 {
    let sheet = css(&format!("a{{w:{}px;}}", number)).unwrap();
    sheet.rules[0].declarations[0].value.to_px()
}

#[test]
fn a_pixel_has_sixty_four_units() {
    assert_eq!(length("0"), 0);
    assert_eq!(length("1"), 64);
    assert_eq!(length("0.5"), 32);
    assert_eq!(length("25.5"), 1632);
    assert_eq!(length("0.25"), 16);
    assert_eq!(length("0.015625"), 1);
    assert_eq!(length("2.984375"), 191);
    assert_eq!(length("10.2"), 652);
}

#[test]
fn a_fraction_is_rounded_down_to_a_unit() {
    assert_eq!(length("0.015624"), 0);
    assert_eq!(length("0.0156249999999"), 0);
    assert_eq!(length("0.0156250000001"), 1);
    assert_eq!(length("0.999999"), 63);
    assert_eq!(length("0.9999999999"), 63);
    assert_eq!(length("0.1"), 6);
    assert_eq!(length("7.000000"), 448);
    assert_eq!(length("7.0000009"), 448);
}

#[test]
fn the_largest_length() {
    let sheet = css("a{w:144115188075855871px;v:0009px;u:144115188075855871.999999px;}").unwrap();
    assert_eq!(
        sheet.rules[0].declarations,
        vec![
            declaration("w", Value::Length(i64::MAX - 63, Unit::Px)),
            declaration("v", Value::Length(576, Unit::Px)),
            declaration("u", Value::Length(i64::MAX, Unit::Px)),
        ]
    );
    assert_eq!(css("a{w:144115188075855872px;}").err(), Some(error(4, ParseErrorKind::NumberTooLarge)));
    assert_eq!(css("a{w:9223372036854775807px;}").err(), Some(error(4, ParseErrorKind::NumberTooLarge)));
    assert_eq!(
        css("a{w:99999999999999999999999999999.5px;}").err(),
        Some(error(4, ParseErrorKind::NumberTooLarge))
    );
}

#[test]
fn malformed_stylesheets_are_errors_with_their_position() {
    assert_eq!(css("a").err(), Some(error(1, ParseErrorKind::UnexpectedEnd)));
    assert_eq!(css("a b {}").err(), Some(error(2, ParseErrorKind::UnexpectedCharacter)));
    assert_eq!(css("a {").err(), Some(error(3, ParseErrorKind::UnexpectedEnd)));
    assert_eq!(css("a { x }").err(), Some(error(6, ParseErrorKind::UnexpectedCharacter)));
    assert_eq!(css("a { x: }").err(), Some(error(7, ParseErrorKind::UnexpectedCharacter)));
    assert_eq!(css("a { x: 1.2.3px; }").err(), Some(error(10, ParseErrorKind::MalformedNumber)));
    assert_eq!(css("a { x: 1..px; }").err(), Some(error(9, ParseErrorKind::MalformedNumber)));
    assert_eq!(css("a { x: 10en; }").err(), Some(error(9, ParseErrorKind::UnknownUnit)));
    assert_eq!(css("a { x: 10; }").err(), Some(error(9, ParseErrorKind::UnknownUnit)));
    assert_eq!(css("a { x: 10pxx; }").err(), Some(error(9, ParseErrorKind::UnknownUnit)));
    assert_eq!(css("a { x: #12345g; }").err(), Some(error(13, ParseErrorKind::MalformedColor)));
    assert_eq!(css("a { x: #+f0000; }").err(), Some(error(8, ParseErrorKind::MalformedColor)));
    assert_eq!(css("a { x: #1234").err(), Some(error(12, ParseErrorKind::UnexpectedEnd)));
    assert_eq!(css("a { x: #123456").err(), Some(error(14, ParseErrorKind::UnexpectedEnd)));
    assert_eq!(css("a { x: y").err(), Some(error(8, ParseErrorKind::UnexpectedEnd)));
    assert_eq!(css("a {} }").err(), Some(error(5, ParseErrorKind::UnexpectedCharacter)));
    assert_eq!(css("a, {} ,").err(), Some(error(7, ParseErrorKind::UnexpectedEnd)));
    assert_eq!(css("a {} ;").err(), Some(error(5, ParseErrorKind::UnexpectedCharacter)));
}

#[test]
fn identifier_characters() {
    for c in ['a', 'z', 'A', 'Z', '0', '9', '-', '_'] {
        assert!(toy_browser::css::valid_identifier_char(c));
    }
    for c in [' ', '.', '#', '{', ':', ';', 'é', '*', ','] {
        assert!(!toy_browser::css::valid_identifier_char(c));
    }
}

#[test]
fn the_characters_of_a_string() {
    assert_eq!(toy_browser::text::chars_of("aé日"), vec!['a', 'é', '日']);
    assert_eq!(toy_browser::text::chars_of(""), Vec::<char>::new());
}
