//! The markup parser: it reads a document tree from a text of nested
//! elements, as in `<div id="a"><p>text</p></div>`.

use crate::dom::{
    attributes_model, elem, nodes_model, text, AttrMap, Node, NodeModel, NodeTypeModel,
};
use crate::error::{error_at, ParseError, ParseErrorKind};
use crate::source::{
    expect_char, has_prefix_at, lemma_run_is, lemma_run_length, run_length, skip_white_space,
    then_char, SourceHelper,
};
use crate::string_map::StringMap;
use crate::text::is_white_space;
use vstd::prelude::*;

verus! {

/// A letter of the Latin alphabet or a digit: what tag names and attribute
/// names are made of.
pub open spec fn is_tag_char(c: char) -> bool {
    ('a' <= c <= 'z') || ('A' <= c <= 'Z') || ('0' <= c <= '9')
}

/// Tells whether a character may stand in a tag name.
fn tag_char(c: char) -> (r: bool)
    ensures
        r == is_tag_char(c),
{
    (c >= 'a' && c <= 'z') || (c >= 'A' && c <= 'Z') || (c >= '0' && c <= '9')
}

/// Tells whether a character goes on a text: any but `<` does.
fn text_char(c: char) -> (r: bool)
    ensures
        r == (c != '<'),
{
    c != '<'
}

/// Tells whether a character goes on a value in double quotation marks.
fn not_double_quote(c: char) -> (r: bool)
    ensures
        r == (c != '"'),
{
    c != '"'
}

/// Tells whether a character goes on a value in single quotation marks.
fn not_single_quote(c: char) -> (r: bool)
    ensures
        r == (c != '\''),
{
    c != '\''
}

/// The place where the name that starts at `pos` ends.
pub open spec fn name_end(input: Seq<char>, pos: int) -> int {
    pos + run_length(input, pos, |c: char| is_tag_char(c))
}

/// The value of an attribute, which starts at `pos` with a quotation mark,
/// single or double, and goes up to the next mark of the same kind; and the
/// place after that mark.
pub open spec fn attr_value_at(input: Seq<char>, pos: int) -> Result<(Seq<char>, int), ParseError> {
    if !(0 <= pos < input.len()) {
        Err(error_at(pos, ParseErrorKind::UnexpectedEnd))
    } else if input[pos] != '"' && input[pos] != '\'' {
        Err(error_at(pos, ParseErrorKind::UnexpectedCharacter))
    } else {
        let quote = input[pos];
        let end = pos + 1 + run_length(input, pos + 1, |c: char| c != quote);
        if end >= input.len() {
            Err(error_at(end, ParseErrorKind::UnexpectedEnd))
        } else {
            Ok((input.subrange(pos + 1, end), end + 1))
        }
    }
}

/// The attribute at `pos`: a name, `=`, and a value in quotation marks; and
/// the place after it.
pub open spec fn attribute_at(input: Seq<char>, pos: int) -> Result<
    ((Seq<char>, Seq<char>), int),
    ParseError,
> {
    let end = name_end(input, pos);
    match expect_char(input, end, '=') {
        Err(e) => Err(e),
        Ok(after) => match attr_value_at(input, after) {
            Err(e) => Err(e),
            Ok((value, next)) => Ok(((input.subrange(pos, end), value), next)),
        },
    }
}

/// An attribute ends within the text, after where it starts.
pub proof fn lemma_attribute_advances(input: Seq<char>, pos: int)
    requires
        0 <= pos <= input.len(),
    ensures
        attribute_at(input, pos) matches Ok((_, next)) ==> pos < next <= input.len(),
{
    lemma_run_length(input, pos, |c: char| is_tag_char(c));
    let end = name_end(input, pos);
    if expect_char(input, end, '=') is Ok && 0 <= end + 1 < input.len() {
        let quote = input[end + 1];
        lemma_run_length(input, end + 2, |c: char| c != quote);
    }
}

/// The attributes of an opening tag from `pos` on, added to `found` in
/// order, a later attribute in place of an earlier one of the same name;
/// and the place of the `>` that ends the tag.
pub open spec fn attributes_at(
    input: Seq<char>,
    pos: int,
    found: Map<Seq<char>, Seq<char>>,
) -> Result<(Map<Seq<char>, Seq<char>>, int), ParseError>
    decreases input.len() - pos,
{
    let start = skip_white_space(input, pos);
    if !(0 <= pos <= start < input.len()) {
        Err(error_at(start, ParseErrorKind::UnexpectedEnd))
    } else if input[start] == '>' {
        Ok((found, start))
    } else {
        match attribute_at(input, start) {
            Err(e) => Err(e),
            Ok(((name, value), next)) => {
                proof {
                    lemma_attribute_advances(input, start);
                }
                attributes_at(input, next, found.insert(name, value))
            },
        }
    }
}

/// The attributes end at a `>` within the text.
pub proof fn lemma_attributes_end(input: Seq<char>, pos: int, found: Map<Seq<char>, Seq<char>>)
    requires
        0 <= pos <= input.len(),
    ensures
        attributes_at(input, pos, found) matches Ok((_, end)) ==> pos <= end < input.len()
            && input[end] == '>',
    decreases input.len() - pos,
{
    lemma_run_length(input, pos, |c: char| is_white_space(c));
    let start = skip_white_space(input, pos);
    if start < input.len() && input[start] != '>' {
        lemma_attribute_advances(input, start);
        match attribute_at(input, start) {
            Ok(((name, value), next)) => {
                lemma_attributes_end(input, next, found.insert(name, value));
            },
            Err(_) => {},
        }
    }
}

/// The text node at `pos`, which goes up to the next `<` or to the end of
/// the text; and the place where it ends.
pub open spec fn text_at(input: Seq<char>, pos: int) -> (NodeModel, int) {
    let end = pos + run_length(input, pos, |c: char| c != '<');
    (
        NodeModel { node_type: NodeTypeModel::Text(input.subrange(pos, end)), children: Seq::empty() },
        end,
    )
}

/// The element at `pos`: an opening tag with its attributes, the nodes that
/// the element holds, and a closing tag of the same name; and the place
/// after the closing tag.
pub open spec fn element_at(input: Seq<char>, pos: int) -> Result<(NodeModel, int), ParseError>
    decreases input.len() - pos, 0int,
{
    match expect_char(input, pos, '<') {
        Err(e) => Err(e),
        Ok(name_start) => {
            let tag_end = name_end(input, name_start);
            let tag_name = input.subrange(name_start, tag_end);
            proof {
                lemma_run_length(input, name_start, |c: char| is_tag_char(c));
                lemma_attributes_end(input, tag_end, Map::empty());
            }
            match attributes_at(input, tag_end, Map::empty()) {
                Err(e) => Err(e),
                Ok((attributes, close)) => match nodes_at(input, close + 1, Seq::empty()) {
                    Err(e) => Err(e),
                    Ok((children, after)) => match then_char(
                        input,
                        expect_char(input, after, '<'),
                        '/',
                    ) {
                        Err(e) => Err(e),
                        Ok(closing) => {
                            let closing_end = name_end(input, closing);
                            if input.subrange(closing, closing_end) != tag_name {
                                Err(error_at(closing, ParseErrorKind::MismatchedClosingTag))
                            } else {
                                match expect_char(input, closing_end, '>') {
                                    Err(e) => Err(e),
                                    Ok(next) => Ok(
                                        (
                                            NodeModel {
                                                node_type: NodeTypeModel::Element {
                                                    tag_name: tag_name,
                                                    attributes: attributes,
                                                },
                                                children: children,
                                            },
                                            next,
                                        ),
                                    ),
                                }
                            }
                        },
                    },
                },
            }
        },
    }
}

/// The nodes from `pos` on, added to `found` in order, up to the end of the
/// text or to a closing tag; and the place where they end. White space
/// before a node is passed over. A node is an element where it starts with
/// `<`, and a text otherwise.
pub open spec fn nodes_at(input: Seq<char>, pos: int, found: Seq<NodeModel>) -> Result<
    (Seq<NodeModel>, int),
    ParseError,
>
    decreases input.len() - pos, 1int,
{
    let start = skip_white_space(input, pos);
    if !(0 <= pos <= start < input.len()) || has_prefix_at(input, start, "</"@) {
        Ok((found, start))
    } else if input[start] == '<' {
        match element_at(input, start) {
            Err(e) => Err(e),
            Ok((node, next)) => if start < next <= input.len() {
                nodes_at(input, next, found.push(node))
            } else {
                Ok((found.push(node), next))
            },
        }
    } else {
        let (node, next) = text_at(input, start);
        proof {
            lemma_run_length(input, start, |c: char| c != '<');
        }
        nodes_at(input, next, found.push(node))
    }
}

/// The document that a text stands for: the one node that it holds, or,
/// where it holds none or several, an element `html` without attributes
/// that holds them.
pub open spec fn document(input: Seq<char>) -> Result<NodeModel, ParseError> {
    match nodes_at(input, 0, Seq::empty()) {
        Err(e) => Err(e),
        Ok((nodes, _)) => if nodes.len() == 1 {
            Ok(nodes[0])
        } else {
            Ok(
                NodeModel {
                    node_type: NodeTypeModel::Element {
                        tag_name: "html"@,
                        attributes: Map::empty(),
                    },
                    children: nodes,
                },
            )
        },
    }
}


/// An element ends within the text, after where it starts, and a list of
/// nodes ends within the text.
pub proof fn lemma_nodes_end(input: Seq<char>, pos: int, found: Seq<NodeModel>, rank: int)
    requires
        0 <= pos <= input.len(),
        rank == 0 || rank == 1,
    ensures
        rank == 0 ==> (element_at(input, pos) matches Ok((_, next)) ==> pos < next <= input.len()),
        rank == 1 ==> (nodes_at(input, pos, found) matches Ok((_, end)) ==> pos <= end
            <= input.len()),
    decreases input.len() - pos, rank,
{
    if rank == 0 {
        match expect_char(input, pos, '<') {
            Err(_) => {},
            Ok(name_start) => {
                let tag_end = name_end(input, name_start);
                lemma_run_length(input, name_start, |c: char| is_tag_char(c));
                lemma_attributes_end(input, tag_end, Map::empty());
                match attributes_at(input, tag_end, Map::empty()) {
                    Err(_) => {},
                    Ok((attributes, close)) => {
                        lemma_nodes_end(input, close + 1, Seq::empty(), 1);
                        match nodes_at(input, close + 1, Seq::empty()) {
                            Err(_) => {},
                            Ok((children, after)) => {
                                match then_char(input, expect_char(input, after, '<'), '/') {
                                    Err(_) => {},
                                    Ok(closing) => {
                                        lemma_run_length(input, closing, |c: char| is_tag_char(c));
                                    },
                                }
                            },
                        }
                    },
                }
            },
        }
    } else {
        lemma_run_length(input, pos, |c: char| is_white_space(c));
        let start = skip_white_space(input, pos);
        if !(start < input.len()) || has_prefix_at(input, start, "</"@) {
        } else if input[start] == '<' {
            lemma_nodes_end(input, start, Seq::empty(), 0);
            match element_at(input, start) {
                Err(_) => {},
                Ok((node, next)) => {
                    lemma_nodes_end(input, next, found.push(node), 1);
                },
            }
        } else {
            let (node, next) = text_at(input, start);
            lemma_run_length(input, start, |c: char| c != '<');
            lemma_nodes_end(input, next, found.push(node), 1);
        }
    }
}

/// The state of the markup parser.
struct HtmlParser {
    source_helper: SourceHelper,
}

impl HtmlParser {
    spec fn input(&self) -> Seq<char> {
        self.source_helper.input@
    }

    spec fn pos(&self) -> int {
        self.source_helper.pos as int
    }

    spec fn wf(&self) -> bool {
        self.source_helper.wf()
    }

    /// Reads a tag name or an attribute name: letters and digits.
    fn parse_tag_name(&mut self) -> (name: String)
        requires
            old(self).wf(),
        ensures
            final(self).wf(),
            final(self).input() == old(self).input(),
            final(self).pos() == name_end(old(self).input(), old(self).pos()),
            name@ == old(self).input().subrange(old(self).pos(), final(self).pos()),
    {
        let name = self.source_helper.consume_while(
            tag_char,
        );
        proof {
            lemma_run_is(old(self).input(), old(self).pos(), self.pos(), |c: char| is_tag_char(c));
        }
        name
    }

    /// Reads a text node.
    fn parse_text(&mut self) -> (node: Node)
        requires
            old(self).wf(),
        ensures
            final(self).wf(),
            final(self).input() == old(self).input(),
            (node@, final(self).pos()) == text_at(old(self).input(), old(self).pos()),
    {
        let data = self.source_helper.consume_while(
            text_char,
        );
        proof {
            lemma_run_is(old(self).input(), old(self).pos(), self.pos(), |c: char| c != '<');
        }
        let node = text(data);
        assert(node@.children =~= Seq::empty());
        node
    }

    /// Reads the value of an attribute, in single or double quotation
    /// marks.
    fn parse_attr_value(&mut self) -> (r: Result<String, ParseError>)
        requires
            old(self).wf(),
        ensures
            final(self).wf(),
            final(self).input() == old(self).input(),
            match r {
                Ok(value) => attr_value_at(old(self).input(), old(self).pos()) == Ok::<
                    (Seq<char>, int),
                    ParseError,
                >((value@, final(self).pos())),
                Err(e) => attr_value_at(old(self).input(), old(self).pos()) == Err::<
                    (Seq<char>, int),
                    ParseError,
                >(e),
            },
    {
        if self.source_helper.eof() {
            return Err(
                ParseError { position: self.source_helper.pos, kind: ParseErrorKind::UnexpectedEnd },
            );
        }
        let quote = self.source_helper.next_char();
        if quote != '"' && quote != '\'' {
            return Err(
                ParseError {
                    position: self.source_helper.pos,
                    kind: ParseErrorKind::UnexpectedCharacter,
                },
            );
        }
        self.source_helper.consume_char();
        let value = if quote == '"' {
            self.source_helper.consume_while(not_double_quote)
        } else {
            self.source_helper.consume_while(not_single_quote)
        };
        proof {
            lemma_run_is(
                old(self).input(),
                old(self).pos() + 1,
                self.pos(),
                |c: char| c != quote,
            );
        }
        if self.source_helper.eof() {
            return Err(
                ParseError { position: self.source_helper.pos, kind: ParseErrorKind::UnexpectedEnd },
            );
        }
        self.source_helper.consume_char();
        Ok(value)
    }

    /// Reads an attribute: a name, `=`, and a value.
    fn parse_attribute(&mut self) -> (r: Result<(String, String), ParseError>)
        requires
            old(self).wf(),
        ensures
            final(self).wf(),
            final(self).input() == old(self).input(),
            match r {
                Ok(pair) => attribute_at(old(self).input(), old(self).pos()) == Ok::<
                    ((Seq<char>, Seq<char>), int),
                    ParseError,
                >(((pair.0@, pair.1@), final(self).pos())),
                Err(e) => attribute_at(old(self).input(), old(self).pos()) == Err::<
                    ((Seq<char>, Seq<char>), int),
                    ParseError,
                >(e),
            },
    {
        let name = self.parse_tag_name();
        self.source_helper.expect('=')?;
        match self.parse_attr_value() {
            Err(e) => Err(e),
            Ok(value) => Ok((name, value)),
        }
    }

    /// Reads the attributes of an opening tag, up to its `>`.
    fn parse_attributes(&mut self) -> (r: Result<AttrMap, ParseError>)
        requires
            old(self).wf(),
        ensures
            final(self).wf(),
            final(self).input() == old(self).input(),
            match r {
                Ok(attributes) => attributes_at(old(self).input(), old(self).pos(), Map::empty())
                    == Ok::<(Map<Seq<char>, Seq<char>>, int), ParseError>(
                    (attributes_model(attributes), final(self).pos()),
                ),
                Err(e) => attributes_at(old(self).input(), old(self).pos(), Map::empty()) == Err::<
                    (Map<Seq<char>, Seq<char>>, int),
                    ParseError,
                >(e),
            },
    {
        let mut attributes: AttrMap = StringMap::new();
        assert(attributes_model(attributes) =~= Map::empty());
        loop
            invariant
                self.wf(),
                self.input() == old(self).input(),
                attributes_at(old(self).input(), old(self).pos(), Map::empty()) == attributes_at(
                    self.input(),
                    self.pos(),
                    attributes_model(attributes),
                ),
            decreases self.input().len() - self.pos(),
        {
            let ghost before = self.pos();
            self.source_helper.consume_whitespace();
            proof {
                lemma_run_length(self.input(), before, |c: char| is_white_space(c));
            }
            if self.source_helper.eof() {
                return Err(
                    ParseError {
                        position: self.source_helper.pos,
                        kind: ParseErrorKind::UnexpectedEnd,
                    },
                );
            }
            if self.source_helper.next_char() == '>' {
                return Ok(attributes);
            }
            let ghost start = self.pos();
            proof {
                lemma_attribute_advances(self.input(), start);
            }
            match self.parse_attribute() {
                Err(e) => {
                    return Err(e);
                },
                Ok(pair) => {
                    let ghost held = attributes_model(attributes);
                    let (name, value) = pair;
                    attributes.insert(name, value);
                    assert(attributes_model(attributes) =~= held.insert(name@, value@));
                },
            }
        }
    }

    /// Reads an element: its opening tag, what it holds, and its closing
    /// tag.
    fn parse_element(&mut self) -> (r: Result<Node, ParseError>)
        requires
            old(self).wf(),
        ensures
            final(self).wf(),
            final(self).input() == old(self).input(),
            match r {
                Ok(node) => element_at(old(self).input(), old(self).pos()) == Ok::<
                    (NodeModel, int),
                    ParseError,
                >((node@, final(self).pos())) && final(self).pos() > old(self).pos(),
                Err(e) => element_at(old(self).input(), old(self).pos()) == Err::<
                    (NodeModel, int),
                    ParseError,
                >(e),
            },
        decreases old(self).input().len() - old(self).pos(), 0int,
    {
        self.source_helper.expect('<')?;
        let tag_name = self.parse_tag_name();
        let attributes = self.parse_attributes()?;
        proof {
            lemma_run_length(old(self).input(), old(self).pos() + 1, |c: char| is_tag_char(c));
            lemma_attributes_end(
                old(self).input(),
                name_end(old(self).input(), old(self).pos() + 1),
                Map::empty(),
            );
        }
        let ghost tag_close = self.pos();
        self.source_helper.consume_char();
        let children = self.parse_nodes()?;
        self.source_helper.expect('<')?;
        self.source_helper.expect('/')?;
        let closing_at = self.source_helper.pos;
        let closing = self.parse_tag_name();
        if !closing.eq(&tag_name) {
            return Err(
                ParseError { position: closing_at, kind: ParseErrorKind::MismatchedClosingTag },
            );
        }
        self.source_helper.expect('>')?;
        let node = elem(tag_name, attributes, children);
        proof {
            assert(node@.children =~= nodes_model(children@));
            let input = old(self).input();
            lemma_nodes_end(input, tag_close + 1, Seq::empty(), 1);
            lemma_run_length(input, closing_at as int, |c: char| is_tag_char(c));
        }
        Ok(node)
    }

    /// Reads a node: an element where the text goes on with `<`, and a text
    /// otherwise.
    fn parse_node(&mut self) -> (r: Result<Node, ParseError>)
        requires
            old(self).wf(),
            old(self).pos() < old(self).input().len(),
        ensures
            final(self).wf(),
            final(self).input() == old(self).input(),
            match r {
                Ok(node) => final(self).pos() > old(self).pos() && (if old(self).input()[old(
                    self,
                ).pos()] == '<' {
                    element_at(old(self).input(), old(self).pos()) == Ok::<
                        (NodeModel, int),
                        ParseError,
                    >((node@, final(self).pos()))
                } else {
                    (node@, final(self).pos()) == text_at(old(self).input(), old(self).pos())
                }),
                Err(e) => old(self).input()[old(self).pos()] == '<' && element_at(
                    old(self).input(),
                    old(self).pos(),
                ) == Err::<(NodeModel, int), ParseError>(e),
            },
        decreases old(self).input().len() - old(self).pos(), 1int,
    {
        if self.source_helper.next_char() == '<' {
            self.parse_element()
        } else {
            proof {
                lemma_run_length(self.input(), self.pos(), |c: char| c != '<');
            }
            Ok(self.parse_text())
        }
    }

    /// Reads nodes up to the end of the text or to a closing tag.
    fn parse_nodes(&mut self) -> (r: Result<Vec<Node>, ParseError>)
        requires
            old(self).wf(),
        ensures
            final(self).wf(),
            final(self).input() == old(self).input(),
            match r {
                Ok(nodes) => nodes_at(old(self).input(), old(self).pos(), Seq::empty()) == Ok::<
                    (Seq<NodeModel>, int),
                    ParseError,
                >((nodes_model(nodes@), final(self).pos())),
                Err(e) => nodes_at(old(self).input(), old(self).pos(), Seq::empty()) == Err::<
                    (Seq<NodeModel>, int),
                    ParseError,
                >(e),
            },
        decreases old(self).input().len() - old(self).pos(), 2int,
    {
        let mut nodes: Vec<Node> = Vec::new();
        assert(nodes_model(nodes@) =~= Seq::empty());
        loop
            invariant
                self.wf(),
                self.input() == old(self).input(),
                old(self).pos() <= self.pos(),
                nodes_at(old(self).input(), old(self).pos(), Seq::empty()) == nodes_at(
                    self.input(),
                    self.pos(),
                    nodes_model(nodes@),
                ),
            decreases self.input().len() - self.pos(),
        {
            let ghost before = self.pos();
            self.source_helper.consume_whitespace();
            proof {
                lemma_run_length(self.input(), before, |c: char| is_white_space(c));
            }
            if self.source_helper.eof() || self.source_helper.starts_with("</") {
                return Ok(nodes);
            }
            let ghost held = nodes_model(nodes@);
            match self.parse_node() {
                Err(e) => {
                    return Err(e);
                },
                Ok(node) => {
                    nodes.push(node);
                    assert(nodes_model(nodes@) =~= held.push(node@));
                },
            }
        }
    }
}

/// Reads the document that a text stands for.
pub fn parse(source: String) -> (r: Result<Node, ParseError>)
    ensures
        match r {
            Ok(node) => document(source@) == Ok::<NodeModel, ParseError>(node@),
            Err(e) => document(source@) == Err::<NodeModel, ParseError>(e),
        },
{
    let mut parser = HtmlParser { source_helper: SourceHelper::new(source.as_str()) };
    let mut nodes = parser.parse_nodes()?;
    if nodes.len() == 1 {
        let node = nodes.swap_remove(0);
        Ok(node)
    } else {
        let ghost held = nodes_model(nodes@);
        let attributes: AttrMap = StringMap::new();
        assert(attributes_model(attributes) =~= Map::empty());
        let node = elem("html".to_string(), attributes, nodes);
        proof {
            assert(node@.children =~= held);
        }
        Ok(node)
    }
}

} // verus!
