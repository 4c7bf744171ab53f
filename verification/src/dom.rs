//! The document tree: elements with a tag name and attributes, and text.

use crate::string_map::StringMap;
use vstd::prelude::*;

verus! {

/// The attributes of an element, by name.
pub type AttrMap = StringMap<String>;

/// A node of the document tree.
#[derive(Debug)]
pub struct Node {
    pub node_type: NodeType,
    pub children: Vec<Node>,
}

/// What a node is: an element or a text.
#[derive(Debug)]
pub enum NodeType {
    Element(ElementData),
    Text(String),
}

/// The tag name and the attributes of an element.
#[derive(Debug)]
pub struct ElementData {
    pub tag_name: String,
    pub attributes: AttrMap,
}

/// A text node. It has no children.
pub fn text(data: String) -> (node: Node)
    ensures
        node.node_type == NodeType::Text(data),
        node.children@ == Seq::<Node>::empty(),
{
    Node { node_type: NodeType::Text(data), children: Vec::new() }
}

/// An element node with the given tag name, attributes and children.
pub fn elem(name: String, attrs: AttrMap, children: Vec<Node>) -> (node: Node)
    ensures
        node.node_type == NodeType::Element(ElementData { tag_name: name, attributes: attrs }),
        node.children == children,
{
    Node {
        node_type: NodeType::Element(ElementData { tag_name: name, attributes: attrs }),
        children: children,
    }
}

/// The pieces into which the spaces of `s` cut it, in order. A string
/// without a space is one piece; two adjacent spaces enclose an empty piece.
pub open spec fn split_on_spaces(s: Seq<char>) -> Seq<Seq<char>>
    decreases s.len(),
{
    if s.len() == 0 {
        seq![Seq::<char>::empty()]
    } else {
        let before = split_on_spaces(s.drop_last());
        if s.last() == ' ' {
            before.push(Seq::<char>::empty())
        } else {
            before.drop_last().push(before.last().push(s.last()))
        }
    }
}

/// The pieces joined again, with one space between neighbours.
pub open spec fn join_with_spaces(pieces: Seq<Seq<char>>) -> Seq<char>
    decreases pieces.len(),
{
    if pieces.len() == 0 {
        Seq::<char>::empty()
    } else if pieces.len() == 1 {
        pieces[0]
    } else {
        join_with_spaces(pieces.drop_last()).push(' ') + pieces.last()
    }
}

/// Splitting loses nothing: there is at least one piece, no piece holds a
/// space, and the pieces joined by spaces give the string back.
pub proof fn lemma_split_on_spaces(s: Seq<char>)
    ensures
        split_on_spaces(s).len() >= 1,
        forall|i: int| 0 <= i < split_on_spaces(s).len() ==> !(#[trigger] split_on_spaces(s)[i]).contains(' '),
        join_with_spaces(split_on_spaces(s)) == s,
    decreases s.len(),
{
    let pieces = split_on_spaces(s);
    if s.len() == 0 {
        assert(pieces[0] =~= Seq::<char>::empty());
        assert(join_with_spaces(pieces) =~= s);
    } else {
        let t = s.drop_last();
        let before = split_on_spaces(t);
        lemma_split_on_spaces(t);
        if s.last() == ' ' {
            assert(pieces.drop_last() =~= before);
            assert(join_with_spaces(pieces) =~= t.push(' '));
            assert(t.push(' ') =~= s);
        } else {
            let grown = before.last().push(s.last());
            assert forall|i: int| 0 <= i < pieces.len() implies !(#[trigger] pieces[i]).contains(' ') by {
                if i == pieces.len() - 1 {
                    if grown.contains(' ') {
                        let k = choose|k: int| 0 <= k < grown.len() && grown[k] == ' ';
                        assert(before.last()[k] == ' ');
                        assert(before.last().contains(' '));
                    }
                } else {
                    assert(pieces[i] == before[i]);
                }
            }
            if before.len() == 1 {
                assert(before[0] == t);
                assert(grown =~= s);
                assert(join_with_spaces(pieces) =~= s);
            } else {
                assert(pieces.drop_last() =~= before.drop_last());
                assert(join_with_spaces(before) == join_with_spaces(before.drop_last()).push(' ')
                    + before.last());
                assert(join_with_spaces(pieces) =~= join_with_spaces(before).push(s.last()));
                assert(t.push(s.last()) =~= s);
            }
        }
    }
}

/// The characters of each string of a list.
pub open spec fn strings_view(v: Seq<String>) -> Seq<Seq<char>> {
    v.map_values(|s: String| s@)
}

impl ElementData {
    /// The classes that the element lists in its `class` attribute, cut at
    /// the spaces; none where it has no such attribute.
    pub open spec fn class_list(&self) -> Seq<Seq<char>> {
        if self.attributes@.contains_key("class"@) {
            split_on_spaces(self.attributes@["class"@]@)
        } else {
            Seq::empty()
        }
    }

    /// The value of the `id` attribute.
    pub fn id(&self) -> (r: Option<&String>)
        ensures
            match r {
                Some(s) => self.attributes@.contains_key("id"@) && *s == self.attributes@["id"@],
                None => !self.attributes@.contains_key("id"@),
            },
    {
        self.attributes.get("id")
    }

    /// The classes of the element, in the order in which its `class`
    /// attribute lists them.
    pub fn classes(&self) -> (r: Vec<String>)
        ensures
            strings_view(r@) == self.class_list(),
    {
        let mut pieces: Vec<String> = Vec::new();
        match self.attributes.get("class") {
            Some(list) => {
                let mut current = String::new();
                for c in it: list.as_str().chars()
                    invariant
                        it.seq() == list@,
                        strings_view(pieces@).push(current@) == split_on_spaces(
                            list@.take(it.index() as int),
                        ),
                {
                    let ghost seen = list@.take(it.index() as int);
                    let ghost before = split_on_spaces(seen);
                    proof {
                        assert(list@.take(it.index() + 1).drop_last() =~= seen);
                        assert(before.last() == current@);
                        assert(before.drop_last() =~= strings_view(pieces@));
                    }
                    if c == ' ' {
                        pieces.push(current);
                        current = String::new();
                        proof {
                            assert(strings_view(pieces@) =~= before);
                        }
                    } else {
                        current.push(c);
                    }
                }
                assert(list@.take(list@.len() as int) =~= list@);
                pieces.push(current);
                assert(strings_view(pieces@) =~= split_on_spaces(list@));
            },
            None => {
                assert(strings_view(pieces@) =~= Seq::<Seq<char>>::empty());
            },
        }
        pieces
    }
}


/// What a node is, as a value.
pub ghost enum NodeTypeModel {
    Element { tag_name: Seq<char>, attributes: Map<Seq<char>, Seq<char>> },
    Text(Seq<char>),
}

/// A document tree as a value.
pub ghost struct NodeModel {
    pub node_type: NodeTypeModel,
    pub children: Seq<NodeModel>,
}

/// The attributes as a map from names to values.
pub open spec fn attributes_model(attributes: AttrMap) -> Map<Seq<char>, Seq<char>> {
    Map::new(
        |name: Seq<char>| attributes@.contains_key(name),
        |name: Seq<char>| attributes@[name]@,
    )
}

/// The value of a node type.
pub open spec fn node_type_model(node_type: NodeType) -> NodeTypeModel {
    match node_type {
        NodeType::Element(elem) => NodeTypeModel::Element {
            tag_name: elem.tag_name@,
            attributes: attributes_model(elem.attributes),
        },
        NodeType::Text(data) => NodeTypeModel::Text(data@),
    }
}

/// The value of a document tree.
pub open spec fn node_model(node: Node) -> NodeModel
    decreases node,
{
    NodeModel {
        node_type: node_type_model(node.node_type),
        children: Seq::new(
            node.children.len() as nat,
            |i: int|
                if 0 <= i < node.children.len() {
                    node_model(node.children[i])
                } else {
                    arbitrary()
                },
        ),
    }
}

impl View for Node {
    type V = NodeModel;

    open spec fn view(&self) -> NodeModel {
        node_model(*self)
    }
}

/// The values of the nodes of a list.
pub open spec fn nodes_model(nodes: Seq<Node>) -> Seq<NodeModel> {
    nodes.map_values(|node: Node| node@)
}

} // verus!
