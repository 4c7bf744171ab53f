//! The box tree and the block box model: which boxes a style tree gives
//! rise to, and where each of them comes to lie.

use crate::css::{Unit, Value};
use crate::px::{clamp_px, modest, px, saturate};
use crate::style::{display_in, value_or, Display, StyleNode};
use vstd::prelude::*;

verus! {

/// A rectangle, in layout units.
#[derive(Clone, Copy, Debug, PartialEq, Eq, Structural)]
pub struct Rect {
    pub x: i64,
    pub y: i64,
    pub width: i64,
    pub height: i64,
}

/// The content rectangle of a box and the edges around it.
#[derive(Clone, Copy, Debug, PartialEq, Eq, Structural)]
pub struct Dimensions {
    pub content: Rect,
    pub padding: EdgeSizes,
    pub margin: EdgeSizes,
    pub border: EdgeSizes,
}

/// The sizes of the four sides of an edge, in layout units.
#[derive(Clone, Copy, Debug, PartialEq, Eq, Structural)]
pub struct EdgeSizes {
    pub left: i64,
    pub right: i64,
    pub top: i64,
    pub bottom: i64,
}

impl Default for Rect {
    fn default() -> (r: Rect)
        ensures
            r == (Rect { x: 0, y: 0, width: 0, height: 0 }),
    {
        Rect { x: 0, y: 0, width: 0, height: 0 }
    }
}

impl Default for EdgeSizes {
    fn default() -> (r: EdgeSizes)
        ensures
            r == (EdgeSizes { left: 0, right: 0, top: 0, bottom: 0 }),
    {
        EdgeSizes { left: 0, right: 0, top: 0, bottom: 0 }
    }
}

/// The dimensions of a box that has not been laid out: all zero.
pub open spec fn no_dimensions() -> Dimensions {
    Dimensions {
        content: Rect { x: 0, y: 0, width: 0, height: 0 },
        padding: EdgeSizes { left: 0, right: 0, top: 0, bottom: 0 },
        margin: EdgeSizes { left: 0, right: 0, top: 0, bottom: 0 },
        border: EdgeSizes { left: 0, right: 0, top: 0, bottom: 0 },
    }
}

impl Default for Dimensions {
    fn default() -> (r: Dimensions)
        ensures
            r == no_dimensions(),
    {
        Dimensions {
            content: Rect { x: 0, y: 0, width: 0, height: 0 },
            padding: EdgeSizes { left: 0, right: 0, top: 0, bottom: 0 },
            margin: EdgeSizes { left: 0, right: 0, top: 0, bottom: 0 },
            border: EdgeSizes { left: 0, right: 0, top: 0, bottom: 0 },
        }
    }
}

impl Rect {
    /// The rectangle grown by the edge on each side: its origin moves up
    /// and to the left by the top and the left size, and its width and
    /// height grow by both sizes of their direction.
    pub open spec fn grown_by(self, edge: EdgeSizes) -> Rect {
        Rect {
            x: clamp_px(self.x - edge.left) as i64,
            y: clamp_px(self.y - edge.top) as i64,
            width: clamp_px(self.width + edge.left + edge.right) as i64,
            height: clamp_px(self.height + edge.top + edge.bottom) as i64,
        }
    }

    /// The rectangle grown by the edge on each side.
    pub fn expanded_by(self, edge: EdgeSizes) -> (r: Rect)
        ensures
            r == self.grown_by(edge),
    {
        Rect {
            x: saturate(self.x as i128 - edge.left as i128),
            y: saturate(self.y as i128 - edge.top as i128),
            width: saturate(self.width as i128 + edge.left as i128 + edge.right as i128),
            height: saturate(self.height as i128 + edge.top as i128 + edge.bottom as i128),
        }
    }
}

impl Dimensions {
    /// The area that the content and the padding cover.
    pub open spec fn padding_rect(self) -> Rect {
        self.content.grown_by(self.padding)
    }

    /// The area that the content, the padding and the border cover.
    pub open spec fn border_rect(self) -> Rect {
        self.padding_rect().grown_by(self.border)
    }

    /// The area that the content and all three edges cover.
    pub open spec fn margin_rect(self) -> Rect {
        self.border_rect().grown_by(self.margin)
    }

    /// The area covered by the content and the padding.
    pub fn padding_box(self) -> (r: Rect)
        ensures
            r == self.padding_rect(),
    {
        self.content.expanded_by(self.padding)
    }

    /// The area covered by the content, the padding and the border.
    pub fn border_box(self) -> (r: Rect)
        ensures
            r == self.border_rect(),
    {
        self.padding_box().expanded_by(self.border)
    }

    /// The area covered by the content, the padding, the border and the
    /// margin.
    pub fn margin_box(self) -> (r: Rect)
        ensures
            r == self.margin_rect(),
    {
        self.border_box().expanded_by(self.margin)
    }
}

impl EdgeSizes {
    /// All four sizes are modest.
    pub open spec fn modest(self) -> bool {
        modest(self.left as int) && modest(self.right as int) && modest(self.top as int) && modest(
            self.bottom as int,
        )
    }
}

impl Dimensions {
    /// The content rectangle and all the edges are modest.
    pub open spec fn modest(self) -> bool {
        &&& modest(self.content.x as int)
        &&& modest(self.content.y as int)
        &&& modest(self.content.width as int)
        &&& modest(self.content.height as int)
        &&& self.padding.modest()
        &&& self.border.modest()
        &&& self.margin.modest()
    }
}

/// With modest dimensions the margin box lies to the upper left of the
/// content by the three edges of those sides, and is larger than the
/// content by all the edges of each direction.
pub proof fn lemma_margin_box_exact(d: Dimensions)
    requires
        d.modest(),
    ensures
        d.margin_rect().x == d.content.x - d.padding.left - d.border.left - d.margin.left,
        d.margin_rect().y == d.content.y - d.padding.top - d.border.top - d.margin.top,
        d.margin_rect().width == d.content.width + d.padding.left + d.padding.right
            + d.border.left + d.border.right + d.margin.left + d.margin.right,
        d.margin_rect().height == d.content.height + d.padding.top + d.padding.bottom
            + d.border.top + d.border.bottom + d.margin.top + d.margin.bottom,
{
}

/// What a box stands for: a block or an inline node of the style tree, or
/// nothing of its own. An anonymous block only holds a run of inline boxes
/// inside a block.
#[derive(Clone, Copy, Debug)]
pub enum BoxType<'a> {
    BlockNode(&'a StyleNode<'a>),
    InlineNode(&'a StyleNode<'a>),
    AnonymousBlock,
}

/// A box of the layout tree.
#[derive(Debug)]
pub struct LayoutBox<'a> {
    pub dimensions: Dimensions,
    pub box_type: BoxType<'a>,
    pub children: Vec<LayoutBox<'a>>,
}

/// Why a document has no layout.
#[derive(Clone, Copy, Debug, PartialEq, Eq, Structural)]
pub enum LayoutError {
    /// The root of the style tree is not displayed: there is nothing to
    /// render.
    EmptyDocument,
}

/// A box as a value: its dimensions, what it stands for, and its children
/// in order.
pub ghost struct BoxModel<'a> {
    pub dimensions: Dimensions,
    pub box_type: BoxType<'a>,
    pub children: Seq<BoxModel<'a>>,
}

/// The value of a box of the layout tree.
pub open spec fn box_model<'a>(b: LayoutBox<'a>) -> BoxModel<'a>
    decreases b,
{
    BoxModel {
        dimensions: b.dimensions,
        box_type: b.box_type,
        children: Seq::new(
            b.children.len() as nat,
            |i: int|
                if 0 <= i < b.children.len() {
                    box_model(b.children[i])
                } else {
                    arbitrary()
                },
        ),
    }
}

impl<'a> View for LayoutBox<'a> {
    type V = BoxModel<'a>;

    open spec fn view(&self) -> BoxModel<'a> {
        box_model(*self)
    }
}

/// A box without children that has not been laid out.
pub open spec fn fresh_box<'a>(box_type: BoxType<'a>) -> BoxModel<'a> {
    BoxModel { dimensions: no_dimensions(), box_type: box_type, children: Seq::empty() }
}

/// The box with one more child at the end.
pub open spec fn with_child<'a>(b: BoxModel<'a>, child: BoxModel<'a>) -> BoxModel<'a> {
    BoxModel { children: b.children.push(child), ..b }
}

/// The children of a box after `child`, the box of an inline node, has been
/// placed in it. A box that is not a block takes the child itself. A block
/// takes it into the anonymous block at the end of its children, and gets a
/// new one there where its last child is none.
pub open spec fn with_inline_child<'a>(
    box_type: BoxType<'a>,
    children: Seq<BoxModel<'a>>,
    child: BoxModel<'a>,
) -> Seq<BoxModel<'a>> {
    if !(box_type is BlockNode) {
        children.push(child)
    } else if children.len() > 0 && children.last().box_type is AnonymousBlock {
        children.update(children.len() - 1, with_child(children.last(), child))
    } else {
        children.push(with_child(fresh_box(BoxType::AnonymousBlock), child))
    }
}

/// What the box of a displayed style node stands for: a block where the
/// node is displayed as a block, an inline node otherwise.
pub open spec fn box_type_of<'a>(node: &'a StyleNode<'a>) -> BoxType<'a> {
    if display_in(node.specified_values@) == Display::Block {
        BoxType::BlockNode(node)
    } else {
        BoxType::InlineNode(node)
    }
}

/// The box tree of a displayed style node, before it is laid out.
pub open spec fn box_tree<'a>(node: &'a StyleNode<'a>) -> BoxModel<'a>
    decreases *node, node.children.len() + 1,
{
    BoxModel {
        dimensions: no_dimensions(),
        box_type: box_type_of(node),
        children: child_boxes(node, node.children.len() as int),
    }
}

/// The children of the box of `node` once the first `n` children of `node`
/// have been dealt with, in order: a child that is not displayed leaves
/// nothing, the box tree of a block becomes the last child, and the box
/// tree of an inline node is placed as `with_inline_child` says.
pub open spec fn child_boxes<'a>(node: &'a StyleNode<'a>, n: int) -> Seq<BoxModel<'a>>
    decreases *node, n,
{
    if 0 < n <= node.children.len() {
        let before = child_boxes(node, n - 1);
        let child = &node.children[n - 1];
        match display_in(child.specified_values@) {
            Display::Hidden => before,
            Display::Block => before.push(box_tree(child)),
            Display::Inline => with_inline_child(box_type_of(node), before, box_tree(child)),
        }
    } else {
        Seq::empty()
    }
}


impl<'a> LayoutBox<'a> {
    /// A box without children that has not been laid out.
    pub fn new(box_type: BoxType<'a>) -> (b: LayoutBox<'a>)
        ensures
            b@ == fresh_box(box_type),
            b.children@.len() == 0,
    {
        let b = LayoutBox { box_type: box_type, dimensions: Dimensions::default(), children: Vec::new() };
        assert(b@.children =~= Seq::empty());
        b
    }

    /// The style node that the box stands for. An anonymous block has none.
    pub fn get_style_node(&self) -> (node: &'a StyleNode<'a>)
        requires
            !(self.box_type is AnonymousBlock),
        ensures
            self.box_type == BoxType::BlockNode(node) || self.box_type == BoxType::InlineNode(node),
    {
        match self.box_type {
            BoxType::BlockNode(node) => node,
            BoxType::InlineNode(node) => node,
            BoxType::AnonymousBlock => vstd::pervasive::unreached(),
        }
    }

    /// The box that takes the inline children of this box: the box itself
    /// unless it is a block; for a block the anonymous block at the end of
    /// its children, which is added where the last child is none.
    fn get_inline_container(&mut self) -> (container: &mut LayoutBox<'a>)
        ensures
            !(old(self).box_type is BlockNode) ==> *container == *old(self) && *final(self)
                == *final(container),
            old(self).box_type is BlockNode ==> {
                &&& final(self).box_type == old(self).box_type
                &&& final(self).dimensions == old(self).dimensions
                &&& if old(self).children.len() > 0 && old(self).children[old(self).children.len()
                    - 1].box_type is AnonymousBlock {
                    &&& *container == old(self).children[old(self).children.len() - 1]
                    &&& final(self).children@ == old(self).children@.update(
                        old(self).children.len() - 1,
                        *final(container),
                    )
                } else {
                    &&& container@ == fresh_box(BoxType::AnonymousBlock)
                    &&& container.children@.len() == 0
                    &&& final(self).children@ == old(self).children@.push(*final(container))
                }
            },
    {
        match self.box_type {
            BoxType::BlockNode(_) => {
                let n = self.children.len();
                let wrapped = n > 0 && match self.children[n - 1].box_type {
                    BoxType::AnonymousBlock => true,
                    _ => false,
                };
                if !wrapped {
                    self.children.push(LayoutBox::new(BoxType::AnonymousBlock));
                }
                let last = self.children.len() - 1;
                &mut self.children[last]
            },
            _ => self,
        }
    }
}


/// The box tree of a style node that is displayed.
fn build_box<'a>(style_node: &'a StyleNode<'a>) -> (root: LayoutBox<'a>)
    requires
        display_in(style_node.specified_values@) != Display::Hidden,
    ensures
        root@ == box_tree(style_node),
    decreases style_node,
{
    let box_type = match style_node.display() {
        Display::Block => BoxType::BlockNode(style_node),
        _ => BoxType::InlineNode(style_node),
    };
    let mut root = LayoutBox::new(box_type);
    let mut i: usize = 0;
    while i < style_node.children.len()
        invariant
            i <= style_node.children.len(),
            root.box_type == box_type_of(style_node),
            root.dimensions == no_dimensions(),
            root@.children == child_boxes(style_node, i as int),
        decreases style_node.children.len() - i,
    {
        let child = &style_node.children[i];
        let ghost before = root@.children;
        match child.display() {
            Display::Block => {
                let b = build_box(child);
                root.children.push(b);
                assert(root@.children =~= before.push(b@));
            },
            Display::Inline => {
                let b = build_box(child);
                let ghost was_block = root.box_type is BlockNode;
                let ghost wrapped = root.children.len() > 0 && root.children[root.children.len()
                    - 1].box_type is AnonymousBlock;
                let ghost kids = root.children@;
                let container = root.get_inline_container();
                let ghost held = *container;
                container.children.push(b);
                let ghost filled = *container;
                proof {
                    assert(filled@.children =~= held@.children.push(b@));
                    let wanted = with_inline_child(box_type_of(style_node), before, b@);
                    if !was_block {
                        assert(root.children@ == kids.push(b));
                        assert(root@.children =~= wanted);
                    } else if wrapped {
                        assert(root.children@ == kids.update(kids.len() - 1, filled));
                        assert(before.last() == held@);
                        assert(filled@ == with_child(held@, b@));
                        assert(root@.children =~= wanted);
                    } else {
                        assert(root.children@ == kids.push(filled));
                        assert(filled@ == with_child(fresh_box(BoxType::AnonymousBlock), b@));
                        if kids.len() > 0 {
                            assert(before.last() == kids.last()@);
                        }
                        assert(root@.children =~= wanted);
                    }
                }
            },
            Display::Hidden => {},
        }
        i = i + 1;
    }
    root
}

/// The box tree of a style tree, before it is laid out. A root that is not
/// displayed has none.
pub fn build_layout_tree<'a>(style_node: &'a StyleNode<'a>) -> (r: Result<
    LayoutBox<'a>,
    LayoutError,
>)
    ensures
        match r {
            Ok(root) => display_in(style_node.specified_values@) != Display::Hidden && root@
                == box_tree(style_node),
            Err(e) => display_in(style_node.specified_values@) == Display::Hidden && e
                == LayoutError::EmptyDocument,
        },
{
    match style_node.display() {
        Display::Hidden => Err(LayoutError::EmptyDocument),
        _ => Ok(build_box(style_node)),
    }
}


/// The length that a value stands for, or nothing for the keyword `auto`.
pub open spec fn as_length(value: Value) -> Option<int> {
    if value.auto() {
        None
    } else {
        Some(value.units())
    }
}

/// The length of the property `name`, or else of `fallback`, or else zero;
/// nothing where the value found is the keyword `auto`.
pub open spec fn length_of(
    values: Map<Seq<char>, Value>,
    name: Seq<char>,
    fallback: Seq<char>,
) -> Option<int> {
    as_length(value_or(values, name, fallback, Value::Length(0, Unit::Px)))
}

/// The length of the property `name`, or else of `fallback`, or else zero,
/// with `auto` counted as zero.
pub open spec fn edge_of(values: Map<Seq<char>, Value>, name: Seq<char>, fallback: Seq<char>) -> int {
    match length_of(values, name, fallback) {
        Some(n) => n,
        None => 0,
    }
}

/// The declared width; nothing where it is `auto` or not declared.
pub open spec fn width_of(values: Map<Seq<char>, Value>) -> Option<int> {
    if values.contains_key("width"@) {
        as_length(values["width"@])
    } else {
        None
    }
}

/// The declared height, where it is a length.
pub open spec fn height_of(values: Map<Seq<char>, Value>) -> Option<int> {
    if values.contains_key("height"@) {
        match values["height"@] {
            Value::Length(h, Unit::Px) => Some(h as int),
            _ => None,
        }
    } else {
        None
    }
}

/// A length with `auto` counted as zero.
pub open spec fn or_zero(length: Option<int>) -> int {
    match length {
        Some(n) => n,
        None => 0,
    }
}

/// The width and the left and right margin of a block, in this order, in a
/// containing block of width `containing`. `width`, `margin_left` and
/// `margin_right` are the declared lengths, nothing standing for `auto`;
/// `edges` is the sum of the left and right border and padding.
///
/// What the seven horizontal sizes leave of the containing width, or
/// exceed it by, is the underflow. A declared width that makes the sizes
/// exceed the containing width turns `auto` margins into zero. Then: a
/// width that is `auto` takes the underflow, or is zero where the underflow
/// is negative, which the right margin then takes; `auto` margins count as
/// zero beside it. With a declared width, the margin that is `auto` takes
/// the underflow, and with none the underflow is added to the right margin.
/// Two margins that are `auto` share the underflow: each takes half of it,
/// and where it is an odd number of layout units, the smallest length
/// there is, the right margin takes the unit that is left.
pub open spec fn block_width(
    width: Option<int>,
    margin_left: Option<int>,
    margin_right: Option<int>,
    edges: int,
    containing: int,
) -> (int, int, int) {
    let total = or_zero(margin_left) + or_zero(margin_right) + or_zero(width) + edges;
    let underflow = containing - total;
    let exceeds = width is Some && total > containing;
    let left_auto = margin_left is None && !exceeds;
    let right_auto = margin_right is None && !exceeds;
    if width is None {
        if underflow >= 0 {
            (underflow, or_zero(margin_left), or_zero(margin_right))
        } else {
            (0, or_zero(margin_left), or_zero(margin_right) + underflow)
        }
    } else if left_auto && right_auto {
        (or_zero(width), underflow / 2, underflow - underflow / 2)
    } else if left_auto {
        (or_zero(width), underflow, or_zero(margin_right))
    } else if right_auto {
        (or_zero(width), or_zero(margin_left), underflow)
    } else {
        (or_zero(width), or_zero(margin_left), or_zero(margin_right) + underflow)
    }
}

/// The width and the margins fill the containing block: together with the
/// borders and the padding they add up to its width, whatever is declared.
/// A declared width is kept, and a width that is `auto` is not negative.
pub proof fn lemma_block_width_fills(
    width: Option<int>,
    margin_left: Option<int>,
    margin_right: Option<int>,
    edges: int,
    containing: int,
)
    ensures
        ({
            let (w, l, r) = block_width(width, margin_left, margin_right, edges, containing);
            &&& l + r + w + edges == containing
            &&& width is Some ==> w == or_zero(width)
            &&& width is None ==> w >= 0
        }),
{
}

/// A block of declared width between two `auto` margins, in a containing
/// block that has room for it, is centred: the two margins share what the
/// width and the edges leave of the containing width. They are equal where
/// that is an even number of layout units; else the right margin is one
/// unit larger.
pub proof fn lemma_block_width_centres(width: int, edges: int, containing: int)
    requires
        width + edges <= containing,
    ensures
        ({
            let (w, l, r) = block_width(Some(width), None, None, edges, containing);
            let rest = containing - width - edges;
            &&& w == width
            &&& l + r == rest
            &&& 0 <= l <= r <= l + 1
            &&& rest % 2 == 0 ==> l == r
        }),
{
}

/// Between two `auto` margins a block whose width and edges are whole
/// pixels is centred exactly in a containing block of whole pixels: the two
/// margins are equal, and each is half of the pixels that are left.
pub proof fn lemma_whole_pixels_centre_exactly(width: int, edges: int, containing: int)
    requires
        width + edges <= containing,
    ensures
        ({
            let (w, l, r) = block_width(Some(px(width)), None, None, px(edges), px(containing));
            &&& w == px(width)
            &&& l == px(containing - width - edges) / 2
            &&& r == l
            &&& l + r == px(containing - width - edges)
        }),
{
}

/// The sizes that `resolve_block_width` returns.
#[derive(Clone, Copy, Debug, PartialEq, Eq, Structural)]
pub struct BlockWidth {
    pub width: i64,
    pub margin_left: i64,
    pub margin_right: i64,
}

/// The width and the left and right margin of a block whose containing
/// block is `containing` wide, all in layout units. `None` stands for
/// `auto`.
pub fn resolve_block_width(
    width: Option<i64>,
    margin_left: Option<i64>,
    margin_right: Option<i64>,
    border_left: i64,
    border_right: i64,
    padding_left: i64,
    padding_right: i64,
    containing: i64,
) -> (r: BlockWidth)
    ensures
        ({
            let (w, l, r2) = block_width(
                as_int(width),
                as_int(margin_left),
                as_int(margin_right),
                border_left + border_right + padding_left + padding_right,
                containing as int,
            );
            r.width == clamp_px(w) && r.margin_left == clamp_px(l) && r.margin_right == clamp_px(r2)
        }),
{
    let w: i128 = match width {
        Some(n) => n as i128,
        None => 0,
    };
    let mut left: i128 = match margin_left {
        Some(n) => n as i128,
        None => 0,
    };
    let mut right: i128 = match margin_right {
        Some(n) => n as i128,
        None => 0,
    };
    let edges: i128 = border_left as i128 + border_right as i128 + padding_left as i128
        + padding_right as i128;
    let total: i128 = left + right + w + edges;
    let underflow: i128 = containing as i128 - total;
    let exceeds = width.is_some() && total > containing as i128;
    let left_auto = margin_left.is_none() && !exceeds;
    let right_auto = margin_right.is_none() && !exceeds;
    let mut resolved: i128 = w;
    if width.is_none() {
        if underflow >= 0 {
            resolved = underflow;
        } else {
            resolved = 0;
            right = right + underflow;
        }
    } else if left_auto && right_auto {
        left = underflow / 2;
        right = underflow - underflow / 2;
    } else if left_auto {
        left = underflow;
    } else if right_auto {
        right = underflow;
    } else {
        right = right + underflow;
    }
    BlockWidth {
        width: saturate(resolved),
        margin_left: saturate(left),
        margin_right: saturate(right),
    }
}

/// A length that may be absent, as an integer.
pub open spec fn as_int(length: Option<i64>) -> Option<int> {
    match length {
        Some(n) => Some(n as int),
        None => None,
    }
}


/// The values that lay a box out: those of its style node; none for an
/// anonymous block, which is laid out as a block without any declaration.
pub open spec fn values_of(box_type: BoxType) -> Map<Seq<char>, Value> {
    match box_type {
        BoxType::BlockNode(node) => node.specified_values@,
        BoxType::InlineNode(node) => node.specified_values@,
        BoxType::AnonymousBlock => Map::empty(),
    }
}

/// The dimensions after the widths have been resolved in a containing block
/// of width `containing`: the content width and the left and right margin
/// are those of `block_width`, stored as lengths, and the left and
/// right border and padding are the declared ones.
pub open spec fn widened(d: Dimensions, values: Map<Seq<char>, Value>, containing: int) -> Dimensions {
    let border_left = edge_of(values, "border-left-width"@, "border-width"@);
    let border_right = edge_of(values, "border-right-width"@, "border-width"@);
    let padding_left = edge_of(values, "padding-left"@, "padding"@);
    let padding_right = edge_of(values, "padding-right"@, "padding"@);
    let (width, margin_left, margin_right) = block_width(
        width_of(values),
        length_of(values, "margin-left"@, "margin"@),
        length_of(values, "margin-right"@, "margin"@),
        border_left + border_right + padding_left + padding_right,
        containing,
    );
    Dimensions {
        content: Rect { width: clamp_px(width) as i64, ..d.content },
        padding: EdgeSizes { left: padding_left as i64, right: padding_right as i64, ..d.padding },
        border: EdgeSizes { left: border_left as i64, right: border_right as i64, ..d.border },
        margin: EdgeSizes {
            left: clamp_px(margin_left) as i64,
            right: clamp_px(margin_right) as i64,
            ..d.margin
        },
    }
}

/// The dimensions after the box has been placed in its containing block:
/// the top and bottom edges are the declared ones, the content starts to
/// the right of the container's left side by the left margin, border and
/// padding, and below all that the container holds so far by the top margin,
/// border and padding.
pub open spec fn positioned(
    d: Dimensions,
    values: Map<Seq<char>, Value>,
    containing: Dimensions,
) -> Dimensions {
    let margin_top = edge_of(values, "margin-top"@, "margin"@);
    let border_top = edge_of(values, "border-top-width"@, "border-width"@);
    let padding_top = edge_of(values, "padding-top"@, "padding"@);
    Dimensions {
        content: Rect {
            x: clamp_px(containing.content.x + d.margin.left + d.border.left + d.padding.left) as i64,
            y: clamp_px(
                containing.content.y + containing.content.height + margin_top + border_top
                    + padding_top,
            ) as i64,
            ..d.content
        },
        padding: EdgeSizes {
            top: padding_top as i64,
            bottom: edge_of(values, "padding-bottom"@, "padding"@) as i64,
            ..d.padding
        },
        border: EdgeSizes {
            top: border_top as i64,
            bottom: edge_of(values, "border-bottom-width"@, "border-width"@) as i64,
            ..d.border
        },
        margin: EdgeSizes {
            top: margin_top as i64,
            bottom: edge_of(values, "margin-bottom"@, "margin"@) as i64,
            ..d.margin
        },
    }
}

/// The dimensions with another content height.
pub open spec fn with_height(d: Dimensions, height: int) -> Dimensions {
    Dimensions { content: Rect { height: height as i64, ..d.content }, ..d }
}

/// The box after it has been laid out in the containing block. An inline
/// box is left as it is. A block, and an anonymous block likewise, gets its
/// widths, then its position; then its children are laid out in it one
/// below the other; in the end its height is the declared one, or else
/// what the children have added up to.
pub open spec fn laid_out<'a>(b: BoxModel<'a>, containing: Dimensions) -> BoxModel<'a>
    decreases b, 2 * b.children.len() + 2,
{
    if b.box_type is InlineNode {
        b
    } else {
        let values = values_of(b.box_type);
        let placed = positioned(
            widened(b.dimensions, values, containing.content.width as int),
            values,
            containing,
        );
        let grown = running_height(b, placed, b.children.len() as int);
        BoxModel {
            dimensions: with_height(
                placed,
                match height_of(values) {
                    Some(h) => h,
                    None => grown,
                },
            ),
            box_type: b.box_type,
            children: Seq::new(
                b.children.len(),
                |i: int|
                    if 0 <= i < b.children.len() {
                        child_laid_out(b, placed, i)
                    } else {
                        arbitrary()
                    },
            ),
        }
    }
}

/// Child `i` of `b` after it has been laid out in `b`, whose dimensions are
/// `placed` but for the height, which is what the children before it have
/// added up to.
pub open spec fn child_laid_out<'a>(b: BoxModel<'a>, placed: Dimensions, i: int) -> BoxModel<'a>
    recommends
        0 <= i < b.children.len(),
    decreases b, 2 * i + 1,
{
    if 0 <= i < b.children.len() {
        laid_out(b.children[i], with_height(placed, running_height(b, placed, i)))
    } else {
        arbitrary()
    }
}

/// The content height of `b` after its first `n` children have been laid
/// out: the height that `placed` starts with and the heights of their margin
/// boxes.
pub open spec fn running_height<'a>(b: BoxModel<'a>, placed: Dimensions, n: int) -> int
    decreases b, 2 * n,
{
    if 0 < n <= b.children.len() {
        clamp_px(
            running_height(b, placed, n - 1) + child_laid_out(
                b,
                placed,
                n - 1,
            ).dimensions.margin_rect().height,
        )
    } else {
        placed.content.height as int
    }
}


/// The values of a style node, or none where there is no node.
pub open spec fn values_in(style: Option<&StyleNode>) -> Map<Seq<char>, Value> {
    match style {
        Some(node) => node.specified_values@,
        None => Map::empty(),
    }
}

/// The length of the property `name`, or else of `fallback`, or else zero;
/// `None` where the value found is the keyword `auto`.
fn style_length(style: Option<&StyleNode>, name: &str, fallback: &str) -> (r: Option<i64>)
    ensures
        as_int(r) == length_of(values_in(style), name@, fallback@),
{
    match style {
        Some(node) => {
            let zero = Value::Length(0, Unit::Px);
            let value = node.lookup(name, fallback, &zero);
            if value.is_auto() {
                None
            } else {
                Some(value.to_px())
            }
        },
        None => Some(0),
    }
}

/// The length of the property `name`, or else of `fallback`, or else zero,
/// with `auto` counted as zero.
fn style_px(style: Option<&StyleNode>, name: &str, fallback: &str) -> (r: i64)
    ensures
        r == edge_of(values_in(style), name@, fallback@),
{
    match style_length(style, name, fallback) {
        Some(n) => n,
        None => 0,
    }
}

/// The declared width; `None` where it is `auto` or not declared.
fn style_width(style: Option<&StyleNode>) -> (r: Option<i64>)
    ensures
        as_int(r) == width_of(values_in(style)),
{
    match style {
        Some(node) => match node.value("width") {
            Some(value) => {
                if value.is_auto() {
                    None
                } else {
                    Some(value.to_px())
                }
            },
            None => None,
        },
        None => None,
    }
}

impl<'a> LayoutBox<'a> {
    /// The style node whose values lay the box out, if it has one.
    fn style(&self) -> (r: Option<&'a StyleNode<'a>>)
        ensures
            values_in(r) == values_of(self.box_type),
    {
        match self.box_type {
            BoxType::AnonymousBlock => None,
            _ => Some(self.get_style_node()),
        }
    }

    /// Lays the box and all that it holds out in the containing block.
    pub fn layout(&mut self, containing_block: Dimensions)
        ensures
            final(self)@ == laid_out(old(self)@, containing_block),
        decreases old(self).children, 2int,
    {
        match self.box_type {
            BoxType::InlineNode(_) => {},
            _ => self.layout_block(containing_block),
        }
    }

    /// Lays a block out: its widths, its position, its children, its
    /// height.
    fn layout_block(&mut self, containing_block: Dimensions)
        requires
            !(old(self).box_type is InlineNode),
        ensures
            final(self)@ == laid_out(old(self)@, containing_block),
        decreases old(self).children, 1int,
    {
        let ghost before = self@;
        self.calculate_block_width(containing_block);
        self.calculate_block_position(containing_block);
        let ghost placed = self.dimensions;
        proof {
            assert(self@.children =~= before.children);
            assert(self@ == (BoxModel { dimensions: placed, ..before }));
            lemma_children_ignore_dimensions(before, self@, placed, self.children.len() as int);
        }
        self.layout_block_children();
        self.calculate_block_height();
        proof {
            assert(self@.children =~= laid_out(before, containing_block).children);
        }
    }

    /// Resolves the widths of the block in the containing block.
    fn calculate_block_width(&mut self, containing_block: Dimensions)
        ensures
            final(self).dimensions == widened(
                old(self).dimensions,
                values_of(old(self).box_type),
                containing_block.content.width as int,
            ),
            final(self).box_type == old(self).box_type,
            final(self).children == old(self).children,
    {
        let style = self.style();
        let width = style_width(style);
        let margin_left = style_length(style, "margin-left", "margin");
        let margin_right = style_length(style, "margin-right", "margin");
        let border_left = style_px(style, "border-left-width", "border-width");
        let border_right = style_px(style, "border-right-width", "border-width");
        let padding_left = style_px(style, "padding-left", "padding");
        let padding_right = style_px(style, "padding-right", "padding");
        let resolved = resolve_block_width(
            width,
            margin_left,
            margin_right,
            border_left,
            border_right,
            padding_left,
            padding_right,
            containing_block.content.width,
        );
        self.dimensions.content.width = resolved.width;
        self.dimensions.padding.left = padding_left;
        self.dimensions.padding.right = padding_right;
        self.dimensions.border.left = border_left;
        self.dimensions.border.right = border_right;
        self.dimensions.margin.left = resolved.margin_left;
        self.dimensions.margin.right = resolved.margin_right;
    }

    /// Resolves the top and bottom edges of the block and places it in the
    /// containing block, below what that holds so far.
    fn calculate_block_position(&mut self, containing_block: Dimensions)
        ensures
            final(self).dimensions == positioned(
                old(self).dimensions,
                values_of(old(self).box_type),
                containing_block,
            ),
            final(self).box_type == old(self).box_type,
            final(self).children == old(self).children,
    {
        let style = self.style();
        self.dimensions.margin.top = style_px(style, "margin-top", "margin");
        self.dimensions.margin.bottom = style_px(style, "margin-bottom", "margin");
        self.dimensions.padding.top = style_px(style, "padding-top", "padding");
        self.dimensions.padding.bottom = style_px(style, "padding-bottom", "padding");
        self.dimensions.border.top = style_px(style, "border-top-width", "border-width");
        self.dimensions.border.bottom = style_px(style, "border-bottom-width", "border-width");
        self.dimensions.content.x = saturate(
            containing_block.content.x as i128 + self.dimensions.margin.left as i128
                + self.dimensions.border.left as i128 + self.dimensions.padding.left as i128,
        );
        self.dimensions.content.y = saturate(
            containing_block.content.y as i128 + containing_block.content.height as i128
                + self.dimensions.margin.top as i128 + self.dimensions.border.top as i128
                + self.dimensions.padding.top as i128,
        );
    }

    /// Lays the children out in the block, one below the other, and adds
    /// the height of the margin box of each to the content height of the
    /// block.
    fn layout_block_children(&mut self)
        ensures
            final(self).box_type == old(self).box_type,
            final(self).dimensions == with_height(
                old(self).dimensions,
                running_height(old(self)@, old(self).dimensions, old(self).children.len() as int),
            ),
            final(self).children.len() == old(self).children.len(),
            forall|i: int|
                0 <= i < old(self).children.len() ==> (#[trigger] final(self).children[i])@
                    == child_laid_out(old(self)@, old(self).dimensions, i),
        decreases old(self).children, 0int,
    {
        let n = self.children.len();
        let ghost start = *self;
        let ghost model = self@;
        let mut i: usize = 0;
        while i < n
            invariant
                i <= n,
                n == self.children.len(),
                n == start.children.len(),
                start == *old(self),
                model == box_model(start),
                self.box_type == start.box_type,
                self.dimensions == with_height(
                    start.dimensions,
                    running_height(model, start.dimensions, i as int),
                ),
                forall|j: int|
                    0 <= j < i ==> (#[trigger] self.children[j])@ == child_laid_out(
                        model,
                        start.dimensions,
                        j,
                    ),
                forall|j: int| i <= j < n ==> #[trigger] self.children[j] == start.children[j],
            decreases n - i,
        {
            let d = self.dimensions;
            proof {
                assert(model.children[i as int] == start.children[i as int]@);
            }
            self.children[i].layout(d);
            let height = self.children[i].dimensions.margin_box().height;
            self.dimensions.content.height = saturate(
                self.dimensions.content.height as i128 + height as i128,
            );
            i = i + 1;
        }
    }

    /// Gives the block its declared height, where it has one.
    fn calculate_block_height(&mut self)
        ensures
            final(self).dimensions == with_height(
                old(self).dimensions,
                match height_of(values_of(old(self).box_type)) {
                    Some(h) => h,
                    None => old(self).dimensions.content.height as int,
                },
            ),
            final(self).box_type == old(self).box_type,
            final(self).children == old(self).children,
    {
        match self.style() {
            Some(node) => match node.value("height") {
                Some(Value::Length(h, Unit::Px)) => {
                    self.dimensions.content.height = h;
                },
                _ => {},
            },
            None => {},
        }
    }
}

/// How the children of a box are laid out does not depend on the
/// dimensions that the box had before.
pub proof fn lemma_children_ignore_dimensions<'a>(
    a: BoxModel<'a>,
    b: BoxModel<'a>,
    placed: Dimensions,
    n: int,
)
    requires
        a.children == b.children,
        0 <= n <= a.children.len(),
    ensures
        running_height(a, placed, n) == running_height(b, placed, n),
        forall|i: int| 0 <= i < n ==> child_laid_out(a, placed, i) == child_laid_out(b, placed, i),
    decreases n,
{
    if n > 0 {
        lemma_children_ignore_dimensions(a, b, placed, n - 1);
        assert(child_laid_out(a, placed, n - 1) == child_laid_out(b, placed, n - 1));
    }
}

/// The box tree of a style tree, laid out in the containing block. The
/// height that the containing block comes with does not count: the root is
/// placed at its top.
pub fn layout_tree<'a>(node: &'a StyleNode<'a>, containing_block: Dimensions) -> (r: Result<
    LayoutBox<'a>,
    LayoutError,
>)
    ensures
        match r {
            Ok(root) => display_in(node.specified_values@) != Display::Hidden && root@ == laid_out(
                box_tree(node),
                with_height(containing_block, 0),
            ),
            Err(e) => display_in(node.specified_values@) == Display::Hidden && e
                == LayoutError::EmptyDocument,
        },
{
    let mut containing_block = containing_block;
    containing_block.content.height = 0;
    match build_layout_tree(node) {
        Ok(root) => {
            let mut root = root;
            root.layout(containing_block);
            Ok(root)
        },
        Err(e) => Err(e),
    }
}


/// With a modest containing width and modest declared lengths, the widths
/// that a block is given fill its containing block: the two margins, the
/// two borders, the two paddings and the content width add up to the
/// containing width. The borders and the padding are the declared ones.
pub proof fn lemma_widened_fills(d: Dimensions, values: Map<Seq<char>, Value>, containing: int)
    requires
        modest(containing),
        modest(or_zero(width_of(values))),
        modest(edge_of(values, "margin-left"@, "margin"@)),
        modest(edge_of(values, "margin-right"@, "margin"@)),
        modest(edge_of(values, "border-left-width"@, "border-width"@)),
        modest(edge_of(values, "border-right-width"@, "border-width"@)),
        modest(edge_of(values, "padding-left"@, "padding"@)),
        modest(edge_of(values, "padding-right"@, "padding"@)),
    ensures
        ({
            let w = widened(d, values, containing);
            &&& w.margin.left + w.border.left + w.padding.left + w.content.width + w.padding.right
                + w.border.right + w.margin.right == containing
            &&& w.border.left == edge_of(values, "border-left-width"@, "border-width"@)
            &&& w.border.right == edge_of(values, "border-right-width"@, "border-width"@)
            &&& w.padding.left == edge_of(values, "padding-left"@, "padding"@)
            &&& w.padding.right == edge_of(values, "padding-right"@, "padding"@)
            &&& width_of(values) is Some ==> w.content.width == or_zero(width_of(values))
            &&& width_of(values) is None ==> w.content.width >= 0
        }),
{
    let border_left = edge_of(values, "border-left-width"@, "border-width"@);
    let border_right = edge_of(values, "border-right-width"@, "border-width"@);
    let padding_left = edge_of(values, "padding-left"@, "padding"@);
    let padding_right = edge_of(values, "padding-right"@, "padding"@);
    lemma_block_width_fills(
        width_of(values),
        length_of(values, "margin-left"@, "margin"@),
        length_of(values, "margin-right"@, "margin"@),
        border_left + border_right + padding_left + padding_right,
        containing,
    );
}

/// The boxes of the first `n` children of `node` that are displayed, in
/// order.
pub open spec fn displayed_boxes<'a>(node: &'a StyleNode<'a>, n: int) -> Seq<BoxModel<'a>>
    decreases n,
{
    if 0 < n <= node.children.len() {
        let before = displayed_boxes(node, n - 1);
        let child = &node.children[n - 1];
        if display_in(child.specified_values@) == Display::Hidden {
            before
        } else {
            before.push(box_tree(child))
        }
    } else {
        Seq::empty()
    }
}

/// The boxes with each anonymous block replaced by what it holds.
pub open spec fn unwrapped<'a>(boxes: Seq<BoxModel<'a>>) -> Seq<BoxModel<'a>>
    decreases boxes.len(),
{
    if boxes.len() == 0 {
        Seq::empty()
    } else if boxes.last().box_type is AnonymousBlock {
        unwrapped(boxes.drop_last()) + boxes.last().children
    } else {
        unwrapped(boxes.drop_last()).push(boxes.last())
    }
}

/// The children of a block are well wrapped: each is a block or an
/// anonymous block, an anonymous block holds inline boxes only and at least
/// one, and no two anonymous blocks are neighbours.
pub open spec fn well_wrapped(boxes: Seq<BoxModel>) -> bool {
    &&& forall|i: int|
        0 <= i < boxes.len() ==> !((#[trigger] boxes[i]).box_type is InlineNode)
    &&& forall|i: int|
        0 <= i < boxes.len() && (#[trigger] boxes[i]).box_type is AnonymousBlock
            ==> boxes[i].children.len() > 0 && forall|k: int|
            0 <= k < boxes[i].children.len() ==> (#[trigger] boxes[i].children[k]).box_type
                is InlineNode
    &&& forall|i: int|
        0 <= i < boxes.len() - 1 ==> !((#[trigger] boxes[i]).box_type is AnonymousBlock && boxes[i
            + 1].box_type is AnonymousBlock)
}

/// The children of the box of a block are the boxes of its displayed
/// children in order, each run of inline boxes between two blocks wrapped
/// in an anonymous block of its own. The children of the box of an inline
/// node are the boxes of its displayed children as they are.
pub proof fn lemma_child_boxes<'a>(node: &'a StyleNode<'a>, n: int)
    requires
        0 <= n <= node.children.len(),
    ensures
        box_type_of(node) is BlockNode ==> well_wrapped(child_boxes(node, n)) && unwrapped(
            child_boxes(node, n),
        ) == displayed_boxes(node, n),
        !(box_type_of(node) is BlockNode) ==> child_boxes(node, n) == displayed_boxes(node, n),
    decreases n,
{
    if n > 0 {
        lemma_child_boxes(node, n - 1);
        let before = child_boxes(node, n - 1);
        let now = child_boxes(node, n);
        let child = &node.children[n - 1];
        let b = box_tree(child);
        if box_type_of(node) is BlockNode {
            match display_in(child.specified_values@) {
                Display::Hidden => {},
                Display::Block => {
                    assert(now.drop_last() =~= before);
                    assert forall|i: int| 0 <= i < now.len() - 1 implies !((#[trigger] now[i]).box_type
                        is AnonymousBlock && now[i + 1].box_type is AnonymousBlock) by {
                        if i < before.len() - 1 {
                            assert(now[i] == before[i]);
                            assert(now[i + 1] == before[i + 1]);
                        }
                    }
                    assert(well_wrapped(now));
                },
                Display::Inline => {
                    if before.len() > 0 && before.last().box_type is AnonymousBlock {
                        let filled = with_child(before.last(), b);
                        assert(now.drop_last() =~= before.drop_last());
                        assert(now.last() == filled);
                        assert(unwrapped(now) =~= unwrapped(before).push(b));
                        assert forall|i: int|
                            0 <= i < now.len() && (#[trigger] now[i]).box_type
                                is AnonymousBlock implies now[i].children.len() > 0 && forall|k: int|
                            0 <= k < now[i].children.len() ==> (#[trigger] now[i].children[k]).box_type
                                is InlineNode by {
                            if i < now.len() - 1 {
                                assert(now[i] == before[i]);
                            } else {
                                assert forall|k: int| 0 <= k < now[i].children.len() implies (
                                #[trigger] now[i].children[k]).box_type is InlineNode by {
                                    if k < before.last().children.len() {
                                        assert(now[i].children[k] == before.last().children[k]);
                                    }
                                }
                            }
                        }
                        assert forall|i: int| 0 <= i < now.len() - 1 implies !((
                        #[trigger] now[i]).box_type is AnonymousBlock && now[i + 1].box_type
                            is AnonymousBlock) by {
                            assert(now[i] == before[i]);
                            if i + 1 < now.len() - 1 {
                                assert(now[i + 1] == before[i + 1]);
                            }
                        }
                        assert forall|i: int| 0 <= i < now.len() implies !((#[trigger] now[i]).box_type
                            is InlineNode) by {
                            if i < now.len() - 1 {
                                assert(now[i] == before[i]);
                            }
                        }
                        assert(well_wrapped(now));
                    } else {
                        let wrapper = with_child(fresh_box(BoxType::AnonymousBlock), b);
                        assert(now.drop_last() =~= before);
                        assert(wrapper.children =~= seq![b]);
                        assert(unwrapped(now) =~= unwrapped(before).push(b));
                        assert forall|i: int| 0 <= i < now.len() - 1 implies !((
                        #[trigger] now[i]).box_type is AnonymousBlock && now[i + 1].box_type
                            is AnonymousBlock) by {
                            assert(now[i] == before[i]);
                            if i + 1 < now.len() - 1 {
                                assert(now[i + 1] == before[i + 1]);
                            }
                        }
                        assert(well_wrapped(now));
                    }
                },
            }
        }
    }
}


/// Two box trees have the same shape: box for box they stand for the same
/// thing and have as many children, which have the same shape in turn.
pub open spec fn same_shape(a: BoxModel, b: BoxModel) -> bool
    decreases a,
{
    &&& a.box_type == b.box_type
    &&& a.children.len() == b.children.len()
    &&& forall|i: int|
        0 <= i < a.children.len() ==> same_shape(#[trigger] a.children[i], b.children[i])
}

/// The layout changes dimensions only: the tree that comes out has the
/// shape of the tree that went in, and what each box stands for is as
/// before.
pub proof fn lemma_layout_keeps_shape(b: BoxModel, containing: Dimensions)
    ensures
        same_shape(b, laid_out(b, containing)),
    decreases b,
{
    let after = laid_out(b, containing);
    if b.box_type is InlineNode {
        lemma_same_shape_reflexive(b);
    } else {
        let values = values_of(b.box_type);
        let placed = positioned(
            widened(b.dimensions, values, containing.content.width as int),
            values,
            containing,
        );
        assert forall|i: int| 0 <= i < b.children.len() implies same_shape(
            #[trigger] b.children[i],
            after.children[i],
        ) by {
            lemma_layout_keeps_shape(
                b.children[i],
                with_height(placed, running_height(b, placed, i)),
            );
        }
    }
}

/// A box tree has its own shape.
pub proof fn lemma_same_shape_reflexive(b: BoxModel)
    ensures
        same_shape(b, b),
    decreases b,
{
    assert forall|i: int| 0 <= i < b.children.len() implies same_shape(
        #[trigger] b.children[i],
        b.children[i],
    ) by {
        lemma_same_shape_reflexive(b.children[i]);
    }
}

} // verus!
