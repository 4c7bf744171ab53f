use toy_browser::css::{Unit, Value};
use toy_browser::dom::{text, Node};
use toy_browser::layout::{
    build_layout_tree, layout_tree, resolve_block_width, BlockWidth, BoxType, Dimensions,
    EdgeSizes, LayoutBox, LayoutError, Rect,
};
use toy_browser::px::UNITS_PER_PX;
use toy_browser::style::{PropertyMap, StyleNode};

fn keyword(s: &str) -> Value {
    Value::Keyword(s.to_string())
}

fn px(n: i64) -> Value {
    Value::Length(n * UNITS_PER_PX, Unit::Px)
}

fn rect(x: i64, y: i64, width: i64, height: i64) -> Rect {
    Rect {
        x: x * UNITS_PER_PX,
        y: y * UNITS_PER_PX,
        width: width * UNITS_PER_PX,
        height: height * UNITS_PER_PX,
    }
}

fn edges(left: i64, right: i64, top: i64, bottom: i64) -> EdgeSizes {
    EdgeSizes {
        left: left * UNITS_PER_PX,
        right: right * UNITS_PER_PX,
        top: top * UNITS_PER_PX,
        bottom: bottom * UNITS_PER_PX,
    }
}

fn block() -> (&'static str, Value) {
    ("display", keyword("block"))
}

fn styled<'a>(node: &'a Node, values: &[(&str, Value)], children: Vec<StyleNode<'a>>) -> StyleNode<'a> {
    let mut map = PropertyMap::new();
    for (k, v) in values {
        map.insert(k.to_string(), v.clone());
    }
    StyleNode { node, specified_values: map, children }
}

fn viewport(width: i64, height: i64) -> Dimensions {
    let mut d = Dimensions::default();
    d.content.width = width * UNITS_PER_PX;
    d.content.height = height * UNITS_PER_PX;
    d
}

fn is_block(b: &LayoutBox) -> bool {
    match b.box_type {
        BoxType::BlockNode(_) => true,
        _ => false,
    }
}

fn is_inline(b: &LayoutBox) -> bool {
    match b.box_type {
        BoxType::InlineNode(_) => true,
        _ => false,
    }
}

fn is_anonymous(b: &LayoutBox) -> bool {
    match b.box_type {
        BoxType::AnonymousBlock => true,
        _ => false,
    }
}

#[test]
fn a_block_between_auto_margins_is_centred() {
    let r = resolve_block_width(Some(50 * UNITS_PER_PX), None, None, 0, 0, 0, 0, 100 * UNITS_PER_PX);
    assert_eq!(
        r,
        BlockWidth {
            width: 50 * UNITS_PER_PX,
            margin_left: 25 * UNITS_PER_PX,
            margin_right: 25 * UNITS_PER_PX
        }
    );
}

#[test]
fn an_auto_width_fills_the_containing_block() {
    let r = resolve_block_width(None, None, None, 0, 0, 0, 0, 100 * UNITS_PER_PX);
    assert_eq!(r, BlockWidth { width: 100 * UNITS_PER_PX, margin_left: 0, margin_right: 0 });
}

#[test]
fn a_width_that_is_too_large_is_taken_from_the_right_margin() {
    let r = resolve_block_width(Some(150 * UNITS_PER_PX), Some(0), Some(0), 0, 0, 0, 0, 100 * UNITS_PER_PX);
    assert_eq!(
        r,
        BlockWidth { width: 150 * UNITS_PER_PX, margin_left: 0, margin_right: -50 * UNITS_PER_PX }
    );
    let r = resolve_block_width(Some(150), Some(7), Some(3), 0, 0, 0, 0, 100);
    assert_eq!(r, BlockWidth { width: 150, margin_left: 7, margin_right: -57 });
}

#[test]
fn a_width_that_is_too_large_turns_auto_margins_into_zero() {
    let r = resolve_block_width(Some(150), None, None, 0, 0, 0, 0, 100);
    assert_eq!(r, BlockWidth { width: 150, margin_left: 0, margin_right: -50 });
    let r = resolve_block_width(Some(150), None, Some(5), 0, 0, 0, 0, 100);
    assert_eq!(r, BlockWidth { width: 150, margin_left: 0, margin_right: -50 });
}

#[test]
fn one_auto_margin_takes_what_is_left() {
    let r = resolve_block_width(Some(50), Some(10), None, 1, 2, 3, 4, 100);
    assert_eq!(r, BlockWidth { width: 50, margin_left: 10, margin_right: 30 });
    let r = resolve_block_width(Some(50), None, Some(10), 1, 2, 3, 4, 100);
    assert_eq!(r, BlockWidth { width: 50, margin_left: 30, margin_right: 10 });
}

#[test]
fn without_auto_the_right_margin_takes_what_is_left() {
    let r = resolve_block_width(Some(50), Some(10), Some(10), 0, 0, 0, 0, 100);
    assert_eq!(r, BlockWidth { width: 50, margin_left: 10, margin_right: 40 });
}

#[test]
fn an_auto_width_beside_margins_and_edges() {
    let r = resolve_block_width(None, Some(10), None, 1, 1, 4, 4, 100);
    assert_eq!(r, BlockWidth { width: 80, margin_left: 10, margin_right: 0 });
}

#[test]
fn an_auto_width_without_room_is_zero() {
    let r = resolve_block_width(None, Some(60), Some(60), 0, 0, 0, 0, 100);
    assert_eq!(r, BlockWidth { width: 0, margin_left: 60, margin_right: 40 });
}

#[test]
fn an_odd_number_of_pixels_is_halved_exactly() {
    let r = resolve_block_width(Some(75 * UNITS_PER_PX), None, None, 0, 0, 0, 0, 100 * UNITS_PER_PX);
    assert_eq!(r, BlockWidth { width: 75 * 64, margin_left: 800, margin_right: 800 });
    let r = resolve_block_width(Some(50 * UNITS_PER_PX), None, None, 0, 0, 0, 0, 101 * UNITS_PER_PX);
    assert_eq!(r, BlockWidth { width: 3200, margin_left: 1632, margin_right: 1632 });
    assert_eq!(r.margin_left + r.width + r.margin_right, 101 * UNITS_PER_PX);
}

#[test]
fn an_odd_number_of_units_leaves_one_to_the_right_margin() {
    let r = resolve_block_width(Some(75), None, None, 0, 0, 0, 0, 100);
    assert_eq!(r, BlockWidth { width: 75, margin_left: 12, margin_right: 13 });
    let r = resolve_block_width(Some(10), None, None, 1, 1, 1, 1, 15);
    assert_eq!(r, BlockWidth { width: 10, margin_left: 0, margin_right: 1 });
}

#[test]
fn a_centred_block_in_an_odd_viewport_fills_it() {
    let node = text("".to_string());
    let root = styled(
        &node,
        &[block(), ("width", px(50)), ("margin", keyword("auto")), ("padding", px(2)), ("border-width", px(1))],
        vec![],
    );
    let b = layout_tree(&root, viewport(101, 0)).unwrap();
    let d = b.dimensions;
    assert_eq!(d.margin.left, 1440);
    assert_eq!(d.margin.right, 1440);
    assert_eq!(d.content.width, 50 * UNITS_PER_PX);
    assert_eq!(
        d.margin.left + d.border.left + d.padding.left + d.content.width + d.padding.right + d.border.right
            + d.margin.right,
        101 * UNITS_PER_PX
    );
    assert_eq!(d.content.x, 1440 + 3 * UNITS_PER_PX);
}

#[test]
fn widths_stop_at_the_bounds_of_a_pixel_count() {
    let r = resolve_block_width(Some(i64::MAX), Some(i64::MAX), Some(i64::MIN), 0, 0, 0, 0, i64::MIN);
    assert_eq!(r.width, i64::MAX);
    assert_eq!(r.margin_left, i64::MAX);
    assert_eq!(r.margin_right, i64::MIN);
}

#[test]
fn a_root_that_is_not_displayed_has_no_layout() {
    let node = text("".to_string());
    let root = styled(&node, &[("display", keyword("none"))], vec![]);
    assert_eq!(build_layout_tree(&root).err(), Some(LayoutError::EmptyDocument));
    assert_eq!(layout_tree(&root, viewport(100, 100)).err(), Some(LayoutError::EmptyDocument));
}

#[test]
fn the_root_box_follows_the_display_of_the_root() {
    let node = text("".to_string());
    let inline = styled(&node, &[], vec![]);
    let b = build_layout_tree(&inline).unwrap();
    assert!(is_inline(&b));
    assert!(b.children.is_empty());
    assert_eq!(b.dimensions, Dimensions::default());
    let root = styled(&node, &[block()], vec![]);
    let b = build_layout_tree(&root).unwrap();
    assert!(is_block(&b));
    assert!(std::ptr::eq(b.get_style_node(), &root));
}

#[test]
fn inline_runs_are_wrapped_and_not_merged_across_a_block() {
    let node = text("".to_string());
    let root = styled(
        &node,
        &[block()],
        vec![
            styled(&node, &[], vec![]),
            styled(&node, &[], vec![]),
            styled(&node, &[block()], vec![]),
            styled(&node, &[], vec![]),
        ],
    );
    let b = build_layout_tree(&root).unwrap();
    assert_eq!(b.children.len(), 3);
    assert!(is_anonymous(&b.children[0]));
    assert_eq!(b.children[0].children.len(), 2);
    assert!(is_inline(&b.children[0].children[0]));
    assert!(std::ptr::eq(b.children[0].children[0].get_style_node(), &root.children[0]));
    assert!(is_inline(&b.children[0].children[1]));
    assert!(std::ptr::eq(b.children[0].children[1].get_style_node(), &root.children[1]));
    assert!(is_block(&b.children[1]));
    assert!(std::ptr::eq(b.children[1].get_style_node(), &root.children[2]));
    assert!(is_anonymous(&b.children[2]));
    assert_eq!(b.children[2].children.len(), 1);
    assert!(std::ptr::eq(b.children[2].children[0].get_style_node(), &root.children[3]));
}

#[test]
fn children_that_are_not_displayed_leave_no_box() {
    let node = text("".to_string());
    let hidden = styled(&node, &[("display", keyword("none"))], vec![styled(&node, &[block()], vec![])]);
    let root = styled(
        &node,
        &[block()],
        vec![styled(&node, &[], vec![]), hidden, styled(&node, &[], vec![])],
    );
    let b = build_layout_tree(&root).unwrap();
    assert_eq!(b.children.len(), 1);
    assert!(is_anonymous(&b.children[0]));
    assert_eq!(b.children[0].children.len(), 2);
}

#[test]
fn an_inline_box_takes_its_children_as_they_are() {
    let node = text("".to_string());
    let root = styled(
        &node,
        &[],
        vec![styled(&node, &[], vec![]), styled(&node, &[block()], vec![]), styled(&node, &[], vec![])],
    );
    let b = build_layout_tree(&root).unwrap();
    assert_eq!(b.children.len(), 3);
    assert!(is_inline(&b.children[0]));
    assert!(is_block(&b.children[1]));
    assert!(is_inline(&b.children[2]));
}

#[test]
fn a_centred_block_in_a_viewport() {
    let node = text("".to_string());
    let root = styled(
        &node,
        &[block(), ("width", px(50)), ("margin-left", keyword("auto")), ("margin-right", keyword("auto"))],
        vec![],
    );
    let b = layout_tree(&root, viewport(100, 600)).unwrap();
    assert_eq!(b.dimensions.content, rect(25, 0, 50, 0));
    assert_eq!(b.dimensions.margin, edges(25, 25, 0, 0));
}

#[test]
fn the_shorthand_counts_where_the_side_is_not_set() {
    let node = text("".to_string());
    let root = styled(
        &node,
        &[
            block(),
            ("margin", px(10)),
            ("margin-top", px(1)),
            ("padding", px(3)),
            ("padding-left", px(5)),
            ("border-width", px(2)),
            ("border-bottom-width", px(7)),
            ("height", px(40)),
        ],
        vec![],
    );
    let b = layout_tree(&root, viewport(200, 0)).unwrap();
    let d = b.dimensions;
    assert_eq!(d.margin, edges(10, 10, 1, 10));
    assert_eq!(d.padding, edges(5, 3, 3, 3));
    assert_eq!(d.border, edges(2, 2, 2, 7));
    assert_eq!(d.content, rect(17, 6, 168, 40));
    assert_eq!(d.margin_box(), rect(0, 0, 200, 66));
}

#[test]
fn children_are_stacked_and_add_up_to_the_height() {
    let node = text("".to_string());
    let root = styled(
        &node,
        &[block(), ("padding", px(4))],
        vec![
            styled(&node, &[block(), ("height", px(10)), ("margin", px(2))], vec![]),
            styled(&node, &[block(), ("height", px(20)), ("border-width", px(1))], vec![]),
            styled(&node, &[block()], vec![styled(&node, &[block(), ("height", px(5))], vec![])]),
        ],
    );
    let b = layout_tree(&root, viewport(100, 999)).unwrap();
    assert_eq!(b.dimensions.content, rect(4, 4, 92, 41));
    assert_eq!(b.children[0].dimensions.content, rect(6, 6, 88, 10));
    assert_eq!(b.children[1].dimensions.content, rect(5, 19, 90, 20));
    assert_eq!(b.children[2].dimensions.content, rect(4, 40, 92, 5));
    assert_eq!(b.children[2].children[0].dimensions.content, rect(4, 40, 92, 5));
}

#[test]
fn a_declared_height_stands_over_the_children() {
    let node = text("".to_string());
    let root = styled(
        &node,
        &[block(), ("height", px(7))],
        vec![styled(&node, &[block(), ("height", px(30))], vec![])],
    );
    let b = layout_tree(&root, viewport(100, 0)).unwrap();
    assert_eq!(b.dimensions.content.height, 7 * UNITS_PER_PX);
    assert_eq!(b.children[0].dimensions.content.height, 30 * UNITS_PER_PX);
}

#[test]
fn an_anonymous_block_is_laid_out_and_its_inline_boxes_are_not() {
    let node = text("".to_string());
    let root = styled(
        &node,
        &[block(), ("padding", px(5))],
        vec![
            styled(&node, &[block(), ("height", px(10))], vec![]),
            styled(&node, &[("width", px(30)), ("height", px(30))], vec![]),
        ],
    );
    let b = layout_tree(&root, viewport(100, 0)).unwrap();
    assert!(is_anonymous(&b.children[1]));
    assert_eq!(b.children[1].dimensions.content, rect(5, 15, 90, 0));
    assert_eq!(b.children[1].children[0].dimensions, Dimensions::default());
    assert_eq!(b.dimensions.content.height, 10 * UNITS_PER_PX);
}

#[test]
fn an_inline_root_is_not_laid_out() {
    let node = text("".to_string());
    let root = styled(&node, &[("width", px(30))], vec![styled(&node, &[block(), ("height", px(9))], vec![])]);
    let b = layout_tree(&root, viewport(100, 100)).unwrap();
    assert_eq!(b.dimensions, Dimensions::default());
    assert_eq!(b.children[0].dimensions, Dimensions::default());
}

#[test]
fn the_height_of_the_viewport_does_not_move_the_root() {
    let node = text("".to_string());
    let root = styled(&node, &[block()], vec![]);
    let mut v = viewport(100, 600);
    v.content.x = 3 * UNITS_PER_PX;
    v.content.y = 8 * UNITS_PER_PX;
    let b = layout_tree(&root, v).unwrap();
    assert_eq!(b.dimensions.content, rect(3, 8, 100, 0));
}

#[test]
fn a_fresh_box_has_no_children_and_no_size() {
    let b = LayoutBox::new(BoxType::AnonymousBlock);
    assert!(is_anonymous(&b));
    assert!(b.children.is_empty());
    assert_eq!(b.dimensions, Dimensions::default());
}

#[test]
fn a_box_can_be_laid_out_by_hand() {
    let node = text("".to_string());
    let root = styled(&node, &[block(), ("width", px(10)), ("height", px(10))], vec![]);
    let mut b = build_layout_tree(&root).unwrap();
    b.layout(viewport(50, 0));
    assert_eq!(b.dimensions.content, rect(0, 0, 10, 10));
    assert_eq!(b.dimensions.margin.right, 40 * UNITS_PER_PX);
}
