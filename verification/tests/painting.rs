use toy_browser::css::{Color, Unit, Value};
use toy_browser::dom::{text, Node};
use toy_browser::layout::{layout_tree, Dimensions, Rect};
use toy_browser::painting::{build_display_list, paint, Canvas, DisplayCommand};
use toy_browser::px::UNITS_PER_PX;
use toy_browser::style::{PropertyMap, StyleNode};

const WHITE: Color = Color { r: 255, g: 255, b: 255, a: 255 };
const RED: Color = Color { r: 255, g: 0, b: 0, a: 255 };
const BLUE: Color = Color { r: 0, g: 0, b: 255, a: 255 };

fn keyword(s: &str) -> Value {
    Value::Keyword(s.to_string())
}

fn px(n: i64) -> Value {
    Value::Length(n * UNITS_PER_PX, Unit::Px)
}

fn rect(x: i64, y: i64, width: i64, height: i64) -> Rect {
    Rect {
        x: x * UNITS_PER_PX,
        y: y * UNITS_PER_PX,
        width: width * UNITS_PER_PX,
        height: height * UNITS_PER_PX,
    }
}

fn styled<'a>(node: &'a Node, values: &[(&str, Value)], children: Vec<StyleNode<'a>>) -> StyleNode<'a> {
    let mut map = PropertyMap::new();
    for (k, v) in values {
        map.insert(k.to_string(), v.clone());
    }
    StyleNode { node, specified_values: map, children }
}

fn viewport(width: i64, height: i64) -> Dimensions {
    let mut d = Dimensions::default();
    d.content.width = width * UNITS_PER_PX;
    d.content.height = height * UNITS_PER_PX;
    d
}

fn count(canvas: &Canvas, colour: Color) -> usize {
    canvas.pixels.iter().filter(|p| **p == colour).count()
}

#[test]
fn a_new_canvas_is_white() {
    let canvas = Canvas::new(4, 3);
    assert_eq!(canvas.width, 4);
    assert_eq!(canvas.height, 3);
    assert_eq!(canvas.pixels.len(), 12);
    assert!(canvas.pixels.iter().all(|p| *p == WHITE));
    let empty = Canvas::new(0, 5);
    assert_eq!(empty.pixels.len(), 0);
}

#[test]
fn a_command_fills_its_rectangle_and_nothing_else() {
    let mut canvas = Canvas::new(5, 4);
    canvas.paint_item(&DisplayCommand::SolidColor(RED, rect(1, 2, 3, 1)));
    for y in 0..4 {
        for x in 0..5 {
            let expected = if y == 2 && (1..4).contains(&x) { RED } else { WHITE };
            assert_eq!(canvas.pixels[y * 5 + x], expected);
        }
    }
}

#[test]
fn a_rectangle_that_starts_left_of_the_canvas_is_clipped() {
    let mut canvas = Canvas::new(800, 2);
    canvas.paint_item(&DisplayCommand::SolidColor(RED, rect(-5, 0, 10, 1)));
    for x in 0..800 {
        assert_eq!(canvas.pixels[x], if x < 5 { RED } else { WHITE });
        assert_eq!(canvas.pixels[800 + x], WHITE);
    }
}

#[test]
fn a_rectangle_that_overflows_the_canvas_is_clipped() {
    let mut canvas = Canvas::new(4, 4);
    canvas.paint_item(&DisplayCommand::SolidColor(RED, rect(2, 3, 100, 100)));
    assert_eq!(count(&canvas, RED), 2);
    assert_eq!(canvas.pixels[3 * 4 + 2], RED);
    assert_eq!(canvas.pixels[3 * 4 + 3], RED);
}

#[test]
fn rectangles_outside_the_canvas_and_empty_ones_paint_nothing() {
    let mut canvas = Canvas::new(4, 4);
    canvas.paint_item(&DisplayCommand::SolidColor(RED, rect(10, 0, 5, 5)));
    canvas.paint_item(&DisplayCommand::SolidColor(RED, rect(-10, -10, 5, 5)));
    canvas.paint_item(&DisplayCommand::SolidColor(RED, rect(1, 1, 0, 3)));
    canvas.paint_item(&DisplayCommand::SolidColor(RED, rect(3, 1, -2, 3)));
    canvas.paint_item(&DisplayCommand::SolidColor(RED, Rect { x: i64::MAX, y: 0, width: i64::MAX, height: 4 }));
    canvas.paint_item(&DisplayCommand::SolidColor(RED, Rect { x: i64::MIN, y: 0, width: i64::MAX, height: 4 }));
    assert_eq!(count(&canvas, WHITE), 16);
}

#[test]
fn a_later_command_paints_over_an_earlier_one() {
    let mut canvas = Canvas::new(3, 1);
    canvas.paint_item(&DisplayCommand::SolidColor(RED, rect(0, 0, 2, 1)));
    canvas.paint_item(&DisplayCommand::SolidColor(BLUE, rect(1, 0, 2, 1)));
    assert_eq!(canvas.pixels, vec![RED, BLUE, BLUE]);
}

#[test]
fn the_background_covers_the_border_box() {
    let node = text("".to_string());
    let root = styled(
        &node,
        &[
            ("display", keyword("block")),
            ("background-color", Value::ColorValue(RED)),
            ("width", px(10)),
            ("height", px(6)),
            ("padding", px(2)),
            ("border-width", px(1)),
            ("margin", px(4)),
        ],
        vec![],
    );
    let b = layout_tree(&root, viewport(100, 0)).unwrap();
    let list = build_display_list(&b);
    assert_eq!(list, vec![DisplayCommand::SolidColor(RED, rect(4, 4, 16, 12))]);
}

#[test]
fn the_borders_are_four_strips_after_the_background() {
    let node = text("".to_string());
    let root = styled(
        &node,
        &[
            ("display", keyword("block")),
            ("background-color", Value::ColorValue(RED)),
            ("border-color", Value::ColorValue(BLUE)),
            ("width", px(10)),
            ("height", px(6)),
            ("border-left-width", px(1)),
            ("border-right-width", px(2)),
            ("border-top-width", px(3)),
            ("border-bottom-width", px(4)),
        ],
        vec![],
    );
    let b = layout_tree(&root, viewport(100, 0)).unwrap();
    let list = build_display_list(&b);
    assert_eq!(
        list,
        vec![
            DisplayCommand::SolidColor(RED, rect(0, 0, 13, 13)),
            DisplayCommand::SolidColor(BLUE, rect(0, 0, 1, 13)),
            DisplayCommand::SolidColor(BLUE, rect(11, 0, 2, 13)),
            DisplayCommand::SolidColor(BLUE, rect(0, 0, 13, 3)),
            DisplayCommand::SolidColor(BLUE, rect(0, 9, 13, 4)),
        ]
    );
}

#[test]
fn a_box_without_colours_paints_nothing() {
    let node = text("".to_string());
    let root = styled(
        &node,
        &[("display", keyword("block")), ("background-color", keyword("red")), ("background", Value::ColorValue(RED))],
        vec![styled(&node, &[], vec![])],
    );
    let b = layout_tree(&root, viewport(100, 0)).unwrap();
    assert_eq!(build_display_list(&b), vec![]);
}

#[test]
fn parents_are_listed_before_their_children() {
    let node = text("".to_string());
    let green = Color { r: 0, g: 255, b: 0, a: 255 };
    let root = styled(
        &node,
        &[("display", keyword("block")), ("background-color", Value::ColorValue(RED))],
        vec![
            styled(
                &node,
                &[("display", keyword("block")), ("background-color", Value::ColorValue(BLUE)), ("height", px(5))],
                vec![styled(
                    &node,
                    &[("display", keyword("block")), ("background-color", Value::ColorValue(green)), ("height", px(2))],
                    vec![],
                )],
            ),
            styled(
                &node,
                &[("display", keyword("block")), ("background-color", Value::ColorValue(WHITE)), ("height", px(1))],
                vec![],
            ),
        ],
    );
    let b = layout_tree(&root, viewport(10, 0)).unwrap();
    let list = build_display_list(&b);
    assert_eq!(
        list,
        vec![
            DisplayCommand::SolidColor(RED, rect(0, 0, 10, 6)),
            DisplayCommand::SolidColor(BLUE, rect(0, 0, 10, 5)),
            DisplayCommand::SolidColor(green, rect(0, 0, 10, 2)),
            DisplayCommand::SolidColor(WHITE, rect(0, 5, 10, 1)),
        ]
    );
}

#[test]
fn a_child_shows_over_its_parent() {
    let node = text("".to_string());
    let root = styled(
        &node,
        &[("display", keyword("block")), ("background-color", Value::ColorValue(RED))],
        vec![styled(
            &node,
            &[("display", keyword("block")), ("background-color", Value::ColorValue(BLUE)), ("height", px(3))],
            vec![],
        )],
    );
    let b = layout_tree(&root, viewport(4, 0)).unwrap();
    assert_eq!(b.dimensions.border_box(), b.children[0].dimensions.border_box());
    let canvas = paint(&b, rect(0, 0, 4, 5));
    assert_eq!(canvas.width, 4);
    assert_eq!(canvas.height, 5);
    for y in 0..5 {
        for x in 0..4 {
            assert_eq!(canvas.pixels[y * 4 + x], if y < 3 { BLUE } else { WHITE });
        }
    }
    assert_eq!(count(&canvas, RED), 0);
}

#[test]
fn a_child_that_is_smaller_leaves_the_rest_to_its_parent() {
    let node = text("".to_string());
    let root = styled(
        &node,
        &[("display", keyword("block")), ("background-color", Value::ColorValue(RED)), ("padding", px(1))],
        vec![styled(
            &node,
            &[("display", keyword("block")), ("background-color", Value::ColorValue(BLUE)), ("height", px(2))],
            vec![],
        )],
    );
    let b = layout_tree(&root, viewport(6, 0)).unwrap();
    let canvas = paint(&b, rect(0, 0, 6, 4));
    for y in 0..4 {
        for x in 0..6 {
            let inner = (1..5).contains(&x) && (1..3).contains(&y);
            assert_eq!(canvas.pixels[y * 6 + x], if inner { BLUE } else { RED });
        }
    }
}

#[test]
fn negative_bounds_give_an_empty_canvas() {
    let node = text("".to_string());
    let root = styled(&node, &[("display", keyword("block"))], vec![]);
    let b = layout_tree(&root, viewport(6, 0)).unwrap();
    let canvas = paint(&b, rect(0, 0, -3, 10));
    assert_eq!(canvas.width, 0);
    assert_eq!(canvas.height, 10);
    assert!(canvas.pixels.is_empty());
    let canvas = paint(&b, rect(0, 0, 0, 0));
    assert!(canvas.pixels.is_empty());
}

#[test]
fn a_pixel_is_filled_from_the_one_that_holds_the_left_side() {
    let mut canvas = Canvas::new(4, 1);
    canvas.paint_item(&DisplayCommand::SolidColor(RED, Rect { x: 32, y: 0, width: 64, height: 64 }));
    assert_eq!(canvas.pixels, vec![RED, WHITE, WHITE, WHITE]);
    let mut canvas = Canvas::new(4, 1);
    canvas.paint_item(&DisplayCommand::SolidColor(RED, Rect { x: 63, y: 0, width: 129, height: 64 }));
    assert_eq!(canvas.pixels, vec![RED, RED, RED, WHITE]);
    let mut canvas = Canvas::new(4, 1);
    canvas.paint_item(&DisplayCommand::SolidColor(RED, Rect { x: 64, y: 0, width: 63, height: 64 }));
    assert_eq!(canvas.pixels, vec![WHITE, WHITE, WHITE, WHITE]);
    let mut canvas = Canvas::new(4, 1);
    canvas.paint_item(&DisplayCommand::SolidColor(RED, Rect { x: -1, y: -1, width: 66, height: 65 }));
    assert_eq!(canvas.pixels, vec![RED, WHITE, WHITE, WHITE]);
    let mut canvas = Canvas::new(4, 1);
    canvas.paint_item(&DisplayCommand::SolidColor(RED, Rect { x: 0, y: 0, width: 256, height: 63 }));
    assert_eq!(canvas.pixels, vec![WHITE, WHITE, WHITE, WHITE]);
}

#[test]
fn the_canvas_has_the_whole_pixels_of_the_bounds() {
    let node = text("".to_string());
    let root = styled(&node, &[("display", keyword("block"))], vec![]);
    let b = layout_tree(&root, viewport(6, 0)).unwrap();
    let canvas = paint(&b, Rect { x: 0, y: 0, width: 3 * 64 + 63, height: 2 * 64 });
    assert_eq!(canvas.width, 3);
    assert_eq!(canvas.height, 2);
    assert_eq!(canvas.pixels.len(), 6);
    let canvas = paint(&b, Rect { x: 0, y: 0, width: 63, height: 640 });
    assert_eq!(canvas.width, 0);
    assert_eq!(canvas.height, 10);
}
