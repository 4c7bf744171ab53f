use toy_browser::layout::{Dimensions, EdgeSizes, Rect};

fn edges(all: i64) -> EdgeSizes {
    EdgeSizes { left: all, right: all, top: all, bottom: all }
}

#[test]
fn margin_box_of_a_ten_pixel_square() {
    let d = Dimensions {
        content: Rect { x: 0, y: 0, width: 10, height: 10 },
        padding: edges(2),
        border: edges(1),
        margin: edges(3),
    };
    assert_eq!(d.padding_box(), Rect { x: -2, y: -2, width: 14, height: 14 });
    assert_eq!(d.border_box(), Rect { x: -3, y: -3, width: 16, height: 16 });
    assert_eq!(d.margin_box(), Rect { x: -6, y: -6, width: 22, height: 22 });
}

#[test]
fn expanding_by_uneven_edges() {
    let r = Rect { x: 5, y: 7, width: 20, height: 30 };
    let e = EdgeSizes { left: 1, right: 2, top: 3, bottom: 4 };
    assert_eq!(r.expanded_by(e), Rect { x: 4, y: 4, width: 23, height: 37 });
}

#[test]
fn expanding_by_nothing_changes_nothing() {
    let r = Rect { x: -3, y: 9, width: 0, height: 12 };
    assert_eq!(r.expanded_by(EdgeSizes::default()), r);
}

#[test]
fn expanding_stops_at_the_bounds_of_a_pixel_count() {
    let r = Rect { x: i64::MIN, y: 0, width: i64::MAX, height: 1 };
    let grown = r.expanded_by(edges(1));
    assert_eq!(grown.x, i64::MIN);
    assert_eq!(grown.width, i64::MAX);
    assert_eq!(grown.y, -1);
    assert_eq!(grown.height, 3);
}

#[test]
fn default_dimensions_are_zero() {
    let d = Dimensions::default();
    assert_eq!(d.content, Rect { x: 0, y: 0, width: 0, height: 0 });
    assert_eq!(d.margin_box(), Rect { x: 0, y: 0, width: 0, height: 0 });
}

#[test]
fn saturating_keeps_what_fits() {
    assert_eq!(toy_browser::px::saturate(0), 0);
    assert_eq!(toy_browser::px::saturate(-17), -17);
    assert_eq!(toy_browser::px::saturate(i64::MAX as i128), i64::MAX);
    assert_eq!(toy_browser::px::saturate(i64::MAX as i128 + 1), i64::MAX);
    assert_eq!(toy_browser::px::saturate(i64::MIN as i128 - 1), i64::MIN);
    assert_eq!(toy_browser::px::saturate(i128::MAX), i64::MAX);
    assert_eq!(toy_browser::px::saturate(i128::MIN), i64::MIN);
}

#[test]
fn whole_pixels_in_layout_units() {
    assert_eq!(toy_browser::px::UNITS_PER_PX, 64);
    assert_eq!(toy_browser::px::from_pixels(0), 0);
    assert_eq!(toy_browser::px::from_pixels(25), 1600);
    assert_eq!(toy_browser::px::from_pixels(-3), -192);
    assert_eq!(toy_browser::px::from_pixels(i64::MAX), i64::MAX);
    assert_eq!(toy_browser::px::from_pixels(i64::MIN), i64::MIN);
}
