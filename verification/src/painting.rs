//! Painting: the fill commands that a laid-out box tree gives rise to, and
//! the canvas that they leave.

use crate::css::{Color, Value};
use crate::layout::{values_of, BoxModel, BoxType, Dimensions, LayoutBox, Rect};
use crate::px::{clamp_px, pixel_of, saturate};
use vstd::prelude::*;

verus! {

/// A pixel buffer of `width` times `height` pixels, row after row.
#[derive(Debug)]
pub struct Canvas {
    pub pixels: Vec<Color>,
    pub width: usize,
    pub height: usize,
}

/// An instruction to the painter: fill the rectangle with the colour.
#[derive(Clone, Copy, Debug, PartialEq, Eq, Structural)]
pub enum DisplayCommand {
    SolidColor(Color, Rect),
}

/// The commands that paint a box tree, in the order in which they are
/// carried out.
pub type DisplayList = Vec<DisplayCommand>;

/// The colour of a canvas that nothing has been painted on.
pub open spec fn white() -> Color {
    Color { r: 255, g: 255, b: 255, a: 255 }
}

/// The colour that the property `name` has, where its value is a colour.
pub open spec fn colour_of(values: Map<Seq<char>, Value>, name: Seq<char>) -> Option<Color> {
    if values.contains_key(name) {
        match values[name] {
            Value::ColorValue(colour) => Some(colour),
            _ => None,
        }
    } else {
        None
    }
}

/// The command that paints the background of a box: its border box in its
/// background colour, where it has one.
pub open spec fn background_commands(b: BoxModel) -> Seq<DisplayCommand> {
    match colour_of(values_of(b.box_type), "background-color"@) {
        Some(colour) => seq![DisplayCommand::SolidColor(colour, b.dimensions.border_rect())],
        None => Seq::empty(),
    }
}

/// The strip that the left border covers.
pub open spec fn left_border(d: Dimensions) -> Rect {
    let outer = d.border_rect();
    Rect { x: outer.x, y: outer.y, width: d.border.left, height: outer.height }
}

/// The strip that the right border covers.
pub open spec fn right_border(d: Dimensions) -> Rect {
    let outer = d.border_rect();
    Rect {
        x: clamp_px(outer.x + outer.width - d.border.right) as i64,
        y: outer.y,
        width: d.border.right,
        height: outer.height,
    }
}

/// The strip that the top border covers.
pub open spec fn top_border(d: Dimensions) -> Rect {
    let outer = d.border_rect();
    Rect { x: outer.x, y: outer.y, width: outer.width, height: d.border.top }
}

/// The strip that the bottom border covers.
pub open spec fn bottom_border(d: Dimensions) -> Rect {
    let outer = d.border_rect();
    Rect {
        x: outer.x,
        y: clamp_px(outer.y + outer.height - d.border.bottom) as i64,
        width: outer.width,
        height: d.border.bottom,
    }
}

/// The commands that paint the borders of a box, where it has a border
/// colour: the left, the right, the top and the bottom strip, in this
/// order.
pub open spec fn border_commands(b: BoxModel) -> Seq<DisplayCommand> {
    match colour_of(values_of(b.box_type), "border-color"@) {
        Some(colour) => seq![
            DisplayCommand::SolidColor(colour, left_border(b.dimensions)),
            DisplayCommand::SolidColor(colour, right_border(b.dimensions)),
            DisplayCommand::SolidColor(colour, top_border(b.dimensions)),
            DisplayCommand::SolidColor(colour, bottom_border(b.dimensions)),
        ],
        None => Seq::empty(),
    }
}

/// The commands that paint a box tree: those of the background and of the
/// borders of the root, then those of each child's tree in order.
pub open spec fn display_list(b: BoxModel) -> Seq<DisplayCommand>
    decreases b, b.children.len() + 1,
{
    background_commands(b) + border_commands(b) + children_commands(b, b.children.len() as int)
}

/// The commands that paint the first `n` children of a box.
pub open spec fn children_commands(b: BoxModel, n: int) -> Seq<DisplayCommand>
    decreases b, n,
{
    if 0 < n <= b.children.len() {
        children_commands(b, n - 1) + display_list(b.children[n - 1])
    } else {
        Seq::empty()
    }
}

/// The colour that the property `name` gives the box. An anonymous block
/// has none.
fn get_color(layout_box: &LayoutBox, name: &str) -> (r: Option<Color>)
    ensures
        r == colour_of(values_of(layout_box.box_type), name@),
{
    match layout_box.box_type {
        BoxType::AnonymousBlock => None,
        _ => match layout_box.get_style_node().value(name) {
            Some(Value::ColorValue(colour)) => Some(colour),
            _ => None,
        },
    }
}

/// Appends the command for the background of the box.
fn render_background(list: &mut DisplayList, layout_box: &LayoutBox)
    ensures
        final(list)@ == old(list)@ + background_commands(layout_box@),
{
    match get_color(layout_box, "background-color") {
        Some(colour) => {
            list.push(DisplayCommand::SolidColor(colour, layout_box.dimensions.border_box()));
            assert(list@ =~= old(list)@ + background_commands(layout_box@));
        },
        None => {
            assert(list@ =~= old(list)@ + background_commands(layout_box@));
        },
    }
}

/// Appends the commands for the four borders of the box.
fn render_borders(list: &mut DisplayList, layout_box: &LayoutBox)
    ensures
        final(list)@ == old(list)@ + border_commands(layout_box@),
{
    let colour = match get_color(layout_box, "border-color") {
        Some(colour) => colour,
        None => {
            assert(list@ =~= old(list)@ + border_commands(layout_box@));
            return ;
        },
    };
    let d = layout_box.dimensions;
    let border_box = d.border_box();
    list.push(
        DisplayCommand::SolidColor(
            colour,
            Rect { x: border_box.x, y: border_box.y, width: d.border.left, height: border_box.height },
        ),
    );
    list.push(
        DisplayCommand::SolidColor(
            colour,
            Rect {
                x: saturate(
                    border_box.x as i128 + border_box.width as i128 - d.border.right as i128,
                ),
                y: border_box.y,
                width: d.border.right,
                height: border_box.height,
            },
        ),
    );
    list.push(
        DisplayCommand::SolidColor(
            colour,
            Rect { x: border_box.x, y: border_box.y, width: border_box.width, height: d.border.top },
        ),
    );
    list.push(
        DisplayCommand::SolidColor(
            colour,
            Rect {
                x: border_box.x,
                y: saturate(
                    border_box.y as i128 + border_box.height as i128 - d.border.bottom as i128,
                ),
                width: border_box.width,
                height: d.border.bottom,
            },
        ),
    );
    assert(list@ =~= old(list)@ + border_commands(layout_box@));
}

/// Appends the commands that paint the box and all that it holds.
fn render_layout_box(list: &mut DisplayList, layout_box: &LayoutBox)
    ensures
        final(list)@ == old(list)@ + display_list(layout_box@),
    decreases layout_box,
{
    render_background(list, layout_box);
    render_borders(list, layout_box);
    let ghost own = list@;
    let mut i: usize = 0;
    while i < layout_box.children.len()
        invariant
            i <= layout_box.children.len(),
            list@ == own + children_commands(layout_box@, i as int),
        decreases layout_box.children.len() - i,
    {
        let ghost before = list@;
        render_layout_box(list, &layout_box.children[i]);
        proof {
            assert(layout_box@.children[i as int] == layout_box.children[i as int]@);
            assert(list@ =~= own + children_commands(layout_box@, i + 1));
        }
        i = i + 1;
    }
    assert(list@ =~= old(list)@ + display_list(layout_box@));
}

/// The commands that paint a box tree, parents before their children.
pub fn build_display_list(layout_root: &LayoutBox) -> (list: DisplayList)
    ensures
        list@ == display_list(layout_root@),
{
    let mut list: DisplayList = Vec::new();
    render_layout_box(&mut list, layout_root);
    assert(list@ =~= display_list(layout_root@));
    list
}


/// The pixel in column `x` of row `y` is filled with the rectangle: the
/// columns that are filled are those from the one that the left side lies
/// in up to, but without, the one that the right side lies in, and the
/// rows likewise from the top to the bottom.
pub open spec fn covers(rect: Rect, x: int, y: int) -> bool {
    &&& pixel_of(rect.x as int) <= x < pixel_of(rect.x + rect.width)
    &&& pixel_of(rect.y as int) <= y < pixel_of(rect.y + rect.height)
}

/// The colour of the pixel in column `x` of row `y` after the commands have
/// been carried out in order on a white canvas: that of the last command
/// whose rectangle holds the pixel, and white where none does.
pub open spec fn colour_at(commands: Seq<DisplayCommand>, x: int, y: int) -> Color
    decreases commands.len(),
{
    if commands.len() == 0 {
        white()
    } else {
        let DisplayCommand::SolidColor(colour, rect) = commands.last();
        if covers(rect, x, y) {
            colour
        } else {
            colour_at(commands.drop_last(), x, y)
        }
    }
}

/// A pixel shows the colour of a command that covers it when no later
/// command covers it.
pub proof fn lemma_last_cover_shows(commands: Seq<DisplayCommand>, i: int, x: int, y: int)
    requires
        0 <= i < commands.len(),
        covers(commands[i]->SolidColor_1, x, y),
        forall|j: int| i < j < commands.len() ==> !covers((#[trigger] commands[j])->SolidColor_1, x, y),
    ensures
        colour_at(commands, x, y) == commands[i]->SolidColor_0,
    decreases commands.len(),
{
    if i < commands.len() - 1 {
        let front = commands.drop_last();
        assert(!covers(commands[commands.len() - 1]->SolidColor_1, x, y));
        assert forall|j: int| i < j < front.len() implies !covers(
            (#[trigger] front[j])->SolidColor_1,
            x,
            y,
        ) by {
            assert(front[j] == commands[j]);
        }
        assert(front[i] == commands[i]);
        lemma_last_cover_shows(front, i, x, y);
    }
}

/// The place of a pixel coordinate on a canvas side of `limit` pixels: the
/// coordinate itself where it lies on the side, else the nearer end.
pub open spec fn clipped(v: int, limit: int) -> int {
    if v < 0 {
        0
    } else if v > limit {
        limit
    } else {
        v
    }
}

/// The pixel that a coordinate in layout units lies in, clipped to a canvas
/// side of `limit` pixels.
fn clip(v: i128, limit: usize) -> (r: usize)
    ensures
        r == clipped(pixel_of(v as int), limit as int),
{
    if v < 0 {
        0
    } else {
        let pixel = v / 64;
        if pixel > limit as i128 {
            limit
        } else {
            pixel as usize
        }
    }
}

/// The place of a pixel in the buffer of a canvas that is `width` wide lies
/// within a buffer of `width` times `height` pixels, and no two pixels
/// share a place.
pub proof fn lemma_pixel_index(width: int, height: int, x: int, y: int, x2: int, y2: int)
    requires
        0 <= x < width,
        0 <= y < height,
        0 <= x2 < width,
        0 <= y2,
    ensures
        0 <= y * width + x < width * height,
        y * width + x == y2 * width + x2 ==> x == x2 && y == y2,
{
    assert(0 <= y * width + x < width * height) by (nonlinear_arith)
        requires
            0 <= x < width,
            0 <= y < height,
    ;
    assert(y * width + x == y2 * width + x2 ==> x == x2 && y == y2) by (nonlinear_arith)
        requires
            0 <= x < width,
            0 <= x2 < width,
            0 <= y,
            0 <= y2,
    ;
}

impl Canvas {
    /// The buffer holds one pixel for each place of the canvas.
    pub open spec fn wf(&self) -> bool {
        self.pixels.len() == self.width * self.height
    }

    /// The colour of the pixel in column `x` of row `y`.
    pub open spec fn pixel(&self, x: int, y: int) -> Color {
        self.pixels[y * self.width + x]
    }

    /// A white canvas of `width` times `height` pixels.
    pub fn new(width: usize, height: usize) -> (canvas: Canvas)
        requires
            width * height <= usize::MAX,
        ensures
            canvas.wf(),
            canvas.width == width,
            canvas.height == height,
            forall|i: int| 0 <= i < canvas.pixels.len() ==> canvas.pixels[i] == white(),
    {
        let blank = Color { r: 255, g: 255, b: 255, a: 255 };
        let count = width * height;
        let mut pixels: Vec<Color> = Vec::new();
        let mut i: usize = 0;
        while i < count
            invariant
                i <= count,
                pixels.len() == i,
                blank == white(),
                forall|j: int| 0 <= j < i ==> pixels[j] == white(),
            decreases count - i,
        {
            pixels.push(blank);
            i = i + 1;
        }
        Canvas { pixels: pixels, width: width, height: height }
    }

    /// Carries out one command: every pixel of the canvas that the
    /// rectangle fills takes the colour, and no other pixel changes. What
    /// of the rectangle lies outside the canvas is left out.
    pub fn paint_item(&mut self, item: &DisplayCommand)
        requires
            old(self).wf(),
        ensures
            final(self).wf(),
            final(self).width == old(self).width,
            final(self).height == old(self).height,
            forall|x: int, y: int|
                0 <= x < old(self).width && 0 <= y < old(self).height ==> #[trigger] final(self).pixel(
                    x,
                    y,
                ) == (if covers(item->SolidColor_1, x, y) {
                    item->SolidColor_0
                } else {
                    old(self).pixel(x, y)
                }),
    {
        match *item {
            DisplayCommand::SolidColor(colour, rect) => {
                let x0 = clip(rect.x as i128, self.width);
                let x1 = clip(rect.x as i128 + rect.width as i128, self.width);
                let y0 = clip(rect.y as i128, self.height);
                let y1 = clip(rect.y as i128 + rect.height as i128, self.height);
                let width = self.width;
                let height = self.height;
                let ghost before = *self;
                let mut y: usize = y0;
                while y < y1
                    invariant
                        y0 <= y,
                        y <= y1 || (y1 < y0 && y == y0),
                        y1 <= height,
                        x1 <= width,
                        before.wf(),
                        self.wf(),
                        self.width == width,
                        self.height == height,
                        before.width == width,
                        before.height == height,
                        forall|px: int, py: int|
                            0 <= px < width && 0 <= py < height ==> #[trigger] self.pixel(px, py)
                                == (if x0 <= px < x1 && y0 <= py < y {
                                colour
                            } else {
                                before.pixel(px, py)
                            }),
                    decreases y1 - y,
                {
                    let mut x: usize = x0;
                    while x < x1
                        invariant
                            x0 <= x,
                            x <= x1 || (x1 < x0 && x == x0),
                            y0 <= y < y1,
                            y1 <= height,
                            x1 <= width,
                            before.wf(),
                            self.wf(),
                            self.width == width,
                            self.height == height,
                            before.width == width,
                            before.height == height,
                            forall|px: int, py: int|
                                0 <= px < width && 0 <= py < height ==> #[trigger] self.pixel(
                                    px,
                                    py,
                                ) == (if x0 <= px < x1 && (y0 <= py < y || (py == y && px < x)) {
                                    colour
                                } else {
                                    before.pixel(px, py)
                                }),
                        decreases x1 - x,
                    {
                        proof {
                            lemma_pixel_index(width as int, height as int, x as int, y as int, 0, 0);
                        }
                        let ghost painted = *self;
                        let place = y * width + x;
                        self.pixels[place] = colour;
                        proof {
                            assert forall|px: int, py: int|
                                0 <= px < width && 0 <= py < height implies #[trigger] self.pixel(
                                px,
                                py,
                            ) == (if x0 <= px < x1 && (y0 <= py < y || (py == y && px < x + 1)) {
                                colour
                            } else {
                                before.pixel(px, py)
                            }) by {
                                lemma_pixel_index(
                                    width as int,
                                    height as int,
                                    px,
                                    py,
                                    x as int,
                                    y as int,
                                );
                                assert(painted.pixel(px, py) == (if x0 <= px < x1 && (y0 <= py < y
                                    || (py == y && px < x)) {
                                    colour
                                } else {
                                    before.pixel(px, py)
                                }));
                            }
                        }
                        x = x + 1;
                    }
                    y = y + 1;
                }
                proof {
                    assert forall|px: int, py: int|
                        0 <= px < width && 0 <= py < height implies #[trigger] self.pixel(px, py)
                        == (if covers(rect, px, py) {
                        colour
                    } else {
                        before.pixel(px, py)
                    }) by {
                        assert(self.pixel(px, py) == (if x0 <= px < x1 && y0 <= py < y {
                            colour
                        } else {
                            before.pixel(px, py)
                        }));
                    }
                }
            },
        }
    }
}

/// The number of pixels along a side of the canvas for a side of the
/// bounds, which is given in layout units: the whole pixels of it, and none
/// where the side is negative.
pub open spec fn canvas_side(v: int) -> int {
    if v < 0 {
        0
    } else {
        pixel_of(v)
    }
}

/// Paints a laid-out box tree onto a white canvas that has the whole
/// pixels of the width and of the height of the bounds: each pixel has the
/// colour of the last command of the display list that fills it.
pub fn paint(layout_root: &LayoutBox, bounds: Rect) -> (canvas: Canvas)
    requires
        canvas_side(bounds.width as int) <= usize::MAX,
        canvas_side(bounds.height as int) <= usize::MAX,
        canvas_side(bounds.width as int) * canvas_side(bounds.height as int) <= usize::MAX,
    ensures
        canvas.wf(),
        canvas.width == canvas_side(bounds.width as int),
        canvas.height == canvas_side(bounds.height as int),
        forall|x: int, y: int|
            0 <= x < canvas.width && 0 <= y < canvas.height ==> #[trigger] canvas.pixel(x, y)
                == colour_at(display_list(layout_root@), x, y),
{
    let display_list = build_display_list(layout_root);
    let width: usize = if bounds.width < 0 { 0 } else { (bounds.width / 64) as usize };
    let height: usize = if bounds.height < 0 { 0 } else { (bounds.height / 64) as usize };
    let mut canvas = Canvas::new(width, height);
    proof {
        assert forall|x: int, y: int| 0 <= x < width && 0 <= y < height implies #[trigger] canvas.pixel(x, y)
            == colour_at(display_list@.take(0), x, y) by {
            lemma_pixel_index(width as int, height as int, x, y, 0, 0);
        }
    }
    let mut i: usize = 0;
    while i < display_list.len()
        invariant
            i <= display_list.len(),
            canvas.wf(),
            canvas.width == width,
            canvas.height == height,
            forall|x: int, y: int|
                0 <= x < width && 0 <= y < height ==> #[trigger] canvas.pixel(x, y) == colour_at(
                    display_list@.take(i as int),
                    x,
                    y,
                ),
        decreases display_list.len() - i,
    {
        let ghost before = canvas;
        canvas.paint_item(&display_list[i]);
        proof {
            assert(display_list@.take(i + 1).drop_last() =~= display_list@.take(i as int));
            assert(display_list@.take(i + 1).last() == display_list[i as int]);
            assert forall|x: int, y: int| 0 <= x < width && 0 <= y < height implies #[trigger] canvas.pixel(x, y)
                == colour_at(display_list@.take(i + 1), x, y) by {
                assert(before.pixel(x, y) == colour_at(display_list@.take(i as int), x, y));
            }
        }
        i = i + 1;
    }
    assert(display_list@.take(i as int) =~= display_list@);
    canvas
}


/// A child is painted over its parent: where the last child of a box holds
/// nothing, has a background colour and no border colour, every pixel that
/// the child's border box fills shows the child's background colour,
/// whatever the parent and the children before it paint there.
pub proof fn lemma_child_paints_over_parent(parent: BoxModel, x: int, y: int)
    requires
        parent.children.len() > 0,
        parent.children.last().children.len() == 0,
        colour_of(values_of(parent.children.last().box_type), "background-color"@) is Some,
        colour_of(values_of(parent.children.last().box_type), "border-color"@) is None,
        covers(parent.children.last().dimensions.border_rect(), x, y),
    ensures
        colour_at(display_list(parent), x, y) == colour_of(
            values_of(parent.children.last().box_type),
            "background-color"@,
        )->0,
{
    let child = parent.children.last();
    let colour = colour_of(values_of(child.box_type), "background-color"@)->0;
    let fill = DisplayCommand::SolidColor(colour, child.dimensions.border_rect());
    assert(children_commands(child, 0) =~= Seq::empty());
    assert(display_list(child) =~= seq![fill]);
    let n = parent.children.len() as int;
    assert(children_commands(parent, n) == children_commands(parent, n - 1) + display_list(child));
    let all = display_list(parent);
    assert(all.len() > 0);
    assert(all.last() == fill);
}

} // verus!
