//! The painter: from the layout tree to a list of rectangles to fill, and
//! from that list to pixels.

use vstd::prelude::*;
use crate::css::{Color, CSSValue, ValueView, UNITS_PER_PX};
use crate::layout::{fits_i64, BoxDimensions, BoxKind, BoxType, BoxView, LayoutBox, Rect, box_view, box_views};

verus! {

/// One step of painting.
#[derive(Debug, Clone, Copy, PartialEq, Eq, Structural)]
pub enum DisplayCommand {
    /// Fill the rectangle with the color.
    SolidColor(Color, Rect),
}

/// A raster of pixels, row after row from the top, each row from the left.
#[derive(Debug)]
pub struct Canvas {
    pub width: usize,
    pub height: usize,
    pub pixels: Vec<Color>,
}

/// Why a tree could not be painted.
#[derive(Debug, Clone, Copy, PartialEq, Eq, Structural)]
pub enum PaintError {
    /// A rectangle to fill has a coordinate or a size that does not fit in an `i64`.
    Overflow,
    /// The canvas would have more pixels than a `usize` can count.
    CanvasTooLarge,
}

/// Opaque white, the color of a canvas before anything is painted.
pub open spec fn white() -> Color {
    Color { r: 0xff, g: 0xff, b: 0xff, a: 0xff }
}

/// The place of the pixel in column `x` and row `y` in the pixels of a canvas
/// that is `width` pixels wide.
pub open spec fn pixel_index(width: int, x: int, y: int) -> int {
    y * width + x
}

/// The pixel boundary that the coordinate `units` falls on, on an axis of
/// `limit` pixels: the coordinate is held to the axis and then cut down to
/// whole pixels.
pub open spec fn pixel_boundary(units: int, limit: int) -> int {
    if units <= 0 {
        0
    } else if units / (UNITS_PER_PX as int) >= limit {
        limit
    } else {
        units / (UNITS_PER_PX as int)
    }
}

/// Whether filling `rect` on a canvas of `width` by `height` pixels touches
/// the pixel in column `x` and row `y`.
pub open spec fn covers(rect: Rect, width: int, height: int, x: int, y: int) -> bool {
    &&& pixel_boundary(rect.x as int, width) <= x < pixel_boundary(rect.x + rect.width, width)
    &&& pixel_boundary(rect.y as int, height) <= y < pixel_boundary(rect.y + rect.height, height)
}

impl DisplayCommand {
    /// The color that the command paints.
    pub open spec fn color(self) -> Color {
        match self {
            DisplayCommand::SolidColor(color, _) => color,
        }
    }

    /// The rectangle that the command fills.
    pub open spec fn rect(self) -> Rect {
        match self {
            DisplayCommand::SolidColor(_, rect) => rect,
        }
    }
}

/// The color of the pixel in column `x` and row `y` of a canvas of `width` by
/// `height` pixels after the commands `commands` have run on it in order: the
/// color of the last command that covers the pixel, white if none does.
pub open spec fn color_at(commands: Seq<DisplayCommand>, width: int, height: int, x: int, y: int) -> Color
    decreases commands.len(),
{
    if commands.len() == 0 {
        white()
    } else if covers(commands.last().rect(), width, height, x, y) {
        commands.last().color()
    } else {
        color_at(commands.drop_last(), width, height, x, y)
    }
}

/// Whether the command at `index` in `commands` covers the pixel in column
/// `x` and row `y` and paints it in `color`.
pub open spec fn painted_by(
    commands: Seq<DisplayCommand>,
    index: int,
    width: int,
    height: int,
    x: int,
    y: int,
    color: Color,
) -> bool {
    &&& 0 <= index < commands.len()
    &&& covers(commands[index].rect(), width, height, x, y)
    &&& commands[index].color() == color
}

/// A pixel of a painted canvas is white, or it has the color of a command
/// whose rectangle covers it.
pub proof fn lemma_pixel_is_white_or_covered(
    commands: Seq<DisplayCommand>,
    width: int,
    height: int,
    x: int,
    y: int,
)
    ensures
        color_at(commands, width, height, x, y) == white() || exists|i: int|
            painted_by(commands, i, width, height, x, y, color_at(commands, width, height, x, y)),
    decreases commands.len(),
{
    if commands.len() > 0 {
        if covers(commands.last().rect(), width, height, x, y) {
            assert(painted_by(
                commands,
                commands.len() - 1,
                width,
                height,
                x,
                y,
                color_at(commands, width, height, x, y),
            ));
        } else {
            let rest = commands.drop_last();
            lemma_pixel_is_white_or_covered(rest, width, height, x, y);
            let color = color_at(rest, width, height, x, y);
            if color != white() {
                let i = choose|i: int| painted_by(rest, i, width, height, x, y, color);
                assert(painted_by(commands, i, width, height, x, y, color));
            }
        }
    }
}

/// The color that the property `property` gives the box `layout_box`, if it
/// is a color. An anonymous block has no properties.
pub open spec fn color_of(layout_box: BoxView, property: Seq<char>) -> Option<Color> {
    match layout_box.kind {
        BoxKind::Block(styled) | BoxKind::Inline(styled) => if styled.properties.contains_key(
            property,
        ) && styled.properties[property] is Color {
            Some(styled.properties[property]->Color_0)
        } else {
            None
        },
        BoxKind::AnonymousBlock => None,
    }
}

/// The four strips of the border of a box with the dimensions `dimensions`
/// and the border box `area`, in the order top, left, right, bottom; `None`
/// if a coordinate does not fit in an `i64`.
pub open spec fn border_strips(dimensions: BoxDimensions, area: Rect) -> Option<Seq<Rect>> {
    if fits_i64(area.x + area.width - dimensions.border.right) && fits_i64(
        area.y + area.height - dimensions.border.bottom,
    ) {
        Some(
            seq![
                Rect { x: area.x, y: area.y, width: area.width, height: dimensions.border.top },
                Rect { x: area.x, y: area.y, width: dimensions.border.left, height: area.height },
                Rect {
                    x: (area.x + area.width - dimensions.border.right) as i64,
                    y: area.y,
                    width: dimensions.border.right,
                    height: area.height,
                },
                Rect {
                    x: area.x,
                    y: (area.y + area.height - dimensions.border.bottom) as i64,
                    width: area.width,
                    height: dimensions.border.bottom,
                },
            ],
        )
    } else {
        None
    }
}

/// The commands that paint the box `layout_box` itself: its border box in
/// the background color, if it has one, and then the four strips of its border
/// in the border color, if it has one. `None` if a rectangle among them
/// cannot be represented.
pub open spec fn own_commands(layout_box: BoxView) -> Option<Seq<DisplayCommand>> {
    let background = match color_of(layout_box, "background-color"@) {
        Some(color) => match layout_box.dimensions.border_box_spec() {
            Some(area) => Some(seq![DisplayCommand::SolidColor(color, area)]),
            None => None,
        },
        None => Some(Seq::empty()),
    };
    let border = match color_of(layout_box, "border-color"@) {
        Some(color) => match layout_box.dimensions.border_box_spec() {
            Some(area) => match border_strips(layout_box.dimensions, area) {
                Some(strips) => Some(
                    Seq::new(4, |i: int| DisplayCommand::SolidColor(color, strips[i])),
                ),
                None => None,
            },
            None => None,
        },
        None => Some(Seq::empty()),
    };
    match (background, border) {
        (Some(first), Some(second)) => Some(first + second),
        _ => None,
    }
}

/// The commands that paint the tree `layout_box`: those of the box itself,
/// then those of its children in order, each with all that is below it.
/// `None` if a rectangle among them cannot be represented.
pub open spec fn display_list(layout_box: BoxView) -> Option<Seq<DisplayCommand>>
    decreases layout_box, 0nat,
{
    match own_commands(layout_box) {
        None => None,
        Some(own) => match children_display_list(
            layout_box.children,
            layout_box.children.len(),
        ) {
            None => None,
            Some(below) => Some(own + below),
        },
    }
}

/// The commands that paint the first `count` trees of `children`, in order.
pub open spec fn children_display_list(children: Seq<BoxView>, count: nat) -> Option<
    Seq<DisplayCommand>,
>
    decreases children, count,
{
    if count == 0 || count > children.len() {
        Some(Seq::empty())
    } else {
        match children_display_list(children, (count - 1) as nat) {
            None => None,
            Some(before) => match display_list(children[count - 1]) {
                None => None,
                Some(last) => Some(before + last),
            },
        }
    }
}

/// Once a tree cannot be painted, neither can the trees up to any later one.
proof fn lemma_children_display_list_fails_on(children: Seq<BoxView>, failed: nat, count: nat)
    requires
        failed <= count <= children.len(),
        children_display_list(children, failed) is None,
    ensures
        children_display_list(children, count) is None,
    decreases count,
{
    if failed < count {
        lemma_children_display_list_fails_on(children, failed, (count - 1) as nat);
    }
}

/// The number of whole pixels in `units` layout units; none where `units` is negative.
pub open spec fn whole_pixels(units: int) -> int {
    if units <= 0 {
        0
    } else {
        units / (UNITS_PER_PX as int)
    }
}

/// Whether a canvas of `width` by `height` pixels can be held: both sides
/// and the number of pixels fit in a `usize`.
pub open spec fn canvas_fits(width: int, height: int) -> bool {
    &&& width <= usize::MAX
    &&& height <= usize::MAX
    &&& width * height <= usize::MAX
}

/// The pixel boundary that `units` falls on, on an axis of `limit` pixels.
fn boundary(units: i128, limit: usize) -> (pixel: usize)
    ensures
        pixel == pixel_boundary(units as int, limit as int),
        pixel <= limit,
{
    if units <= 0 {
        0
    } else {
        let whole: i128 = units / (UNITS_PER_PX as i128);
        if whole >= limit as i128 {
            limit
        } else {
            whole as usize
        }
    }
}

proof fn lemma_pixel_index_bound(width: int, height: int, x: int, y: int)
    requires
        0 <= x < width,
        0 <= y < height,
    ensures
        0 <= pixel_index(width, x, y) < width * height,
        y * width + width <= width * height,
{
    assert(y * width + width <= width * height) by (nonlinear_arith)
        requires
            0 <= y < height,
            0 < width,
    ;
    assert(0 <= y * width) by (nonlinear_arith)
        requires
            0 <= y,
            0 < width,
    ;
}

proof fn lemma_pixel_index_injective(width: int, x1: int, y1: int, x2: int, y2: int)
    requires
        0 <= x1 < width,
        0 <= x2 < width,
        0 <= y1,
        0 <= y2,
        pixel_index(width, x1, y1) == pixel_index(width, x2, y2),
    ensures
        x1 == x2,
        y1 == y2,
{
    if y1 < y2 {
        assert(y1 * width + width <= y2 * width) by (nonlinear_arith)
            requires
                y1 < y2,
                0 < width,
        ;
    } else if y2 < y1 {
        assert(y2 * width + width <= y1 * width) by (nonlinear_arith)
            requires
                y2 < y1,
                0 < width,
        ;
    }
}

impl Canvas {
    /// Whether the canvas holds one pixel for each place of its raster.
    pub open spec fn wf(&self) -> bool {
        self.pixels@.len() == self.width * self.height
    }

    /// The color of the pixel in column `x` and row `y`.
    pub open spec fn pixel(&self, x: int, y: int) -> Color {
        self.pixels@[pixel_index(self.width as int, x, y)]
    }

    /// Whether the canvas is `width` by `height` pixels and shows what the
    /// commands `commands` paint, run in order on a white canvas.
    pub open spec fn shows(&self, commands: Seq<DisplayCommand>, width: int, height: int) -> bool {
        &&& self.wf()
        &&& self.width == width
        &&& self.height == height
        &&& forall|x: int, y: int|
            0 <= x < width && 0 <= y < height ==> #[trigger] self.pixel(x, y) == color_at(
                commands,
                width,
                height,
                x,
                y,
            )
    }

    /// A white canvas of `width` by `height` pixels.
    pub fn new(width: usize, height: usize) -> (canvas: Canvas)
        requires
            width * height <= usize::MAX,
        ensures
            canvas.shows(Seq::empty(), width as int, height as int),
    {
        let count: usize = width * height;
        let mut pixels: Vec<Color> = Vec::new();
        let mut i: usize = 0;
        while i < count
            invariant
                i <= count,
                pixels@.len() == i,
                forall|j: int| 0 <= j < i ==> pixels@[j] == white(),
            decreases count - i,
        {
            pixels.push(Color { r: 0xff, g: 0xff, b: 0xff, a: 0xff });
            i += 1;
        }
        let canvas = Canvas { width, height, pixels };
        assert forall|x: int, y: int| 0 <= x < width && 0 <= y < height implies #[trigger] canvas.pixel(
            x,
            y,
        ) == white() by {
            lemma_pixel_index_bound(width as int, height as int, x, y);
        }
        canvas
    }

    /// Runs one command: fills the part of its rectangle that lies on the
    /// canvas. A pixel that was painted before takes the new color.
    pub fn handle_command(&mut self, command: &DisplayCommand)
        requires
            old(self).wf(),
        ensures
            final(self).wf(),
            final(self).width == old(self).width,
            final(self).height == old(self).height,
            forall|x: int, y: int|
                0 <= x < old(self).width && 0 <= y < old(self).height
                    ==> #[trigger] final(self).pixel(x, y) == (if covers(
                    command.rect(),
                    old(self).width as int,
                    old(self).height as int,
                    x,
                    y,
                ) {
                    command.color()
                } else {
                    old(self).pixel(x, y)
                }),
    {
        match command {
            DisplayCommand::SolidColor(color, rect) => {
                let x_start = boundary(rect.x as i128, self.width);
                let y_start = boundary(rect.y as i128, self.height);

                let x_end = boundary(rect.x as i128 + rect.width as i128, self.width);
                let y_end = boundary(rect.y as i128 + rect.height as i128, self.height);

                let ghost width = self.width as int;
                let ghost height = self.height as int;
                let ghost before = self.pixels@;
                let mut y: usize = y_start;
                while y < y_end
                    invariant
                        y_start <= y,
                        y <= y_end || y == y_start,
                        y_end <= self.height,
                        x_end <= self.width,
                        self.width == width,
                        self.height == height,
                        self.pixels@.len() == width * height,
                        before.len() == width * height,
                        forall|xx: int, yy: int|
                            0 <= xx < width && 0 <= yy < height ==> self.pixels@[#[trigger] pixel_index(
                                width,
                                xx,
                                yy,
                            )] == (if x_start <= xx < x_end && y_start <= yy < y {
                                *color
                            } else {
                                before[pixel_index(width, xx, yy)]
                            }),
                    decreases y_end - y,
                {
                    let mut x: usize = x_start;
                    while x < x_end
                        invariant
                            x_start <= x,
                            y_start <= y < y_end <= self.height,
                            x_end <= self.width,
                            self.width == width,
                            self.height == height,
                            self.pixels@.len() == width * height,
                            before.len() == width * height,
                            forall|xx: int, yy: int|
                                0 <= xx < width && 0 <= yy < height ==> self.pixels@[#[trigger] pixel_index(
                                    width,
                                    xx,
                                    yy,
                                )] == (if x_start <= xx < x_end && (y_start <= yy < y || (yy
                                    == y && xx < x)) {
                                    *color
                                } else {
                                    before[pixel_index(width, xx, yy)]
                                }),
                        decreases x_end - x,
                    {
                        proof {
                            lemma_pixel_index_bound(width, height, x as int, y as int);
                            assert(self.pixels@.len() == self.pixels.len());
                            assert(0 <= y * width) by (nonlinear_arith)
                                requires
                                    0 <= y,
                                    0 <= width,
                            ;
                        }
                        let index: usize = y * self.width + x;
                        self.pixels[index] = *color;
                        proof {
                            assert forall|xx: int, yy: int|
                                0 <= xx < width && 0 <= yy < height implies self.pixels@[#[trigger] pixel_index(
                                width,
                                xx,
                                yy,
                            )] == (if x_start <= xx < x_end && (y_start <= yy < y || (yy == y
                                && xx < x + 1)) {
                                *color
                            } else {
                                before[pixel_index(width, xx, yy)]
                            }) by {
                                lemma_pixel_index_bound(width, height, xx, yy);
                                if pixel_index(width, xx, yy) == index {
                                    lemma_pixel_index_injective(width, xx, yy, x as int, y as int);
                                }
                            }
                        }
                        x += 1;
                    }
                    y += 1;
                }
                assert forall|xx: int, yy: int| 0 <= xx < width && 0 <= yy < height implies #[trigger] self.pixel(
                    xx,
                    yy,
                ) == (if covers(*rect, width, height, xx, yy) {
                    *color
                } else {
                    before[pixel_index(width, xx, yy)]
                }) by {}
            },
        }
    }
}

/// The whole pixels in `units` layout units as a count, if a `usize` can hold it.
fn pixel_count(units: i64) -> (count: Option<usize>)
    ensures
        count is Some <==> whole_pixels(units as int) <= usize::MAX,
        count is Some ==> count->Some_0 == whole_pixels(units as int),
{
    if units <= 0 {
        Some(0)
    } else {
        let whole: i64 = units / UNITS_PER_PX;
        if whole as u64 as u128 <= usize::MAX as u128 {
            Some(whole as usize)
        } else {
            None
        }
    }
}

/// Paints the layout tree `node` on a white canvas as large as `bounds`,
/// counted in whole pixels.
pub fn paint_node(node: &LayoutBox, bounds: Rect) -> (outcome: Result<Canvas, PaintError>)
    ensures
        match outcome {
            Ok(canvas) => {
                &&& display_list(node@) is Some
                &&& canvas_fits(whole_pixels(bounds.width as int), whole_pixels(bounds.height as int))
                &&& canvas.shows(
                    display_list(node@)->Some_0,
                    whole_pixels(bounds.width as int),
                    whole_pixels(bounds.height as int),
                )
                &&& forall|x: int, y: int|
                    0 <= x < canvas.width && 0 <= y < canvas.height ==> #[trigger] canvas.pixel(x, y)
                        == white() || exists|i: int|
                        painted_by(
                            display_list(node@)->Some_0,
                            i,
                            canvas.width as int,
                            canvas.height as int,
                            x,
                            y,
                            canvas.pixel(x, y),
                        )
            },
            Err(PaintError::Overflow) => display_list(node@) is None,
            Err(PaintError::CanvasTooLarge) => {
                &&& display_list(node@) is Some
                &&& !canvas_fits(
                    whole_pixels(bounds.width as int),
                    whole_pixels(bounds.height as int),
                )
            },
        },
{
    let mut commands: Vec<DisplayCommand> = Vec::new();

    render_node(&mut commands, node)?;

    let (width, height) = match (pixel_count(bounds.width), pixel_count(bounds.height)) {
        (Some(width), Some(height)) => (width, height),
        _ => {
            return Err(PaintError::CanvasTooLarge);
        },
    };
    if width.checked_mul(height).is_none() {
        return Err(PaintError::CanvasTooLarge);
    }
    let mut canvas = Canvas::new(width, height);

    let mut i: usize = 0;
    while i < commands.len()
        invariant
            i <= commands@.len(),
            canvas.shows(commands@.take(i as int), width as int, height as int),
        decreases commands@.len() - i,
    {
        canvas.handle_command(&commands[i]);
        proof {
            let done = commands@.take(i as int);
            let next = commands@.take(i + 1);
            assert(next.drop_last() =~= done);
            assert forall|x: int, y: int| 0 <= x < width && 0 <= y < height implies #[trigger] canvas.pixel(
                x,
                y,
            ) == color_at(next, width as int, height as int, x, y) by {}
        }
        i += 1;
    }
    assert(commands@.take(i as int) =~= commands@);
    assert forall|x: int, y: int|
        0 <= x < canvas.width && 0 <= y < canvas.height implies #[trigger] canvas.pixel(x, y)
        == white() || exists|i: int|
        painted_by(
            commands@,
            i,
            canvas.width as int,
            canvas.height as int,
            x,
            y,
            canvas.pixel(x, y),
        ) by {
        lemma_pixel_is_white_or_covered(
            commands@,
            canvas.width as int,
            canvas.height as int,
            x,
            y,
        );
    }
    Ok(canvas)
}

/// Appends the commands that paint the tree `node` to `display_list`: first
/// those of the box itself, then those of its children.
///
/// On an error the list may have grown by some of them.
pub fn render_node(display_list: &mut Vec<DisplayCommand>, node: &LayoutBox) -> (outcome: Result<
    (),
    PaintError,
>)
    ensures
        old(display_list)@.is_prefix_of(final(display_list)@),
        outcome is Ok <==> self::display_list(node@) is Some,
        outcome is Ok ==> final(display_list)@ == old(display_list)@ + self::display_list(
            node@,
        )->Some_0,
        outcome is Err ==> outcome == Err::<(), PaintError>(PaintError::Overflow),
    decreases node,
{
    let ghost start = display_list@;
    // The background fills the border box.
    if let Some(color) = get_color(node, "background-color") {
        match node.dimensions.border_box() {
            Some(area) => display_list.push(DisplayCommand::SolidColor(color, area)),
            None => {
                return Err(PaintError::Overflow);
            },
        }
    }

    // The border is painted where a color is specified for it.
    if let Some(color) = get_color(node, "border-color") {
        let d = node.dimensions;
        let border_box = match d.border_box() {
            Some(area) => area,
            None => {
                return Err(PaintError::Overflow);
            },
        };
        let right: i128 = border_box.x as i128 + border_box.width as i128 - d.border.right as i128;
        let bottom: i128 = border_box.y as i128 + border_box.height as i128
            - d.border.bottom as i128;
        if !(-0x8000_0000_0000_0000 <= right && right <= 0x7fff_ffff_ffff_ffff
            && -0x8000_0000_0000_0000 <= bottom && bottom <= 0x7fff_ffff_ffff_ffff) {
            return Err(PaintError::Overflow);
        }

        // Top
        display_list.push(
            DisplayCommand::SolidColor(
                color,
                Rect {
                    x: border_box.x,
                    y: border_box.y,
                    width: border_box.width,
                    height: d.border.top,
                },
            ),
        );

        // Left
        display_list.push(
            DisplayCommand::SolidColor(
                color,
                Rect {
                    x: border_box.x,
                    y: border_box.y,
                    width: d.border.left,
                    height: border_box.height,
                },
            ),
        );

        // Right
        display_list.push(
            DisplayCommand::SolidColor(
                color,
                Rect {
                    x: right as i64,
                    y: border_box.y,
                    width: d.border.right,
                    height: border_box.height,
                },
            ),
        );

        // Bottom
        display_list.push(
            DisplayCommand::SolidColor(
                color,
                Rect {
                    x: border_box.x,
                    y: bottom as i64,
                    width: border_box.width,
                    height: d.border.bottom,
                },
            ),
        );
    }
    let ghost own = own_commands(node@)->Some_0;

    let mut i: usize = 0;
    while i < node.children.len()
        invariant
            i <= node.children@.len(),
            start == old(display_list)@,
            start.is_prefix_of(display_list@),
            node@.children == box_views(node.children@),
            own_commands(node@) == Some(own),
            children_display_list(node@.children, i as nat) is Some,
            display_list@ == start + own + children_display_list(node@.children, i as nat)->Some_0,
        decreases node.children@.len() - i,
    {
        match render_node(display_list, &node.children[i]) {
            Ok(()) => {},
            Err(error) => {
                proof {
                    lemma_children_display_list_fails_on(
                        node@.children,
                        (i + 1) as nat,
                        node@.children.len(),
                    );
                }
                return Err(error);
            },
        }
        i += 1;
    }
    Ok(())
}

/// The color that the property `property` gives the box `layout_box`, if it is a color.
fn get_color(layout_box: &LayoutBox, property: &str) -> (found: Option<Color>)
    ensures
        found == color_of(layout_box@, property@),
{
    match layout_box.box_type {
        BoxType::Block(styled_node) | BoxType::Inline(styled_node) => {
            match styled_node.specified_properties.get(property) {
                Some(CSSValue::Color(color)) => Some(*color),
                _ => None,
            }
        },
        // An anonymous block has no color.
        BoxType::AnonymousBlock => None,
    }
}

} // verus!
