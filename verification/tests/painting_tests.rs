use toy_browser::css::{CSSUnit, CSSValue, Color};
use toy_browser::dom::Node;
use toy_browser::layout::{BoxDimensions, BoxType, EdgeSizes, LayoutBox, Rect};
use toy_browser::painting::{paint_node, render_node, Canvas, DisplayCommand, PaintError};
use toy_browser::pipeline::{render, RenderError};
use toy_browser::style::{PropertyMap, StyledNode};

const PX: i64 = 1000;
const WHITE: Color = Color { r: 255, g: 255, b: 255, a: 255 };
const RED: Color = Color { r: 255, g: 0, b: 0, a: 0 };
const BLUE: Color = Color { r: 0, g: 0, b: 255, a: 255 };

fn styled<'a>(node: &'a Node, colors: &[(&str, Color)]) -> StyledNode<'a> {
    let mut properties = PropertyMap::new();
    for (name, color) in colors {
        properties.insert((*name).to_owned(), CSSValue::Color(*color));
    }
    StyledNode { node, specified_properties: properties, children: vec![] }
}

fn block<'a>(styled: &'a StyledNode<'a>, content: Rect) -> LayoutBox<'a> {
    LayoutBox {
        dimensions: BoxDimensions { content, ..BoxDimensions::default() },
        box_type: BoxType::Block(styled),
        children: vec![],
    }
}

fn bounds(width: i64, height: i64) -> Rect {
    Rect { x: 0, y: 0, width: width * PX, height: height * PX }
}

fn pixel(canvas: &Canvas, x: usize, y: usize) -> Color {
    canvas.pixels[y * canvas.width + x]
}

#[test]
fn painting_painter_clamp() {
    let node = Node::Text(String::new());
    let style = styled(&node, &[("background-color", RED)]);
    let layout_box = block(&style, Rect { x: -10 * PX, y: 2 * PX, width: 20 * PX, height: 3 * PX });
    let canvas = paint_node(&layout_box, bounds(10, 10)).unwrap();
    assert_eq!(canvas.width, 10);
    assert_eq!(canvas.height, 10);
    assert_eq!(canvas.pixels.len(), 100);
    for y in 0..10 {
        for x in 0..10 {
            let expected = if (2..5).contains(&y) { RED } else { WHITE };
            assert_eq!(pixel(&canvas, x, y), expected);
        }
    }
}

#[test]
fn painting_a_new_canvas_is_white() {
    let canvas = Canvas::new(3, 2);
    assert_eq!(canvas.width, 3);
    assert_eq!(canvas.height, 2);
    assert_eq!(canvas.pixels, vec![WHITE; 6]);
    assert_eq!(Canvas::new(0, 5).pixels.len(), 0);
    assert_eq!(Canvas::new(5, 0).pixels.len(), 0);
}

#[test]
fn painting_a_command_fills_its_rectangle() {
    let mut canvas = Canvas::new(4, 3);
    canvas.handle_command(&DisplayCommand::SolidColor(
        RED,
        Rect { x: 1 * PX, y: 1 * PX, width: 2 * PX, height: 1 * PX },
    ));
    let w = WHITE;
    let r = RED;
    assert_eq!(canvas.pixels, vec![w, w, w, w, w, r, r, w, w, w, w, w]);
}

#[test]
fn painting_a_later_command_paints_over_an_earlier_one() {
    let mut canvas = Canvas::new(3, 1);
    canvas.handle_command(&DisplayCommand::SolidColor(
        RED,
        Rect { x: 0, y: 0, width: 2 * PX, height: PX },
    ));
    canvas.handle_command(&DisplayCommand::SolidColor(
        BLUE,
        Rect { x: PX, y: 0, width: 2 * PX, height: PX },
    ));
    assert_eq!(canvas.pixels, vec![RED, BLUE, BLUE]);
}

#[test]
fn painting_coordinates_are_cut_down_to_whole_pixels() {
    let mut canvas = Canvas::new(5, 1);
    canvas.handle_command(&DisplayCommand::SolidColor(
        RED,
        Rect { x: 1_999, y: 0, width: 2_001, height: 1_999 },
    ));
    assert_eq!(canvas.pixels, vec![WHITE, RED, RED, RED, WHITE]);
    let mut canvas = Canvas::new(5, 1);
    canvas.handle_command(&DisplayCommand::SolidColor(
        RED,
        Rect { x: 1_999, y: 0, width: 2_000, height: 999 },
    ));
    assert_eq!(canvas.pixels, vec![WHITE; 5]);
    let mut canvas = Canvas::new(5, 1);
    canvas.handle_command(&DisplayCommand::SolidColor(
        RED,
        Rect { x: -500, y: -999, width: 1_500, height: 2_000 },
    ));
    assert_eq!(canvas.pixels, vec![RED, WHITE, WHITE, WHITE, WHITE]);
}

#[test]
fn painting_a_rectangle_off_the_canvas_paints_nothing() {
    for rect in [
        Rect { x: 10 * PX, y: 0, width: 5 * PX, height: 5 * PX },
        Rect { x: -10 * PX, y: 0, width: 5 * PX, height: 5 * PX },
        Rect { x: 0, y: 3 * PX, width: 5 * PX, height: 5 * PX },
        Rect { x: 0, y: 0, width: 0, height: 5 * PX },
        Rect { x: 2 * PX, y: 0, width: -1 * PX, height: 5 * PX },
        Rect { x: i64::MIN, y: i64::MIN, width: i64::MAX, height: i64::MAX },
    ] {
        let mut canvas = Canvas::new(3, 3);
        canvas.handle_command(&DisplayCommand::SolidColor(RED, rect));
        assert_eq!(canvas.pixels, vec![WHITE; 9]);
    }
    let mut canvas = Canvas::new(3, 3);
    canvas.handle_command(&DisplayCommand::SolidColor(
        RED,
        Rect { x: i64::MAX, y: i64::MAX, width: i64::MAX, height: i64::MAX },
    ));
    assert_eq!(canvas.pixels, vec![WHITE; 9]);
    canvas.handle_command(&DisplayCommand::SolidColor(
        RED,
        Rect { x: -5, y: -5, width: i64::MAX, height: i64::MAX },
    ));
    assert_eq!(canvas.pixels, vec![RED; 9]);
}

#[test]
fn painting_the_display_list_of_a_tree() {
    let node = Node::Text(String::new());
    let outer_style = styled(&node, &[("background-color", RED)]);
    let inner_style = styled(&node, &[("background-color", BLUE)]);
    let plain_style = styled(&node, &[]);
    let mut outer = block(&outer_style, Rect { x: 0, y: 0, width: 10, height: 10 });
    let mut anonymous = LayoutBox {
        dimensions: BoxDimensions::default(),
        box_type: BoxType::AnonymousBlock,
        children: vec![],
    };
    anonymous.children.push(LayoutBox {
        dimensions: BoxDimensions {
            content: Rect { x: 1, y: 1, width: 1, height: 1 },
            ..BoxDimensions::default()
        },
        box_type: BoxType::Inline(&inner_style),
        children: vec![],
    });
    outer.children.push(anonymous);
    outer.children.push(block(&plain_style, Rect { x: 5, y: 5, width: 5, height: 5 }));
    outer.children.push(block(&inner_style, Rect { x: 2, y: 2, width: 2, height: 2 }));
    let mut commands = vec![];
    assert_eq!(render_node(&mut commands, &outer), Ok(()));
    assert_eq!(
        commands,
        vec![
            DisplayCommand::SolidColor(RED, Rect { x: 0, y: 0, width: 10, height: 10 }),
            DisplayCommand::SolidColor(BLUE, Rect { x: 1, y: 1, width: 1, height: 1 }),
            DisplayCommand::SolidColor(BLUE, Rect { x: 2, y: 2, width: 2, height: 2 }),
        ]
    );
    assert_eq!(render_node(&mut commands, &outer.children[2]), Ok(()));
    assert_eq!(commands.len(), 4);
    assert_eq!(commands[3], commands[2]);
}

#[test]
fn painting_the_background_fills_the_border_box() {
    let node = Node::Text(String::new());
    let style = styled(&node, &[("background-color", RED)]);
    let mut layout_box = block(&style, Rect { x: 10, y: 20, width: 30, height: 40 });
    layout_box.dimensions.padding = EdgeSizes { left: 1, right: 2, top: 3, bottom: 4 };
    layout_box.dimensions.border = EdgeSizes { left: 5, right: 6, top: 7, bottom: 8 };
    layout_box.dimensions.margin = EdgeSizes { left: 100, right: 100, top: 100, bottom: 100 };
    let mut commands = vec![];
    assert_eq!(render_node(&mut commands, &layout_box), Ok(()));
    assert_eq!(
        commands,
        vec![DisplayCommand::SolidColor(RED, Rect { x: 4, y: 10, width: 44, height: 62 })]
    );
}

#[test]
fn painting_the_border_is_four_strips() {
    let node = Node::Text(String::new());
    let style = styled(&node, &[("border-color", BLUE), ("background-color", RED)]);
    let mut layout_box = block(&style, Rect { x: 10, y: 20, width: 30, height: 40 });
    layout_box.dimensions.border = EdgeSizes { left: 1, right: 2, top: 3, bottom: 4 };
    let mut commands = vec![];
    assert_eq!(render_node(&mut commands, &layout_box), Ok(()));
    assert_eq!(
        commands,
        vec![
            DisplayCommand::SolidColor(RED, Rect { x: 9, y: 17, width: 33, height: 47 }),
            DisplayCommand::SolidColor(BLUE, Rect { x: 9, y: 17, width: 33, height: 3 }),
            DisplayCommand::SolidColor(BLUE, Rect { x: 9, y: 17, width: 1, height: 47 }),
            DisplayCommand::SolidColor(BLUE, Rect { x: 40, y: 17, width: 2, height: 47 }),
            DisplayCommand::SolidColor(BLUE, Rect { x: 9, y: 60, width: 33, height: 4 }),
        ]
    );
}

#[test]
fn painting_a_border_around_a_background() {
    let node = Node::Text(String::new());
    let style = styled(&node, &[("border-color", BLUE), ("background-color", RED)]);
    let mut layout_box = block(&style, Rect { x: 2 * PX, y: 2 * PX, width: 2 * PX, height: 1 * PX });
    layout_box.dimensions.border = EdgeSizes { left: PX, right: PX, top: PX, bottom: PX };
    let canvas = paint_node(&layout_box, bounds(6, 5)).unwrap();
    let w = WHITE;
    let r = RED;
    let b = BLUE;
    assert_eq!(
        canvas.pixels,
        vec![
            w, w, w, w, w, w, //
            w, b, b, b, b, w, //
            w, b, r, r, b, w, //
            w, b, b, b, b, w, //
            w, w, w, w, w, w, //
        ]
    );
}

#[test]
fn painting_a_property_that_is_no_color_paints_nothing() {
    let node = Node::Text(String::new());
    let mut properties = PropertyMap::new();
    properties.insert("background-color".to_owned(), CSSValue::Keyword("red".to_owned()));
    properties.insert("border-color".to_owned(), CSSValue::Length(1, CSSUnit::Px));
    properties.insert("color".to_owned(), CSSValue::Color(RED));
    let style = StyledNode { node: &node, specified_properties: properties, children: vec![] };
    let layout_box = block(&style, Rect { x: 0, y: 0, width: 5 * PX, height: 5 * PX });
    let mut commands = vec![];
    assert_eq!(render_node(&mut commands, &layout_box), Ok(()));
    assert_eq!(commands.len(), 0);
    assert_eq!(paint_node(&layout_box, bounds(2, 2)).unwrap().pixels, vec![WHITE; 4]);
}

#[test]
fn painting_every_pixel_is_white_or_covered() {
    let node = Node::Text(String::new());
    let outer_style = styled(&node, &[("background-color", RED)]);
    let inner_style = styled(&node, &[("background-color", BLUE), ("border-color", RED)]);
    let mut outer = block(&outer_style, Rect { x: 1_500, y: 500, width: 4_200, height: 3_300 });
    let mut inner = block(&inner_style, Rect { x: 3 * PX, y: 2 * PX, width: 5 * PX, height: 5 * PX });
    inner.dimensions.border = EdgeSizes { left: 500, right: 1_500, top: 0, bottom: 2_500 };
    outer.children.push(inner);
    let mut commands = vec![];
    render_node(&mut commands, &outer).unwrap();
    let canvas = paint_node(&outer, bounds(8, 6)).unwrap();
    let boundary = |units: i64, limit: i64| -> i64 {
        if units <= 0 {
            0
        } else if units / PX >= limit {
            limit
        } else {
            units / PX
        }
    };
    let mut painted = 0;
    for y in 0..6i64 {
        for x in 0..8i64 {
            let color = pixel(&canvas, x as usize, y as usize);
            let mut last = WHITE;
            for command in commands.iter() {
                let DisplayCommand::SolidColor(command_color, rect) = command;
                if boundary(rect.x, 8) <= x
                    && x < boundary(rect.x + rect.width, 8)
                    && boundary(rect.y, 6) <= y
                    && y < boundary(rect.y + rect.height, 6)
                {
                    last = *command_color;
                }
            }
            assert_eq!(color, last);
            if color != WHITE {
                painted += 1;
            }
        }
    }
    assert!(painted > 0);
    assert!(painted < 48);
}

#[test]
fn painting_the_canvas_has_the_whole_pixels_of_the_bounds() {
    let node = Node::Text(String::new());
    let style = styled(&node, &[]);
    let layout_box = block(&style, Rect::default());
    let canvas = paint_node(&layout_box, Rect { x: 7, y: 9, width: 3_999, height: 2_000 }).unwrap();
    assert_eq!((canvas.width, canvas.height), (3, 2));
    assert_eq!(canvas.pixels, vec![WHITE; 6]);
    let canvas = paint_node(&layout_box, Rect { x: 0, y: 0, width: -5 * PX, height: 2 * PX }).unwrap();
    assert_eq!((canvas.width, canvas.height), (0, 2));
    assert_eq!(canvas.pixels.len(), 0);
    let canvas = paint_node(&layout_box, Rect { x: 0, y: 0, width: 999, height: 999 }).unwrap();
    assert_eq!((canvas.width, canvas.height), (0, 0));
}

#[test]
fn painting_a_canvas_that_is_too_large_is_an_error() {
    let node = Node::Text(String::new());
    let style = styled(&node, &[]);
    let layout_box = block(&style, Rect::default());
    let outcome = paint_node(&layout_box, Rect { x: 0, y: 0, width: i64::MAX, height: i64::MAX });
    assert_eq!(outcome.err(), Some(PaintError::CanvasTooLarge));
}

#[test]
fn painting_a_rectangle_out_of_range_is_an_error() {
    let node = Node::Text(String::new());
    let style = styled(&node, &[("background-color", RED)]);
    let mut layout_box = block(&style, Rect { x: i64::MIN, y: 0, width: 10, height: 10 });
    layout_box.dimensions.padding.left = 1;
    assert_eq!(paint_node(&layout_box, bounds(2, 2)).err(), Some(PaintError::Overflow));
    let mut commands = vec![];
    assert_eq!(render_node(&mut commands, &layout_box), Err(PaintError::Overflow));
    let border_style = styled(&node, &[("border-color", RED)]);
    let mut layout_box = block(&border_style, Rect { x: i64::MAX - 10, y: 0, width: 10, height: 10 });
    assert_eq!(paint_node(&layout_box, bounds(2, 2)).err(), None);
    layout_box.dimensions.padding.right = 1;
    assert_eq!(paint_node(&layout_box, bounds(2, 2)).err(), Some(PaintError::Overflow));
    let plain = styled(&node, &[]);
    let mut parent = block(&plain, Rect::default());
    parent.children.push(block(&style, Rect::default()));
    let mut bad = block(&style, Rect { x: 0, y: i64::MIN, width: 0, height: 0 });
    bad.dimensions.border.top = 5;
    parent.children.push(bad);
    assert_eq!(paint_node(&parent, bounds(2, 2)).err(), Some(PaintError::Overflow));
}

#[test]
fn painting_a_box_without_colors_may_have_any_geometry() {
    let node = Node::Text(String::new());
    let style = styled(&node, &[]);
    let mut layout_box = block(&style, Rect { x: i64::MIN, y: i64::MIN, width: 10, height: 10 });
    layout_box.dimensions.padding.left = 1;
    assert_eq!(paint_node(&layout_box, bounds(1, 1)).unwrap().pixels, vec![WHITE]);
}

#[test]
fn pipeline_renders_a_page() {
    let canvas = render(
        "<div><p></p></div>".to_owned(),
        "div { display: block; padding: 1px; background-color: #ff000000 } p { display: block; height: 2px; margin-right: 1px; background-color: #0000ffff }".to_owned(),
        BoxDimensions { content: Rect { x: 0, y: 0, width: 5 * PX, height: 5 * PX }, ..BoxDimensions::default() },
    )
    .unwrap();
    let w = WHITE;
    let r = RED;
    let b = BLUE;
    assert_eq!((canvas.width, canvas.height), (5, 5));
    assert_eq!(
        canvas.pixels,
        vec![
            r, r, r, r, r, //
            r, b, b, r, r, //
            r, b, b, r, r, //
            r, r, r, r, r, //
            w, w, w, w, w, //
        ]
    );
}

#[test]
fn pipeline_the_same_input_gives_the_same_canvas() {
    let html = "<div class=\"a\"><div class=\"b\"><div class=\"c\"></div></div>text</div>";
    let css = "* { display: block; padding: 2px; border: 1px } .a { background-color: #ff0000ff; border-color: #00ff00ff } .b { background-color: #ffa500ff } .c { background-color: #ffff00ff; height: 3.5px }";
    let viewport = BoxDimensions {
        content: Rect { x: 0, y: 0, width: 24 * PX, height: 24 * PX },
        ..BoxDimensions::default()
    };
    let first = render(html.to_owned(), css.to_owned(), viewport).unwrap();
    let second = render(html.to_owned(), css.to_owned(), viewport).unwrap();
    assert_eq!(first.width, second.width);
    assert_eq!(first.height, second.height);
    assert_eq!(first.pixels, second.pixels);
    assert_eq!(first.pixels.len(), 24 * 24);
    assert_eq!(first.pixels[0], Color { r: 0, g: 255, b: 0, a: 255 });
    assert_eq!(first.pixels[24 + 1], Color { r: 255, g: 0, b: 0, a: 255 });
    assert_eq!(first.pixels[4 * 24 + 4], Color { r: 0xff, g: 0xa5, b: 0, a: 255 });
    assert_eq!(first.pixels[7 * 24 + 7], Color { r: 255, g: 255, b: 0, a: 255 });
    assert_eq!(first.pixels[20 * 24 + 23], Color { r: 0, g: 255, b: 0, a: 255 });
    assert_eq!(first.pixels[21 * 24 + 23], WHITE);
    assert_eq!(first.pixels[23 * 24 + 23], WHITE);
}

#[test]
fn pipeline_reports_the_stage_that_failed() {
    let viewport = BoxDimensions {
        content: Rect { x: 0, y: 0, width: 2 * PX, height: 2 * PX },
        ..BoxDimensions::default()
    };
    let outcome = render("<a>".to_owned(), "a {".to_owned(), viewport);
    assert_eq!(outcome.err(), Some(RenderError::Html(toy_browser::html::HtmlError::UnexpectedEnd)));
    let outcome = render("<a></a>".to_owned(), "a {".to_owned(), viewport);
    assert_eq!(outcome.err(), Some(RenderError::Css(toy_browser::css::CssError::UnexpectedEnd)));
    let outcome = render("<a></a>".to_owned(), "a { display: none }".to_owned(), viewport);
    assert_eq!(
        outcome.err(),
        Some(RenderError::Layout(toy_browser::layout::LayoutError::HiddenRoot))
    );
    let huge = BoxDimensions {
        content: Rect { x: 0, y: 0, width: i64::MAX, height: i64::MAX },
        ..BoxDimensions::default()
    };
    let outcome = render("<a></a>".to_owned(), "a { display: block }".to_owned(), huge);
    assert_eq!(outcome.err(), Some(RenderError::Paint(PaintError::CanvasTooLarge)));
    let far = BoxDimensions {
        content: Rect { x: i64::MAX, y: 0, width: 2 * PX, height: 2 * PX },
        ..BoxDimensions::default()
    };
    let outcome = render(
        "<a></a>".to_owned(),
        "a { display: block; margin-left: 1px; background-color: #00000000 }".to_owned(),
        far,
    );
    assert_eq!(outcome.err(), Some(RenderError::Layout(toy_browser::layout::LayoutError::Overflow)));
}
