use toy_browser::css::{CSSUnit, CSSValue, Stylesheet};
use toy_browser::dom::{Element, Node};
use toy_browser::layout::{
    create_layout_box, layout_node, BoxDimensions, BoxType, EdgeSizes, LayoutBox, LayoutError,
    Rect,
};
use toy_browser::style::{style_node, PropertyMap, StyledNode};

const PX: i64 = 1000;

fn document(source: &str) -> Node {
    match toy_browser::html::parse(source.to_owned()) {
        Ok(node) => node,
        Err(error) => panic!("no document: {:?}", error),
    }
}

fn sheet(source: &str) -> Stylesheet {
    match toy_browser::css::parse(source.to_owned()) {
        Ok(sheet) => sheet,
        Err(error) => panic!("no style sheet: {:?}", error),
    }
}

fn viewport(width: i64, height: i64) -> BoxDimensions {
    BoxDimensions {
        content: Rect { x: 0, y: 0, width: width * PX, height: height * PX },
        ..BoxDimensions::default()
    }
}

fn tag<'a>(layout_box: &'a LayoutBox) -> &'a str {
    let styled = match layout_box.box_type {
        BoxType::Block(styled) | BoxType::Inline(styled) => styled,
        BoxType::AnonymousBlock => panic!("an anonymous block"),
    };
    match styled.node {
        Node::Element(Element { tag_name, .. }) => tag_name,
        Node::Text(_) => "",
    }
}

fn is_block(layout_box: &LayoutBox) -> bool {
    matches!(layout_box.box_type, BoxType::Block(_))
}

fn is_inline(layout_box: &LayoutBox) -> bool {
    matches!(layout_box.box_type, BoxType::Inline(_))
}

fn is_anonymous(layout_box: &LayoutBox) -> bool {
    matches!(layout_box.box_type, BoxType::AnonymousBlock)
}

fn margin_box_height(d: &BoxDimensions) -> i64 {
    d.content.height + d.padding.top + d.padding.bottom + d.border.top + d.border.bottom
        + d.margin.top + d.margin.bottom
}

/// Lays out one block with the declarations `declarations` in a containing
/// block of `width` pixels and returns its dimensions.
fn block_in(width: i64, declarations: &str) -> BoxDimensions {
    let root = document("<div></div>");
    let sheet = sheet(&format!("div {{ display: block; {} }}", declarations));
    let styled = style_node(&root, &sheet);
    layout_node(&styled, viewport(width, 100)).unwrap().dimensions
}

fn horizontal_sum(d: &BoxDimensions) -> i64 {
    d.margin.left + d.border.left + d.padding.left + d.content.width + d.padding.right
        + d.border.right + d.margin.right
}

#[test]
fn layout_width_distribution() {
    let root = document("<a><b></b></a>");
    let sheet = sheet("a { display: block; width: 50px } b { display: block; height: 30px }");
    let styled = style_node(&root, &sheet);
    let a = layout_node(&styled, viewport(100, 50)).unwrap();
    assert_eq!(a.dimensions.content.width, 50 * PX);
    assert_eq!(a.dimensions.margin.right, 50 * PX);
    assert_eq!(a.dimensions.margin.left, 0);
    assert_eq!(a.dimensions.content.height, 30 * PX);
    assert_eq!(a.children.len(), 1);
    let b = &a.children[0];
    assert_eq!(b.dimensions.content.width, 50 * PX);
    assert_eq!(b.dimensions.content.height, 30 * PX);
    assert_eq!(b.dimensions.content.x, 0);
    assert_eq!(b.dimensions.content.y, 0);
}

#[test]
fn layout_vertical_stacking() {
    let root = document(
        "<div class=\"a\"><div class=\"b\"><div class=\"c\"><div class=\"d\"><div class=\"e\"><div class=\"f\"><div class=\"g\"></div></div></div></div></div></div></div>",
    );
    let sheet = sheet("* { display: block; padding: 12px } .g { height: 432px }");
    let styled = style_node(&root, &sheet);
    let a = layout_node(&styled, viewport(800, 600)).unwrap();
    assert_eq!(a.dimensions.content.width, 776 * PX);
    assert_eq!(a.dimensions.content.height, 576 * PX);
    let mut level = &a;
    let mut width = 776 * PX;
    let mut offset = 12 * PX;
    let mut height = 576 * PX;
    for _ in 0..6 {
        assert_eq!(level.dimensions.content.width, width);
        assert_eq!(level.dimensions.content.height, height);
        assert_eq!(level.dimensions.content.x, offset);
        assert_eq!(level.dimensions.content.y, offset);
        assert_eq!(level.dimensions.padding.left, 12 * PX);
        assert_eq!(level.dimensions.padding.bottom, 12 * PX);
        assert_eq!(level.children.len(), 1);
        level = &level.children[0];
        width -= 24 * PX;
        offset += 12 * PX;
        height -= 24 * PX;
    }
    assert_eq!(level.dimensions.content.width, 632 * PX);
    assert_eq!(level.dimensions.content.height, 432 * PX);
    assert_eq!(level.children.len(), 0);
}

#[test]
fn layout_vertical_stacking_with_white_space_between_the_tags() {
    let root = document(
        "<div class=\"a\">\n    <div class=\"b\">\n        <div class=\"g\"></div>\n    </div>\n</div>",
    );
    let sheet = sheet("* { display: block; padding: 12px; }\n.g { height: 432px; }\n");
    let styled = style_node(&root, &sheet);
    let a = layout_node(&styled, viewport(800, 600)).unwrap();
    assert_eq!(a.dimensions.content.width, 776 * PX);
    assert_eq!(a.dimensions.content.height, (432 + 4 * 12) * PX);
    assert_eq!(a.children.len(), 3);
    assert!(is_anonymous(&a.children[0]));
    assert!(is_block(&a.children[1]));
    assert!(is_anonymous(&a.children[2]));
    assert_eq!(a.children[0].dimensions, BoxDimensions::default());
    assert_eq!(a.children[1].dimensions.content.width, 752 * PX);
}

#[test]
fn layout_display_none() {
    let root = document("<html><head><title>x</title></head><body><p>y</p></body></html>");
    let sheet = sheet("head, title { display: none } body { display: block }");
    let styled = style_node(&root, &sheet);
    let html = layout_node(&styled, viewport(100, 100)).unwrap();
    assert!(is_inline(&html));
    assert_eq!(tag(&html), "html");
    assert_eq!(html.children.len(), 1);
    let body = &html.children[0];
    assert!(is_block(body));
    assert_eq!(tag(body), "body");
    assert_eq!(body.children.len(), 1);
    assert!(is_anonymous(&body.children[0]));
    assert_eq!(body.children[0].children.len(), 1);
    let p = &body.children[0].children[0];
    assert!(is_inline(p));
    assert_eq!(tag(p), "p");
    assert_eq!(p.children.len(), 1);
    assert!(is_inline(&p.children[0]));
    assert_eq!(p.children[0].children.len(), 0);
}

#[test]
fn layout_anonymous_block_wrapping() {
    let root = document("<body><span>t1</span><p>block</p><span>t2</span></body>");
    let sheet = sheet("body, p { display: block }");
    let styled = style_node(&root, &sheet);
    let body = layout_node(&styled, viewport(100, 100)).unwrap();
    assert!(is_block(&body));
    assert_eq!(body.children.len(), 3);
    assert!(is_anonymous(&body.children[0]));
    assert_eq!(body.children[0].children.len(), 1);
    assert!(is_inline(&body.children[0].children[0]));
    assert_eq!(tag(&body.children[0].children[0]), "span");
    assert!(is_block(&body.children[1]));
    assert_eq!(tag(&body.children[1]), "p");
    assert!(is_anonymous(&body.children[2]));
    assert_eq!(body.children[2].children.len(), 1);
    assert_eq!(tag(&body.children[2].children[0]), "span");
}

#[test]
fn layout_inline_children_in_a_row_share_one_anonymous_block() {
    let root = document("<div><a></a>text<b></b><p></p><c></c><d></d></div>");
    let sheet = sheet("div, p { display: block }");
    let styled = style_node(&root, &sheet);
    let root_box = create_layout_box(&styled);
    assert_eq!(root_box.children.len(), 3);
    assert!(is_anonymous(&root_box.children[0]));
    assert_eq!(root_box.children[0].children.len(), 3);
    assert_eq!(tag(&root_box.children[0].children[0]), "a");
    assert_eq!(tag(&root_box.children[0].children[1]), "");
    assert_eq!(tag(&root_box.children[0].children[2]), "b");
    assert!(is_block(&root_box.children[1]));
    assert!(is_anonymous(&root_box.children[2]));
    assert_eq!(root_box.children[2].children.len(), 2);
    assert_eq!(tag(&root_box.children[2].children[0]), "c");
    assert_eq!(tag(&root_box.children[2].children[1]), "d");
}

#[test]
fn layout_a_hidden_child_between_inline_children_does_not_part_them() {
    let root = document("<div><a></a><x></x><b></b></div>");
    let sheet = sheet("div { display: block } x { display: none }");
    let styled = style_node(&root, &sheet);
    let root_box = create_layout_box(&styled);
    assert_eq!(root_box.children.len(), 1);
    assert_eq!(root_box.children[0].children.len(), 2);
}

#[test]
fn layout_inline_children_of_an_inline_parent_are_not_wrapped() {
    let root = document("<span><a></a><p></p><b></b></span>");
    let sheet = sheet("p { display: block }");
    let styled = style_node(&root, &sheet);
    let root_box = create_layout_box(&styled);
    assert!(is_inline(&root_box));
    assert_eq!(root_box.children.len(), 3);
    assert!(is_inline(&root_box.children[0]));
    assert!(is_block(&root_box.children[1]));
    assert!(is_inline(&root_box.children[2]));
}

#[test]
fn layout_a_display_other_than_block_and_none_is_inline() {
    let root = document("<div><a></a></div>");
    let sheet = sheet("div { display: flex } a { display: 3px }");
    let styled = style_node(&root, &sheet);
    let root_box = create_layout_box(&styled);
    assert!(is_inline(&root_box));
    assert!(is_inline(&root_box.children[0]));
}

#[test]
fn layout_new_boxes_have_no_geometry() {
    let root = document("<div><p>text</p></div>");
    let sheet = sheet("* { display: block; width: 10px; height: 10px; margin: 1px }");
    let styled = style_node(&root, &sheet);
    let root_box = create_layout_box(&styled);
    assert_eq!(root_box.dimensions, BoxDimensions::default());
    assert_eq!(root_box.children[0].dimensions, BoxDimensions::default());
    assert_eq!(root_box.children[0].children[0].dimensions, BoxDimensions::default());
}

#[test]
fn layout_a_hidden_root_is_an_error() {
    let root = document("<div><p></p></div>");
    let sheet = sheet("div { display: none } p { display: block }");
    let styled = style_node(&root, &sheet);
    assert_eq!(layout_node(&styled, viewport(10, 10)).err(), Some(LayoutError::HiddenRoot));
}

#[test]
fn layout_an_inline_root_is_left_as_it_is() {
    let root = document("<span><p></p></span>");
    let sheet = sheet("p { display: block; height: 5px; width: 5px }");
    let styled = style_node(&root, &sheet);
    let span = layout_node(&styled, viewport(100, 100)).unwrap();
    assert!(is_inline(&span));
    assert_eq!(span.dimensions, BoxDimensions::default());
    assert!(is_block(&span.children[0]));
    assert_eq!(span.children[0].dimensions, BoxDimensions::default());
}

#[test]
fn layout_without_matching_rules_everything_is_inline_and_empty() {
    let root = document("<div><p>text</p><ul><li></li></ul></div>");
    let sheet = sheet(".none { display: block; width: 5px }");
    let styled = style_node(&root, &sheet);
    let root_box = layout_node(&styled, viewport(100, 100)).unwrap();
    let mut boxes = vec![&root_box];
    let mut count = 0;
    while let Some(layout_box) = boxes.pop() {
        assert!(is_inline(layout_box));
        assert_eq!(layout_box.dimensions, BoxDimensions::default());
        count += 1;
        for child in layout_box.children.iter() {
            boxes.push(child);
        }
    }
    assert_eq!(count, 5);
}

#[test]
fn layout_the_height_of_the_viewport_counts_as_zero() {
    let root = document("<a><b></b></a>");
    let sheet = sheet("* { display: block } b { height: 7px }");
    let styled = style_node(&root, &sheet);
    let a = layout_node(&styled, viewport(10, 500)).unwrap();
    assert_eq!(a.dimensions.content.y, 0);
    assert_eq!(a.dimensions.content.height, 7 * PX);
}

#[test]
fn layout_children_are_stacked_below_each_other() {
    let root = document("<a><b></b><c></c><d></d></a>");
    let sheet = sheet(
        "* { display: block } a { padding: 5px } b { height: 10px; margin: 2px } c { height: 20px; border: 1px; padding-top: 3px } d { height: 30px; margin-top: 4px }",
    );
    let styled = style_node(&root, &sheet);
    let mut containing = viewport(200, 0);
    containing.content.x = 100 * PX;
    containing.content.y = 50 * PX;
    let a = layout_node(&styled, containing).unwrap();
    assert_eq!(a.dimensions.content.x, 105 * PX);
    assert_eq!(a.dimensions.content.y, 55 * PX);
    assert_eq!(a.dimensions.content.width, 190 * PX);
    let b = &a.children[0].dimensions;
    let c = &a.children[1].dimensions;
    let d = &a.children[2].dimensions;
    assert_eq!(b.content.x, 107 * PX);
    assert_eq!(b.content.y, 57 * PX);
    assert_eq!(b.content.width, 186 * PX);
    assert_eq!(margin_box_height(b), 14 * PX);
    assert_eq!(c.content.x, 106 * PX);
    assert_eq!(c.content.y, (55 + 14 + 1 + 3) * PX);
    assert_eq!(c.content.width, 188 * PX);
    assert_eq!(margin_box_height(c), (20 + 3 + 2) * PX);
    assert_eq!(d.content.x, 105 * PX);
    assert_eq!(d.content.y, (55 + 14 + 25 + 4) * PX);
    assert_eq!(margin_box_height(d), 34 * PX);
    assert_eq!(a.dimensions.content.height, (14 + 25 + 34) * PX);
}

#[test]
fn layout_every_block_starts_at_its_left_edges_in_its_parent() {
    let root = document("<a><b><c></c>text</b><d><e><f></f></e></d></a>");
    let sheet = sheet(
        "a, b, c, d, f { display: block; margin: 3px; border-left: 2px; padding: 1px } c { width: 10px; margin-left: auto } f { margin-left: 9px }",
    );
    let styled = style_node(&root, &sheet);
    let mut containing = viewport(300, 0);
    containing.content.x = 40 * PX;
    let a = layout_node(&styled, containing).unwrap();
    let d = &a.dimensions;
    assert_eq!(d.content.x, containing.content.x + d.margin.left + d.border.left + d.padding.left);
    let mut pairs = vec![(&a, &a.children[0]), (&a, &a.children[1])];
    let mut blocks = 1;
    while let Some((parent, child)) = pairs.pop() {
        if is_block(child) {
            blocks += 1;
            let d = &child.dimensions;
            assert_eq!(
                d.content.x,
                parent.dimensions.content.x + d.margin.left + d.border.left + d.padding.left
            );
        }
        for grandchild in child.children.iter() {
            pairs.push((child, grandchild));
        }
    }
    assert_eq!(blocks, 5);
}

#[test]
fn layout_a_specified_height_replaces_the_height_of_the_children() {
    let root = document("<a><b></b><c></c></a>");
    let sheet = sheet("* { display: block } a { height: 5px } b { height: 10px } c { height: 20px }");
    let styled = style_node(&root, &sheet);
    let a = layout_node(&styled, viewport(100, 100)).unwrap();
    assert_eq!(a.dimensions.content.height, 5 * PX);
    assert_eq!(a.children[0].dimensions.content.y, 0);
    assert_eq!(a.children[1].dimensions.content.y, 10 * PX);
}

#[test]
fn layout_a_height_that_is_no_length_does_not_count() {
    let root = document("<a><b></b></a>");
    let sheet = sheet("* { display: block } a { height: auto } b { height: 10px; padding: 1px }");
    let styled = style_node(&root, &sheet);
    let a = layout_node(&styled, viewport(100, 100)).unwrap();
    assert_eq!(a.dimensions.content.height, 12 * PX);
}

#[test]
fn layout_a_block_without_children_has_no_height() {
    assert_eq!(block_in(100, "padding: 4px").content.height, 0);
}

#[test]
fn layout_a_block_in_an_inline_box_is_not_laid_out() {
    let root = document("<a><b><c></c></b></a>");
    let sheet = sheet("a, c { display: block } c { height: 10px; width: 10px }");
    let styled = style_node(&root, &sheet);
    let a = layout_node(&styled, viewport(100, 100)).unwrap();
    assert!(is_block(&a));
    assert_eq!(a.dimensions.content.width, 100 * PX);
    assert_eq!(a.dimensions.content.height, 0);
    let anonymous = &a.children[0];
    assert!(is_anonymous(anonymous));
    let c = &anonymous.children[0].children[0];
    assert!(is_block(c));
    assert_eq!(c.dimensions, BoxDimensions::default());
}

#[test]
fn layout_nothing_automatic_the_right_margin_gives_way() {
    let d = block_in(100, "width: 30px; margin-left: 10px; margin-right: 5px; padding: 2px; border: 1px");
    assert_eq!(d.content.width, 30 * PX);
    assert_eq!(d.margin.left, 10 * PX);
    assert_eq!(d.padding.left, 2 * PX);
    assert_eq!(d.padding.right, 2 * PX);
    assert_eq!(d.border.left, 1 * PX);
    assert_eq!(d.border.right, 1 * PX);
    assert_eq!(d.margin.right, (100 - 30 - 10 - 6) * PX);
    assert_eq!(horizontal_sum(&d), 100 * PX);
    let d = block_in(20, "width: 30px; margin-right: 5px");
    assert_eq!(d.content.width, 30 * PX);
    assert_eq!(d.margin.right, -10 * PX);
    assert_eq!(horizontal_sum(&d), 20 * PX);
}

#[test]
fn layout_an_automatic_right_margin_takes_the_underflow() {
    let d = block_in(100, "width: 30px; margin-left: 10px; margin-right: auto");
    assert_eq!(d.margin.left, 10 * PX);
    assert_eq!(d.margin.right, 60 * PX);
    assert_eq!(horizontal_sum(&d), 100 * PX);
    let d = block_in(20, "width: 30px; margin-right: auto");
    assert_eq!(d.margin.right, -10 * PX);
}

#[test]
fn layout_an_automatic_left_margin_takes_the_underflow() {
    let d = block_in(100, "width: 30px; margin-left: auto; margin-right: 10px");
    assert_eq!(d.margin.left, 60 * PX);
    assert_eq!(d.margin.right, 10 * PX);
    assert_eq!(d.content.x, 60 * PX);
    assert_eq!(horizontal_sum(&d), 100 * PX);
}

#[test]
fn layout_two_automatic_margins_share_the_underflow() {
    let d = block_in(100, "width: 30px; margin: auto");
    assert_eq!(d.margin.left, 35 * PX);
    assert_eq!(d.margin.right, 35 * PX);
    let d = block_in(100, "width: 25.001px; margin-left: auto; margin-right: auto");
    assert_eq!(d.margin.left, 37_499);
    assert_eq!(d.margin.right, 37_500);
    assert_eq!(horizontal_sum(&d), 100 * PX);
    let d = block_in(10, "width: 25.001px; margin: auto");
    assert_eq!(d.margin.left, -7_500);
    assert_eq!(d.margin.right, -7_501);
    assert_eq!(horizontal_sum(&d), 10 * PX);
}

#[test]
fn layout_an_automatic_width_takes_the_underflow() {
    let d = block_in(100, "margin: auto; padding-left: 10px; border-right: 5px");
    assert_eq!(d.content.width, 85 * PX);
    assert_eq!(d.margin.left, 0);
    assert_eq!(d.margin.right, 0);
    assert_eq!(horizontal_sum(&d), 100 * PX);
    let d = block_in(100, "width: auto; margin-left: 20px");
    assert_eq!(d.content.width, 80 * PX);
    assert_eq!(d.margin.left, 20 * PX);
}

#[test]
fn layout_overflow_with_an_automatic_width_goes_to_the_right_margin() {
    let d = block_in(100, "padding: 60px");
    assert_eq!(d.content.width, 0);
    assert_eq!(d.margin.left, 0);
    assert_eq!(d.margin.right, -20 * PX);
    assert_eq!(horizontal_sum(&d), 100 * PX);
    let d = block_in(100, "padding-left: 130px; margin-left: auto; margin-right: 7px");
    assert_eq!(d.content.width, 0);
    assert_eq!(d.margin.left, 0);
    assert_eq!(d.margin.right, (7 - 37) * PX);
    let d = block_in(100, "padding-left: 130px; margin: auto");
    assert_eq!(d.margin.left, 0);
    assert_eq!(d.margin.right, -30 * PX);
}

#[test]
fn layout_in_a_viewport_of_no_width_every_block_has_no_width() {
    let root = document("<a><b><c></c></b><d></d></a>");
    let sheet = sheet("* { display: block; margin: auto } b { padding: 3px } d { border: 1px; margin-left: 2px }");
    let styled = style_node(&root, &sheet);
    let a = layout_node(&styled, viewport(0, 100)).unwrap();
    let mut boxes = vec![&a];
    let mut count = 0;
    while let Some(layout_box) = boxes.pop() {
        count += 1;
        assert_eq!(layout_box.dimensions.content.width, 0);
        assert_eq!(layout_box.dimensions.margin.left, if tag(layout_box) == "d" { 2 * PX } else { 0 });
        for child in layout_box.children.iter() {
            boxes.push(child);
        }
    }
    assert_eq!(count, 4);
    assert_eq!(a.children[0].dimensions.margin.right, -6 * PX);
    assert_eq!(a.children[0].children[0].dimensions.margin.right, 0);
    assert_eq!(a.children[1].dimensions.margin.right, -4 * PX);
}

#[test]
fn layout_the_longhand_comes_before_the_shorthand() {
    let d = block_in(
        100,
        "margin: 1px; margin-top: 2px; padding: 3px; padding-bottom: 4px; border: 5px; border-left: 6px; width: 10px",
    );
    assert_eq!(d.margin, EdgeSizes { left: 1 * PX, right: (100 - 10 - 1 - 6 - 11) * PX, top: 2 * PX, bottom: 1 * PX });
    assert_eq!(d.padding, EdgeSizes { left: 3 * PX, right: 3 * PX, top: 3 * PX, bottom: 4 * PX });
    assert_eq!(d.border, EdgeSizes { left: 6 * PX, right: 5 * PX, top: 5 * PX, bottom: 5 * PX });
    assert_eq!(d.content.x, 10 * PX);
    assert_eq!(d.content.y, 10 * PX);
}

#[test]
fn layout_an_edge_that_is_no_length_counts_as_zero() {
    let d = block_in(100, "padding: thick; border: #01020304; margin-top: auto; width: wide");
    assert_eq!(d.padding, EdgeSizes::default());
    assert_eq!(d.border, EdgeSizes::default());
    assert_eq!(d.margin.top, 0);
    assert_eq!(d.content.width, 0);
    assert_eq!(d.margin.right, 100 * PX);
}

#[test]
fn layout_geometry_out_of_range_is_an_error() {
    let root = document("<a><b></b></a>");
    let sheet = sheet("* { display: block } a { margin-left: 1px }");
    let styled = style_node(&root, &sheet);
    let mut containing = viewport(100, 100);
    containing.content.x = i64::MAX;
    assert_eq!(layout_node(&styled, containing).err(), Some(LayoutError::Overflow));
    containing.content.x = i64::MAX - 1000;
    let a = layout_node(&styled, containing).unwrap();
    assert_eq!(a.dimensions.content.x, i64::MAX);
    containing.content.x = 0;
    containing.content.width = i64::MIN;
    assert_eq!(layout_node(&styled, containing).err(), Some(LayoutError::Overflow));
    containing.content.width = 0;
    containing.content.y = i64::MAX;
    let sheet = toy_browser::css::parse("* { display: block } b { padding-top: 1px }".to_owned());
    let sheet = sheet.unwrap();
    let styled = style_node(&root, &sheet);
    assert_eq!(layout_node(&styled, containing).err(), Some(LayoutError::Overflow));
}

#[test]
fn layout_calculating_the_width_leaves_the_rest() {
    let root = document("<div></div>");
    let mut properties = PropertyMap::new();
    properties.insert("width".to_owned(), CSSValue::Length(40 * PX, CSSUnit::Px));
    properties.insert("margin-left".to_owned(), CSSValue::Keyword("auto".to_owned()));
    let styled = StyledNode { node: &root, specified_properties: properties, children: vec![] };
    let mut layout_box = LayoutBox {
        dimensions: BoxDimensions {
            content: Rect { x: 1, y: 2, width: 3, height: 4 },
            padding: EdgeSizes { left: 5, right: 6, top: 7, bottom: 8 },
            border: EdgeSizes { left: 9, right: 10, top: 11, bottom: 12 },
            margin: EdgeSizes { left: 13, right: 14, top: 15, bottom: 16 },
        },
        box_type: BoxType::Block(&styled),
        children: vec![],
    };
    let containing = viewport(100, 100);
    assert_eq!(layout_box.calculate_block_width(&containing), Ok(()));
    assert_eq!(
        layout_box.dimensions,
        BoxDimensions {
            content: Rect { x: 1, y: 2, width: 40 * PX, height: 4 },
            padding: EdgeSizes { left: 0, right: 0, top: 7, bottom: 8 },
            border: EdgeSizes { left: 0, right: 0, top: 11, bottom: 12 },
            margin: EdgeSizes { left: 60 * PX, right: 0, top: 15, bottom: 16 },
        }
    );
    assert_eq!(layout_box.calculate_block_position(&containing), Ok(()));
    assert_eq!(
        layout_box.dimensions,
        BoxDimensions {
            content: Rect { x: 60 * PX, y: 100 * PX, width: 40 * PX, height: 4 },
            padding: EdgeSizes { left: 0, right: 0, top: 0, bottom: 0 },
            border: EdgeSizes { left: 0, right: 0, top: 0, bottom: 0 },
            margin: EdgeSizes { left: 60 * PX, right: 0, top: 0, bottom: 0 },
        }
    );
}

#[test]
fn layout_the_style_node_of_a_box() {
    let root = document("<div></div>");
    let styled = StyledNode { node: &root, specified_properties: PropertyMap::new(), children: vec![] };
    let block = LayoutBox {
        dimensions: BoxDimensions::default(),
        box_type: BoxType::Block(&styled),
        children: vec![],
    };
    assert!(std::ptr::eq(block.get_style_node().unwrap(), &styled));
    let inline = LayoutBox {
        dimensions: BoxDimensions::default(),
        box_type: BoxType::Inline(&styled),
        children: vec![],
    };
    assert!(std::ptr::eq(inline.get_style_node().unwrap(), &styled));
    let anonymous = LayoutBox {
        dimensions: BoxDimensions::default(),
        box_type: BoxType::AnonymousBlock,
        children: vec![],
    };
    assert!(anonymous.get_style_node().is_none());
}

#[test]
fn layout_the_boxes_around_the_content() {
    let d = BoxDimensions {
        content: Rect { x: 100, y: 200, width: 30, height: 40 },
        padding: EdgeSizes { left: 1, right: 2, top: 3, bottom: 4 },
        border: EdgeSizes { left: 10, right: 20, top: 30, bottom: 40 },
        margin: EdgeSizes { left: 5, right: 6, top: 7, bottom: 8 },
    };
    assert_eq!(d.padding_box(), Some(Rect { x: 99, y: 197, width: 33, height: 47 }));
    assert_eq!(d.border_box(), Some(Rect { x: 89, y: 167, width: 63, height: 117 }));
    assert_eq!(d.margin_box(), Some(Rect { x: 84, y: 160, width: 74, height: 132 }));
    assert_eq!(BoxDimensions::default().margin_box(), Some(Rect::default()));
}

#[test]
fn layout_a_rectangle_grows_by_its_edges() {
    let rect = Rect { x: 0, y: 0, width: 10, height: 10 };
    let edges = EdgeSizes { left: 1, right: 2, top: 3, bottom: 4 };
    assert_eq!(rect.expanded_by(edges), Some(Rect { x: -1, y: -3, width: 13, height: 17 }));
    let edges = EdgeSizes { left: -1, right: -2, top: -3, bottom: -4 };
    assert_eq!(rect.expanded_by(edges), Some(Rect { x: 1, y: 3, width: 7, height: 3 }));
}

#[test]
fn layout_a_rectangle_that_cannot_grow() {
    let rect = Rect { x: i64::MIN, y: 0, width: 10, height: 10 };
    assert_eq!(rect.expanded_by(EdgeSizes { left: 1, right: 0, top: 0, bottom: 0 }), None);
    assert_eq!(rect.expanded_by(EdgeSizes::default()), Some(rect));
    let rect = Rect { x: 0, y: 0, width: i64::MAX, height: i64::MAX };
    assert_eq!(rect.expanded_by(EdgeSizes { left: 0, right: 1, top: 0, bottom: 0 }), None);
    assert_eq!(rect.expanded_by(EdgeSizes { left: 0, right: 0, top: 0, bottom: 1 }), None);
    assert_eq!(
        rect.expanded_by(EdgeSizes { left: 1, right: -1, top: 1, bottom: -1 }),
        Some(Rect { x: -1, y: -1, width: i64::MAX, height: i64::MAX })
    );
    let rect = Rect { x: 0, y: i64::MIN, width: 0, height: 0 };
    assert_eq!(rect.expanded_by(EdgeSizes { left: 0, right: 0, top: 1, bottom: 0 }), None);
    let d = BoxDimensions {
        content: Rect { x: i64::MIN + 1, y: 0, width: 0, height: 0 },
        padding: EdgeSizes { left: 1, right: 0, top: 0, bottom: 0 },
        border: EdgeSizes { left: 1, right: 0, top: 0, bottom: 0 },
        margin: EdgeSizes::default(),
    };
    assert!(d.padding_box().is_some());
    assert_eq!(d.border_box(), None);
    assert_eq!(d.margin_box(), None);
}

#[test]
fn layout_defaults_are_zero() {
    assert_eq!(Rect::default(), Rect { x: 0, y: 0, width: 0, height: 0 });
    assert_eq!(EdgeSizes::default(), EdgeSizes { left: 0, right: 0, top: 0, bottom: 0 });
    let d = BoxDimensions::default();
    assert_eq!(d.content, Rect::default());
    assert_eq!(d.padding, EdgeSizes::default());
    assert_eq!(d.border, EdgeSizes::default());
    assert_eq!(d.margin, EdgeSizes::default());
}
