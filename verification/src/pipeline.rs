//! The whole way from source text to pixels.

use vstd::prelude::*;
use crate::css::{parse_stylesheet, CssError};
use crate::html::{parse_document, HtmlError};
use crate::layout::{layout_node, layout_of, BoxDimensions, LayoutError};
use crate::painting::{
    canvas_fits, display_list, paint_node, pixel_index, whole_pixels, Canvas, DisplayCommand,
    PaintError,
};
use crate::style::{style_node, styled_tree};

verus! {

/// Why a page could not be rendered: the stage that failed, with its reason.
#[derive(Debug, Clone, Copy, PartialEq, Eq, Structural)]
pub enum RenderError {
    Html(HtmlError),
    Css(CssError),
    Layout(LayoutError),
    Paint(PaintError),
}

/// The commands that paint the document `html` under the style sheet `css`
/// in the viewport `viewport`, or the first error on the way: of the
/// markup, of the style sheet, of layout, of painting.
pub open spec fn rendering(html: Seq<char>, css: Seq<char>, viewport: BoxDimensions) -> Result<
    Seq<DisplayCommand>,
    RenderError,
> {
    match parse_document(html) {
        Err(error) => Err(RenderError::Html(error)),
        Ok(document) => match parse_stylesheet(css) {
            Err(error) => Err(RenderError::Css(error)),
            Ok(sheet) => match layout_of(styled_tree(document, sheet), viewport) {
                Err(error) => Err(RenderError::Layout(error)),
                Ok(root) => match display_list(root) {
                    None => Err(RenderError::Paint(PaintError::Overflow)),
                    Some(commands) => if canvas_fits(
                        whole_pixels(viewport.content.width as int),
                        whole_pixels(viewport.content.height as int),
                    ) {
                        Ok(commands)
                    } else {
                        Err(RenderError::Paint(PaintError::CanvasTooLarge))
                    },
                },
            },
        },
    }
}

/// Renders the document `html` under the style sheet `css` on a canvas as
/// large as the content of `viewport`, counted in whole pixels.
pub fn render(html: String, css: String, viewport: BoxDimensions) -> (outcome: Result<
    Canvas,
    RenderError,
>)
    ensures
        match outcome {
            Ok(canvas) => rendering(html@, css@, viewport) is Ok && canvas.shows(
                rendering(html@, css@, viewport)->Ok_0,
                whole_pixels(viewport.content.width as int),
                whole_pixels(viewport.content.height as int),
            ),
            Err(error) => rendering(html@, css@, viewport) == Err::<
                Seq<DisplayCommand>,
                RenderError,
            >(error),
        },
{
    let root = match crate::html::parse(html) {
        Ok(root) => root,
        Err(error) => {
            return Err(RenderError::Html(error));
        },
    };
    let stylesheet = match crate::css::parse(css) {
        Ok(stylesheet) => stylesheet,
        Err(error) => {
            return Err(RenderError::Css(error));
        },
    };
    let styled = style_node(&root, &stylesheet);
    let layout_box = match layout_node(&styled, viewport) {
        Ok(layout_box) => layout_box,
        Err(error) => {
            return Err(RenderError::Layout(error));
        },
    };
    match paint_node(&layout_box, viewport.content) {
        Ok(canvas) => Ok(canvas),
        Err(error) => Err(RenderError::Paint(error)),
    }
}

/// Two canvases that show the same commands on the same raster hold the same
/// pixels: what is rendered depends on nothing but the markup, the style
/// sheet and the viewport.
pub proof fn lemma_shown_canvas_is_unique(
    first: Canvas,
    second: Canvas,
    commands: Seq<DisplayCommand>,
    width: int,
    height: int,
)
    requires
        first.shows(commands, width, height),
        second.shows(commands, width, height),
    ensures
        first.width == second.width,
        first.height == second.height,
        first.pixels@ == second.pixels@,
{
    assert forall|i: int| 0 <= i < first.pixels@.len() implies first.pixels@[i]
        == second.pixels@[i] by {
        assert(width > 0) by (nonlinear_arith)
            requires
                0 <= i < width * height,
                0 <= width,
        ;
        let x = i % width;
        let y = i / width;
        vstd::arithmetic::div_mod::lemma_fundamental_div_mod(i, width);
        vstd::arithmetic::div_mod::lemma_div_pos_is_pos(i, width);
        assert(y < height) by (nonlinear_arith)
            requires
                i == width * y + x,
                0 <= x,
                i < width * height,
                0 < width,
        ;
        assert(pixel_index(width, x, y) == i) by (nonlinear_arith)
            requires
                i == width * y + x,
        ;
        assert(first.pixel(x, y) == second.pixel(x, y));
    }
}

} // verus!
