//! The layout engine: from the styled tree to boxes with resolved geometry.
//!
//! All geometry is held in whole layout units, `UNITS_PER_PX` of them to a
//! pixel. A box whose geometry leaves the range of `i64` is not laid out:
//! layout reports `LayoutError::Overflow` instead.

use vstd::prelude::*;
use crate::css::{CSSUnit, CSSValue, ValueView};
use crate::style::{lookup, name_views, styled_view, unstyled, StyledNode, StyledView};
use crate::text::str_eq;

verus! {

/// The thickness of the four edges of a box.
#[derive(Debug, Clone, Copy, PartialEq, Eq, Structural)]
pub struct EdgeSizes {
    pub left: i64,
    pub right: i64,
    pub top: i64,
    pub bottom: i64,
}

/// A rectangle: its top left corner and its size. The y axis points down.
#[derive(Debug, Clone, Copy, PartialEq, Eq, Structural)]
pub struct Rect {
    pub x: i64,
    pub y: i64,
    pub width: i64,
    pub height: i64,
}

/// The geometry of a box: its content rectangle and the edges around it,
/// from the inside out.
#[derive(Debug, Clone, Copy, PartialEq, Eq, Structural)]
pub struct BoxDimensions {
    pub content: Rect,
    pub padding: EdgeSizes,
    pub border: EdgeSizes,
    pub margin: EdgeSizes,
}

/// Why a tree could not be laid out.
#[derive(Debug, Clone, Copy, PartialEq, Eq, Structural)]
pub enum LayoutError {
    /// The root of the styled tree has `display: none`.
    HiddenRoot,
    /// Some coordinate or size does not fit in an `i64`.
    Overflow,
}

/// Whether `value` can be held in an `i64`.
pub open spec fn fits_i64(value: int) -> bool {
    i64::MIN <= value <= i64::MAX
}

impl EdgeSizes {
    /// Edges of no thickness.
    pub open spec fn zero() -> EdgeSizes {
        EdgeSizes { left: 0, right: 0, top: 0, bottom: 0 }
    }
}

impl Default for EdgeSizes {
    fn default() -> (edges: EdgeSizes)
        ensures
            edges == EdgeSizes::zero(),
    {
        EdgeSizes { left: 0, right: 0, top: 0, bottom: 0 }
    }
}

impl Rect {
    /// The empty rectangle at the origin.
    pub open spec fn zero() -> Rect {
        Rect { x: 0, y: 0, width: 0, height: 0 }
    }

    /// Whether the rectangle grown by `edges` on each side can be represented.
    pub open spec fn can_expand(self, edges: EdgeSizes) -> bool {
        &&& fits_i64(self.x - edges.left)
        &&& fits_i64(self.y - edges.top)
        &&& fits_i64(self.width + edges.left + edges.right)
        &&& fits_i64(self.height + edges.top + edges.bottom)
    }

    /// The rectangle grown by `edges` on each side.
    pub open spec fn expanded(self, edges: EdgeSizes) -> Rect {
        Rect {
            x: (self.x - edges.left) as i64,
            y: (self.y - edges.top) as i64,
            width: (self.width + edges.left + edges.right) as i64,
            height: (self.height + edges.top + edges.bottom) as i64,
        }
    }

    /// The rectangle grown by `edges` on each side, or `None` if that
    /// rectangle cannot be represented.
    pub fn expanded_by(self, edges: EdgeSizes) -> (grown: Option<Rect>)
        ensures
            grown is Some <==> self.can_expand(edges),
            grown is Some ==> grown->0 == self.expanded(edges),
    {
        let x: i128 = self.x as i128 - edges.left as i128;
        let y: i128 = self.y as i128 - edges.top as i128;
        let width: i128 = self.width as i128 + edges.left as i128 + edges.right as i128;
        let height: i128 = self.height as i128 + edges.top as i128 + edges.bottom as i128;
        if in_range(x) && in_range(y) && in_range(width) && in_range(height) {
            Some(Rect { x: x as i64, y: y as i64, width: width as i64, height: height as i64 })
        } else {
            None
        }
    }
}

impl Default for Rect {
    fn default() -> (rect: Rect)
        ensures
            rect == Rect::zero(),
    {
        Rect { x: 0, y: 0, width: 0, height: 0 }
    }
}

/// Whether `value` can be held in an `i64`.
fn in_range(value: i128) -> (fits: bool)
    ensures
        fits == fits_i64(value as int),
{
    -0x8000_0000_0000_0000 <= value && value <= 0x7fff_ffff_ffff_ffff
}

impl BoxDimensions {
    /// A box of no size at the origin.
    pub open spec fn zero() -> BoxDimensions {
        BoxDimensions {
            content: Rect::zero(),
            padding: EdgeSizes::zero(),
            border: EdgeSizes::zero(),
            margin: EdgeSizes::zero(),
        }
    }

    /// The rectangle that encloses the content and the padding, if it can be represented.
    pub open spec fn padding_box_spec(self) -> Option<Rect> {
        if self.content.can_expand(self.padding) {
            Some(self.content.expanded(self.padding))
        } else {
            None
        }
    }

    /// The rectangle that encloses the content, the padding and the border,
    /// if it can be represented.
    pub open spec fn border_box_spec(self) -> Option<Rect> {
        match self.padding_box_spec() {
            Some(inner) => if inner.can_expand(self.border) {
                Some(inner.expanded(self.border))
            } else {
                None
            },
            None => None,
        }
    }

    /// The rectangle that encloses the content, the padding, the border and
    /// the margin, if it can be represented.
    pub open spec fn margin_box_spec(self) -> Option<Rect> {
        match self.border_box_spec() {
            Some(inner) => if inner.can_expand(self.margin) {
                Some(inner.expanded(self.margin))
            } else {
                None
            },
            None => None,
        }
    }

    /// The rectangle that encloses the content and the padding.
    pub fn padding_box(self) -> (area: Option<Rect>)
        ensures
            area == self.padding_box_spec(),
    {
        self.content.expanded_by(self.padding)
    }

    /// The rectangle that encloses the content, the padding and the border.
    pub fn border_box(self) -> (area: Option<Rect>)
        ensures
            area == self.border_box_spec(),
    {
        match self.padding_box() {
            Some(inner) => inner.expanded_by(self.border),
            None => None,
        }
    }

    /// The rectangle that encloses the content, the padding, the border and the margin.
    pub fn margin_box(self) -> (area: Option<Rect>)
        ensures
            area == self.margin_box_spec(),
    {
        match self.border_box() {
            Some(inner) => inner.expanded_by(self.margin),
            None => None,
        }
    }
}

impl Default for BoxDimensions {
    fn default() -> (dimensions: BoxDimensions)
        ensures
            dimensions == BoxDimensions::zero(),
    {
        BoxDimensions {
            content: Rect::default(),
            padding: EdgeSizes::default(),
            border: EdgeSizes::default(),
            margin: EdgeSizes::default(),
        }
    }
}

/// The kind of a box, with the styled node that a block or inline box belongs to.
#[derive(Debug)]
pub enum BoxType<'a> {
    Inline(&'a StyledNode<'a>),
    Block(&'a StyledNode<'a>),
    AnonymousBlock,
}

/// A box of the layout tree.
#[derive(Debug)]
pub struct LayoutBox<'a> {
    pub dimensions: BoxDimensions,
    pub box_type: BoxType<'a>,
    pub children: Vec<LayoutBox<'a>>,
}

/// What a `LayoutBox` stands for.
pub ghost struct BoxView {
    pub dimensions: BoxDimensions,
    pub kind: BoxKind,
    pub children: Seq<BoxView>,
}

/// What a `BoxType` stands for.
pub ghost enum BoxKind {
    Inline(StyledView),
    Block(StyledView),
    AnonymousBlock,
}

/// What the box `layout_box` stands for.
pub open spec fn box_view(layout_box: LayoutBox) -> BoxView
    decreases layout_box,
{
    BoxView {
        dimensions: layout_box.dimensions,
        kind: match layout_box.box_type {
            BoxType::Inline(styled) => BoxKind::Inline(styled_view(*styled)),
            BoxType::Block(styled) => BoxKind::Block(styled_view(*styled)),
            BoxType::AnonymousBlock => BoxKind::AnonymousBlock,
        },
        children: Seq::new(
            layout_box.children@.len(),
            |i: int|
                if 0 <= i < layout_box.children@.len() {
                    box_view(layout_box.children@[i])
                } else {
                    arbitrary()
                },
        ),
    }
}

/// What the boxes of `boxes` stand for, in order.
pub open spec fn box_views(boxes: Seq<LayoutBox>) -> Seq<BoxView> {
    Seq::new(boxes.len(), |i: int| box_view(boxes[i]))
}

impl<'a> View for LayoutBox<'a> {
    type V = BoxView;

    open spec fn view(&self) -> BoxView {
        box_view(*self)
    }
}

/// How an element takes part in layout.
#[derive(Debug, Clone, Copy, PartialEq, Eq, Structural)]
pub enum Display {
    Inline,
    Block,
    Hidden,
}

/// What the property `display` of `style` asks for: a block for the keyword
/// `block`, nothing for the keyword `none`, and an inline box for any other
/// value and where the property is not set.
pub open spec fn display_of(style: Map<Seq<char>, ValueView>) -> Display {
    if !style.contains_key("display"@) {
        Display::Inline
    } else if style["display"@] == ValueView::Keyword("block"@) {
        Display::Block
    } else if style["display"@] == ValueView::Keyword("none"@) {
        Display::Hidden
    } else {
        Display::Inline
    }
}

/// The box for `styled` with the boxes of its descendants, before layout:
/// every box has zero dimensions.
///
/// A node with `display: block` gets a block box, any other an inline box.
pub open spec fn build_box(styled: StyledView) -> BoxView
    decreases styled, 0nat,
{
    let block = display_of(styled.properties) == Display::Block;
    BoxView {
        dimensions: BoxDimensions::zero(),
        kind: if block {
            BoxKind::Block(styled)
        } else {
            BoxKind::Inline(styled)
        },
        children: place_children(block, styled.children, styled.children.len()),
    }
}

/// An anonymous block that holds `children`.
pub open spec fn anonymous_block(children: Seq<BoxView>) -> BoxView {
    BoxView { dimensions: BoxDimensions::zero(), kind: BoxKind::AnonymousBlock, children }
}

/// The child boxes of a box for the first `count` of the styled children `children`.
///
/// A child with `display: none` gets no box, and neither do its descendants.
/// A block child becomes a child box. So does an inline child of an inline
/// parent. An inline child of a block parent goes into an anonymous block:
/// into the parent's last child box if that is an anonymous block, else into
/// a new one behind it.
pub open spec fn place_children(parent_is_block: bool, children: Seq<StyledView>, count: nat) -> Seq<BoxView>
    decreases children, count,
{
    if count == 0 || count > children.len() {
        Seq::empty()
    } else {
        let before = place_children(parent_is_block, children, (count - 1) as nat);
        let child = children[count - 1];
        match display_of(child.properties) {
            Display::Hidden => before,
            Display::Block => before.push(build_box(child)),
            Display::Inline => if !parent_is_block {
                before.push(build_box(child))
            } else if before.len() > 0 && before.last().kind is AnonymousBlock {
                before.update(
                    before.len() - 1,
                    BoxView { children: before.last().children.push(build_box(child)), ..before.last() },
                )
            } else {
                before.push(anonymous_block(seq![build_box(child)]))
            },
        }
    }
}

/// The horizontal measures of a block: its width and the edges left and right of it.
pub ghost struct HorizontalFit {
    pub margin_left: int,
    pub margin_right: int,
    pub border_left: int,
    pub border_right: int,
    pub padding_left: int,
    pub padding_right: int,
    pub width: int,
}

impl HorizontalFit {
    /// The sum of the width and all edges.
    pub open spec fn total(self) -> int {
        self.margin_left + self.border_left + self.padding_left + self.width + self.padding_right
            + self.border_right + self.margin_right
    }

    /// Whether every measure can be held in an `i64`.
    pub open spec fn representable(self) -> bool {
        &&& fits_i64(self.margin_left)
        &&& fits_i64(self.margin_right)
        &&& fits_i64(self.border_left)
        &&& fits_i64(self.border_right)
        &&& fits_i64(self.padding_left)
        &&& fits_i64(self.padding_right)
        &&& fits_i64(self.width)
    }

    /// The dimensions `dimensions` with these horizontal measures in place of its own.
    pub open spec fn applied_to(self, dimensions: BoxDimensions) -> BoxDimensions {
        BoxDimensions {
            content: Rect { width: self.width as i64, ..dimensions.content },
            padding: EdgeSizes {
                left: self.padding_left as i64,
                right: self.padding_right as i64,
                ..dimensions.padding
            },
            border: EdgeSizes {
                left: self.border_left as i64,
                right: self.border_right as i64,
                ..dimensions.border
            },
            margin: EdgeSizes {
                left: self.margin_left as i64,
                right: self.margin_right as i64,
                ..dimensions.margin
            },
        }
    }
}

/// The value of the edge property `longhand`, or of `shorthand` where the
/// style does not set `longhand`, or a length of zero where it sets neither.
pub open spec fn edge_value(
    style: Map<Seq<char>, ValueView>,
    longhand: Seq<char>,
    shorthand: Seq<char>,
) -> ValueView {
    lookup(style, seq![longhand, shorthand], ValueView::Length(0))
}

/// Half of `amount`, rounded toward zero.
pub open spec fn half_toward_zero(amount: int) -> int {
    if amount >= 0 {
        amount / 2
    } else {
        -((-amount) / 2)
    }
}

/// The sum of the six horizontal edges as the style `style` specifies them,
/// each counted as zero where it is not a length.
pub open spec fn specified_edges(style: Map<Seq<char>, ValueView>) -> int {
    edge_value(style, "margin-left"@, "margin"@).px() + edge_value(
        style,
        "margin-right"@,
        "margin"@,
    ).px() + edge_value(style, "border-left"@, "border"@).px() + edge_value(
        style,
        "border-right"@,
        "border"@,
    ).px() + edge_value(style, "padding-left"@, "padding"@).px() + edge_value(
        style,
        "padding-right"@,
        "padding"@,
    ).px()
}

/// The horizontal measures of a block with the style `style` in a containing
/// block whose content is `containing_width` wide.
///
/// The space that the specified measures leave of the containing width (the
/// underflow, negative where they ask for more than there is) goes to the
/// width if that is `auto`, else to the margins that are `auto`, else to the
/// right margin. An `auto` width never becomes negative: the right margin
/// takes what is missing.
pub open spec fn fit_width(style: Map<Seq<char>, ValueView>, containing_width: int) -> HorizontalFit {
    let margin_left = edge_value(style, "margin-left"@, "margin"@);
    let margin_right = edge_value(style, "margin-right"@, "margin"@);
    let border_left = edge_value(style, "border-left"@, "border"@);
    let border_right = edge_value(style, "border-right"@, "border"@);
    let padding_left = edge_value(style, "padding-left"@, "padding"@);
    let padding_right = edge_value(style, "padding-right"@, "padding"@);
    let width = lookup(style, seq!["width"@], ValueView::Keyword("auto"@));
    let total = margin_left.px() + margin_right.px() + border_left.px() + border_right.px()
        + padding_left.px() + padding_right.px() + width.px();
    let underflow = containing_width - total;
    let (left, right, content) = if width.is_auto() {
        if underflow >= 0 {
            (margin_left.px(), margin_right.px(), underflow)
        } else {
            (margin_left.px(), margin_right.px() + underflow, 0)
        }
    } else if margin_left.is_auto() && margin_right.is_auto() {
        (half_toward_zero(underflow), underflow - half_toward_zero(underflow), width.px())
    } else if margin_left.is_auto() {
        (underflow, margin_right.px(), width.px())
    } else if margin_right.is_auto() {
        (margin_left.px(), underflow, width.px())
    } else {
        (margin_left.px(), margin_right.px() + underflow, width.px())
    };
    HorizontalFit {
        margin_left: left,
        margin_right: right,
        border_left: border_left.px(),
        border_right: border_right.px(),
        padding_left: padding_left.px(),
        padding_right: padding_right.px(),
        width: content,
    }
}

/// The length that the property `height` of `style` holds, if it holds one.
pub open spec fn specified_height(style: Map<Seq<char>, ValueView>) -> Option<int> {
    if style.contains_key("height"@) && style["height"@] is Length && fits_i64(
        style["height"@]->Length_0,
    ) {
        Some(style["height"@]->Length_0)
    } else {
        None
    }
}

/// The dimensions `dimensions` of a block with the style `style`, with the
/// block's top and bottom edges resolved and its content placed in the
/// containing block `containing`; `None` if a coordinate does not fit in an `i64`.
///
/// The content starts right of the containing content's left side by the
/// block's left edges, and below the containing content by the block's top
/// edges: the height that the containing content has reached so far is where
/// the next child goes.
pub open spec fn placed(
    style: Map<Seq<char>, ValueView>,
    dimensions: BoxDimensions,
    containing: BoxDimensions,
) -> Option<BoxDimensions> {
    let margin_top = edge_value(style, "margin-top"@, "margin"@).px();
    let margin_bottom = edge_value(style, "margin-bottom"@, "margin"@).px();
    let border_top = edge_value(style, "border-top"@, "border"@).px();
    let border_bottom = edge_value(style, "border-bottom"@, "border"@).px();
    let padding_top = edge_value(style, "padding-top"@, "padding"@).px();
    let padding_bottom = edge_value(style, "padding-bottom"@, "padding"@).px();
    let x = containing.content.x + dimensions.margin.left + dimensions.border.left
        + dimensions.padding.left;
    let y = containing.content.height + containing.content.y + margin_top + border_top
        + padding_top;
    if fits_i64(x) && fits_i64(y) && fits_i64(margin_top) && fits_i64(margin_bottom) && fits_i64(
        border_top,
    ) && fits_i64(border_bottom) && fits_i64(padding_top) && fits_i64(padding_bottom) {
        Some(
            BoxDimensions {
                content: Rect { x: x as i64, y: y as i64, ..dimensions.content },
                padding: EdgeSizes {
                    top: padding_top as i64,
                    bottom: padding_bottom as i64,
                    ..dimensions.padding
                },
                border: EdgeSizes {
                    top: border_top as i64,
                    bottom: border_bottom as i64,
                    ..dimensions.border
                },
                margin: EdgeSizes {
                    top: margin_top as i64,
                    bottom: margin_bottom as i64,
                    ..dimensions.margin
                },
            },
        )
    } else {
        None
    }
}

/// The box `layout_box` after layout in the containing block `containing`;
/// `None` if some coordinate or size in it does not fit in an `i64`.
///
/// Only a block is laid out: an inline box and an anonymous block stay as
/// they are, with all that is below them. A block first gets its width, then
/// its place, then its children are laid out one below the other, and last
/// its height: the specified `height` if that is a length, else the height
/// that its children have reached.
pub open spec fn laid_out(layout_box: BoxView, containing: BoxDimensions) -> Option<BoxView>
    decreases layout_box, 0nat,
{
    match layout_box.kind {
        BoxKind::Block(styled) => {
            let fit = fit_width(styled.properties, containing.content.width as int);
            if !fit.representable() {
                None
            } else {
                match placed(styled.properties, fit.applied_to(layout_box.dimensions), containing) {
                    None => None,
                    Some(own) => closed_block(
                        layout_box.kind,
                        styled.properties,
                        stacked(layout_box.children, own, layout_box.children.len()),
                    ),
                }
            }
        },
        _ => Some(layout_box),
    }
}

/// The block of kind `kind` and style `style` whose children have been laid
/// out with the outcome `content`: the children as laid out, and the
/// dimensions that the block has after the last of them, with the specified
/// `height` in place of the content's height if that is a length.
pub open spec fn closed_block(
    kind: BoxKind,
    style: Map<Seq<char>, ValueView>,
    content: Option<(Seq<BoxView>, BoxDimensions)>,
) -> Option<BoxView> {
    match content {
        None => None,
        Some((children, filled)) => Some(
            BoxView {
                dimensions: match specified_height(style) {
                    Some(height) => BoxDimensions {
                        content: Rect { height: height as i64, ..filled.content },
                        ..filled
                    },
                    None => filled,
                },
                kind,
                children,
            },
        ),
    }
}

/// Once a child cannot be laid out, neither can the children up to any later one.
proof fn lemma_stacked_fails_on(children: Seq<BoxView>, parent: BoxDimensions, failed: nat, count: nat)
    requires
        failed <= count <= children.len(),
        stacked(children, parent, failed) is None,
    ensures
        stacked(children, parent, count) is None,
    decreases count,
{
    if failed < count {
        lemma_stacked_fails_on(children, parent, failed, (count - 1) as nat);
    }
}

/// The first `count` boxes of `children` after layout, one after the other,
/// in a parent whose dimensions are `parent` before the first of them, and
/// the parent's dimensions after the last of them: each child is laid out
/// in the parent as it is then, and then adds the height of its margin box
/// to the height of the parent's content. `None` if some coordinate or size does not
/// fit in an `i64`, or if a child's margin box cannot be represented.
pub open spec fn stacked(children: Seq<BoxView>, parent: BoxDimensions, count: nat) -> Option<
    (Seq<BoxView>, BoxDimensions),
>
    decreases children, count,
{
    if count == 0 || count > children.len() {
        Some((Seq::empty(), parent))
    } else {
        match stacked(children, parent, (count - 1) as nat) {
            None => None,
            Some((done, reached)) => match laid_out(children[count - 1], reached) {
                None => None,
                Some(child) => match child.dimensions.margin_box_spec() {
                    None => None,
                    Some(area) => if fits_i64(reached.content.height + area.height) {
                        Some(
                            (
                                done.push(child),
                                BoxDimensions {
                                    content: Rect {
                                        height: (reached.content.height + area.height) as i64,
                                        ..reached.content
                                    },
                                    ..reached
                                },
                            ),
                        )
                    } else {
                        None
                    },
                },
            },
        }
    }
}

/// The layout tree of the styled tree `styled` in the containing block
/// `containing`, whose content height counts as zero.
pub open spec fn layout_of(styled: StyledView, containing: BoxDimensions) -> Result<BoxView, LayoutError> {
    if display_of(styled.properties) == Display::Hidden {
        Err(LayoutError::HiddenRoot)
    } else {
        match laid_out(
            build_box(styled),
            BoxDimensions { content: Rect { height: 0, ..containing.content }, ..containing },
        ) {
            Some(root) => Ok(root),
            None => Err(LayoutError::Overflow),
        }
    }
}

/// The height of the margin box of a box with the dimensions `dimensions`.
pub open spec fn margin_box_height(dimensions: BoxDimensions) -> int {
    dimensions.content.height + dimensions.padding.top + dimensions.padding.bottom
        + dimensions.border.top + dimensions.border.bottom + dimensions.margin.top
        + dimensions.margin.bottom
}

/// The sum of the heights of the margin boxes of the first `count` boxes of `children`.
pub open spec fn stacked_height(children: Seq<BoxView>, count: nat) -> int
    decreases count,
{
    if count == 0 || count > children.len() {
        0
    } else {
        stacked_height(children, (count - 1) as nat) + margin_box_height(
            children[count - 1].dimensions,
        )
    }
}

/// Whether no box of the tree `layout_box` has geometry yet.
pub open spec fn unplaced(layout_box: BoxView) -> bool
    decreases layout_box,
{
    &&& layout_box.dimensions == BoxDimensions::zero()
    &&& forall|i: int|
        0 <= i < layout_box.children.len() ==> unplaced(#[trigger] layout_box.children[i])
}

/// Whether the content of a box with the dimensions `child` starts right of
/// the left side of the content of `parent` by the box's own left margin,
/// border and padding.
pub open spec fn anchored(child: BoxDimensions, parent: BoxDimensions) -> bool {
    child.content.x == parent.content.x + child.margin.left + child.border.left
        + child.padding.left
}

/// Whether every block in the tree below `layout_box` is anchored in its parent.
pub open spec fn blocks_anchored(layout_box: BoxView) -> bool
    decreases layout_box,
{
    forall|i: int|
        0 <= i < layout_box.children.len() ==> {
            &&& (#[trigger] layout_box.children[i]).kind is Block ==> anchored(
                layout_box.children[i].dimensions,
                layout_box.dimensions,
            )
            &&& blocks_anchored(layout_box.children[i])
        }
}

/// Whether the block `layout_box` and every block that layout reached through
/// it has the height that its style specifies or, where the style specifies
/// none, the summed height of its children's margin boxes.
///
/// Layout reaches the children of a block, and nothing below an inline box
/// or an anonymous block.
pub open spec fn heights_settled(layout_box: BoxView) -> bool
    decreases layout_box,
{
    layout_box.kind matches BoxKind::Block(styled) ==> {
        &&& match specified_height(styled.properties) {
            Some(height) => layout_box.dimensions.content.height == height,
            None => layout_box.dimensions.content.height == stacked_height(
                layout_box.children,
                layout_box.children.len(),
            ),
        }
        &&& forall|i: int|
            0 <= i < layout_box.children.len() ==> heights_settled(
                #[trigger] layout_box.children[i],
            )
    }
}

/// The boxes that are built for a styled tree have no geometry.
pub proof fn lemma_built_unplaced(styled: StyledView)
    ensures
        unplaced(build_box(styled)),
    decreases styled, 0nat,
{
    let block = display_of(styled.properties) == Display::Block;
    lemma_placed_unplaced(block, styled.children, styled.children.len());
    let built = build_box(styled);
    assert(built.children == place_children(block, styled.children, styled.children.len()));
    assert forall|i: int| 0 <= i < built.children.len() implies unplaced(
        #[trigger] built.children[i],
    ) by {}
}

proof fn lemma_placed_unplaced(parent_is_block: bool, children: Seq<StyledView>, count: nat)
    ensures
        forall|i: int|
            0 <= i < place_children(parent_is_block, children, count).len() ==> unplaced(
                #[trigger] place_children(parent_is_block, children, count)[i],
            ),
    decreases children, count,
{
    if 0 < count <= children.len() {
        let before = place_children(parent_is_block, children, (count - 1) as nat);
        let child = children[count - 1];
        lemma_placed_unplaced(parent_is_block, children, (count - 1) as nat);
        lemma_built_unplaced(child);
        if display_of(child.properties) == Display::Inline && parent_is_block {
            if before.len() > 0 && before.last().kind is AnonymousBlock {
                let held = before.last();
                let grown = BoxView { children: held.children.push(build_box(child)), ..held };
                assert forall|i: int| 0 <= i < grown.children.len() implies unplaced(
                    #[trigger] grown.children[i],
                ) by {}
            }
        }
    }
}

/// Boxes without geometry are anchored: every coordinate is zero.
proof fn lemma_unplaced_anchored(layout_box: BoxView)
    requires
        unplaced(layout_box),
    ensures
        blocks_anchored(layout_box),
    decreases layout_box,
{
    assert forall|i: int| 0 <= i < layout_box.children.len() implies {
        &&& (#[trigger] layout_box.children[i]).kind is Block ==> anchored(
            layout_box.children[i].dimensions,
            layout_box.dimensions,
        )
        &&& blocks_anchored(layout_box.children[i])
    } by {
        lemma_unplaced_anchored(layout_box.children[i]);
    }
}

/// The summed height of the first boxes of a sequence does not depend on what follows them.
proof fn lemma_stacked_height_of_prefix(children: Seq<BoxView>, longer: Seq<BoxView>, count: nat)
    requires
        count <= children.len() <= longer.len(),
        forall|i: int| 0 <= i < count ==> children[i] == longer[i],
    ensures
        stacked_height(children, count) == stacked_height(longer, count),
    decreases count,
{
    if count > 0 {
        lemma_stacked_height_of_prefix(children, longer, (count - 1) as nat);
    }
}

/// What layout does to a tree of boxes without geometry.
proof fn lemma_laid_out(layout_box: BoxView, containing: BoxDimensions)
    requires
        unplaced(layout_box),
        laid_out(layout_box, containing) is Some,
    ensures
        laid_out(layout_box, containing)->Some_0.kind == layout_box.kind,
        blocks_anchored(laid_out(layout_box, containing)->Some_0),
        heights_settled(laid_out(layout_box, containing)->Some_0),
        layout_box.kind is Block ==> anchored(
            laid_out(layout_box, containing)->Some_0.dimensions,
            containing,
        ),
    decreases layout_box, 0nat,
{
    match layout_box.kind {
        BoxKind::Block(styled) => {
            let fit = fit_width(styled.properties, containing.content.width as int);
            let own = placed(
                styled.properties,
                fit.applied_to(layout_box.dimensions),
                containing,
            )->Some_0;
            let count = layout_box.children.len();
            assert forall|i: int| 0 <= i < count implies unplaced(
                #[trigger] layout_box.children[i],
            ) by {}
            lemma_stacked(layout_box.children, own, count);
        },
        _ => {
            lemma_unplaced_anchored(layout_box);
        },
    }
}

/// What layout does to the children of a block, none of which has geometry.
proof fn lemma_stacked(children: Seq<BoxView>, parent: BoxDimensions, count: nat)
    requires
        count <= children.len(),
        forall|i: int| 0 <= i < children.len() ==> unplaced(#[trigger] children[i]),
        stacked(children, parent, count) is Some,
    ensures
        ({
            let (done, reached) = stacked(children, parent, count)->Some_0;
            &&& done.len() == count
            &&& reached == (BoxDimensions {
                content: Rect { height: reached.content.height, ..parent.content },
                ..parent
            })
            &&& reached.content.height == parent.content.height + stacked_height(done, count)
            &&& forall|i: int|
                0 <= i < count ==> {
                    let child = #[trigger] done[i];
                    &&& child.kind == children[i].kind
                    &&& blocks_anchored(child)
                    &&& heights_settled(child)
                    &&& child.kind is Block ==> anchored(child.dimensions, parent)
                }
        }),
    decreases children, count,
{
    if count > 0 {
        let (done, reached) = stacked(children, parent, (count - 1) as nat)->Some_0;
        lemma_stacked(children, parent, (count - 1) as nat);
        lemma_laid_out(children[count - 1], reached);
        let child = laid_out(children[count - 1], reached)->Some_0;
        let all = done.push(child);
        lemma_stacked_height_of_prefix(done, all, (count - 1) as nat);
        assert forall|i: int| 0 <= i < count implies {
            let laid = #[trigger] all[i];
            &&& laid.kind == children[i].kind
            &&& blocks_anchored(laid)
            &&& heights_settled(laid)
            &&& laid.kind is Block ==> anchored(laid.dimensions, parent)
        } by {}
    }
}

/// After layout, the content of every block starts right of the left side
/// of its parent's content by the block's own left margin, border and
/// padding; the content of a root that is a block starts so in the
/// containing block.
pub proof fn lemma_layout_anchors_blocks(styled: StyledView, containing: BoxDimensions)
    requires
        layout_of(styled, containing) is Ok,
    ensures
        blocks_anchored(layout_of(styled, containing)->Ok_0),
        layout_of(styled, containing)->Ok_0.kind is Block ==> anchored(
            layout_of(styled, containing)->Ok_0.dimensions,
            containing,
        ),
{
    lemma_built_unplaced(styled);
    lemma_laid_out(
        build_box(styled),
        BoxDimensions { content: Rect { height: 0, ..containing.content }, ..containing },
    );
}

/// After layout, every block that layout reached has the height that its
/// style specifies as a length or, where it specifies none, the summed
/// height of the margin boxes of its children.
pub proof fn lemma_layout_settles_heights(styled: StyledView, containing: BoxDimensions)
    requires
        layout_of(styled, containing) is Ok,
    ensures
        heights_settled(layout_of(styled, containing)->Ok_0),
{
    lemma_built_unplaced(styled);
    lemma_laid_out(
        build_box(styled),
        BoxDimensions { content: Rect { height: 0, ..containing.content }, ..containing },
    );
}

/// Whether every box of the tree `layout_box` is an inline box.
pub open spec fn all_inline(layout_box: BoxView) -> bool
    decreases layout_box,
{
    &&& layout_box.kind is Inline
    &&& forall|i: int|
        0 <= i < layout_box.children.len() ==> all_inline(#[trigger] layout_box.children[i])
}

proof fn lemma_unstyled_builds_inline(styled: StyledView)
    requires
        unstyled(styled),
    ensures
        all_inline(build_box(styled)),
    decreases styled, 0nat,
{
    lemma_unstyled_places_inline(styled.children, styled.children.len());
    let built = build_box(styled);
    assert(built.children == place_children(false, styled.children, styled.children.len()));
    assert forall|i: int| 0 <= i < built.children.len() implies all_inline(
        #[trigger] built.children[i],
    ) by {}
}

proof fn lemma_unstyled_places_inline(children: Seq<StyledView>, count: nat)
    requires
        forall|i: int| 0 <= i < children.len() ==> unstyled(#[trigger] children[i]),
    ensures
        forall|i: int|
            0 <= i < place_children(false, children, count).len() ==> all_inline(
                #[trigger] place_children(false, children, count)[i],
            ),
    decreases children, count,
{
    if 0 < count <= children.len() {
        let before = place_children(false, children, (count - 1) as nat);
        let child = children[count - 1];
        lemma_unstyled_places_inline(children, (count - 1) as nat);
        lemma_unstyled_builds_inline(child);
        let all = before.push(build_box(child));
        assert forall|i: int| 0 <= i < all.len() implies all_inline(#[trigger] all[i]) by {}
    }
}

/// A styled tree without specified properties is laid out as inline boxes
/// only, none of which has geometry.
pub proof fn lemma_unstyled_layout(styled: StyledView, containing: BoxDimensions)
    requires
        unstyled(styled),
    ensures
        layout_of(styled, containing) == Ok::<BoxView, LayoutError>(build_box(styled)),
        all_inline(build_box(styled)),
        unplaced(build_box(styled)),
{
    lemma_unstyled_builds_inline(styled);
    lemma_built_unplaced(styled);
}

/// Whether the block `layout_box` and every block that layout reaches
/// through it has a width of `auto` and specified horizontal edges that are
/// not negative in sum.
pub open spec fn widths_open(layout_box: BoxView) -> bool
    decreases layout_box,
{
    layout_box.kind matches BoxKind::Block(styled) ==> {
        &&& lookup(styled.properties, seq!["width"@], ValueView::Keyword("auto"@)).is_auto()
        &&& specified_edges(styled.properties) >= 0
        &&& forall|i: int|
            0 <= i < layout_box.children.len() ==> widths_open(#[trigger] layout_box.children[i])
    }
}

/// Whether the block `layout_box` and every block that layout reached
/// through it has no width, and the left margin that its style specifies, none
/// if that is `auto`.
pub open spec fn widths_closed(layout_box: BoxView) -> bool
    decreases layout_box,
{
    layout_box.kind matches BoxKind::Block(styled) ==> {
        &&& layout_box.dimensions.content.width == 0
        &&& layout_box.dimensions.margin.left == edge_value(
            styled.properties,
            "margin-left"@,
            "margin"@,
        ).px()
        &&& forall|i: int|
            0 <= i < layout_box.children.len() ==> widths_closed(
                #[trigger] layout_box.children[i],
            )
    }
}

proof fn lemma_laid_out_without_room(layout_box: BoxView, containing: BoxDimensions)
    requires
        widths_open(layout_box),
        containing.content.width == 0,
        laid_out(layout_box, containing) is Some,
    ensures
        widths_closed(laid_out(layout_box, containing)->Some_0),
    decreases layout_box, 0nat,
{
    match layout_box.kind {
        BoxKind::Block(styled) => {
            lemma_fit_in_empty_container(styled.properties);
            let fit = fit_width(styled.properties, 0);
            let own = placed(
                styled.properties,
                fit.applied_to(layout_box.dimensions),
                containing,
            )->Some_0;
            lemma_stacked_without_room(layout_box.children, own, layout_box.children.len());
        },
        _ => {},
    }
}

proof fn lemma_stacked_without_room(children: Seq<BoxView>, parent: BoxDimensions, count: nat)
    requires
        count <= children.len(),
        forall|i: int| 0 <= i < children.len() ==> widths_open(#[trigger] children[i]),
        parent.content.width == 0,
        stacked(children, parent, count) is Some,
    ensures
        ({
            let (done, reached) = stacked(children, parent, count)->Some_0;
            &&& done.len() == count
            &&& reached.content.width == 0
            &&& reached.margin == parent.margin
            &&& forall|i: int| 0 <= i < count ==> widths_closed(#[trigger] done[i])
        }),
    decreases children, count,
{
    if count > 0 {
        let (done, reached) = stacked(children, parent, (count - 1) as nat)->Some_0;
        lemma_stacked_without_room(children, parent, (count - 1) as nat);
        lemma_laid_out_without_room(children[count - 1], reached);
        let child = laid_out(children[count - 1], reached)->Some_0;
        let all = done.push(child);
        assert forall|i: int| 0 <= i < count implies widths_closed(#[trigger] all[i]) by {}
    }
}

/// In a viewport of no width, every block that layout reaches has no width
/// and keeps the left margin that is specified for it, provided that each of
/// them has a width of `auto` and specified horizontal edges that are not
/// negative in sum.
pub proof fn lemma_layout_without_room(styled: StyledView, containing: BoxDimensions)
    requires
        containing.content.width == 0,
        widths_open(build_box(styled)),
        layout_of(styled, containing) is Ok,
    ensures
        widths_closed(layout_of(styled, containing)->Ok_0),
{
    lemma_laid_out_without_room(
        build_box(styled),
        BoxDimensions { content: Rect { height: 0, ..containing.content }, ..containing },
    );
}

/// The width and the horizontal edges of a block always add up to the width
/// of its containing block.
pub proof fn lemma_fit_fills_container(style: Map<Seq<char>, ValueView>, containing_width: int)
    ensures
        fit_width(style, containing_width).total() == containing_width,
{
}

/// Where the width is `auto` and the specified edges ask for more room than
/// the containing block has, the width is zero and the right margin takes
/// what is missing: the specified right margin (zero if `auto`) plus the
/// negative underflow. The left margin keeps its specified value, zero if `auto`.
pub proof fn lemma_fit_overflow_with_auto_width(
    style: Map<Seq<char>, ValueView>,
    containing_width: int,
)
    requires
        lookup(style, seq!["width"@], ValueView::Keyword("auto"@)).is_auto(),
        containing_width < specified_edges(style),
    ensures
        fit_width(style, containing_width).width == 0,
        fit_width(style, containing_width).margin_left == edge_value(
            style,
            "margin-left"@,
            "margin"@,
        ).px(),
        fit_width(style, containing_width).margin_right == edge_value(
            style,
            "margin-right"@,
            "margin"@,
        ).px() + (containing_width - specified_edges(style)),
{
}

/// In a containing block of width zero, a block of `auto` width whose
/// specified edges are not negative in sum has width zero, and a margin that
/// is `auto` has no share in what the right margin has to give.
pub proof fn lemma_fit_in_empty_container(style: Map<Seq<char>, ValueView>)
    requires
        lookup(style, seq!["width"@], ValueView::Keyword("auto"@)).is_auto(),
        specified_edges(style) >= 0,
    ensures
        fit_width(style, 0).width == 0,
        edge_value(style, "margin-left"@, "margin"@).is_auto() ==> fit_width(style, 0).margin_left
            == 0,
        edge_value(style, "margin-right"@, "margin"@).is_auto() ==> fit_width(
            style,
            0,
        ).margin_right == -specified_edges(style),
{
}

/// The value of an edge property of `styled`: the longhand if it is set,
/// else the shorthand, else a length of zero.
fn edge_property<'a>(
    styled: &'a StyledNode<'a>,
    longhand: &str,
    shorthand: &str,
    zero: &'a CSSValue,
) -> (value: &'a CSSValue)
    requires
        zero@ == ValueView::Length(0),
    ensures
        value@ == edge_value(styled.specified_properties@, longhand@, shorthand@),
{
    let names = [longhand, shorthand];
    assert(name_views(names@) =~= seq![longhand@, shorthand@]);
    styled.lookup_property_value(names.as_slice(), zero)
}

/// How `styled` takes part in layout.
fn display_kind(styled: &StyledNode) -> (display: Display)
    ensures
        display == display_of(styled.specified_properties@),
{
    match styled.specified_properties.get("display") {
        Some(CSSValue::Keyword(word)) => {
            if str_eq(word.as_str(), "block") {
                Display::Block
            } else if str_eq(word.as_str(), "none") {
                Display::Hidden
            } else {
                Display::Inline
            }
        },
        _ => Display::Inline,
    }
}

/// Builds the box for `styled_node` with the boxes of its descendants. No
/// box has geometry yet.
pub fn create_layout_box<'a>(styled_node: &'a StyledNode<'a>) -> (layout_box: LayoutBox<'a>)
    ensures
        layout_box@ == build_box(styled_node@),
    decreases styled_node,
{
    let block = display_kind(styled_node) == Display::Block;
    let mut children: Vec<LayoutBox<'a>> = Vec::new();
    let mut i: usize = 0;
    while i < styled_node.children.len()
        invariant
            i <= styled_node.children@.len(),
            block == (display_of(styled_node.specified_properties@) == Display::Block),
            box_views(children@) == place_children(block, styled_node@.children, i as nat),
        decreases styled_node.children@.len() - i,
    {
        let child = &styled_node.children[i];
        let ghost before = box_views(children@);
        assert(styled_node@.children[i as int] == child@);
        match display_kind(child) {
            Display::Block => {
                children.push(create_layout_box(child));
                assert(box_views(children@) =~= before.push(build_box(child@)));
            },
            Display::Hidden => {},
            Display::Inline => {
                // An inline box needs an inline container: the parent itself
                // if it is inline, an anonymous block if the parent is a block.
                if !block {
                    children.push(create_layout_box(child));
                    assert(box_views(children@) =~= before.push(build_box(child@)));
                } else {
                    let reuse = children.len() > 0 && matches!(
                        children[children.len() - 1].box_type,
                        BoxType::AnonymousBlock
                    );
                    let mut container = if reuse {
                        match children.pop() {
                            Some(last) => last,
                            None => LayoutBox {
                                dimensions: BoxDimensions::default(),
                                box_type: BoxType::AnonymousBlock,
                                children: Vec::new(),
                            },
                        }
                    } else {
                        LayoutBox {
                            dimensions: BoxDimensions::default(),
                            box_type: BoxType::AnonymousBlock,
                            children: Vec::new(),
                        }
                    };
                    let ghost held = container@;
                    let ghost kept = box_views(children@);
                    container.children.push(create_layout_box(child));
                    assert(container@.children =~= held.children.push(build_box(child@)));
                    children.push(container);
                    proof {
                        if reuse {
                            assert(kept =~= before.drop_last());
                            assert(held == before.last());
                            assert(box_views(children@) =~= before.update(
                                before.len() - 1,
                                BoxView {
                                    children: before.last().children.push(build_box(child@)),
                                    ..before.last()
                                },
                            ));
                        } else {
                            assert(held.children =~= Seq::<BoxView>::empty());
                            assert(held.children.push(build_box(child@)) =~= seq![
                                build_box(child@),
                            ]);
                            assert(box_views(children@) =~= before.push(
                                anonymous_block(seq![build_box(child@)]),
                            ));
                        }
                    }
                }
            },
        }
        i += 1;
    }
    let layout_box = LayoutBox {
        dimensions: BoxDimensions::default(),
        box_type: if block {
            BoxType::Block(styled_node)
        } else {
            BoxType::Inline(styled_node)
        },
        children,
    };
    assert(layout_box@.children =~= box_views(children@));
    layout_box
}

/// Lays out the styled tree `styled_node` in the containing block
/// `containing_block`, whose content height counts as zero.
///
/// A root with `display: none` has no box: that is an error. So is geometry
/// that does not fit in an `i64`.
pub fn layout_node<'a>(styled_node: &'a StyledNode<'a>, containing_block: BoxDimensions) -> (outcome:
    Result<LayoutBox<'a>, LayoutError>)
    ensures
        match outcome {
            Ok(layout_box) => {
                &&& layout_of(styled_node@, containing_block) == Ok::<BoxView, LayoutError>(
                    layout_box@,
                )
                &&& blocks_anchored(layout_box@)
                &&& layout_box@.kind is Block ==> anchored(layout_box@.dimensions, containing_block)
                &&& heights_settled(layout_box@)
            },
            Err(error) => layout_of(styled_node@, containing_block) == Err::<BoxView, LayoutError>(
                error,
            ),
        },
{
    let mut containing_block = containing_block;
    // The height of the first containing block counts as zero.
    containing_block.content.height = 0;

    if display_kind(styled_node) == Display::Hidden {
        return Err(LayoutError::HiddenRoot);
    }
    let mut layout_box = create_layout_box(styled_node);
    match layout_box.layout(&containing_block) {
        Ok(()) => {
            proof {
                lemma_layout_anchors_blocks(styled_node@, containing_block);
                lemma_layout_settles_heights(styled_node@, containing_block);
            }
            Ok(layout_box)
        },
        Err(error) => Err(error),
    }
}

impl<'a> LayoutBox<'a> {
    /// The styled node that a block or inline box belongs to; an anonymous
    /// block has none.
    pub fn get_style_node(&self) -> (styled: Option<&'a StyledNode<'a>>)
        ensures
            styled == self.style_spec(),
    {
        match self.box_type {
            BoxType::Block(styled) => Some(styled),
            BoxType::Inline(styled) => Some(styled),
            BoxType::AnonymousBlock => None,
        }
    }

    /// The styled node that a block or inline box belongs to.
    pub open spec fn style_spec(&self) -> Option<&'a StyledNode<'a>> {
        match self.box_type {
            BoxType::Block(styled) => Some(styled),
            BoxType::Inline(styled) => Some(styled),
            BoxType::AnonymousBlock => None,
        }
    }

    /// Lays out this box and all that is below it in the containing block
    /// `containing_block`.
    ///
    /// Only block layout exists: an inline box or an anonymous block is left as it is.
    pub fn layout(&mut self, containing_block: &BoxDimensions) -> (outcome: Result<(), LayoutError>)
        ensures
            outcome is Ok <==> laid_out(old(self)@, *containing_block) is Some,
            outcome is Ok ==> laid_out(old(self)@, *containing_block) == Some(final(self)@),
            outcome is Err ==> outcome == Err::<(), LayoutError>(LayoutError::Overflow),
        decreases *old(self),
    {
        let styled_node = match self.box_type {
            BoxType::Block(styled) => styled,
            _ => {
                return Ok(());
            },
        };
        let ghost before = self@;
        let ghost style = styled_node.specified_properties@;

        // The width depends on the containing block, so it goes from the
        // top of the tree down; the height depends on the children, so it
        // comes from the bottom up.
        self.calculate_block_width(containing_block)?;
        self.calculate_block_position(containing_block)?;

        let ghost own = self.dimensions;
        let mut i: usize = 0;
        while i < self.children.len()
            invariant
                i <= self.children@.len(),
                self.children@.len() == old(self).children@.len(),
                self.box_type == old(self).box_type,
                before == old(self)@,
                before.children == box_views(old(self).children@),
                before.children.len() == self.children@.len(),
                forall|j: int| i <= j < self.children@.len() ==> self.children@[j] == old(self).children@[j],
                stacked(before.children, own, i as nat) == Some(
                    (box_views(self.children@).take(i as int), self.dimensions),
                ),
                laid_out(before, *containing_block) == closed_block(
                    before.kind,
                    style,
                    stacked(before.children, own, before.children.len()),
                ),
            decreases self.children@.len() - i,
        {
            let current = self.dimensions;
            // The child has to be laid out before its margin box is known.
            match self.children[i].layout(&current) {
                Ok(()) => {},
                Err(error) => {
                    proof {
                        lemma_stacked_fails_on(
                            before.children,
                            own,
                            (i + 1) as nat,
                            before.children.len(),
                        );
                    }
                    return Err(error);
                },
            }
            let area = match self.children[i].dimensions.margin_box() {
                Some(area) => area,
                None => {
                    proof {
                        lemma_stacked_fails_on(
                            before.children,
                            own,
                            (i + 1) as nat,
                            before.children.len(),
                        );
                    }
                    return Err(LayoutError::Overflow);
                },
            };
            let height: i128 = self.dimensions.content.height as i128 + area.height as i128;
            if !in_range(height) {
                proof {
                    lemma_stacked_fails_on(
                        before.children,
                        own,
                        (i + 1) as nat,
                        before.children.len(),
                    );
                }
                return Err(LayoutError::Overflow);
            }
            self.dimensions.content.height = height as i64;
            i += 1;
        }
        assert(box_views(self.children@).take(i as int) =~= box_views(self.children@));

        // A specified height replaces the height that the children gave.
        if let Some(CSSValue::Length(height, CSSUnit::Px)) = styled_node.specified_properties.get("height") {
            self.dimensions.content.height = *height;
        }
        assert(self@.children =~= box_views(self.children@));
        Ok(())
    }

    /// Resolves the top and bottom edges of a block and places its content
    /// in the containing block, below what the containing block holds so far.
    ///
    /// Nothing is stored where a coordinate does not fit in an `i64`.
    pub fn calculate_block_position(&mut self, containing_block: &BoxDimensions) -> (outcome: Result<
        (),
        LayoutError,
    >)
        requires
            old(self).style_spec() is Some,
        ensures
            final(self).box_type == old(self).box_type,
            final(self).children == old(self).children,
            outcome is Ok <==> placed(
                old(self).style_spec()->Some_0.specified_properties@,
                old(self).dimensions,
                *containing_block,
            ) is Some,
            outcome is Ok ==> Some(final(self).dimensions) == placed(
                old(self).style_spec()->Some_0.specified_properties@,
                old(self).dimensions,
                *containing_block,
            ),
            outcome is Err ==> outcome == Err::<(), LayoutError>(LayoutError::Overflow)
                && final(self).dimensions == old(self).dimensions,
    {
        let styled_node = match self.get_style_node() {
            Some(styled) => styled,
            None => {
                return Err(LayoutError::Overflow);
            },
        };

        let zero = CSSValue::Length(0, CSSUnit::Px);

        let margin_top = edge_property(styled_node, "margin-top", "margin", &zero).to_px();
        let margin_bottom = edge_property(styled_node, "margin-bottom", "margin", &zero).to_px();
        let padding_top = edge_property(styled_node, "padding-top", "padding", &zero).to_px();
        let padding_bottom = edge_property(styled_node, "padding-bottom", "padding", &zero).to_px();
        let border_top = edge_property(styled_node, "border-top", "border", &zero).to_px();
        let border_bottom = edge_property(styled_node, "border-bottom", "border", &zero).to_px();

        let content_x: i128 = containing_block.content.x as i128 + self.dimensions.margin.left as i128
            + self.dimensions.border.left as i128 + self.dimensions.padding.left as i128;
        let content_y: i128 = containing_block.content.height as i128
            + containing_block.content.y as i128 + margin_top as i128 + border_top as i128
            + padding_top as i128;

        if !(in_range(content_x) && in_range(content_y)) {
            return Err(LayoutError::Overflow);
        }

        self.dimensions.margin.top = margin_top;
        self.dimensions.margin.bottom = margin_bottom;
        self.dimensions.padding.top = padding_top;
        self.dimensions.padding.bottom = padding_bottom;
        self.dimensions.border.top = border_top;
        self.dimensions.border.bottom = border_bottom;

        self.dimensions.content.x = content_x as i64;
        self.dimensions.content.y = content_y as i64;
        Ok(())
    }

    /// Resolves the width of a block and its left and right edges against the
    /// width of its containing block, and stores them in its dimensions.
    ///
    /// Nothing is stored where a measure does not fit in an `i64`.
    pub fn calculate_block_width(&mut self, containing_block: &BoxDimensions) -> (outcome: Result<
        (),
        LayoutError,
    >)
        requires
            old(self).style_spec() is Some,
        ensures
            final(self).box_type == old(self).box_type,
            final(self).children == old(self).children,
            outcome is Ok <==> fit_width(
                old(self).style_spec()->Some_0.specified_properties@,
                containing_block.content.width as int,
            ).representable(),
            outcome is Ok ==> final(self).dimensions == fit_width(
                old(self).style_spec()->Some_0.specified_properties@,
                containing_block.content.width as int,
            ).applied_to(old(self).dimensions),
            outcome is Err ==> outcome == Err::<(), LayoutError>(LayoutError::Overflow)
                && final(self).dimensions == old(self).dimensions,
    {
        let styled_node = match self.get_style_node() {
            Some(styled) => styled,
            None => {
                return Err(LayoutError::Overflow);
            },
        };

        let zero = CSSValue::Length(0, CSSUnit::Px);

        let margin_left = edge_property(styled_node, "margin-left", "margin", &zero);
        let margin_right = edge_property(styled_node, "margin-right", "margin", &zero);

        let border_left = edge_property(styled_node, "border-left", "border", &zero);
        let border_right = edge_property(styled_node, "border-right", "border", &zero);

        let padding_left = edge_property(styled_node, "padding-left", "padding", &zero);
        let padding_right = edge_property(styled_node, "padding-right", "padding", &zero);

        let auto = CSSValue::Keyword("auto".to_owned());
        let width_names = ["width"];
        assert(name_views(width_names@) =~= seq!["width"@]);
        let width = styled_node.lookup_property_value(width_names.as_slice(), &auto);

        let total: i128 = margin_left.to_px() as i128 + margin_right.to_px() as i128
            + border_left.to_px() as i128 + border_right.to_px() as i128
            + padding_left.to_px() as i128 + padding_right.to_px() as i128
            + width.to_px() as i128;

        let underflow: i128 = containing_block.content.width as i128 - total;

        let mut left: i128 = margin_left.to_px() as i128;
        let mut right: i128 = margin_right.to_px() as i128;
        let mut content: i128 = width.to_px() as i128;

        // Hand out the space left so that the edges and the width add up to
        // the width of the containing block.
        if width.is_auto() {
            // An automatic width takes the underflow. Where there is too
            // little room, the width is zero and the right margin takes the
            // overflow. Automatic margins count as zero.
            if underflow >= 0 {
                content = underflow;
            } else {
                content = 0;
                right = right + underflow;
            }
        } else if margin_left.is_auto() && margin_right.is_auto() {
            // Both margins automatic: each takes half of the underflow.
            let half: i128 = if underflow >= 0 {
                underflow / 2
            } else {
                -((-underflow) / 2)
            };
            left = half;
            right = underflow - half;
        } else if margin_left.is_auto() {
            left = underflow;
        } else if margin_right.is_auto() {
            right = underflow;
        } else {
            // Nothing is automatic: the right margin gives way.
            right = right + underflow;
        }

        if !(in_range(left) && in_range(right) && in_range(content)) {
            return Err(LayoutError::Overflow);
        }

        self.dimensions.content.width = content as i64;
        self.dimensions.margin.left = left as i64;
        self.dimensions.margin.right = right as i64;
        self.dimensions.border.left = border_left.to_px();
        self.dimensions.border.right = border_right.to_px();
        self.dimensions.padding.left = padding_left.to_px();
        self.dimensions.padding.right = padding_right.to_px();
        Ok(())
    }
}

} // verus!
