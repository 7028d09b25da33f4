//! The geometry of a node, as its layout and its style give it.
use crate::geometry::ParentGeometry;
use crate::math::{Affine2, Vec2};
use crate::scalar::{law_order_is_that_of_the_bits, Scalar, ZERO};
use vstd::prelude::*;

verus! {

/// The widths of the four sides of a box, as the layout gives them.
#[derive(Clone, Copy, Debug)]
pub struct Sides {
    pub left: Scalar,
    pub right: Scalar,
    pub top: Scalar,
    pub bottom: Scalar,
}

/// The widths of the four sides of a box, by its two corners.
#[derive(Clone, Copy, Debug)]
pub struct BorderRect {
    /// The widths at the left and the top.
    pub min_inset: Vec2,
    /// The widths at the right and the bottom.
    pub max_inset: Vec2,
}

impl Sides {
    /// The widths, by the two corners.
    pub open spec fn insets(self) -> BorderRect {
        BorderRect {
            min_inset: Vec2 { x: self.left, y: self.top },
            max_inset: Vec2 { x: self.right, y: self.bottom },
        }
    }

    /// The widths, by the two corners.
    pub fn to_border_rect(self) -> (r: BorderRect)
        ensures
            r == self.insets(),
    {
        BorderRect {
            min_inset: Vec2 { x: self.left, y: self.top },
            max_inset: Vec2 { x: self.right, y: self.bottom },
        }
    }
}

/// The radii of the four corners of a node, in physical pixels.
#[derive(Clone, Copy, Debug)]
pub struct BorderRadius {
    pub top_left: Scalar,
    pub top_right: Scalar,
    pub bottom_right: Scalar,
    pub bottom_left: Scalar,
}

/// The layout of a node.
#[derive(Clone, Copy, Debug)]
pub struct NodeLayout {
    pub size: Vec2,
    pub unrounded_size: Vec2,
    pub content_size: Vec2,
    pub scrollbar_size: Vec2,
    pub border: Sides,
    pub padding: Sides,
}

/// The outline of a node, in physical pixels.
#[derive(Clone, Copy, Debug)]
pub struct OutlineInput {
    /// Its width, where it comes to a length.
    pub width: Option<Scalar>,
    /// Its distance from the node, where it comes to a length.
    pub offset: Option<Scalar>,
    /// The least distance that it can have, half the shorter side of the node inwards.
    pub least_offset: Scalar,
}

/// What scrolls the content of a node.
#[derive(Clone, Copy, Debug)]
pub struct ScrollInput {
    /// How far the content is asked to be scrolled, in physical pixels.
    pub position: Option<Vec2>,
    /// Whether it scrolls sideways.
    pub scrolls_x: bool,
    /// Whether it scrolls up and down.
    pub scrolls_y: bool,
    /// By how much the content, with the scrollbars, exceeds the node.
    pub excess: Vec2,
}

impl ScrollInput {
    /// How far the content is asked to be scrolled along the axes that scroll.
    pub open spec fn asked(self) -> Vec2 {
        let zero = Scalar { bits: ZERO };
        match self.position {
            Some(position) => Vec2 {
                x: if self.scrolls_x {
                    position.x
                } else {
                    zero
                },
                y: if self.scrolls_y {
                    position.y
                } else {
                    zero
                },
            },
            None => Vec2::spec_zero(),
        }
    }

    /// How far the content can be scrolled.
    pub open spec fn farthest(self) -> Vec2 {
        self.excess.greater_of(Vec2::spec_zero())
    }

    /// How far the content is scrolled: as far as asked, but not beyond either end.
    pub open spec fn clamped(self) -> Vec2 {
        self.asked().greater_of(Vec2::spec_zero()).lesser_of(self.farthest())
    }

    /// How far the content is scrolled, before it is rounded.
    pub fn clamp(self) -> (r: Vec2)
        ensures
            r == self.clamped(),
    {
        let zero = Scalar { bits: ZERO };
        let asked = match self.position {
            Some(position) => Vec2 {
                x: if self.scrolls_x {
                    position.x
                } else {
                    zero
                },
                y: if self.scrolls_y {
                    position.y
                } else {
                    zero
                },
            },
            None => Vec2::zero(),
        };
        let farthest = self.excess.max(Vec2::zero());
        asked.max(Vec2::zero()).min(farthest)
    }
}

/// What the style of a node gives.
#[derive(Clone, Copy, Debug)]
pub struct StyleInput {
    /// Whether the node is displayed.
    pub displayed: bool,
    pub border_radius: BorderRadius,
    /// Its outline, if it has one.
    pub outline: Option<OutlineInput>,
    pub scroll: ScrollInput,
}

/// The geometry of a node.
#[derive(Clone, Copy, Debug)]
pub struct ComputedNode {
    pub size: Vec2,
    pub unrounded_size: Vec2,
    pub inverse_scale_factor: Scalar,
    pub content_size: Vec2,
    pub scrollbar_size: Vec2,
    pub scroll_position: Vec2,
    pub border: BorderRect,
    pub padding: BorderRect,
    pub border_radius: BorderRadius,
    pub outline_width: Scalar,
    pub outline_offset: Scalar,
}

/// A length, or none where there is none.
pub open spec fn length_or_zero(length: Option<Scalar>) -> Scalar {
    match length {
        Some(l) => l,
        None => Scalar { bits: ZERO },
    }
}

/// A length, or none where there is none.
fn or_zero(length: Option<Scalar>) -> (r: Scalar)
    ensures
        r == length_or_zero(length),
{
    match length {
        Some(l) => l,
        None => Scalar { bits: ZERO },
    }
}

impl ComputedNode {
    /// Whether the node has another size than the given one.
    pub open spec fn resized(
        self,
        size: Vec2,
        unrounded_size: Vec2,
        inverse_scale_factor: Scalar,
    ) -> bool {
        ||| !self.size.equals(size)
        ||| !self.unrounded_size.equals(unrounded_size)
        ||| !self.inverse_scale_factor.equals(inverse_scale_factor)
    }

    /// Gives the node a size, and says whether it has another one now. A node that has
    /// the size already is left as it is.
    pub fn resize(
        &mut self,
        size: Vec2,
        unrounded_size: Vec2,
        inverse_scale_factor: Scalar,
    ) -> (r: bool)
        ensures
            r == old(self).resized(size, unrounded_size, inverse_scale_factor),
            *final(self) == (if r {
                ComputedNode { size, unrounded_size, inverse_scale_factor, ..*old(self) }
            } else {
                *old(self)
            }),
    {
        if self.size != size || self.unrounded_size != unrounded_size || self.inverse_scale_factor
            != inverse_scale_factor {
            self.size = size;
            self.unrounded_size = unrounded_size;
            self.inverse_scale_factor = inverse_scale_factor;
            true
        } else {
            false
        }
    }

    /// The node with the size of its layout.
    pub open spec fn sized(self, layout: NodeLayout, inverse_scale_factor: Scalar) -> ComputedNode {
        if self.resized(layout.size, layout.unrounded_size, inverse_scale_factor) {
            ComputedNode {
                size: layout.size,
                unrounded_size: layout.unrounded_size,
                inverse_scale_factor,
                ..self
            }
        } else {
            self
        }
    }

    /// Whether `after` is the node with what its layout and style give it besides its
    /// size, where `style` tells what the style gives for the size of the node.
    pub open spec fn restyled_to<S: Fn(Vec2) -> StyleInput, F: Fn(Vec2) -> Vec2>(
        self,
        layout: NodeLayout,
        style: S,
        floor: F,
        after: ComputedNode,
    ) -> bool {
        exists|input: StyleInput|
            {
                &&& #[trigger] call_ensures(style, (self.size,), input)
                &&& call_ensures(floor, (input.scroll.clamped(),), after.scroll_position)
                &&& after == self.styled(layout, input, after.scroll_position)
            }
    }

    /// Whether the node takes any space.
    pub open spec fn extended(self) -> bool {
        !self.size.equals(Vec2::spec_zero()) || !self.unrounded_size.equals(Vec2::spec_zero())
    }

    /// Gives the node no size, and says whether it had one. A node without size is left
    /// as it is.
    pub fn collapse(&mut self) -> (r: bool)
        ensures
            r == old(self).extended(),
            *final(self) == (if r {
                ComputedNode {
                    size: Vec2::spec_zero(),
                    unrounded_size: Vec2::spec_zero(),
                    ..*old(self)
                }
            } else {
                *old(self)
            }),
    {
        if self.size != Vec2::zero() || self.unrounded_size != Vec2::zero() {
            self.size = Vec2::zero();
            self.unrounded_size = Vec2::zero();
            true
        } else {
            false
        }
    }

    /// The node with what its layout and style give it besides its size, where
    /// `scroll_position` is how far its content is scrolled.
    pub open spec fn styled(
        self,
        layout: NodeLayout,
        style: StyleInput,
        scroll_position: Vec2,
    ) -> ComputedNode {
        let zero = Scalar { bits: ZERO };
        ComputedNode {
            content_size: layout.content_size,
            border: layout.border.insets(),
            padding: layout.padding.insets(),
            border_radius: style.border_radius,
            outline_width: match style.outline {
                Some(outline) => if style.displayed {
                    length_or_zero(outline.width).greater_of(zero)
                } else {
                    zero
                },
                None => self.outline_width,
            },
            outline_offset: match style.outline {
                Some(outline) => length_or_zero(outline.offset).greater_of(outline.least_offset),
                None => self.outline_offset,
            },
            scrollbar_size: layout.scrollbar_size,
            scroll_position,
            ..self
        }
    }

    /// Gives the node what its layout and style give it besides its size. `floor` rounds
    /// down to whole pixels.
    pub fn restyle<F: Fn(Vec2) -> Vec2>(
        &mut self,
        layout: NodeLayout,
        style: StyleInput,
        floor: F,
    )
        requires
            forall|v: Vec2| call_requires(floor, (v,)),
        ensures
            call_ensures(floor, (style.scroll.clamped(),), final(self).scroll_position),
            *final(self) == old(self).styled(layout, style, final(self).scroll_position),
    {
        let zero = Scalar { bits: ZERO };
        self.content_size = layout.content_size;
        self.border = layout.border.to_border_rect();
        self.padding = layout.padding.to_border_rect();
        self.border_radius = style.border_radius;
        match style.outline {
            Some(outline) => {
                self.outline_width = if style.displayed {
                    or_zero(outline.width).greater(zero)
                } else {
                    zero
                };
                self.outline_offset = or_zero(outline.offset).greater(outline.least_offset);
            },
            None => {},
        }
        self.scrollbar_size = layout.scrollbar_size;
        self.scroll_position = floor(style.scroll.clamp());
    }
}

/// What the placement of a node came to.
#[derive(Clone, Copy, Debug)]
pub struct PlacedNode {
    /// What the node hands down to its children.
    pub geometry: ParentGeometry,
    /// Whether its size is another one now.
    pub node_changed: bool,
    /// Whether its global transform is another one now.
    pub transform_changed: bool,
}

/// Places a node: gives it the size of its layout, the global transform `transform`, and
/// what its style gives.
///
/// `style` tells what the style of the node gives for a size of the node, and `floor`
/// rounds down to whole pixels.
pub fn update_uinode_geometry<S: Fn(Vec2) -> StyleInput, F: Fn(Vec2) -> Vec2>(
    node: &mut ComputedNode,
    global_transform: &mut Affine2,
    layout: NodeLayout,
    inverse_scale_factor: Scalar,
    transform: Affine2,
    style: S,
    floor: F,
) -> (r: PlacedNode)
    requires
        forall|v: Vec2| call_requires(style, (v,)),
        forall|v: Vec2| call_requires(floor, (v,)),
    ensures
        r.node_changed == old(node).resized(
            layout.size,
            layout.unrounded_size,
            inverse_scale_factor,
        ),
        r.transform_changed == !transform.equals(*old(global_transform)),
        *final(global_transform) == (if r.transform_changed {
            transform
        } else {
            *old(global_transform)
        }),
        old(node).sized(layout, inverse_scale_factor).restyled_to(
            layout,
            style,
            floor,
            *final(node),
        ),
        r.geometry == (ParentGeometry {
            transform,
            size: layout.size,
            scroll: final(node).scroll_position,
        }),
{
    let node_changed: bool = node.resize(layout.size, layout.unrounded_size, inverse_scale_factor);
    let transform_changed: bool = global_transform.replace(transform);
    let ghost sized = *node;
    let input = style(node.size);
    node.restyle(layout, input, floor);
    assert(sized == old(node).sized(layout, inverse_scale_factor));
    assert(call_ensures(style, (sized.size,), input));
    PlacedNode {
        geometry: ParentGeometry { transform, size: layout.size, scroll: node.scroll_position },
        node_changed,
        transform_changed,
    }
}

/// A node that has the size of its layout is not changed by being given it again.
pub proof fn law_sized_node_is_left_alone(
    node: ComputedNode,
    layout: NodeLayout,
    inverse_scale_factor: Scalar,
)
    requires
        !layout.size.x.is_nan() && !layout.size.y.is_nan(),
        !layout.unrounded_size.x.is_nan() && !layout.unrounded_size.y.is_nan(),
        !inverse_scale_factor.is_nan(),
    ensures
        ({
            let sized = node.sized(layout, inverse_scale_factor);
            sized.sized(layout, inverse_scale_factor) == sized && !sized.resized(
                layout.size,
                layout.unrounded_size,
                inverse_scale_factor,
            )
        }),
{
}

/// A node that was collapsed takes no space, and collapsing it again leaves it as it is.
pub proof fn law_collapsed_takes_no_space(node: ComputedNode)
    ensures
        !(ComputedNode {
            size: Vec2::spec_zero(),
            unrounded_size: Vec2::spec_zero(),
            ..node
        }).extended(),
{
    assert(Vec2::spec_zero().equals(Vec2::spec_zero()));
}

/// Content is never scrolled beyond either end, whatever is asked.
pub proof fn law_scroll_stays_in_range(scroll: ScrollInput)
    ensures
        ({
            let zero = Scalar { bits: ZERO };
            let r = scroll.clamped();
            &&& zero.at_most(r.x) && r.x.at_most(scroll.farthest().x)
            &&& zero.at_most(r.y) && r.y.at_most(scroll.farthest().y)
        }),
{
}

/// Content that does not scroll along an axis stays where it is along it.
pub proof fn law_only_scrolling_axes_scroll(scroll: ScrollInput)
    ensures
        !scroll.scrolls_x || scroll.position is None ==> scroll.clamped().x == (Scalar {
            bits: ZERO,
        }),
        !scroll.scrolls_y || scroll.position is None ==> scroll.clamped().y == (Scalar {
            bits: ZERO,
        }),
{
}

/// The outline of a node that is displayed is at least nothing wide, and that of one
/// that is not is nothing wide.
pub proof fn law_outline_is_not_negative(
    node: ComputedNode,
    layout: NodeLayout,
    style: StyleInput,
    scroll_position: Vec2,
)
    requires
        style.outline is Some,
    ensures
        ({
            let zero = Scalar { bits: ZERO };
            let width = node.styled(layout, style, scroll_position).outline_width;
            &&& zero.at_most(width)
            &&& !style.displayed ==> width == zero
        }),
{
}

/// The widths of the four sides are those of the corners: the left and the top one of the
/// first, the right and the bottom one of the second.
pub proof fn law_insets_are_the_sides(sides: Sides)
    ensures
        sides.insets().min_inset.x == sides.left,
        sides.insets().min_inset.y == sides.top,
        sides.insets().max_inset.x == sides.right,
        sides.insets().max_inset.y == sides.bottom,
{
}

/// A node has another size where a coordinate of its size, rounded or not, or the factor
/// is not equal to the given one. Given its layout, it has a size that is equal to that of
/// the layout, in both coordinates, and nothing else of it changes.
pub proof fn law_sized_node_has_layout_size(
    node: ComputedNode,
    layout: NodeLayout,
    inverse_scale_factor: Scalar,
)
    ensures
        ({
            let sized = node.sized(layout, inverse_scale_factor);
            let another = {
                ||| !node.size.x.equals(layout.size.x)
                ||| !node.size.y.equals(layout.size.y)
                ||| !node.unrounded_size.x.equals(layout.unrounded_size.x)
                ||| !node.unrounded_size.y.equals(layout.unrounded_size.y)
                ||| !node.inverse_scale_factor.equals(inverse_scale_factor)
            };
            &&& node.resized(layout.size, layout.unrounded_size, inverse_scale_factor) == another
            &&& another ==> {
                &&& sized.size == layout.size
                &&& sized.unrounded_size == layout.unrounded_size
                &&& sized.inverse_scale_factor == inverse_scale_factor
            }
            &&& !another ==> sized.size == node.size && sized.unrounded_size == node.unrounded_size
                && sized.inverse_scale_factor == node.inverse_scale_factor
            &&& sized.content_size == node.content_size
            &&& sized.scrollbar_size == node.scrollbar_size
            &&& sized.scroll_position == node.scroll_position
            &&& sized.border == node.border
            &&& sized.padding == node.padding
            &&& sized.border_radius == node.border_radius
            &&& sized.outline_width == node.outline_width
            &&& sized.outline_offset == node.outline_offset
        }),
{
}

/// A node takes space where a coordinate of its size, rounded or not, is not zero.
pub proof fn law_extended_in_a_coordinate(node: ComputedNode)
    ensures
        node.extended() <==> {
            ||| !(node.size.x.bits == 0 || node.size.x.bits == 0x8000_0000)
            ||| !(node.size.y.bits == 0 || node.size.y.bits == 0x8000_0000)
            ||| !(node.unrounded_size.x.bits == 0 || node.unrounded_size.x.bits == 0x8000_0000)
            ||| !(node.unrounded_size.y.bits == 0 || node.unrounded_size.y.bits == 0x8000_0000)
        },
{
    let zero = Scalar { bits: 0 };
    law_order_is_that_of_the_bits(node.size.x, zero);
    law_order_is_that_of_the_bits(node.size.y, zero);
    law_order_is_that_of_the_bits(node.unrounded_size.x, zero);
    law_order_is_that_of_the_bits(node.unrounded_size.y, zero);
}

/// Along an axis that scrolls, content is scrolled as far as asked where that is within
/// what exceeds the node; to the end where more is asked, and not at all where less than
/// nothing is asked or nothing exceeds the node. Along the others it is not scrolled.
pub proof fn law_scroll_goes_as_far_as_asked(scroll: ScrollInput)
    ensures
        ({
            let zero = Scalar { bits: 0 };
            let r = scroll.clamped();
            &&& scroll.position matches Some(asked) ==> {
                &&& scroll.scrolls_x && zero.at_most(asked.x) && asked.x.at_most(scroll.excess.x)
                    ==> r.x.equals(asked.x)
                &&& scroll.scrolls_x && zero.at_most(scroll.excess.x) && scroll.excess.x.below(
                    asked.x,
                ) ==> r.x.equals(scroll.excess.x)
                &&& scroll.scrolls_x && asked.x.below(zero) ==> r.x.equals(zero)
                &&& scroll.scrolls_y && zero.at_most(asked.y) && asked.y.at_most(scroll.excess.y)
                    ==> r.y.equals(asked.y)
                &&& scroll.scrolls_y && zero.at_most(scroll.excess.y) && scroll.excess.y.below(
                    asked.y,
                ) ==> r.y.equals(scroll.excess.y)
                &&& scroll.scrolls_y && asked.y.below(zero) ==> r.y.equals(zero)
            }
            &&& scroll.excess.x.at_most(zero) || scroll.position is None || !scroll.scrolls_x
                ==> r.x.equals(zero)
            &&& scroll.excess.y.at_most(zero) || scroll.position is None || !scroll.scrolls_y
                ==> r.y.equals(zero)
        }),
{
}

/// Styling a node gives it the content, the scrollbars, the border and the padding of its
/// layout, side by side, the radii of its style, corner by corner, and the scroll position;
/// its size stays. An outline gives it a width, at least zero and zero where the node is
/// not displayed or the width comes to no length, and a distance of at least the least
/// one; without one both stay.
pub proof fn law_styled_node_has_layout_and_style(
    node: ComputedNode,
    layout: NodeLayout,
    style: StyleInput,
    scroll_position: Vec2,
)
    ensures
        ({
            let r = node.styled(layout, style, scroll_position);
            &&& r.size == node.size
            &&& r.unrounded_size == node.unrounded_size
            &&& r.inverse_scale_factor == node.inverse_scale_factor
            &&& r.content_size == layout.content_size
            &&& r.scrollbar_size == layout.scrollbar_size
            &&& r.scroll_position == scroll_position
            &&& r.border.min_inset.x == layout.border.left
            &&& r.border.min_inset.y == layout.border.top
            &&& r.border.max_inset.x == layout.border.right
            &&& r.border.max_inset.y == layout.border.bottom
            &&& r.padding.min_inset.x == layout.padding.left
            &&& r.padding.min_inset.y == layout.padding.top
            &&& r.padding.max_inset.x == layout.padding.right
            &&& r.padding.max_inset.y == layout.padding.bottom
            &&& r.border_radius.top_left == style.border_radius.top_left
            &&& r.border_radius.top_right == style.border_radius.top_right
            &&& r.border_radius.bottom_right == style.border_radius.bottom_right
            &&& r.border_radius.bottom_left == style.border_radius.bottom_left
        }),
        ({
            let zero = Scalar { bits: 0 };
            let r = node.styled(layout, style, scroll_position);
            &&& style.outline is None ==> r.outline_width == node.outline_width && r.outline_offset
                == node.outline_offset
            &&& style.outline matches Some(outline) ==> {
                let width = r.outline_width;
                let offset = r.outline_offset;
                let least = outline.least_offset;
                &&& !style.displayed ==> width == zero
                &&& style.displayed && outline.width is None ==> width == zero
                &&& style.displayed && (outline.width matches Some(w) && zero.at_most(w))
                    ==> width == outline.width->0
                &&& (outline.width matches Some(w) && (w.is_nan() || w.below(zero))) ==> width == zero
                &&& least.is_nan() ==> offset == (match outline.offset {
                    Some(o) => if o.is_nan() {
                        least
                    } else {
                        o
                    },
                    None => zero,
                })
                &&& (outline.offset matches Some(o) && o.is_nan()) ==> offset == least
                &&& (outline.offset matches Some(o) && least.at_most(o)) ==> offset
                    == outline.offset->0
                &&& (outline.offset matches Some(o) && o.below(least)) ==> offset == least
                &&& outline.offset is None && least.at_most(zero) ==> offset == zero
                &&& outline.offset is None && zero.below(least) ==> offset == least
            }
        }),
{
}

/// A node that was placed has what its layout and style give it: its size is equal to that
/// of the layout, or where it was not changed the one that it had; the style is asked for
/// that size, and how far the content is scrolled is rounded down.
pub proof fn law_placed_node_has_layout_and_style<
    S: Fn(Vec2) -> StyleInput,
    F: Fn(Vec2) -> Vec2,
>(
    node: ComputedNode,
    layout: NodeLayout,
    inverse_scale_factor: Scalar,
    style: S,
    floor: F,
    after: ComputedNode,
) -> (input: StyleInput)
    requires
        node.sized(layout, inverse_scale_factor).restyled_to(layout, style, floor, after),
    ensures
        after.size == layout.size || (after.size == node.size && node.size.x.equals(layout.size.x)
            && node.size.y.equals(layout.size.y)),
        after.unrounded_size == layout.unrounded_size || (after.unrounded_size
            == node.unrounded_size && node.unrounded_size.x.equals(layout.unrounded_size.x)
            && node.unrounded_size.y.equals(layout.unrounded_size.y)),
        after.inverse_scale_factor == inverse_scale_factor || (after.inverse_scale_factor
            == node.inverse_scale_factor && node.inverse_scale_factor.equals(
            inverse_scale_factor,
        )),
        call_ensures(style, (after.size,), input),
        call_ensures(floor, (input.scroll.clamped(),), after.scroll_position),
        after == node.sized(layout, inverse_scale_factor).styled(
            layout,
            input,
            after.scroll_position,
        ),
{
    let sized = node.sized(layout, inverse_scale_factor);
    let input = choose|input: StyleInput|
        {
            &&& #[trigger] call_ensures(style, (sized.size,), input)
            &&& call_ensures(floor, (input.scroll.clamped(),), after.scroll_position)
            &&& after == sized.styled(layout, input, after.scroll_position)
        };
    input
}

} // verus!
