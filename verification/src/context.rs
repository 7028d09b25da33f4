//! What a node is laid out in, and what can go wrong with it.
use crate::math::Vec2;
use crate::scalar::{Scalar, ONE, ZERO};
use vstd::prelude::*;

verus! {

/// The error of `taffy`, carried through as it is.
#[verifier::external_type_specification]
#[verifier::external_body]
pub struct ExTaffyError(taffy::TaffyError);

/// The target that a node is laid out for.
#[derive(Clone, Copy, Debug)]
pub struct LayoutContext {
    /// How many physical pixels a logical pixel has along each side.
    pub scale_factor: Scalar,
    /// The size of the target, in physical pixels.
    pub physical_size: Vec2,
}

impl LayoutContext {
    /// Creates a context from the target's physical size and scale factor.
    pub fn new(scale_factor: Scalar, physical_size: Vec2) -> (r: LayoutContext)
        ensures
            r == (LayoutContext { scale_factor, physical_size }),
    {
        LayoutContext { scale_factor, physical_size }
    }
}

impl Default for LayoutContext {
    /// A context of no size, with as many physical as logical pixels.
    fn default() -> (r: LayoutContext)
        ensures
            r.scale_factor.bits == ONE,
            r.physical_size.x.bits == ZERO,
            r.physical_size.y.bits == ZERO,
    {
        LayoutContext::new(
            Scalar { bits: ONE },
            Vec2 { x: Scalar { bits: ZERO }, y: Scalar { bits: ZERO } },
        )
    }
}

/// Why the layout of a node cannot be had.
#[derive(Debug)]
pub enum LayoutError {
    /// The node is not in the layout tree.
    InvalidHierarchy,
    /// The layout tree refused it.
    TaffyError(taffy::TaffyError),
}

} // verus!
