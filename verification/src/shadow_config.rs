//! How the shadows of a directional light are split into cascades.
use crate::scalar::{Scalar, ONE, ZERO};
use vstd::prelude::*;

verus! {

/// Controls how cascaded shadow mapping works.
/// Prefer using [`CascadeShadowConfigBuilder`] to construct an instance.
#[derive(Clone, Debug)]
pub struct CascadeShadowConfig {
    /// The (positive) distance to the far boundary of each cascade.
    pub bounds: Vec<Scalar>,
    /// The proportion of overlap each cascade has with the previous cascade.
    pub overlap_proportion: Scalar,
    /// The (positive) distance to the near boundary of the first cascade.
    pub minimum_distance: Scalar,
}

/// The distances between which a cascade lies.
#[derive(Clone, Copy, Debug)]
pub struct SliceBounds {
    pub near: Scalar,
    pub far: Scalar,
}

/// The bit pattern of `0.1`.
pub const DEFAULT_MINIMUM_DISTANCE: u32 = 0x3dcc_cccd;

/// The bit pattern of `150.0`.
pub const DEFAULT_MAXIMUM_DISTANCE: u32 = 0x4316_0000;

/// The bit pattern of `10.0`.
pub const DEFAULT_FIRST_CASCADE_FAR_BOUND: u32 = 0x4120_0000;

/// The bit pattern of `0.2`.
pub const DEFAULT_OVERLAP_PROPORTION: u32 = 0x3e4c_cccd;

/// How many cascades there are by default.
pub const DEFAULT_NUM_CASCADES: usize = 4;

/// Whether `bounds` are the far bounds of `num_cascades` cascades, where `spacing` gives
/// each for the number of cascades, the first and the last bound, and the index of the
/// cascade. A single cascade reaches to the last bound.
pub open spec fn spaced<F: Fn(usize, Scalar, Scalar, usize) -> Scalar>(
    num_cascades: usize,
    nearest_bound: Scalar,
    shadow_maximum_distance: Scalar,
    spacing: F,
    bounds: Seq<Scalar>,
) -> bool {
    if num_cascades == 1 {
        bounds == seq![shadow_maximum_distance]
    } else {
        &&& bounds.len() == num_cascades
        &&& forall|i: usize|
            i < num_cascades ==> call_ensures(
                spacing,
                (num_cascades, nearest_bound, shadow_maximum_distance, i),
                #[trigger] bounds[i as int],
            )
    }
}

/// The far bounds of the cascades.
pub fn calculate_cascade_bounds<F: Fn(usize, Scalar, Scalar, usize) -> Scalar>(
    num_cascades: usize,
    nearest_bound: Scalar,
    shadow_maximum_distance: Scalar,
    spacing: F,
) -> (r: Vec<Scalar>)
    requires
        num_cascades > 0,
        num_cascades != 1 ==> forall|i: usize|
            i < num_cascades ==> call_requires(
                spacing,
                (num_cascades, nearest_bound, shadow_maximum_distance, i),
            ),
    ensures
        spaced(num_cascades, nearest_bound, shadow_maximum_distance, spacing, r@),
        r@.len() == num_cascades,
        num_cascades == 1 ==> r@[0] == shadow_maximum_distance,
        num_cascades != 1 ==> forall|i: usize|
            i < num_cascades ==> call_ensures(
                spacing,
                (num_cascades, nearest_bound, shadow_maximum_distance, i),
                #[trigger] r@[i as int],
            ),
{
    let mut r: Vec<Scalar> = Vec::new();
    if num_cascades == 1 {
        r.push(shadow_maximum_distance);
        assert(r@ =~= seq![shadow_maximum_distance]);
        assert(r@[0] == shadow_maximum_distance);
        return r;
    }
    for i in 0..num_cascades
        invariant
            r@.len() == i,
            forall|k: usize|
                k < num_cascades ==> call_requires(
                    spacing,
                    (num_cascades, nearest_bound, shadow_maximum_distance, k),
                ),
            forall|k: usize|
                k < i ==> call_ensures(
                    spacing,
                    (num_cascades, nearest_bound, shadow_maximum_distance, k),
                    #[trigger] r@[k as int],
                ),
    {
        let bound = spacing(num_cascades, nearest_bound, shadow_maximum_distance, i);
        r.push(bound);
    }
    r
}

/// Each bound is what the spacing gives for the place of its cascade, and a single cascade
/// reaches to the maximum distance.
pub proof fn law_bound_is_that_of_its_place<F: Fn(usize, Scalar, Scalar, usize) -> Scalar>(
    num_cascades: usize,
    nearest_bound: Scalar,
    shadow_maximum_distance: Scalar,
    spacing: F,
    bounds: Seq<Scalar>,
    i: usize,
)
    requires
        spaced(num_cascades, nearest_bound, shadow_maximum_distance, spacing, bounds),
        i < num_cascades,
    ensures
        bounds.len() == num_cascades,
        num_cascades == 1 ==> bounds[i as int] == shadow_maximum_distance,
        num_cascades != 1 ==> call_ensures(
            spacing,
            (num_cascades, nearest_bound, shadow_maximum_distance, i),
            bounds[i as int],
        ),
{
}

/// Where the spacing increases with the index of a cascade, so do the bounds: each cascade
/// reaches farther than those before it.
pub proof fn law_bounds_increase<F: Fn(usize, Scalar, Scalar, usize) -> Scalar>(
    num_cascades: usize,
    nearest_bound: Scalar,
    shadow_maximum_distance: Scalar,
    spacing: F,
    bounds: Seq<Scalar>,
)
    requires
        spaced(num_cascades, nearest_bound, shadow_maximum_distance, spacing, bounds),
        forall|i: usize, j: usize, a: Scalar, b: Scalar|
            i < j < num_cascades && #[trigger] call_ensures(
                spacing,
                (num_cascades, nearest_bound, shadow_maximum_distance, i),
                a,
            ) && #[trigger] call_ensures(
                spacing,
                (num_cascades, nearest_bound, shadow_maximum_distance, j),
                b,
            ) ==> a.below(b),
    ensures
        bounds.len() == num_cascades,
        forall|i: int, j: int| 0 <= i < j < bounds.len() ==> bounds[i].below(bounds[j]),
{
    assert forall|i: int, j: int| 0 <= i < j < bounds.len() implies bounds[i].below(bounds[j]) by {
        let a = i as usize;
        let b = j as usize;
        assert(bounds[a as int] == bounds[i] && bounds[b as int] == bounds[j]);
    }
}

/// What is wrong with a [`CascadeShadowConfigBuilder`].
#[derive(Clone, Copy, Debug, PartialEq, Eq, Structural)]
pub enum ConfigProblem {
    /// `num_cascades` is zero.
    NoCascades,
    /// `minimum_distance` is negative.
    MinimumNegative,
    /// `minimum_distance` is not less than `first_cascade_far_bound`, though there is
    /// more than one cascade.
    FirstBoundTooNear,
    /// `maximum_distance` is not greater than `minimum_distance`.
    MaximumTooNear,
    /// `overlap_proportion` is not in `[0.0, 1.0)`.
    OverlapOutOfRange,
}

/// Builder for [`CascadeShadowConfig`].
#[derive(Clone, Copy, Debug)]
pub struct CascadeShadowConfigBuilder {
    /// The number of shadow cascades.
    pub num_cascades: usize,
    /// The minimum shadow distance.
    /// Areas nearer to the camera than this will likely receive no shadows.
    pub minimum_distance: Scalar,
    /// The maximum shadow distance.
    /// Areas further from the camera than this will likely receive no shadows.
    pub maximum_distance: Scalar,
    /// The far bound of the first cascade, relative to the view origin.
    /// This is ignored if there is only one cascade: the maximum distance takes
    /// precedence.
    pub first_cascade_far_bound: Scalar,
    /// The overlap proportion between cascades.
    pub overlap_proportion: Scalar,
}

impl CascadeShadowConfigBuilder {
    /// The first thing that is wrong with the builder, if any is.
    pub open spec fn first_problem(self) -> Option<ConfigProblem> {
        let zero = Scalar { bits: ZERO };
        let one = Scalar { bits: ONE };
        if self.num_cascades == 0 {
            Some(ConfigProblem::NoCascades)
        } else if !zero.at_most(self.minimum_distance) {
            Some(ConfigProblem::MinimumNegative)
        } else if self.num_cascades != 1 && !self.minimum_distance.below(
            self.first_cascade_far_bound,
        ) {
            Some(ConfigProblem::FirstBoundTooNear)
        } else if !self.minimum_distance.below(self.maximum_distance) {
            Some(ConfigProblem::MaximumTooNear)
        } else if !(zero.at_most(self.overlap_proportion) && self.overlap_proportion.below(one)) {
            Some(ConfigProblem::OverlapOutOfRange)
        } else {
            None
        }
    }

    /// The first thing that is wrong with the builder, if any is.
    pub fn problem(&self) -> (r: Option<ConfigProblem>)
        ensures
            r == self.first_problem(),
            ({
                let zero = Scalar { bits: 0 };
                let one = Scalar { bits: 0x3f80_0000 };
                let counted = self.num_cascades > 0;
                let from = zero.at_most(self.minimum_distance);
                let first = self.num_cascades == 1 || self.minimum_distance.below(
                    self.first_cascade_far_bound,
                );
                let far = self.minimum_distance.below(self.maximum_distance);
                let overlap = zero.at_most(self.overlap_proportion)
                    && self.overlap_proportion.below(one);
                &&& r is None <==> counted && from && first && far && overlap
                &&& r == Some(ConfigProblem::NoCascades) <==> !counted
                &&& r == Some(ConfigProblem::MinimumNegative) <==> counted && !from
                &&& r == Some(ConfigProblem::FirstBoundTooNear) <==> counted && from && !first
                &&& r == Some(ConfigProblem::MaximumTooNear) <==> counted && from && first && !far
                &&& r == Some(ConfigProblem::OverlapOutOfRange) <==> counted && from && first
                    && far && !overlap
            }),
    {
        let zero = Scalar { bits: ZERO };
        let one = Scalar { bits: ONE };
        if self.num_cascades == 0 {
            Some(ConfigProblem::NoCascades)
        } else if !zero.less_or_equal(self.minimum_distance) {
            Some(ConfigProblem::MinimumNegative)
        } else if self.num_cascades != 1 && !self.minimum_distance.less(
            self.first_cascade_far_bound,
        ) {
            Some(ConfigProblem::FirstBoundTooNear)
        } else if !self.minimum_distance.less(self.maximum_distance) {
            Some(ConfigProblem::MaximumTooNear)
        } else if !(zero.less_or_equal(self.overlap_proportion) && self.overlap_proportion.less(
            one,
        )) {
            Some(ConfigProblem::OverlapOutOfRange)
        } else {
            None
        }
    }

    /// Returns the cascade config as specified by this builder. `spacing` gives the far
    /// bound of a cascade (see [`spaced`]).
    pub fn build<F: Fn(usize, Scalar, Scalar, usize) -> Scalar>(
        &self,
        spacing: F,
    ) -> (r: CascadeShadowConfig)
        requires
            self.first_problem() is None,
            self.num_cascades != 1 ==> forall|i: usize|
                i < self.num_cascades ==> call_requires(
                    spacing,
                    (
                        self.num_cascades,
                        self.first_cascade_far_bound,
                        self.maximum_distance,
                        i,
                    ),
                ),
        ensures
            spaced(
                self.num_cascades,
                self.first_cascade_far_bound,
                self.maximum_distance,
                spacing,
                r.bounds@,
            ),
            r.bounds@.len() == self.num_cascades,
            self.num_cascades == 1 ==> r.bounds@[0] == self.maximum_distance,
            self.num_cascades != 1 ==> forall|i: usize|
                i < self.num_cascades ==> call_ensures(
                    spacing,
                    (
                        self.num_cascades,
                        self.first_cascade_far_bound,
                        self.maximum_distance,
                        i,
                    ),
                    #[trigger] r.bounds@[i as int],
                ),
            r.overlap_proportion == self.overlap_proportion,
            r.minimum_distance == self.minimum_distance,
    {
        CascadeShadowConfig {
            bounds: calculate_cascade_bounds(
                self.num_cascades,
                self.first_cascade_far_bound,
                self.maximum_distance,
                spacing,
            ),
            overlap_proportion: self.overlap_proportion,
            minimum_distance: self.minimum_distance,
        }
    }
}

/// A builder has no problem exactly where it has cascades, from a distance that is not
/// negative to a greater one, with the first bound beyond the start where there is more
/// than one cascade, and an overlap of at least nothing and less than all. Of several
/// problems the first in this order is the one that is told: the number, the start, the
/// first bound, the end, the overlap.
pub proof fn law_problem_is_the_first_one(builder: CascadeShadowConfigBuilder)
    ensures
        ({
            let zero = Scalar { bits: 0 };
            let one = Scalar { bits: 0x3f80_0000 };
            let r = builder.first_problem();
            let start = builder.minimum_distance;
            &&& builder.num_cascades == 0 <==> r == Some(ConfigProblem::NoCascades)
            &&& r is None ==> {
                &&& builder.num_cascades >= 1
                &&& zero.at_most(start)
                &&& builder.num_cascades > 1 ==> start.below(builder.first_cascade_far_bound)
                &&& start.below(builder.maximum_distance)
                &&& zero.at_most(builder.overlap_proportion)
                &&& builder.overlap_proportion.below(one)
            }
            &&& r == Some(ConfigProblem::MinimumNegative) ==> !zero.at_most(start)
            &&& r == Some(ConfigProblem::FirstBoundTooNear) ==> builder.num_cascades > 1
                && !start.below(builder.first_cascade_far_bound) && zero.at_most(start)
            &&& r == Some(ConfigProblem::MaximumTooNear) ==> !start.below(builder.maximum_distance)
                && zero.at_most(start) && (builder.num_cascades > 1 ==> start.below(
                builder.first_cascade_far_bound,
            ))
            &&& r == Some(ConfigProblem::OverlapOutOfRange) ==> {
                &&& !zero.at_most(builder.overlap_proportion)
                    || !builder.overlap_proportion.below(one)
                &&& zero.at_most(start)
                &&& builder.num_cascades > 1 ==> start.below(builder.first_cascade_far_bound)
                &&& start.below(builder.maximum_distance)
            }
        }),
{
}

impl Default for CascadeShadowConfigBuilder {
    /// Four cascades from 0.1 to 150, the first up to 10, each overlapping the one before
    /// by a fifth.
    fn default() -> (r: CascadeShadowConfigBuilder)
        ensures
            r == (CascadeShadowConfigBuilder {
                num_cascades: DEFAULT_NUM_CASCADES,
                minimum_distance: Scalar { bits: DEFAULT_MINIMUM_DISTANCE },
                maximum_distance: Scalar { bits: DEFAULT_MAXIMUM_DISTANCE },
                first_cascade_far_bound: Scalar { bits: DEFAULT_FIRST_CASCADE_FAR_BOUND },
                overlap_proportion: Scalar { bits: DEFAULT_OVERLAP_PROPORTION },
            }),
            r.first_problem() is None,
            r.num_cascades == 4,
            r.minimum_distance.bits == 0x3dcc_cccd,
            r.maximum_distance.bits == 0x4316_0000,
            r.first_cascade_far_bound.bits == 0x4120_0000,
            r.overlap_proportion.bits == 0x3e4c_cccd,
    {
        proof {
            let minimum = Scalar { bits: DEFAULT_MINIMUM_DISTANCE };
            let overlap = Scalar { bits: DEFAULT_OVERLAP_PROPORTION };
            Scalar { bits: ZERO }.lemma_order(minimum);
            minimum.lemma_order(Scalar { bits: DEFAULT_FIRST_CASCADE_FAR_BOUND });
            minimum.lemma_order(Scalar { bits: DEFAULT_MAXIMUM_DISTANCE });
            Scalar { bits: ZERO }.lemma_order(overlap);
            overlap.lemma_order(Scalar { bits: ONE });
        }
        CascadeShadowConfigBuilder {
            num_cascades: DEFAULT_NUM_CASCADES,
            minimum_distance: Scalar { bits: DEFAULT_MINIMUM_DISTANCE },
            maximum_distance: Scalar { bits: DEFAULT_MAXIMUM_DISTANCE },
            first_cascade_far_bound: Scalar { bits: DEFAULT_FIRST_CASCADE_FAR_BOUND },
            overlap_proportion: Scalar { bits: DEFAULT_OVERLAP_PROPORTION },
        }
    }
}

impl CascadeShadowConfig {
    /// Whether `near` is the near bound of the `i`-th cascade: the minimum distance for
    /// the first, and for each other the far bound of the one before, drawn in by the
    /// overlap.
    pub open spec fn is_near<O: Fn(Scalar, Scalar) -> Scalar>(
        self,
        overlapped: O,
        i: int,
        near: Scalar,
    ) -> bool {
        if i == 0 {
            near == self.minimum_distance
        } else {
            call_ensures(overlapped, (self.overlap_proportion, self.bounds@[i - 1]), near)
        }
    }

    /// The distances between which each cascade lies. `overlapped` draws a bound in by an
    /// overlap proportion.
    pub fn slices<O: Fn(Scalar, Scalar) -> Scalar>(&self, overlapped: &O) -> (r: Vec<SliceBounds>)
        requires
            forall|a: Scalar, b: Scalar| call_requires(*overlapped, (a, b)),
        ensures
            r@.len() == self.bounds@.len(),
            forall|i: int|
                0 <= i < r@.len() ==> (#[trigger] r@[i]).far == self.bounds@[i] && self.is_near(
                    *overlapped,
                    i,
                    r@[i].near,
                ),
            r@.len() > 0 ==> r@[0].near == self.minimum_distance,
            forall|i: int|
                0 < i < r@.len() ==> call_ensures(
                    *overlapped,
                    (self.overlap_proportion, self.bounds@[i - 1]),
                    (#[trigger] r@[i]).near,
                ),
    {
        let mut r: Vec<SliceBounds> = Vec::new();
        let mut near = self.minimum_distance;
        for i in 0..self.bounds.len()
            invariant
                forall|a: Scalar, b: Scalar| call_requires(*overlapped, (a, b)),
                r@.len() == i,
                self.is_near(*overlapped, i as int, near),
                forall|k: int|
                    0 <= k < i ==> (#[trigger] r@[k]).far == self.bounds@[k] && self.is_near(
                        *overlapped,
                        k,
                        r@[k].near,
                    ),
        {
            let far = self.bounds[i];
            r.push(SliceBounds { near, far });
            near = overlapped(self.overlap_proportion, far);
        }
        r
    }
}

} // verus!
