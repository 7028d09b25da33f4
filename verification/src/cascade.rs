//! Shadow cascades: the projections that the shadows of a directional light are drawn
//! with, and the retained ones that static shadows are kept in.
use crate::math::{Mat4, Vec3, Vec4};
use crate::scalar::{law_negated_is_opposite, Scalar, ONE, ZERO};
use vstd::prelude::*;

verus! {

/// A single cascade of a view's shadow map cascade. Several of these are used to cover
/// most of the view, with some overlap for blending at cascade transitions. Farther away
/// cascades are larger and have a lower effective shadow map texel per world unit
/// resolution. All cascades have the same pixel dimensions however.
#[derive(Clone, Copy, Debug)]
pub struct Cascade {
    /// The transform of the light, i.e. the view to world matrix.
    pub world_from_cascade: Mat4,
    /// The orthographic projection for this cascade.
    pub clip_from_cascade: Mat4,
    /// The view-projection matrix for this cascade, converting world space into light
    /// clip space.
    pub clip_from_world: Mat4,
    /// Size of each shadow map texel in world units.
    pub texel_size: Scalar,
}

impl Default for Cascade {
    /// A cascade that projects nothing: every matrix is the identity, and a texel has no
    /// size.
    fn default() -> (r: Cascade)
        ensures
            r.world_from_cascade == identity(),
            r.clip_from_cascade == identity(),
            r.clip_from_world == identity(),
            r.texel_size.bits == ZERO,
    {
        let zero = Scalar { bits: ZERO };
        let one = Scalar { bits: ONE };
        let same = Mat4 {
            x_axis: Vec4 { x: one, y: zero, z: zero, w: zero },
            y_axis: Vec4 { x: zero, y: one, z: zero, w: zero },
            z_axis: Vec4 { x: zero, y: zero, z: one, w: zero },
            w_axis: Vec4 { x: zero, y: zero, z: zero, w: one },
        };
        Cascade {
            world_from_cascade: same,
            clip_from_cascade: same,
            clip_from_world: same,
            texel_size: zero,
        }
    }
}

/// The matrix that changes nothing.
pub open spec fn identity() -> Mat4 {
    let zero = Scalar { bits: ZERO };
    let one = Scalar { bits: ONE };
    Mat4 {
        x_axis: Vec4 { x: one, y: zero, z: zero, w: zero },
        y_axis: Vec4 { x: zero, y: one, z: zero, w: zero },
        z_axis: Vec4 { x: zero, y: zero, z: one, w: zero },
        w_axis: Vec4 { x: zero, y: zero, z: zero, w: one },
    }
}

/// The retained projection for one cascade's static shadow layer.
///
/// Unlike [`Cascade`], which is rebuilt every frame, it is baked once and reused across
/// frames while the camera stays inside its coverage. It is only rebuilt (and the layer
/// baked again) when the dynamic cascade's coverage would leave the retained coverage, or
/// the light direction changes.
#[derive(Clone, Copy, Debug)]
pub struct StaticCascade {
    /// The static cascade's view-to-world matrix.
    pub world_from_cascade: Mat4,
    /// The static cascade's orthographic projection.
    pub clip_from_cascade: Mat4,
    /// World space into static-cascade light clip space.
    pub clip_from_world: Mat4,
    /// Size of each static-cascade shadow map texel in world units.
    pub texel_size: Scalar,
    /// The light-space axis-aligned coverage this static cascade was built for, kept so
    /// the next frame can test whether the dynamic cascade still fits.
    pub light_space_min: Vec3,
    /// The far corner of the light-space coverage.
    pub light_space_max: Vec3,
    /// The light basis this was built with.
    pub world_from_light: Mat4,
    /// Whether the static depth layer must be baked again this frame.
    pub dirty: bool,
}

/// A box in light space.
#[derive(Clone, Copy, Debug)]
pub struct Coverage {
    pub min: Vec3,
    pub max: Vec3,
}

/// The measures of the projection that covers a slice of a view.
#[derive(Clone, Copy, Debug)]
pub struct CascadeFit {
    /// Size of each shadow map texel in world units.
    pub texel_size: Scalar,
    /// Two over the width of the projection.
    pub scale: Scalar,
    /// One over the depth of the projection.
    pub inverse_depth: Scalar,
    /// The center of the near plane, in light space.
    pub near_plane_center: Vec3,
    /// The center of the near plane, in world space.
    pub world_center: Vec4,
}

/// The measures of a slice of a view, as seen from a light.
#[derive(Clone, Copy, Debug)]
pub struct Slice {
    /// What the slice covers.
    pub coverage: Coverage,
    /// The projection that covers it.
    pub dynamic: CascadeFit,
    /// The projection that covers it with a margin.
    pub retained: CascadeFit,
    /// What that one covers.
    pub retained_coverage: Coverage,
}

/// The columns of a matrix, as its rows.
pub open spec fn transposed(m: Mat4) -> Mat4 {
    Mat4 {
        x_axis: Vec4 { x: m.x_axis.x, y: m.y_axis.x, z: m.z_axis.x, w: m.w_axis.x },
        y_axis: Vec4 { x: m.x_axis.y, y: m.y_axis.y, z: m.z_axis.y, w: m.w_axis.y },
        z_axis: Vec4 { x: m.x_axis.z, y: m.y_axis.z, z: m.z_axis.z, w: m.w_axis.z },
        w_axis: Vec4 { x: m.x_axis.w, y: m.y_axis.w, z: m.z_axis.w, w: m.w_axis.w },
    }
}

/// The columns of a matrix, as its rows.
pub fn transpose(m: Mat4) -> (r: Mat4)
    ensures
        r == transposed(m),
{
    Mat4 {
        x_axis: Vec4 { x: m.x_axis.x, y: m.y_axis.x, z: m.z_axis.x, w: m.w_axis.x },
        y_axis: Vec4 { x: m.x_axis.y, y: m.y_axis.y, z: m.z_axis.y, w: m.w_axis.y },
        z_axis: Vec4 { x: m.x_axis.z, y: m.y_axis.z, z: m.z_axis.z, w: m.w_axis.z },
        w_axis: Vec4 { x: m.x_axis.w, y: m.y_axis.w, z: m.z_axis.w, w: m.w_axis.w },
    }
}

/// Transposing twice gives the matrix back.
pub proof fn law_transpose_undoes_itself(m: Mat4)
    ensures
        transposed(transposed(m)) == m,
{
}

/// The entry of a transposed matrix in a row and a column is that of the matrix in the
/// column and the row.
pub proof fn law_transpose_swaps_rows_and_columns(m: Mat4, row: int, column: int)
    requires
        0 <= row < 4,
        0 <= column < 4,
    ensures
        entry(transposed(m), row, column) == entry(m, column, row),
{
}

/// The entry of a matrix in a row and a column.
pub open spec fn entry(m: Mat4, row: int, column: int) -> Scalar {
    let c = if column == 0 {
        m.x_axis
    } else if column == 1 {
        m.y_axis
    } else if column == 2 {
        m.z_axis
    } else {
        m.w_axis
    };
    if row == 0 {
        c.x
    } else if row == 1 {
        c.y
    } else if row == 2 {
        c.z
    } else {
        c.w
    }
}

/// The matrix that changes nothing has one along the diagonal, and zero elsewhere.
pub proof fn law_identity_is_diagonal(row: int, column: int)
    requires
        0 <= row < 4,
        0 <= column < 4,
    ensures
        row == column ==> entry(identity(), row, column).bits == 0x3f80_0000,
        row != column ==> entry(identity(), row, column).bits == 0,
{
}

/// World space goes into the space of a cascade by undoing the light's rotation (the
/// entry in a row and a column is that of the rotation in the column and the row), and
/// moving the center of the near plane to the origin.
pub proof fn law_cascade_from_world_undoes_rotation(
    fit: CascadeFit,
    world_from_light: Mat4,
    row: int,
    column: int,
)
    requires
        0 <= row < 4,
        0 <= column < 3,
    ensures
        ({
            let m = fit.spec_cascade_from_world(world_from_light);
            &&& entry(m, row, column) == entry(world_from_light, column, row)
            &&& m.w_axis.x.units() == -fit.near_plane_center.x.units()
            &&& m.w_axis.y.units() == -fit.near_plane_center.y.units()
            &&& m.w_axis.z.units() == -fit.near_plane_center.z.units()
            &&& m.w_axis.x.negated() == fit.near_plane_center.x
            &&& m.w_axis.y.negated() == fit.near_plane_center.y
            &&& m.w_axis.z.negated() == fit.near_plane_center.z
            &&& m.w_axis.w.bits == 0x3f80_0000
        }),
{
    law_negated_is_opposite(fit.near_plane_center.x);
    law_negated_is_opposite(fit.near_plane_center.y);
    law_negated_is_opposite(fit.near_plane_center.z);
}

/// The space of a cascade goes into world space by the light's rotation, at the center of
/// the near plane.
pub proof fn law_world_from_cascade_is_rotation_at_center(fit: CascadeFit, world_from_light: Mat4)
    ensures
        ({
            let m = fit.spec_world_from_cascade(world_from_light);
            &&& m.x_axis == world_from_light.x_axis
            &&& m.y_axis == world_from_light.y_axis
            &&& m.z_axis == world_from_light.z_axis
            &&& m.w_axis == fit.world_center
        }),
{
}

/// The projection scales along both sides alike, and along the depth on its own; it moves
/// nothing but the depth, by one; and it keeps everything else.
pub proof fn law_projection_is_orthographic(fit: CascadeFit, row: int, column: int)
    requires
        0 <= row < 4,
        0 <= column < 4,
    ensures
        ({
            let e = entry(fit.spec_clip_from_cascade(), row, column);
            &&& row == column && row < 2 ==> e == fit.scale
            &&& row == column && row == 2 ==> e == fit.inverse_depth
            &&& column == 3 && row >= 2 ==> e.bits == 0x3f80_0000
            &&& row != column && !(column == 3 && row == 2) ==> e.bits == 0
        }),
{
}

impl CascadeFit {
    /// World space into the space of the cascade: the light's rotation undone, and the
    /// center of the near plane moved to the origin.
    pub open spec fn spec_cascade_from_world(self, world_from_light: Mat4) -> Mat4 {
        let light_from_world = transposed(world_from_light);
        Mat4 {
            x_axis: light_from_world.x_axis,
            y_axis: light_from_world.y_axis,
            z_axis: light_from_world.z_axis,
            w_axis: Vec4 {
                x: self.near_plane_center.x.negated(),
                y: self.near_plane_center.y.negated(),
                z: self.near_plane_center.z.negated(),
                w: Scalar { bits: ONE },
            },
        }
    }

    /// World space into the space of the cascade.
    pub fn cascade_from_world(self, world_from_light: Mat4) -> (r: Mat4)
        ensures
            r == self.spec_cascade_from_world(world_from_light),
    {
        let light_from_world = transpose(world_from_light);
        Mat4 {
            x_axis: light_from_world.x_axis,
            y_axis: light_from_world.y_axis,
            z_axis: light_from_world.z_axis,
            w_axis: Vec4 {
                x: self.near_plane_center.x.negate(),
                y: self.near_plane_center.y.negate(),
                z: self.near_plane_center.z.negate(),
                w: Scalar { bits: ONE },
            },
        }
    }

    /// The space of the cascade into world space: the light's rotation, at the center of
    /// the near plane.
    pub open spec fn spec_world_from_cascade(self, world_from_light: Mat4) -> Mat4 {
        Mat4 { w_axis: self.world_center, ..world_from_light }
    }

    /// The space of the cascade into world space.
    pub fn world_from_cascade(self, world_from_light: Mat4) -> (r: Mat4)
        ensures
            r == self.spec_world_from_cascade(world_from_light),
    {
        Mat4 {
            x_axis: world_from_light.x_axis,
            y_axis: world_from_light.y_axis,
            z_axis: world_from_light.z_axis,
            w_axis: self.world_center,
        }
    }

    /// The right-handed orthographic projection, centered at the near plane, with depth
    /// reversed.
    pub open spec fn spec_clip_from_cascade(self) -> Mat4 {
        let zero = Scalar { bits: ZERO };
        let one = Scalar { bits: ONE };
        Mat4 {
            x_axis: Vec4 { x: self.scale, y: zero, z: zero, w: zero },
            y_axis: Vec4 { x: zero, y: self.scale, z: zero, w: zero },
            z_axis: Vec4 { x: zero, y: zero, z: self.inverse_depth, w: zero },
            w_axis: Vec4 { x: zero, y: zero, z: one, w: one },
        }
    }

    /// The orthographic projection.
    pub fn clip_from_cascade(self) -> (r: Mat4)
        ensures
            r == self.spec_clip_from_cascade(),
    {
        let zero = Scalar { bits: ZERO };
        let one = Scalar { bits: ONE };
        Mat4 {
            x_axis: Vec4 { x: self.scale, y: zero, z: zero, w: zero },
            y_axis: Vec4 { x: zero, y: self.scale, z: zero, w: zero },
            z_axis: Vec4 { x: zero, y: zero, z: self.inverse_depth, w: zero },
            w_axis: Vec4 { x: zero, y: zero, z: one, w: one },
        }
    }
}

/// Whether `r` is the cascade with the given measures, where `product` multiplies
/// matrices.
pub open spec fn is_cascade<P: Fn(Mat4, Mat4) -> Mat4>(
    fit: CascadeFit,
    world_from_light: Mat4,
    product: P,
    r: Cascade,
) -> bool {
    &&& r.world_from_cascade == fit.spec_world_from_cascade(world_from_light)
    &&& r.clip_from_cascade == fit.spec_clip_from_cascade()
    &&& call_ensures(
        product,
        (fit.spec_clip_from_cascade(), fit.spec_cascade_from_world(world_from_light)),
        r.clip_from_world,
    )
    &&& r.texel_size == fit.texel_size
}

/// Returns the [`Cascade`] with the given measures. `product` multiplies matrices.
pub fn calculate_cascade<P: Fn(Mat4, Mat4) -> Mat4>(
    fit: CascadeFit,
    world_from_light: Mat4,
    product: &P,
) -> (r: Cascade)
    requires
        forall|a: Mat4, b: Mat4| call_requires(*product, (a, b)),
    ensures
        is_cascade(fit, world_from_light, *product, r),
{
    let clip_from_cascade = fit.clip_from_cascade();
    let cascade_from_world = fit.cascade_from_world(world_from_light);
    Cascade {
        world_from_cascade: fit.world_from_cascade(world_from_light),
        clip_from_cascade,
        clip_from_world: product(clip_from_cascade, cascade_from_world),
        texel_size: fit.texel_size,
    }
}

/// A cascade has the light's rotation at the center of the near plane, the orthographic
/// projection of its measures, and the product of that with the matrix that undoes the
/// rotation, column by column.
pub proof fn law_cascade_is_put_together<P: Fn(Mat4, Mat4) -> Mat4>(
    fit: CascadeFit,
    world_from_light: Mat4,
    product: P,
    r: Cascade,
)
    requires
        is_cascade(fit, world_from_light, product, r),
    ensures
        r.texel_size == fit.texel_size,
        r.world_from_cascade.x_axis == world_from_light.x_axis,
        r.world_from_cascade.y_axis == world_from_light.y_axis,
        r.world_from_cascade.z_axis == world_from_light.z_axis,
        r.world_from_cascade.w_axis == fit.world_center,
        r.clip_from_cascade.x_axis.x == fit.scale,
        r.clip_from_cascade.y_axis.y == fit.scale,
        r.clip_from_cascade.z_axis.z == fit.inverse_depth,
        r.clip_from_cascade.w_axis.z.bits == 0x3f80_0000,
        r.clip_from_cascade.w_axis.w.bits == 0x3f80_0000,
        forall|row: int, column: int|
            0 <= row < 4 && 0 <= column < 4 && row != column && !(row == 2 && column == 3)
                ==> (#[trigger] entry(r.clip_from_cascade, row, column)).bits == 0,
        exists|m: Mat4|
            {
                &&& #[trigger] call_ensures(product, (r.clip_from_cascade, m), r.clip_from_world)
                &&& forall|row: int, column: int|
                    0 <= row < 4 && 0 <= column < 3 ==> #[trigger] entry(m, row, column) == entry(
                        world_from_light,
                        column,
                        row,
                    )
                &&& m.w_axis.x.negated() == fit.near_plane_center.x
                &&& m.w_axis.y.negated() == fit.near_plane_center.y
                &&& m.w_axis.z.negated() == fit.near_plane_center.z
                &&& m.w_axis.w.bits == 0x3f80_0000
            },
{
    let m = fit.spec_cascade_from_world(world_from_light);
    law_negated_is_opposite(fit.near_plane_center.x);
    law_negated_is_opposite(fit.near_plane_center.y);
    law_negated_is_opposite(fit.near_plane_center.z);
    assert(call_ensures(product, (r.clip_from_cascade, m), r.clip_from_world));
}

impl StaticCascade {
    /// Whether the retained coverage holds `coverage`.
    pub open spec fn holds(self, coverage: Coverage) -> bool {
        self.light_space_min.all_at_most(coverage.min) && coverage.max.all_at_most(
            self.light_space_max,
        )
    }

    /// Whether the retained coverage holds `coverage`.
    pub fn covers(&self, coverage: Coverage) -> (r: bool)
        ensures
            r == self.holds(coverage),
    {
        self.light_space_min.all_less_or_equal(coverage.min) && coverage.max.all_less_or_equal(
            self.light_space_max,
        )
    }

    /// The same static cascade, with nothing to bake.
    pub open spec fn reused(self) -> StaticCascade {
        StaticCascade { dirty: false, ..self }
    }
}

/// Whether `r` is a static cascade built anew for a slice, to be baked.
pub open spec fn is_rebuilt<P: Fn(Mat4, Mat4) -> Mat4>(
    slice: Slice,
    world_from_light: Mat4,
    product: P,
    r: StaticCascade,
) -> bool {
    &&& is_cascade(
        slice.retained,
        world_from_light,
        product,
        Cascade {
            world_from_cascade: r.world_from_cascade,
            clip_from_cascade: r.clip_from_cascade,
            clip_from_world: r.clip_from_world,
            texel_size: r.texel_size,
        },
    )
    &&& r.light_space_min == slice.retained_coverage.min
    &&& r.light_space_max == slice.retained_coverage.max
    &&& r.world_from_light == world_from_light
    &&& r.dirty
}

/// Whether `r` is the static cascade for a slice: `previous`, where that still covers the
/// slice and was built for the same light, as `same_light` tells; and otherwise a new
/// one.
pub open spec fn is_static_cascade<
    L: Fn(Mat4, Mat4) -> bool,
    P: Fn(Mat4, Mat4) -> Mat4,
>(
    slice: Slice,
    world_from_light: Mat4,
    previous: Option<StaticCascade>,
    same_light: L,
    product: P,
    r: StaticCascade,
) -> bool {
    match previous {
        Some(prev) => if prev.holds(slice.coverage) {
            exists|same: bool| #[trigger]
                call_ensures(same_light, (prev.world_from_light, world_from_light), same) && if same {
                    r == prev.reused()
                } else {
                    is_rebuilt(slice, world_from_light, product, r)
                }
        } else {
            is_rebuilt(slice, world_from_light, product, r)
        },
        None => is_rebuilt(slice, world_from_light, product, r),
    }
}

/// Builds (or reuses) the retained static cascade for one cascade slice.
///
/// `previous` is reused (and left with nothing to bake) while the coverage of the slice
/// still fits inside the retained coverage and the light direction is unchanged. Only
/// when the fit is lost is a fresh static projection built and marked `dirty`.
///
/// `same_light` tells whether two light bases have the same direction, and `product`
/// multiplies matrices.
pub fn calculate_static_cascade<L: Fn(Mat4, Mat4) -> bool, P: Fn(Mat4, Mat4) -> Mat4>(
    slice: Slice,
    world_from_light: Mat4,
    previous: Option<StaticCascade>,
    same_light: &L,
    product: &P,
) -> (r: StaticCascade)
    requires
        forall|a: Mat4, b: Mat4| call_requires(*same_light, (a, b)),
        forall|a: Mat4, b: Mat4| call_requires(*product, (a, b)),
    ensures
        is_static_cascade(slice, world_from_light, previous, *same_light, *product, r),
{
    match previous {
        Some(prev) => {
            if prev.covers(slice.coverage) {
                let same: bool = same_light(prev.world_from_light, world_from_light);
                assert(call_ensures(
                    *same_light,
                    (prev.world_from_light, world_from_light),
                    same,
                ));
                if same {
                    let mut reused = prev;
                    reused.dirty = false;
                    return reused;
                }
            }
        },
        None => {},
    }
    let cascade = calculate_cascade(slice.retained, world_from_light, product);
    StaticCascade {
        world_from_cascade: cascade.world_from_cascade,
        clip_from_cascade: cascade.clip_from_cascade,
        clip_from_world: cascade.clip_from_world,
        texel_size: cascade.texel_size,
        light_space_min: slice.retained_coverage.min,
        light_space_max: slice.retained_coverage.max,
        world_from_light,
        dirty: true,
    }
}

impl Slice {
    /// Whether the projection with a margin covers the slice.
    pub open spec fn is_covered(self) -> bool {
        self.retained_coverage.min.all_at_most(self.coverage.min) && self.coverage.max.all_at_most(
            self.retained_coverage.max,
        )
    }
}

/// A static cascade that was just built is reused for the same slice and light, and so is
/// what is reused.
pub proof fn law_rebuilt_is_reused<L: Fn(Mat4, Mat4) -> bool, P: Fn(Mat4, Mat4) -> Mat4>(
    slice: Slice,
    world_from_light: Mat4,
    first: StaticCascade,
    same_light: L,
    product: P,
    second: StaticCascade,
    third: StaticCascade,
)
    requires
        is_rebuilt(slice, world_from_light, product, first),
        slice.is_covered(),
        forall|same: bool|
            call_ensures(same_light, (world_from_light, world_from_light), same) ==> same,
        is_static_cascade(slice, world_from_light, Some(first), same_light, product, second),
        is_static_cascade(slice, world_from_light, Some(second), same_light, product, third),
    ensures
        second == first.reused(),
        third == second,
{
    law_reused_within_coverage(slice, world_from_light, first, same_light, product, second);
    law_reused_within_coverage(slice, world_from_light, second, same_light, product, third);
}

/// The dynamic and the static cascade of a slice are turned the same way, and have the
/// texel sizes of their projections.
pub proof fn law_static_is_turned_like_dynamic<P: Fn(Mat4, Mat4) -> Mat4>(
    slice: Slice,
    world_from_light: Mat4,
    product: P,
    dynamic: Cascade,
    retained: StaticCascade,
)
    requires
        is_cascade(slice.dynamic, world_from_light, product, dynamic),
        is_rebuilt(slice, world_from_light, product, retained),
    ensures
        dynamic.world_from_cascade.x_axis == retained.world_from_cascade.x_axis,
        dynamic.world_from_cascade.y_axis == retained.world_from_cascade.y_axis,
        dynamic.world_from_cascade.z_axis == retained.world_from_cascade.z_axis,
        dynamic.texel_size == slice.dynamic.texel_size,
        retained.texel_size == slice.retained.texel_size,
{
}

/// A retained coverage holds a box where it does along every axis, from either side.
pub proof fn law_coverage_holds_along_every_axis(cascade: StaticCascade, coverage: Coverage)
    ensures
        cascade.holds(coverage) <==> {
            &&& cascade.light_space_min.x.at_most(coverage.min.x)
            &&& cascade.light_space_min.y.at_most(coverage.min.y)
            &&& cascade.light_space_min.z.at_most(coverage.min.z)
            &&& coverage.max.x.at_most(cascade.light_space_max.x)
            &&& coverage.max.y.at_most(cascade.light_space_max.y)
            &&& coverage.max.z.at_most(cascade.light_space_max.z)
        },
{
}

/// A static cascade is what was retained, but for what is to be baked, or one that was
/// built anew, to be baked: the one where the slice lies in the retained box along every
/// axis and the light is the same, and the other where it lies beyond along any, or the
/// light is another, or nothing was retained.
pub proof fn law_static_cascade_is_retained_or_rebuilt<
    L: Fn(Mat4, Mat4) -> bool,
    P: Fn(Mat4, Mat4) -> Mat4,
>(
    slice: Slice,
    world_from_light: Mat4,
    previous: Option<StaticCascade>,
    same_light: L,
    product: P,
    r: StaticCascade,
)
    requires
        is_static_cascade(slice, world_from_light, previous, same_light, product, r),
    ensures
        !r.dirty ==> (previous matches Some(prev) && {
            &&& prev.light_space_min.x.units() <= slice.coverage.min.x.units()
            &&& prev.light_space_min.y.units() <= slice.coverage.min.y.units()
            &&& prev.light_space_min.z.units() <= slice.coverage.min.z.units()
            &&& slice.coverage.max.x.units() <= prev.light_space_max.x.units()
            &&& slice.coverage.max.y.units() <= prev.light_space_max.y.units()
            &&& slice.coverage.max.z.units() <= prev.light_space_max.z.units()
            &&& call_ensures(same_light, (prev.world_from_light, world_from_light), true)
            &&& r.world_from_cascade == prev.world_from_cascade
            &&& r.clip_from_cascade == prev.clip_from_cascade
            &&& r.clip_from_world == prev.clip_from_world
            &&& r.texel_size == prev.texel_size
            &&& r.light_space_min == prev.light_space_min
            &&& r.light_space_max == prev.light_space_max
            &&& r.world_from_light == prev.world_from_light
        }),
        r.dirty ==> {
            &&& r.texel_size == slice.retained.texel_size
            &&& r.light_space_min == slice.retained_coverage.min
            &&& r.light_space_max == slice.retained_coverage.max
            &&& r.world_from_light == world_from_light
            &&& r.world_from_cascade.x_axis == world_from_light.x_axis
            &&& r.world_from_cascade.y_axis == world_from_light.y_axis
            &&& r.world_from_cascade.z_axis == world_from_light.z_axis
            &&& r.world_from_cascade.w_axis == slice.retained.world_center
            &&& r.clip_from_cascade.x_axis.x == slice.retained.scale
            &&& r.clip_from_cascade.y_axis.y == slice.retained.scale
            &&& r.clip_from_cascade.z_axis.z == slice.retained.inverse_depth
            &&& exists|m: Mat4|
                {
                    &&& #[trigger] call_ensures(product, (r.clip_from_cascade, m), r.clip_from_world)
                    &&& forall|row: int, column: int|
                        0 <= row < 4 && 0 <= column < 3 ==> #[trigger] entry(m, row, column)
                            == entry(world_from_light, column, row)
                    &&& m.w_axis.x.negated() == slice.retained.near_plane_center.x
                    &&& m.w_axis.y.negated() == slice.retained.near_plane_center.y
                    &&& m.w_axis.z.negated() == slice.retained.near_plane_center.z
                }
        },
        previous is None ==> r.dirty,
        previous matches Some(prev) ==> {
            let inside = {
                &&& prev.light_space_min.x.at_most(slice.coverage.min.x)
                &&& prev.light_space_min.y.at_most(slice.coverage.min.y)
                &&& prev.light_space_min.z.at_most(slice.coverage.min.z)
                &&& slice.coverage.max.x.at_most(prev.light_space_max.x)
                &&& slice.coverage.max.y.at_most(prev.light_space_max.y)
                &&& slice.coverage.max.z.at_most(prev.light_space_max.z)
            };
            &&& !inside ==> r.dirty
            &&& inside && !call_ensures(
                same_light,
                (prev.world_from_light, world_from_light),
                false,
            ) ==> !r.dirty
            &&& inside && !call_ensures(
                same_light,
                (prev.world_from_light, world_from_light),
                true,
            ) ==> r.dirty
        },
{
    if r.dirty {
        let same = Cascade {
            world_from_cascade: r.world_from_cascade,
            clip_from_cascade: r.clip_from_cascade,
            clip_from_world: r.clip_from_world,
            texel_size: r.texel_size,
        };
        law_cascade_is_put_together(slice.retained, world_from_light, product, same);
    }
}

/// A static cascade that has nothing to bake is the retained one, unchanged, and its
/// coverage holds the slice: the layer baked for it still serves.
pub proof fn law_clean_is_retained<L: Fn(Mat4, Mat4) -> bool, P: Fn(Mat4, Mat4) -> Mat4>(
    slice: Slice,
    world_from_light: Mat4,
    previous: Option<StaticCascade>,
    same_light: L,
    product: P,
    r: StaticCascade,
)
    requires
        is_static_cascade(slice, world_from_light, previous, same_light, product, r),
        !r.dirty,
    ensures
        previous matches Some(prev) && r == prev.reused() && prev.holds(slice.coverage)
            && call_ensures(same_light, (prev.world_from_light, world_from_light), true),
        r.holds(slice.coverage),
{
}

/// While the slice stays inside the retained coverage and the light keeps its direction,
/// the retained projection is reused, and what it holds stays the same.
pub proof fn law_reused_within_coverage<L: Fn(Mat4, Mat4) -> bool, P: Fn(Mat4, Mat4) -> Mat4>(
    slice: Slice,
    world_from_light: Mat4,
    prev: StaticCascade,
    same_light: L,
    product: P,
    r: StaticCascade,
)
    requires
        is_static_cascade(slice, world_from_light, Some(prev), same_light, product, r),
        prev.holds(slice.coverage),
        forall|same: bool|
            call_ensures(same_light, (prev.world_from_light, world_from_light), same) ==> same,
    ensures
        r == prev.reused(),
        forall|coverage: Coverage| r.holds(coverage) == #[trigger] prev.holds(coverage),
        r.reused() == r,
{
}

/// A slice that leaves the retained coverage, or a light that turns, has the static
/// cascade built anew and baked; and so has a slice that had none.
pub proof fn law_rebuilt_beyond_coverage<L: Fn(Mat4, Mat4) -> bool, P: Fn(Mat4, Mat4) -> Mat4>(
    slice: Slice,
    world_from_light: Mat4,
    previous: Option<StaticCascade>,
    same_light: L,
    product: P,
    r: StaticCascade,
)
    requires
        is_static_cascade(slice, world_from_light, previous, same_light, product, r),
        previous matches Some(prev) ==> !prev.holds(slice.coverage) || forall|same: bool|
            call_ensures(same_light, (prev.world_from_light, world_from_light), same) ==> !same,
    ensures
        r.dirty,
        is_rebuilt(slice, world_from_light, product, r),
{
}

} // verus!
