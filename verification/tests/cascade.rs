//! Shadow cascades, with the arithmetic done by `bevy_math`.
use bevy_ecs::entity::Entity;
use bevy_math::{Mat4, Vec3A, Vec4};
use retained::cascade::{
    calculate_cascade, calculate_static_cascade, transpose, Cascade, CascadeFit, Coverage, Slice,
    StaticCascade,
};
use retained::entity::EntityId;
use retained::lights::{
    build_directional_light_cascades, CascadeMath, Cascades, LightRow, StaticCascades, ViewRow,
};
use retained::scalar::Scalar;
use retained::shadow_config::{
    calculate_cascade_bounds, CascadeShadowConfig, CascadeShadowConfigBuilder, ConfigProblem,
};

const STATIC_CASCADE_MARGIN: f32 = 1.5;

fn scalar(x: f32) -> Scalar {
    Scalar { bits: x.to_bits() }
}

fn number(x: Scalar) -> f32 {
    f32::from_bits(x.bits)
}

fn vector3(v: Vec3A) -> retained::math::Vec3 {
    retained::math::Vec3 { x: scalar(v.x), y: scalar(v.y), z: scalar(v.z) }
}

fn vector4(v: Vec4) -> retained::math::Vec4 {
    retained::math::Vec4 { x: scalar(v.x), y: scalar(v.y), z: scalar(v.z), w: scalar(v.w) }
}

fn matrix(m: Mat4) -> retained::math::Mat4 {
    retained::math::Mat4 {
        x_axis: vector4(m.x_axis),
        y_axis: vector4(m.y_axis),
        z_axis: vector4(m.z_axis),
        w_axis: vector4(m.w_axis),
    }
}

fn column(v: retained::math::Vec4) -> Vec4 {
    Vec4::new(number(v.x), number(v.y), number(v.z), number(v.w))
}

fn mat4(m: retained::math::Mat4) -> Mat4 {
    Mat4::from_cols(column(m.x_axis), column(m.y_axis), column(m.z_axis), column(m.w_axis))
}

fn id(index: u32) -> EntityId {
    EntityId::try_from_bits(Entity::from_raw_u32(index).unwrap().to_bits()).unwrap()
}

fn same_light(a: retained::math::Mat4, b: retained::math::Mat4) -> bool {
    mat4(a).abs_diff_eq(mat4(b), 1e-5)
}

fn product(a: retained::math::Mat4, b: retained::math::Mat4) -> retained::math::Mat4 {
    matrix(mat4(a) * mat4(b))
}

fn overlapped(proportion: Scalar, bound: Scalar) -> Scalar {
    scalar((1.0 - number(proportion)) * number(bound))
}

fn spacing(num_cascades: usize, nearest: Scalar, farthest: Scalar, i: usize) -> Scalar {
    let base = (number(farthest) / number(nearest)).powf(1.0 / (num_cascades - 1) as f32);
    scalar(number(nearest) * base.powf(i as f32))
}

fn fit(
    diameter: f32,
    texture_size: f32,
    min: Vec3A,
    max: Vec3A,
    near_z: f32,
    far_z: f32,
    world_from_light: Mat4,
) -> (CascadeFit, Vec3A) {
    let texel = diameter / texture_size;
    let center = Vec3A::new(
        (0.5 * (min.x + max.x) / texel).floor() * texel,
        (0.5 * (min.y + max.y) / texel).floor() * texel,
        near_z,
    );
    let fit = CascadeFit {
        texel_size: scalar(texel),
        scale: scalar(2.0 / diameter),
        inverse_depth: scalar((near_z - far_z).recip()),
        near_plane_center: vector3(center),
        world_center: vector4(world_from_light * center.extend(1.0)),
    };
    (fit, center)
}

fn measure(
    corners: [Vec3A; 8],
    texture_size: f32,
    world_from_light: Mat4,
    light_from_camera: Mat4,
) -> Slice {
    let mut min = Vec3A::splat(f32::MAX);
    let mut max = Vec3A::splat(f32::MIN);
    for corner in corners {
        let seen = light_from_camera.transform_point3a(corner);
        min = min.min(seen);
        max = max.max(seen);
    }
    let body = (corners[0] - corners[6]).length_squared();
    let far_plane = (corners[4] - corners[6]).length_squared();
    let diameter = body.max(far_plane).sqrt().ceil();
    let (dynamic, _) = fit(diameter, texture_size, min, max, max.z, min.z, world_from_light);
    let wide = (diameter * STATIC_CASCADE_MARGIN).ceil();
    let z_margin = 0.5 * (max.z - min.z) * (STATIC_CASCADE_MARGIN - 1.0);
    let (near_z, far_z) = (max.z + z_margin, min.z - z_margin);
    let (retained, center) = fit(wide, texture_size, min, max, near_z, far_z, world_from_light);
    let half = 0.5 * wide;
    Slice {
        coverage: Coverage { min: vector3(min), max: vector3(max) },
        dynamic,
        retained,
        retained_coverage: Coverage {
            min: vector3(Vec3A::new(center.x - half, center.y - half, far_z)),
            max: vector3(Vec3A::new(center.x + half, center.y + half, near_z)),
        },
    }
}

/// Eight corners of an axis-aligned cube centered at `center`: near bottom-right, top-right,
/// top-left, bottom-left; then the same four for the far plane.
fn cube_corners(center: Vec3A, half: f32) -> [Vec3A; 8] {
    [
        center + Vec3A::new(half, -half, half),
        center + Vec3A::new(half, half, half),
        center + Vec3A::new(-half, half, half),
        center + Vec3A::new(-half, -half, half),
        center + Vec3A::new(half, -half, -half),
        center + Vec3A::new(half, half, -half),
        center + Vec3A::new(-half, half, -half),
        center + Vec3A::new(-half, -half, -half),
    ]
}

fn build_static(
    corners: [Vec3A; 8],
    size: f32,
    world_from_light: Mat4,
    light_from_camera: Mat4,
    previous: Option<&StaticCascade>,
) -> StaticCascade {
    let slice = measure(corners, size, world_from_light, light_from_camera);
    calculate_static_cascade(
        slice,
        matrix(world_from_light),
        previous.copied(),
        &same_light,
        &product,
    )
}

fn build_dynamic(
    corners: [Vec3A; 8],
    size: f32,
    world_from_light: Mat4,
    light_from_camera: Mat4,
) -> Cascade {
    let slice = measure(corners, size, world_from_light, light_from_camera);
    calculate_cascade(slice.dynamic, matrix(world_from_light), &product)
}

/// The retained static cascade is reused (not `dirty`, same projection) while the camera
/// stays inside the margin, and rebuilt once it leaves.
#[test]
fn static_cascade_reused_within_margin_rebuilt_beyond() {
    let size = 4096.0;
    let light = Mat4::IDENTITY;
    let corners = cube_corners(Vec3A::ZERO, 5.0);

    // First build: no previous, a fresh bake.
    let first = build_static(corners, size, light, light, None);
    assert!(first.dirty, "a fresh static cascade must bake");

    // Unchanged coverage: reused, not dirty, identical projection.
    let again = build_static(corners, size, light, light, Some(&first));
    assert!(!again.dirty, "unchanged coverage must reuse the retained bake");
    assert_eq!(mat4(again.clip_from_world), mat4(first.clip_from_world));

    // A small move (well inside the margin) still fits: reused.
    let nudged = cube_corners(Vec3A::new(1.0, 0.0, 0.0), 5.0);
    let small = build_static(nudged, size, light, light, Some(&first));
    assert!(!small.dirty, "a move within the margin must reuse the bake");
    assert_eq!(mat4(small.clip_from_world), mat4(first.clip_from_world));

    // A large move leaves the coverage: rebuilt with a new projection.
    let far = cube_corners(Vec3A::new(100.0, 0.0, 0.0), 5.0);
    let rebuilt = build_static(far, size, light, light, Some(&first));
    assert!(rebuilt.dirty, "a move beyond the margin must rebuild the bake");
    assert_ne!(mat4(rebuilt.clip_from_world), mat4(first.clip_from_world));
}

/// A change in sun direction rotates light space and forces a rebuild even when the
/// camera-space coverage is unchanged.
#[test]
fn static_cascade_rebuilt_when_light_rotates() {
    let size = 4096.0;
    let light = Mat4::IDENTITY;
    let corners = cube_corners(Vec3A::ZERO, 5.0);
    let first = build_static(corners, size, light, light, None);
    let rotated = Mat4::from_rotation_y(0.5);
    let after = build_static(corners, size, rotated, light, Some(&first));
    assert!(after.dirty, "a sun rotation must rebuild the static cascade");
}

/// The static cascade covers a strictly larger light-space area than the dynamic cascade
/// fit to the same frustum slice (the margin).
#[test]
fn static_cascade_is_larger_than_dynamic() {
    let size = 4096.0;
    let light = Mat4::IDENTITY;
    let corners = cube_corners(Vec3A::ZERO, 5.0);
    let dynamic = build_dynamic(corners, size, light, light);
    let stat = build_static(corners, size, light, light, None);
    assert!(
        number(stat.texel_size) > number(dynamic.texel_size),
        "the margin-expanded static cascade must have coarser texels ({} vs {})",
        number(stat.texel_size),
        number(dynamic.texel_size),
    );
}

#[test]
fn a_cascade_is_put_together_from_its_measures() {
    let light = Mat4::from_rotation_x(0.3);
    let corners = cube_corners(Vec3A::new(1.0, 2.0, 3.0), 5.0);
    let slice = measure(corners, 1024.0, light, light.transpose());
    let cascade = calculate_cascade(slice.dynamic, matrix(light), &product);
    let center = Vec3A::new(
        number(slice.dynamic.near_plane_center.x),
        number(slice.dynamic.near_plane_center.y),
        number(slice.dynamic.near_plane_center.z),
    );
    let transposed = light.transpose();
    let cascade_from_world = Mat4::from_cols(
        transposed.x_axis,
        transposed.y_axis,
        transposed.z_axis,
        (-center).extend(1.0),
    );
    let scale = number(slice.dynamic.scale);
    let depth = number(slice.dynamic.inverse_depth);
    let clip_from_cascade = Mat4::from_cols(
        Vec4::new(scale, 0.0, 0.0, 0.0),
        Vec4::new(0.0, scale, 0.0, 0.0),
        Vec4::new(0.0, 0.0, depth, 0.0),
        Vec4::new(0.0, 0.0, 1.0, 1.0),
    );
    assert_eq!(mat4(cascade.clip_from_cascade), clip_from_cascade);
    assert_eq!(mat4(cascade.clip_from_world), clip_from_cascade * cascade_from_world);
    assert_eq!(
        mat4(cascade.world_from_cascade),
        Mat4::from_cols(light.x_axis, light.y_axis, light.z_axis, light * center.extend(1.0)),
    );
    assert_eq!(number(cascade.texel_size), 18.0 / 1024.0);
}

#[test]
fn a_default_cascade_projects_nothing() {
    let cascade = Cascade::default();
    assert_eq!(mat4(cascade.world_from_cascade), Mat4::IDENTITY);
    assert_eq!(mat4(cascade.clip_from_cascade), Mat4::IDENTITY);
    assert_eq!(mat4(cascade.clip_from_world), Mat4::IDENTITY);
    assert_eq!(number(cascade.texel_size), 0.0);
}

#[test]
fn transposing_twice_gives_the_matrix_back() {
    let m = Mat4::from_cols_array(&[
        1., 2., 3., 4., 5., 6., 7., 8., 9., 10., 11., 12., 13., 14., 15., 16.,
    ]);
    assert_eq!(mat4(transpose(matrix(m))), m.transpose());
    assert_eq!(mat4(transpose(transpose(matrix(m)))), m);
}

#[test]
fn coverage_is_compared_corner_by_corner() {
    let corners = cube_corners(Vec3A::ZERO, 5.0);
    let first = build_static(corners, 64.0, Mat4::IDENTITY, Mat4::IDENTITY, None);
    let inside = Coverage { min: first.light_space_min, max: first.light_space_max };
    assert!(first.covers(inside));
    let low = Coverage {
        min: retained::math::Vec3 { y: scalar(-1000.0), ..first.light_space_min },
        max: first.light_space_max,
    };
    assert!(!first.covers(low));
    let high = Coverage {
        min: first.light_space_min,
        max: retained::math::Vec3 { z: scalar(1000.0), ..first.light_space_max },
    };
    assert!(!first.covers(high));
    let unknown = Coverage {
        min: retained::math::Vec3 { x: scalar(f32::NAN), ..first.light_space_min },
        max: first.light_space_max,
    };
    assert!(!first.covers(unknown));
}

#[test]
fn the_default_builder_has_four_cascades() {
    let builder = CascadeShadowConfigBuilder::default();
    assert_eq!(builder.num_cascades, 4);
    assert_eq!(number(builder.minimum_distance), 0.1);
    assert_eq!(number(builder.maximum_distance), 150.0);
    assert_eq!(number(builder.first_cascade_far_bound), 10.0);
    assert_eq!(number(builder.overlap_proportion), 0.2);
    assert_eq!(builder.problem(), None);
    let config = builder.build(spacing);
    assert_eq!(config.bounds.len(), 4);
    assert_eq!(number(config.bounds[0]), 10.0);
    assert!((number(config.bounds[3]) - 150.0).abs() < 1e-3);
    assert_eq!(number(config.minimum_distance), 0.1);
    assert_eq!(number(config.overlap_proportion), 0.2);
}

#[test]
fn each_problem_of_a_builder_is_told() {
    let good = CascadeShadowConfigBuilder::default();
    let none = CascadeShadowConfigBuilder { num_cascades: 0, ..good };
    assert_eq!(none.problem(), Some(ConfigProblem::NoCascades));
    let negative = CascadeShadowConfigBuilder { minimum_distance: scalar(-1.0), ..good };
    assert_eq!(negative.problem(), Some(ConfigProblem::MinimumNegative));
    let unknown = CascadeShadowConfigBuilder { minimum_distance: scalar(f32::NAN), ..good };
    assert_eq!(unknown.problem(), Some(ConfigProblem::MinimumNegative));
    let near = CascadeShadowConfigBuilder { first_cascade_far_bound: scalar(0.1), ..good };
    assert_eq!(near.problem(), Some(ConfigProblem::FirstBoundTooNear));
    let single = CascadeShadowConfigBuilder { num_cascades: 1, ..near };
    assert_eq!(single.problem(), None);
    let short = CascadeShadowConfigBuilder { maximum_distance: scalar(0.1), ..good };
    assert_eq!(short.problem(), Some(ConfigProblem::MaximumTooNear));
    let full = CascadeShadowConfigBuilder { overlap_proportion: scalar(1.0), ..good };
    assert_eq!(full.problem(), Some(ConfigProblem::OverlapOutOfRange));
    let below = CascadeShadowConfigBuilder { overlap_proportion: scalar(-0.5), ..good };
    assert_eq!(below.problem(), Some(ConfigProblem::OverlapOutOfRange));
    let minus_zero = CascadeShadowConfigBuilder {
        minimum_distance: scalar(-0.0),
        overlap_proportion: scalar(-0.0),
        ..good
    };
    assert_eq!(minus_zero.problem(), None);
}

#[test]
fn a_single_cascade_reaches_to_the_maximum_distance() {
    let bounds = calculate_cascade_bounds(1, scalar(10.0), scalar(150.0), spacing);
    assert_eq!(bounds.iter().map(|b| number(*b)).collect::<Vec<f32>>(), vec![150.0]);
    let bounds = calculate_cascade_bounds(2, scalar(10.0), scalar(160.0), spacing);
    assert_eq!(bounds.iter().map(|b| number(*b)).collect::<Vec<f32>>(), vec![10.0, 160.0]);
}

#[test]
fn slices_overlap_the_ones_before() {
    let config = CascadeShadowConfig {
        bounds: vec![scalar(8.0), scalar(16.0), scalar(32.0)],
        overlap_proportion: scalar(0.25),
        minimum_distance: scalar(0.5),
    };
    let slices: Vec<(f32, f32)> = config
        .slices(&overlapped)
        .iter()
        .map(|slice| (number(slice.near), number(slice.far)))
        .collect();
    assert_eq!(slices, vec![(0.5, 8.0), (6.0, 16.0), (12.0, 32.0)]);
}

fn light(shadow_maps_enabled: bool) -> LightRow {
    LightRow {
        shadow_maps_enabled,
        world_from_light: matrix(Mat4::IDENTITY),
        config: CascadeShadowConfig {
            bounds: vec![scalar(8.0), scalar(16.0)],
            overlap_proportion: scalar(0.25),
            minimum_distance: scalar(0.5),
        },
        cascades: Cascades::default(),
        static_cascades: StaticCascades::default(),
    }
}

fn build(views: &Vec<ViewRow>, lights: &mut Vec<LightRow>, centers: &[Vec3A]) {
    let math = CascadeMath {
        measure: |_light: usize, view: usize, near: Scalar, far: Scalar| {
            assert!(number(near) < 0.0 && number(far) < number(near));
            let middle = Vec3A::new(0.0, 0.0, 0.5 * (number(near) + number(far)));
            let half = 0.5 * (number(near) - number(far));
            let corners = cube_corners(centers[view] + middle, half);
            measure(corners, 64.0, Mat4::IDENTITY, Mat4::IDENTITY)
        },
        overlapped,
        same_light,
        product,
    };
    build_directional_light_cascades(views, lights, &math);
}

#[test]
fn cascades_are_built_for_the_active_views_of_shadow_casting_lights() {
    let views = vec![
        ViewRow { entity: id(1), active: true },
        ViewRow { entity: id(2), active: false },
        ViewRow { entity: id(3), active: true },
    ];
    let centers = [Vec3A::ZERO, Vec3A::ZERO, Vec3A::new(50.0, 0.0, 0.0)];
    let mut lights = vec![light(true), light(false)];
    build(&views, &mut lights, &centers);
    for view in [1, 3] {
        assert_eq!(lights[0].cascades.cascades.get(id(view)).unwrap().len(), 2);
        let retained = lights[0].static_cascades.cascades.get(id(view)).unwrap();
        assert_eq!(retained.len(), 2);
        assert!(retained.iter().all(|cascade| cascade.dirty));
    }
    assert!(lights[0].cascades.cascades.get(id(2)).is_none());
    assert!(lights[0].static_cascades.cascades.get(id(2)).is_none());
    assert!(lights[1].cascades.cascades.get(id(1)).is_none());
    // The first slice goes from 0.5 to 8, the second from 6 to 16.
    let cascades = lights[0].cascades.cascades.get(id(1)).unwrap();
    assert_eq!(number(cascades[0].world_from_cascade.w_axis.z), -0.5);
    assert_eq!(number(cascades[1].world_from_cascade.w_axis.z), -6.0);
}

#[test]
fn static_cascades_are_kept_while_a_view_stays_and_drop_out_with_it() {
    let mut views = vec![
        ViewRow { entity: id(1), active: true },
        ViewRow { entity: id(2), active: true },
    ];
    let mut lights = vec![light(true)];
    build(&views, &mut lights, &[Vec3A::ZERO, Vec3A::ZERO]);
    let before = lights[0].static_cascades.cascades.get(id(1)).unwrap().clone();

    // A view that stays bakes nothing; one that leaves its coverage is built anew.
    build(&views, &mut lights, &[Vec3A::new(0.5, 0.0, 0.0), Vec3A::new(500.0, 0.0, 0.0)]);
    let stayed = lights[0].static_cascades.cascades.get(id(1)).unwrap();
    for (old, new) in before.iter().zip(stayed) {
        assert!(!new.dirty);
        assert_eq!(mat4(old.clip_from_world), mat4(new.clip_from_world));
    }
    let left = lights[0].static_cascades.cascades.get(id(2)).unwrap();
    assert!(left.iter().all(|cascade| cascade.dirty));

    // A view that vanished has nothing left, and starts anew when it comes back.
    views[0].active = false;
    build(&views, &mut lights, &[Vec3A::ZERO, Vec3A::new(500.0, 0.0, 0.0)]);
    assert!(lights[0].static_cascades.cascades.get(id(1)).is_none());
    assert!(lights[0].cascades.cascades.get(id(1)).is_none());
    assert!(!lights[0].static_cascades.cascades.get(id(2)).unwrap()[0].dirty);
    views[0].active = true;
    build(&views, &mut lights, &[Vec3A::ZERO, Vec3A::new(500.0, 0.0, 0.0)]);
    assert!(lights[0].static_cascades.cascades.get(id(1)).unwrap()[0].dirty);

    // A light that stops casting shadows keeps what it has.
    lights[0].shadow_maps_enabled = false;
    build(&vec![], &mut lights, &[]);
    assert_eq!(lights[0].cascades.cascades.get(id(1)).unwrap().len(), 2);
}

#[test]
fn building_twice_changes_nothing_and_bakes_nothing() {
    let views = vec![
        ViewRow { entity: id(1), active: true },
        ViewRow { entity: id(2), active: true },
    ];
    let centers = [Vec3A::ZERO, Vec3A::new(3.0, 4.0, 5.0)];
    let mut lights = vec![light(true)];
    build(&views, &mut lights, &centers);
    let mut before = Vec::new();
    for view in [1, 2] {
        before.push((
            lights[0].cascades.cascades.get(id(view)).unwrap().clone(),
            lights[0].static_cascades.cascades.get(id(view)).unwrap().clone(),
        ));
    }
    build(&views, &mut lights, &centers);
    for (view, (dynamic, retained)) in [1, 2].into_iter().zip(before) {
        let again = lights[0].cascades.cascades.get(id(view)).unwrap();
        for (old, new) in dynamic.iter().zip(again) {
            assert_eq!(mat4(old.world_from_cascade), mat4(new.world_from_cascade));
            assert_eq!(mat4(old.clip_from_cascade), mat4(new.clip_from_cascade));
            assert_eq!(mat4(old.clip_from_world), mat4(new.clip_from_world));
            assert_eq!(number(old.texel_size), number(new.texel_size));
        }
        let again = lights[0].static_cascades.cascades.get(id(view)).unwrap();
        for (old, new) in retained.iter().zip(again) {
            assert!(old.dirty && !new.dirty);
            assert_eq!(mat4(old.world_from_cascade), mat4(new.world_from_cascade));
            assert_eq!(mat4(old.clip_from_world), mat4(new.clip_from_world));
            assert_eq!(number(old.texel_size), number(new.texel_size));
        }
    }
}

#[test]
fn equal_lights_get_equal_cascades() {
    let views = vec![ViewRow { entity: id(1), active: true }];
    let mut lights = vec![light(true), light(true)];
    build(&views, &mut lights, &[Vec3A::new(1.0, 2.0, 3.0)]);
    let first = lights[0].cascades.cascades.get(id(1)).unwrap();
    let second = lights[1].cascades.cascades.get(id(1)).unwrap();
    for (a, b) in first.iter().zip(second) {
        assert_eq!(mat4(a.clip_from_world), mat4(b.clip_from_world));
    }
    assert_eq!(first.len(), second.len());
}

#[test]
fn dynamic_and_static_cascades_are_turned_the_same_way() {
    let light = Mat4::from_rotation_z(0.7);
    let corners = cube_corners(Vec3A::new(1.0, 2.0, 3.0), 5.0);
    let dynamic = build_dynamic(corners, 256.0, light, light.transpose());
    let retained = build_static(corners, 256.0, light, light.transpose(), None);
    let again = build_static(corners, 256.0, light, light.transpose(), Some(&retained));
    let third = build_static(corners, 256.0, light, light.transpose(), Some(&again));
    assert!(retained.dirty && !again.dirty && !third.dirty);
    let a = mat4(dynamic.world_from_cascade);
    let b = mat4(third.world_from_cascade);
    assert_eq!((a.x_axis, a.y_axis, a.z_axis), (b.x_axis, b.y_axis, b.z_axis));
}

#[test]
fn a_new_bound_gets_a_new_static_cascade() {
    let views = vec![ViewRow { entity: id(1), active: true }];
    let mut lights = vec![light(true)];
    build(&views, &mut lights, &[Vec3A::ZERO]);
    lights[0].config.bounds.push(scalar(32.0));
    build(&views, &mut lights, &[Vec3A::ZERO]);
    let retained = lights[0].static_cascades.cascades.get(id(1)).unwrap();
    let dirty: Vec<bool> = retained.iter().map(|cascade| cascade.dirty).collect();
    assert_eq!(dirty, vec![false, false, true]);
}
