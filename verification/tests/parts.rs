//! The parts of the library, one by one.
use bevy_ecs::entity::Entity;
use retained::context::LayoutError;
use retained::entity::{ChildLists, EntityId, EntityLinks, EntitySet};
use retained::frame::{Frame, FramePlan, NodeRow};
use retained::geometry::{GeometryNodes, GeometryWalk, ParentGeometry};
use retained::hierarchy::is_acyclic;
use retained::independent::{remove_repeats, Decision, IndependentPass};
use retained::math::{Affine2, Vec2};
use retained::node::{
    update_uinode_geometry, BorderRadius, BorderRect, ComputedNode, NodeLayout, OutlineInput,
    ScrollInput, Sides, StyleInput,
};
use retained::placement::{IndependentPlacement, Placements};
use retained::roots::LayoutRoots;
use retained::scalar::Scalar;
use retained::system::{ui_layout_system, Action, Event, LayoutPass};
use retained::tree::UiTree;

fn id(index: u32) -> EntityId {
    EntityId::try_from_bits(Entity::from_raw_u32(index).unwrap().to_bits()).unwrap()
}

fn index(id: EntityId) -> u32 {
    Entity::from_bits(id.bits()).index_u32()
}

fn ids(list: &[u32]) -> Vec<EntityId> {
    list.iter().map(|i| id(*i)).collect()
}

fn indices(list: &[EntityId]) -> Vec<u32> {
    list.iter().map(|e| index(*e)).collect()
}

fn set(list: &[u32]) -> EntitySet {
    EntitySet::from_list(&ids(list))
}

fn sorted(mut list: Vec<u32>) -> Vec<u32> {
    list.sort();
    list
}

fn scalar(x: f32) -> Scalar {
    Scalar { bits: x.to_bits() }
}

fn number(x: Scalar) -> f32 {
    f32::from_bits(x.bits)
}

fn vec2(x: f32, y: f32) -> Vec2 {
    Vec2 { x: scalar(x), y: scalar(y) }
}

fn pair(v: Vec2) -> (f32, f32) {
    (number(v.x), number(v.y))
}

fn moved(x: f32, y: f32) -> Affine2 {
    Affine2 { x_axis: vec2(1., 0.), y_axis: vec2(0., 1.), translation: vec2(x, y) }
}

fn geometry(x: f32) -> ParentGeometry {
    ParentGeometry { transform: moved(x, 0.), size: vec2(10., 10.), scroll: vec2(0., 0.) }
}

/// A hierarchy of nodes: each pair is a node and its parent.
fn roots(links: &[(u32, u32)], independent: &[u32]) -> LayoutRoots {
    let mut parents = EntityLinks::new();
    let mut nodes = EntitySet::new();
    for (child, parent) in links {
        parents.insert(id(*child), id(*parent));
        nodes.insert(id(*child));
        nodes.insert(id(*parent));
    }
    LayoutRoots {
        independent: set(independent),
        added_independent: Vec::new(),
        removed_independent: Vec::new(),
        parents,
        ghosts: EntitySet::new(),
        nodes,
        hidden: EntitySet::new(),
        changed_children: Vec::new(),
        changed_parent: Vec::new(),
        removed_parent: Vec::new(),
        changed_geometry: Vec::new(),
    }
}

fn tree(links: &[(u32, u32)]) -> UiTree {
    let mut parents = EntityLinks::new();
    let mut children = ChildLists::new();
    for (child, parent) in links {
        parents.insert(id(*child), id(*parent));
        let list: Vec<u32> =
            links.iter().filter(|(_, p)| p == parent).map(|(c, _)| *c).collect();
        children.insert(id(*parent), ids(&list));
    }
    UiTree { children, parents, changed: EntitySet::new() }
}

fn row(node: u32) -> NodeRow {
    NodeRow {
        entity: id(node),
        node_changed: false,
        content_changed: false,
        target_changed: false,
        measured: false,
        scale_factor: scalar(2.),
        physical_size: vec2(800., 600.),
    }
}

fn frame(links: &[(u32, u32)], independent: &[u32], nodes: &[u32], ui_roots: &[u32]) -> Frame {
    Frame {
        rows: nodes.iter().map(|node| row(*node)).collect(),
        added: EntitySet::new(),
        removed_children: Vec::new(),
        removed_nodes: Vec::new(),
        ghosts_changed: Vec::new(),
        ui_roots: ids(ui_roots),
        roots: nodes.iter().fold(roots(links, independent), |mut roots, node| {
            roots.nodes.insert(id(*node));
            roots
        }),
        tree: tree(links),
    }
}

fn dirty(frame: &Frame) -> Vec<u32> {
    assert!(frame.well_formed());
    let plan = frame.plan(&mut Placements::new());
    sorted(indices(&plan.dirty_roots.elements()))
}

#[test]
fn scalars_compare_as_floats_do() {
    let values = [
        f32::NEG_INFINITY,
        f32::MIN,
        -1.5,
        -1.0,
        -f32::MIN_POSITIVE,
        -1e-45,
        -0.0,
        0.0,
        1e-45,
        f32::MIN_POSITIVE,
        0.1,
        1.0,
        1.5,
        2.0,
        1e10,
        f32::MAX,
        f32::INFINITY,
        f32::NAN,
    ];
    for a in values {
        for b in values {
            assert_eq!(scalar(a).less(scalar(b)), a < b, "{a} < {b}");
            assert_eq!(scalar(a).less_or_equal(scalar(b)), a <= b, "{a} <= {b}");
            assert_eq!(scalar(a) == scalar(b), a == b, "{a} == {b}");
            let greater = number(scalar(a).greater(scalar(b)));
            assert!(greater == a.max(b) || (a.is_nan() && b.is_nan()), "{a} max {b}");
        }
        assert_eq!(scalar(a).nan(), a.is_nan());
        assert_eq!(scalar(a).negate().bits, (-a).to_bits());
    }
}

#[test]
fn vectors_take_the_greater_and_the_lesser_components() {
    let a = bevy_math::Vec2::new(1.0, f32::NAN);
    let b = bevy_math::Vec2::new(-2.0, 3.0);
    for (v, w) in [(a, b), (b, a), (a, a), (b, b)] {
        let (x, y) = (vec2(v.x, v.y), vec2(w.x, w.y));
        let greater = v.max(w);
        assert_eq!(x.max(y).x.bits, greater.x.to_bits());
        assert_eq!(x.max(y).y.bits, greater.y.to_bits());
        let lesser = v.min(w);
        assert_eq!(x.min(y).x.bits, lesser.x.to_bits());
        assert_eq!(x.min(y).y.bits, lesser.y.to_bits());
    }
    assert!(vec2(0.0, 1.0) == vec2(-0.0, 1.0));
    assert!(vec2(0.0, 1.0) != vec2(1.0, 1.0));
    assert_eq!(pair(Vec2::zero()), (0.0, 0.0));
}

#[test]
fn transforms_are_replaced_where_they_differ() {
    let mut transform = moved(1.0, 2.0);
    assert!(!transform.replace(moved(1.0, 2.0)));
    assert!(transform.replace(moved(1.0, 3.0)));
    assert_eq!(pair(transform.translation), (1.0, 3.0));
    assert!(transform.replace(moved(f32::NAN, 3.0)));
    assert!(transform.replace(moved(f32::NAN, 3.0)));
}

#[test]
fn only_the_bits_of_entities_are_entities() {
    assert!(EntityId::try_from_bits(0).is_none());
    assert!(EntityId::try_from_bits(7 << 32).is_none());
    let entity = Entity::from_raw_u32(7).unwrap();
    let seven = EntityId::try_from_bits(entity.to_bits()).unwrap();
    assert_eq!(seven.bits(), entity.to_bits());
    assert_eq!(index(seven), 7);
}

#[test]
fn sets_hold_what_was_inserted() {
    let mut entities = EntitySet::new();
    assert!(entities.insert(id(3)));
    assert!(!entities.insert(id(3)));
    assert!(entities.insert(id(4)));
    assert!(entities.contains(id(3)) && !entities.contains(id(5)));
    assert!(entities.contains_bits(id(4).bits()) && !entities.contains_bits(0));
    assert_eq!(sorted(indices(&entities.elements())), vec![3, 4]);
    assert_eq!(sorted(indices(&set(&[5, 1, 5]).elements())), vec![1, 5]);
}

#[test]
fn maps_hold_what_was_inserted_last() {
    let mut links = EntityLinks::new();
    assert_eq!(links.len(), 0);
    links.insert(id(1), id(2));
    links.insert(id(1), id(3));
    links.insert(id(4), id(2));
    assert_eq!(links.get(id(1)).map(index), Some(3));
    assert!(links.get(id(2)).is_none());
    assert_eq!(links.len(), 2);
    assert_eq!(sorted(indices(&links.keys())), vec![1, 4]);
    let mut lists = ChildLists::new();
    lists.insert(id(1), ids(&[2, 3]));
    assert_eq!(lists.get(id(1)).map(|list| indices(list)), Some(vec![2, 3]));
    assert!(lists.get(id(2)).is_none());
    assert_eq!(indices(&lists.keys()), vec![1]);
}

#[test]
fn placements_of_nodes_that_are_gone_are_forgotten() {
    let placement = IndependentPlacement {
        parent_transform: moved(1., 2.),
        parent_size: vec2(3., 4.),
        parent_scroll: vec2(5., 6.),
        hidden: false,
    };
    let mut placed = Placements::new();
    placed.insert(id(1), placement);
    placed.insert(id(2), IndependentPlacement { hidden: true, ..placement });
    assert!(placed.get(id(1)) == Some(placement));
    assert!(placed.get(id(2)) != Some(placement));
    placed.retain(&set(&[2, 3]));
    assert!(placed.get(id(1)).is_none());
    assert!(placed.get(id(2)).is_some());
}

#[test]
fn loops_in_a_hierarchy_are_found() {
    let mut links = EntityLinks::new();
    links.insert(id(1), id(2));
    links.insert(id(2), id(3));
    assert!(is_acyclic(&links));
    links.insert(id(3), id(1));
    assert!(!is_acyclic(&links));
    assert!(!roots(&[(1, 2), (2, 1)], &[]).well_formed());
}

#[test]
fn the_layout_root_is_the_nearest_one() {
    let roots = roots(&[(2, 1), (3, 2), (4, 3), (5, 4)], &[3]);
    assert!(roots.well_formed());
    let mut memo = EntityLinks::new();
    assert_eq!(index(roots.root_of(id(5), &mut memo)), 3);
    assert_eq!(sorted(indices(&memo.keys())), vec![3, 4, 5]);
    assert_eq!(index(roots.root_of(id(4), &mut memo)), 3);
    assert_eq!(index(roots.root_of(id(3), &mut memo)), 3);
    assert_eq!(index(roots.root_of(id(2), &mut memo)), 1);
    assert_eq!(index(roots.root_of(id(9), &mut memo)), 9);
    assert_eq!(sorted(indices(&memo.keys())), vec![1, 2, 3, 4, 5, 9]);
}

#[test]
fn a_noted_root_ends_the_walk() {
    let roots = roots(&[(2, 1), (3, 2)], &[]);
    let mut memo = EntityLinks::new();
    memo.insert(id(2), id(7));
    assert_eq!(index(roots.root_of(id(3), &mut memo)), 7);
    assert_eq!(memo.get(id(3)).map(index), Some(7));
}

#[test]
fn parents_count_only_where_they_are_nodes() {
    let mut roots = roots(&[(2, 1), (3, 2), (4, 3)], &[]);
    roots.nodes = set(&[1, 3, 4]);
    assert_eq!(roots.parent_of(id(4)).map(index), Some(3));
    assert!(roots.parent_of(id(3)).is_none());
    assert_eq!(roots.parent_of(id(2)).map(index), Some(1));
    assert_eq!(roots.depth(id(4)), 1);
    assert_eq!(roots.depth(id(3)), 0);
    let mut memo = EntityLinks::new();
    assert_eq!(index(roots.root_of(id(4), &mut memo)), 3);
}

#[test]
fn only_strict_ancestors_hide_a_node() {
    let mut roots = roots(&[(2, 1), (3, 2), (4, 3)], &[]);
    roots.hidden = set(&[2]);
    assert!(!roots.ancestor_hidden(id(1)));
    assert!(!roots.ancestor_hidden(id(2)));
    assert!(roots.ancestor_hidden(id(3)));
    assert!(roots.ancestor_hidden(id(4)));
    assert_eq!(roots.depth(id(4)), 3);
}

#[test]
fn a_tree_is_walked_from_the_top() {
    let tree = tree(&[(2, 1), (3, 1), (4, 2), (5, 2), (6, 3)]);
    assert!(tree.well_formed());
    let mut nodes = Vec::new();
    tree.walk(&EntitySet::new(), id(1), &mut nodes);
    assert_eq!(indices(&nodes), vec![1, 2, 4, 5, 3, 6]);
    let mut nodes = ids(&[9]);
    tree.walk(&set(&[2]), id(1), &mut nodes);
    assert_eq!(indices(&nodes), vec![9, 1, 3, 6]);
    assert_eq!(indices(&tree.children_of(id(2))), vec![4, 5]);
    assert!(tree.children_of(id(6)).is_empty());
}

#[test]
fn a_tree_whose_halves_disagree_is_not_well_formed() {
    let mut tree = tree(&[(2, 1), (3, 1)]);
    tree.children.insert(id(3), ids(&[2]));
    assert!(!tree.well_formed());
}

#[test]
fn changed_rows_are_written() {
    let mut frame = frame(&[(2, 1)], &[], &[1, 2, 3, 4], &[1, 3, 4]);
    frame.rows[1].content_changed = true;
    frame.rows[2].content_changed = true;
    frame.rows[2].measured = true;
    frame.rows[3].target_changed = true;
    let syncs = frame.node_syncs();
    let written: Vec<(u32, bool)> =
        syncs.iter().map(|sync| (index(sync.entity), sync.clear_context)).collect();
    assert_eq!(written, vec![(2, true), (3, false), (4, false)]);
    assert_eq!(number(syncs[0].context.scale_factor), 2.);
    assert_eq!(pair(syncs[0].context.physical_size), (800., 600.));
    assert_eq!(dirty(&frame), vec![1, 3, 4]);
}

#[test]
fn a_still_frame_has_no_dirty_roots() {
    assert!(dirty(&frame(&[(2, 1)], &[2], &[1, 2], &[1])).is_empty());
}

#[test]
fn each_kind_of_change_dirties_its_root() {
    let make = || frame(&[(2, 1), (3, 2), (4, 3), (6, 5)], &[3], &[1, 2, 3, 4, 5, 6], &[1, 5]);
    let mut f = make();
    f.rows[3].node_changed = true;
    assert_eq!(dirty(&f), vec![3]);
    let mut f = make();
    f.removed_children = ids(&[2]);
    assert_eq!(dirty(&f), vec![1]);
    let mut f = make();
    f.roots.changed_children = ids(&[6]);
    assert_eq!(dirty(&f), vec![5]);
    let mut f = make();
    f.roots.changed_parent = ids(&[4]);
    assert_eq!(dirty(&f), vec![3]);
    let mut f = make();
    f.roots.removed_parent = ids(&[1, 9]);
    assert_eq!(dirty(&f), vec![1]);
    let mut f = make();
    f.roots.changed_geometry = ids(&[3]);
    assert_eq!(dirty(&f), vec![3]);
    let mut f = make();
    f.roots.added_independent = ids(&[3, 9]);
    assert_eq!(dirty(&f), vec![1, 3]);
    let mut f = make();
    f.roots.removed_independent = ids(&[6]);
    assert_eq!(dirty(&f), vec![5]);
    let mut f = make();
    f.ghosts_changed = ids(&[6]);
    assert_eq!(dirty(&f), vec![5]);
    let mut f = make();
    f.tree.changed = set(&[4]);
    assert_eq!(dirty(&f), vec![3]);
    let mut f = make();
    f.roots.ghosts = set(&[7]);
    f.roots.parents.insert(id(7), id(3));
    f.tree.parents.insert(id(7), id(3));
    f.removed_children = ids(&[7]);
    assert_eq!(dirty(&f), vec![3]);
}

/// A root with a ghost under it, and a node under the ghost.
fn ghost_frame() -> Frame {
    let mut frame = frame(&[], &[], &[1, 3], &[1]);
    frame.roots.ghosts = set(&[2]);
    frame.roots.parents.insert(id(2), id(1));
    frame.roots.parents.insert(id(3), id(2));
    frame.tree.parents.insert(id(2), id(1));
    frame.tree.parents.insert(id(3), id(1));
    frame.tree.children.insert(id(1), ids(&[3]));
    frame
}

#[test]
fn a_node_under_a_ghost_belongs_to_the_root_above() {
    let mut frame = ghost_frame();
    assert!(frame.well_formed());
    let mut memo = EntityLinks::new();
    assert_eq!(index(frame.roots.root_of(id(3), &mut memo)), 1);
    assert_eq!(frame.roots.closest_parent(id(3)).map(index), Some(1));
    assert_eq!(frame.roots.parent_of(id(3)).map(index), Some(1));
    assert_eq!(frame.roots.depth(id(3)), 1);
    frame.roots.hidden = set(&[1]);
    assert!(frame.roots.ancestor_hidden(id(3)));
    frame.rows[1].node_changed = true;
    assert_eq!(dirty(&frame), vec![1]);
}

#[test]
fn a_hierarchy_whose_two_sides_disagree_is_not_well_formed() {
    assert!(ghost_frame().well_formed());
    let mut wrong_parent = ghost_frame();
    wrong_parent.tree.parents.insert(id(3), id(2));
    assert!(!wrong_parent.well_formed());
    let mut extra_parent = ghost_frame();
    extra_parent.tree.parents.insert(id(9), id(1));
    assert!(!extra_parent.well_formed());
    let mut child_left_out = ghost_frame();
    child_left_out.tree.children.insert(id(1), Vec::new());
    assert!(!child_left_out.well_formed());
    let mut child_no_node = ghost_frame();
    child_no_node.roots.nodes = set(&[1]);
    assert!(!child_no_node.well_formed());
    let mut row_no_node = ghost_frame();
    row_no_node.rows.push(row(8));
    assert!(!row_no_node.well_formed());
    let mut looped = ghost_frame();
    looped.roots.parents.insert(id(1), id(3));
    assert!(!looped.well_formed());
}

#[test]
fn a_plan_names_what_is_removed_and_what_is_synced_again() {
    let mut frame = frame(&[(2, 1), (3, 2)], &[], &[1, 2, 3], &[1]);
    frame.removed_nodes = ids(&[3, 8, 9]);
    frame.roots.added_independent = ids(&[3]);
    frame.ghosts_changed = ids(&[2]);
    let mut placed = Placements::new();
    let placement = IndependentPlacement {
        parent_transform: moved(0., 0.),
        parent_size: vec2(0., 0.),
        parent_scroll: vec2(0., 0.),
        hidden: false,
    };
    placed.insert(id(3), placement);
    placed.insert(id(9), placement);
    let plan = frame.plan(&mut placed);
    assert_eq!(indices(&plan.removed), vec![8, 9]);
    assert_eq!(indices(&plan.resync_children_of.elements()), vec![2]);
    assert_eq!(indices(&plan.ghost_parents.elements()), vec![1]);
    assert_eq!(sorted(indices(&plan.synced.elements())), vec![1, 2, 3]);
    assert!(placed.get(id(3)).is_some() && placed.get(id(9)).is_none());
}

#[test]
fn children_are_written_without_the_independent_ones() {
    let links = [(2, 1), (3, 1), (4, 1), (5, 2), (6, 3), (7, 4)];
    let mut frame = frame(&links, &[3], &[1, 2, 3, 4, 5, 6, 7], &[1]);
    frame.tree.changed = set(&[1, 6]);
    frame.added = set(&[7]);
    let plan = frame.plan(&mut Placements::new());
    let updates = frame.update_children_recursively(&plan, &set(&[1, 2, 3, 4, 5, 6]), id(1));
    let written: Vec<(u32, Vec<u32>)> =
        updates.iter().map(|u| (index(u.entity), indices(&u.children))).collect();
    assert_eq!(written, vec![(1, vec![2, 4]), (4, vec![7])]);
    let updates = frame.update_children_recursively(&plan, &set(&[3, 6]), id(3));
    let written: Vec<(u32, Vec<u32>)> =
        updates.iter().map(|u| (index(u.entity), indices(&u.children))).collect();
    assert_eq!(written, vec![(6, vec![])]);
}

#[test]
fn independence_and_ghosts_have_children_written_again() {
    let mut frame = frame(&[(2, 1), (3, 1), (4, 2)], &[], &[1, 2, 3, 4], &[1]);
    frame.roots.removed_independent = ids(&[3]);
    frame.ghosts_changed = ids(&[4]);
    let plan = frame.plan(&mut Placements::new());
    let updates = frame.update_children_recursively(&plan, &set(&[1, 2, 3, 4]), id(1));
    let written: Vec<(u32, Vec<u32>)> =
        updates.iter().map(|u| (index(u.entity), indices(&u.children))).collect();
    assert_eq!(written, vec![(1, vec![2, 3]), (2, vec![4])]);
}

#[test]
fn a_walk_places_nodes_and_notes_independent_ones() {
    let tree = tree(&[(2, 1), (3, 1), (4, 1), (5, 2), (6, 4)]);
    let nodes = GeometryNodes {
        present: set(&[1, 2, 3, 4, 6]),
        rounded: set(&[4]),
        unrounded: set(&[1]),
    };
    let independent = set(&[3]);
    let mut noted = Vec::new();
    let mut walk = GeometryWalk::start(id(1), geometry(0.));
    let mut seen = Vec::new();
    while let Some(visit) = walk.next(&nodes, &mut noted) {
        seen.push((
            index(visit.entity),
            visit.use_rounding,
            number(visit.parent.transform.translation.x),
        ));
        let own = geometry(index(visit.entity) as f32);
        walk.placed(&tree, &independent, visit, Some(own));
    }
    assert_eq!(
        seen,
        vec![(1, false, 0.), (2, false, 1.), (4, true, 1.), (6, true, 4.)],
    );
    assert_eq!(indices(&noted), vec![3]);
}

#[test]
fn a_node_without_a_layout_leaves_its_children_out() {
    let tree = tree(&[(2, 1), (3, 2), (4, 1)]);
    let nodes = GeometryNodes {
        present: set(&[1, 2, 3, 4]),
        rounded: EntitySet::new(),
        unrounded: EntitySet::new(),
    };
    let mut noted = Vec::new();
    let mut walk = GeometryWalk::start(id(1), geometry(0.));
    let mut seen = Vec::new();
    while let Some(visit) = walk.next(&nodes, &mut noted) {
        seen.push(index(visit.entity));
        assert!(visit.use_rounding);
        let own = if index(visit.entity) == 2 { None } else { Some(geometry(1.)) };
        walk.placed(&tree, &EntitySet::new(), visit, own);
    }
    assert_eq!(seen, vec![1, 2, 4]);
    assert!(GeometryWalk::empty().next(&nodes, &mut noted).is_none());
}

#[test]
fn sorting_by_depth_is_stable() {
    let roots = roots(&[(2, 1), (3, 2), (4, 1), (5, 4)], &[]);
    let list = ids(&[1, 4, 5, 2, 3, 4]);
    assert_eq!(indices(&roots.sort_deepest_first(&list)), vec![5, 3, 4, 2, 4, 1]);
    assert_eq!(indices(&remove_repeats(&ids(&[1, 1, 2, 1, 1, 1]))), vec![1, 2, 1]);
    assert!(remove_repeats(&Vec::new()).is_empty());
}

#[test]
fn the_shallowest_root_is_taken_once() {
    let roots = roots(&[(2, 1), (3, 2), (4, 3)], &[2, 3, 4]);
    let mut pass = IndependentPass { pending: ids(&[4, 1, 2, 4, 3, 2]), done: EntitySet::new() };
    let mut taken = Vec::new();
    while let Some((root, parent)) = pass.next(&roots) {
        taken.push((index(root), index(parent)));
        pass.pending.push(id(2));
    }
    assert_eq!(taken, vec![(2, 1), (3, 2), (4, 3)]);
    assert!(pass.done.contains(id(1)));
}

fn dirty_pass(frame: &Frame, plan: &FramePlan) -> Vec<u32> {
    sorted(indices(&IndependentPass::start(frame, plan).pending))
}

#[test]
fn a_pass_starts_with_the_dirty_independent_roots() {
    let mut frame = frame(&[(2, 1), (3, 2), (5, 4)], &[2, 3, 4], &[1, 2, 3, 4, 5], &[1, 4]);
    frame.rows[1].node_changed = true;
    frame.rows[3].node_changed = true;
    let plan = frame.plan(&mut Placements::new());
    // The fourth has no parent to be placed against.
    assert_eq!(dirty_pass(&frame, &plan), vec![2]);
}

#[test]
fn an_independent_root_is_kept_collapsed_or_placed() {
    let mut frame = frame(&[(2, 1), (3, 2)], &[3], &[1, 2, 3], &[1]);
    let mut placed = Placements::new();
    let plan = frame.plan(&mut placed);
    // Its parent has no geometry.
    assert!(matches!(frame.decide(&plan, &mut placed, id(3), None), Decision::Keep));
    assert!(placed.get(id(3)).is_none());
    // It was never placed.
    let decided = frame.decide(&plan, &mut placed, id(3), Some(geometry(1.)));
    assert!(matches!(decided, Decision::Place { .. }));
    assert_eq!(number(placed.get(id(3)).unwrap().parent_transform.translation.x), 1.);
    // Nothing moved.
    let decided = frame.decide(&plan, &mut placed, id(3), Some(geometry(1.)));
    assert!(matches!(decided, Decision::Keep));
    // Its parent moved.
    let decided = frame.decide(&plan, &mut placed, id(3), Some(geometry(2.)));
    assert!(matches!(decided, Decision::Place { .. }));
    // Its parent was scrolled, and resized.
    let scrolled = ParentGeometry { scroll: vec2(0., 5.), ..geometry(2.) };
    let decided = frame.decide(&plan, &mut placed, id(3), Some(scrolled));
    assert!(matches!(decided, Decision::Place { .. }));
    let resized = ParentGeometry { size: vec2(11., 10.), ..scrolled };
    let decided = frame.decide(&plan, &mut placed, id(3), Some(resized));
    assert!(matches!(decided, Decision::Place { .. }));
    // An ancestor was hidden, and shown.
    frame.roots.hidden = set(&[1]);
    let decided = frame.decide(&plan, &mut placed, id(3), Some(resized));
    assert!(matches!(decided, Decision::Collapse));
    let decided = frame.decide(&plan, &mut placed, id(3), Some(resized));
    assert!(matches!(decided, Decision::Keep));
    frame.roots.hidden = EntitySet::new();
    let decided = frame.decide(&plan, &mut placed, id(3), Some(resized));
    assert!(matches!(decided, Decision::Place { .. }));
    // One of its own nodes changed.
    frame.rows[2].node_changed = true;
    let plan = frame.plan(&mut placed);
    let decided = frame.decide(&plan, &mut placed, id(3), Some(resized));
    assert!(matches!(decided, Decision::Place { .. }));
    // It takes no part in layout.
    frame.rows.pop();
    let plan = frame.plan(&mut Placements::new());
    let decided = frame.decide(&plan, &mut placed, id(3), Some(geometry(7.)));
    assert!(matches!(decided, Decision::Keep));
    assert_eq!(number(placed.get(id(3)).unwrap().parent_transform.translation.x), 7.);
}

#[test]
fn collapsing_forgets_the_roots_below() {
    let mut frame = frame(&[(2, 1), (3, 2), (4, 3)], &[3, 4], &[1, 2, 3, 4], &[1]);
    let mut placed = Placements::new();
    let plan = frame.plan(&mut placed);
    frame.decide(&plan, &mut placed, id(3), Some(geometry(1.)));
    frame.decide(&plan, &mut placed, id(4), Some(geometry(2.)));
    assert!(placed.get(id(3)).is_some() && placed.get(id(4)).is_some());
    frame.roots.hidden = set(&[2]);
    let decided = frame.decide(&plan, &mut placed, id(3), Some(geometry(1.)));
    assert!(matches!(decided, Decision::Collapse));
    assert!(placed.get(id(3)).unwrap().hidden);
    assert!(placed.get(id(4)).is_none());
    frame.roots.hidden = EntitySet::new();
    let decided = frame.decide(&plan, &mut placed, id(3), Some(geometry(1.)));
    assert!(matches!(decided, Decision::Place { .. }));
    let decided = frame.decide(&plan, &mut placed, id(4), Some(geometry(2.)));
    assert!(matches!(decided, Decision::Place { .. }));
}

#[test]
fn placements_are_forgotten_one_by_one() {
    let placement = IndependentPlacement {
        parent_transform: moved(1., 2.),
        parent_size: vec2(3., 4.),
        parent_scroll: vec2(5., 6.),
        hidden: false,
    };
    let mut placed = Placements::new();
    for node in [1, 2, 3] {
        placed.insert(id(node), placement);
    }
    placed.remove_all(&ids(&[1, 3, 9, 1]));
    assert!(placed.get(id(1)).is_none() && placed.get(id(3)).is_none());
    assert!(placed.get(id(2)).is_some());
}

#[test]
fn a_pass_goes_step_by_step() {
    let mut frame = frame(&[(2, 1), (3, 1), (5, 4)], &[3], &[1, 2, 3, 4, 5], &[1, 4]);
    frame.rows[1].node_changed = true;
    let mut placed = Placements::new();
    let plan = frame.plan(&mut placed);
    let surface = set(&[1, 2, 3, 4, 5]);
    let nodes = GeometryNodes {
        present: set(&[1, 2, 3, 4, 5]),
        rounded: EntitySet::new(),
        unrounded: EntitySet::new(),
    };
    let mut pass = LayoutPass::start(&frame, &plan);
    let mut event = Event::Done;
    let mut steps: Vec<(&str, u32)> = Vec::new();
    loop {
        assert!(pass.expects(&event));
        match ui_layout_system(&frame, &plan, &surface, &nodes, &mut placed, &mut pass, event) {
            Action::LayOut { root, .. } => {
                steps.push(("lay out", index(root)));
                event = Event::Done;
            }
            Action::Visit { visit } => {
                steps.push(("place", index(visit.entity)));
                assert!(!pass.expects(&Event::Done));
                event = Event::Placed(Ok(geometry(1.)));
            }
            Action::AskParent { root, parent } => {
                assert_eq!(index(parent), 1);
                steps.push(("ask", index(root)));
                assert!(!pass.expects(&Event::Done));
                event = Event::Parent(Some(geometry(1.)));
            }
            Action::Collapse { .. } => unreachable!(),
            Action::Finished => break,
        }
    }
    // The independent third is clean, but was never placed.
    assert_eq!(
        steps,
        vec![("lay out", 1), ("place", 1), ("place", 2), ("ask", 3), ("place", 3)],
    );
    assert!(placed.get(id(3)).is_some());
}

#[test]
fn a_node_whose_layout_fails_is_left_out() {
    let errors = [
        LayoutError::InvalidHierarchy,
        LayoutError::TaffyError(taffy::TaffyError::InvalidInputNode(taffy::NodeId::new(1))),
    ];
    for error in errors {
        let mut frame = frame(&[(2, 1), (3, 2), (4, 1)], &[3], &[1, 2, 3, 4], &[1]);
        frame.rows[0].node_changed = true;
        let mut placed = Placements::new();
        let plan = frame.plan(&mut placed);
        let surface = set(&[1, 2, 3, 4]);
        let nodes = GeometryNodes {
            present: set(&[1, 2, 3, 4]),
            rounded: EntitySet::new(),
            unrounded: EntitySet::new(),
        };
        let mut failure = Some(error);
        let mut pass = LayoutPass::start(&frame, &plan);
        let mut event = Event::Done;
        let mut visited = Vec::new();
        loop {
            match ui_layout_system(&frame, &plan, &surface, &nodes, &mut placed, &mut pass, event)
            {
                Action::LayOut { .. } => event = Event::Done,
                Action::Visit { visit } => {
                    visited.push(index(visit.entity));
                    event = if visited.len() == 2 {
                        Event::Placed(Err(failure.take().unwrap()))
                    } else {
                        Event::Placed(Ok(geometry(1.)))
                    };
                }
                Action::AskParent { .. } | Action::Collapse { .. } => unreachable!(),
                Action::Finished => break,
            }
        }
        // The second has no layout, so that the independent third under it is not turned to.
        assert_eq!(visited, vec![1, 2, 4]);
    }
}

#[test]
fn a_hidden_subtree_is_collapsed_whole() {
    let mut frame = frame(&[(2, 1), (3, 2), (4, 3), (5, 3)], &[2, 5], &[1, 2, 3, 4, 5], &[1]);
    frame.rows[1].node_changed = true;
    frame.roots.hidden = set(&[1]);
    let mut placed = Placements::new();
    let plan = frame.plan(&mut placed);
    let surface = set(&[1, 2, 3, 4, 5]);
    let nodes = GeometryNodes {
        present: set(&[1, 2, 3, 4, 5]),
        rounded: EntitySet::new(),
        unrounded: EntitySet::new(),
    };
    let mut pass = LayoutPass::start(&frame, &plan);
    let asked =
        ui_layout_system(&frame, &plan, &surface, &nodes, &mut placed, &mut pass, Event::Done);
    assert!(matches!(asked, Action::AskParent { .. }));
    // It is dirty, and laid out though it is hidden.
    let event = Event::Parent(Some(geometry(1.)));
    let laid_out =
        ui_layout_system(&frame, &plan, &surface, &nodes, &mut placed, &mut pass, event);
    assert!(matches!(laid_out, Action::LayOut { .. }));
    let event = Event::Done;
    match ui_layout_system(&frame, &plan, &surface, &nodes, &mut placed, &mut pass, event) {
        Action::Collapse { entities } => assert_eq!(indices(&entities), vec![2, 3, 4, 5]),
        _ => unreachable!(),
    }
    assert!(placed.get(id(2)).unwrap().hidden);
    let last =
        ui_layout_system(&frame, &plan, &surface, &nodes, &mut placed, &mut pass, Event::Done);
    assert!(matches!(last, Action::Finished));
}

#[test]
fn a_dirty_root_whose_parent_has_no_geometry_is_skipped() {
    let mut frame = frame(&[(2, 1)], &[2], &[1, 2], &[1]);
    frame.rows[1].node_changed = true;
    let mut placed = Placements::new();
    let plan = frame.plan(&mut placed);
    let surface = set(&[1, 2]);
    let nodes = GeometryNodes {
        present: set(&[1, 2]),
        rounded: EntitySet::new(),
        unrounded: EntitySet::new(),
    };
    let mut pass = LayoutPass::start(&frame, &plan);
    let asked =
        ui_layout_system(&frame, &plan, &surface, &nodes, &mut placed, &mut pass, Event::Done);
    assert!(matches!(asked, Action::AskParent { .. }));
    let event = Event::Parent(None);
    let last = ui_layout_system(&frame, &plan, &surface, &nodes, &mut placed, &mut pass, event);
    assert!(matches!(last, Action::Finished));
    assert!(placed.get(id(2)).is_none());
}

#[test]
fn an_independent_child_is_turned_to_after_its_parent_is_placed() {
    // The third is independent and clean, under the second, which is placed again.
    let mut frame = frame(&[(2, 1), (3, 2), (4, 3)], &[3, 4], &[1, 2, 3, 4], &[1]);
    frame.rows[1].node_changed = true;
    frame.rows[3].node_changed = true;
    let mut placed = Placements::new();
    let plan = frame.plan(&mut placed);
    let surface = set(&[1, 2, 3, 4]);
    let nodes = GeometryNodes {
        present: set(&[1, 2, 3, 4]),
        rounded: EntitySet::new(),
        unrounded: EntitySet::new(),
    };
    let mut pass = LayoutPass::start(&frame, &plan);
    let mut event = Event::Done;
    let mut visited = Vec::new();
    let mut asked = Vec::new();
    loop {
        match ui_layout_system(&frame, &plan, &surface, &nodes, &mut placed, &mut pass, event) {
            Action::LayOut { .. } => event = Event::Done,
            Action::Visit { visit } => {
                assert!(!asked.contains(&index(visit.entity)));
                visited.push(index(visit.entity));
                event = Event::Placed(Ok(geometry(1.)));
            }
            Action::AskParent { root, parent } => {
                assert!(visited.contains(&index(parent)));
                asked.push(index(parent));
                assert!(!visited.contains(&index(root)));
                event = Event::Parent(Some(geometry(1.)));
            }
            Action::Collapse { .. } => unreachable!(),
            Action::Finished => break,
        }
    }
    assert_eq!(visited, vec![1, 2, 3, 4]);
    assert_eq!(asked, vec![2, 3]);
}

fn plain_node() -> ComputedNode {
    let rect = BorderRect { min_inset: Vec2::zero(), max_inset: Vec2::zero() };
    ComputedNode {
        size: Vec2::zero(),
        unrounded_size: Vec2::zero(),
        inverse_scale_factor: scalar(1.),
        content_size: Vec2::zero(),
        scrollbar_size: Vec2::zero(),
        scroll_position: Vec2::zero(),
        border: rect,
        padding: rect,
        border_radius: radius(0.),
        outline_width: scalar(9.),
        outline_offset: scalar(8.),
    }
}

fn radius(r: f32) -> BorderRadius {
    BorderRadius {
        top_left: scalar(r),
        top_right: scalar(r),
        bottom_right: scalar(r),
        bottom_left: scalar(r),
    }
}

fn scroll(position: Option<Vec2>, x: bool, y: bool, excess: Vec2) -> ScrollInput {
    ScrollInput { position, scrolls_x: x, scrolls_y: y, excess }
}

#[test]
fn a_node_is_resized_and_collapsed_once() {
    let mut node = plain_node();
    assert!(node.resize(vec2(3., 4.), vec2(3.5, 4.), scalar(0.5)));
    assert!(!node.resize(vec2(3., 4.), vec2(3.5, 4.), scalar(0.5)));
    assert!(node.resize(vec2(3., 4.), vec2(3.5, 4.), scalar(0.25)));
    assert_eq!(pair(node.size), (3., 4.));
    assert_eq!(pair(node.unrounded_size), (3.5, 4.));
    assert_eq!(number(node.inverse_scale_factor), 0.25);
    assert!(node.collapse());
    assert!(!node.collapse());
    assert_eq!(pair(node.size), (0., 0.));
    assert_eq!(pair(node.unrounded_size), (0., 0.));
}

#[test]
fn content_scrolls_along_the_scrolling_axes_and_within_its_range() {
    let asked = Some(vec2(30.5, 40.5));
    assert_eq!(pair(scroll(asked, true, true, vec2(100., 20.)).clamp()), (30.5, 20.));
    assert_eq!(pair(scroll(asked, true, true, vec2(-5., f32::NAN)).clamp()), (0., 0.));
    assert_eq!(pair(scroll(asked, true, false, vec2(100., 100.)).clamp()), (30.5, 0.));
    assert_eq!(pair(scroll(asked, false, true, vec2(100., 100.)).clamp()), (0., 40.5));
    assert_eq!(pair(scroll(None, true, true, vec2(100., 100.)).clamp()), (0., 0.));
    let back = Some(vec2(-3., f32::NAN));
    assert_eq!(pair(scroll(back, true, true, vec2(100., 100.)).clamp()), (0., 0.));
}

#[test]
fn a_node_takes_its_layout_and_style() {
    let layout = NodeLayout {
        size: vec2(20., 10.),
        unrounded_size: vec2(20.25, 10.),
        content_size: vec2(50., 60.),
        scrollbar_size: vec2(1., 2.),
        border: Sides { left: scalar(1.), right: scalar(2.), top: scalar(3.), bottom: scalar(4.) },
        padding: Sides { left: scalar(5.), right: scalar(6.), top: scalar(7.), bottom: scalar(8.) },
    };
    let style = |outline: Option<OutlineInput>, displayed: bool| {
        move |size: Vec2| StyleInput {
            displayed,
            border_radius: radius(number(size.x)),
            outline,
            scroll: scroll(Some(vec2(7.75, 9.)), true, true, vec2(31., 52.)),
        }
    };
    let floor = |v: Vec2| vec2(number(v.x).floor(), number(v.y).floor());
    let mut node = plain_node();
    let mut global = moved(0., 0.);
    let placed = update_uinode_geometry(
        &mut node,
        &mut global,
        layout,
        scalar(0.5),
        moved(3., 4.),
        style(None, true),
        floor,
    );
    assert!(placed.node_changed && placed.transform_changed);
    assert_eq!(pair(global.translation), (3., 4.));
    assert_eq!(pair(placed.geometry.transform.translation), (3., 4.));
    assert_eq!(pair(placed.geometry.size), (20., 10.));
    assert_eq!(pair(placed.geometry.scroll), (7., 9.));
    assert_eq!(pair(node.scroll_position), (7., 9.));
    assert_eq!(pair(node.content_size), (50., 60.));
    assert_eq!(pair(node.scrollbar_size), (1., 2.));
    assert_eq!(pair(node.border.min_inset), (1., 3.));
    assert_eq!(pair(node.border.max_inset), (2., 4.));
    assert_eq!(pair(node.padding.min_inset), (5., 7.));
    assert_eq!(pair(node.padding.max_inset), (6., 8.));
    assert_eq!(number(node.border_radius.top_left), 20.);
    // Without an outline, what there was stays.
    assert_eq!(number(node.outline_width), 9.);
    assert_eq!(number(node.outline_offset), 8.);

    let outline = OutlineInput {
        width: Some(scalar(-1.)),
        offset: Some(scalar(-20.)),
        least_offset: scalar(-5.),
    };
    let placed = update_uinode_geometry(
        &mut node,
        &mut global,
        layout,
        scalar(0.5),
        moved(3., 4.),
        style(Some(outline), true),
        floor,
    );
    assert!(!placed.node_changed && !placed.transform_changed);
    assert_eq!(number(node.outline_width), 0.);
    assert_eq!(number(node.outline_offset), -5.);
    let outline = OutlineInput { width: Some(scalar(2.)), offset: None, ..outline };
    update_uinode_geometry(
        &mut node,
        &mut global,
        layout,
        scalar(0.5),
        moved(3., 4.),
        style(Some(outline), true),
        floor,
    );
    assert_eq!(number(node.outline_width), 2.);
    assert_eq!(number(node.outline_offset), 0.);
    update_uinode_geometry(
        &mut node,
        &mut global,
        layout,
        scalar(0.5),
        moved(3., 4.),
        style(Some(outline), false),
        floor,
    );
    assert_eq!(number(node.outline_width), 0.);
}
