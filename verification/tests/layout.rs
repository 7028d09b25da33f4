//! The layout of a small world of UI nodes, frame by frame, with `taffy` doing the layout.
use bevy_ecs::entity::Entity;
use bevy_math::{Affine2, Vec2};
use retained::context::{LayoutContext, LayoutError};
use retained::entity::{ChildLists, EntityId, EntityLinks, EntitySet};
use retained::frame::{Frame, NodeRow};
use retained::geometry::{GeometryNodes, ParentGeometry, Visit};
use retained::node::{
    update_uinode_geometry, BorderRadius, BorderRect, ComputedNode, NodeLayout, ScrollInput, Sides,
    StyleInput,
};
use retained::placement::Placements;
use retained::roots::LayoutRoots;
use retained::scalar::Scalar;
use retained::sync::ChildrenUpdate;
use retained::system::{ui_layout_system, Action, Event, LayoutPass};
use retained::tree::UiTree;
use std::collections::{HashMap, HashSet};
use taffy::prelude::{
    length, min_content, percent, AvailableSpace, Dimension, Display, LengthPercentageAuto,
    NodeId, Position, Rect, Size, Style, TaffyTree,
};
use taffy::{AlignItems, TraversePartialTree};

const TARGET_WIDTH: u32 = 1000;
const TARGET_HEIGHT: u32 = 100;

fn id(entity: Entity) -> EntityId {
    EntityId::try_from_bits(entity.to_bits()).unwrap()
}

fn entity(id: EntityId) -> Entity {
    Entity::from_bits(id.bits())
}

fn ids(entities: &[Entity]) -> Vec<EntityId> {
    entities.iter().map(|e| id(*e)).collect()
}

fn id_set<'a>(entities: impl IntoIterator<Item = &'a Entity>) -> EntitySet {
    let list: Vec<EntityId> = entities.into_iter().map(|e| id(*e)).collect();
    EntitySet::from_list(&list)
}

fn scalar(x: f32) -> Scalar {
    Scalar { bits: x.to_bits() }
}

fn number(x: Scalar) -> f32 {
    f32::from_bits(x.bits)
}

fn vector(v: Vec2) -> retained::math::Vec2 {
    retained::math::Vec2 { x: scalar(v.x), y: scalar(v.y) }
}

fn point(v: retained::math::Vec2) -> Vec2 {
    Vec2::new(number(v.x), number(v.y))
}

fn affine(a: Affine2) -> retained::math::Affine2 {
    retained::math::Affine2 {
        x_axis: vector(a.matrix2.x_axis),
        y_axis: vector(a.matrix2.y_axis),
        translation: vector(a.translation),
    }
}

fn transform(a: retained::math::Affine2) -> Affine2 {
    Affine2::from_cols(point(a.x_axis), point(a.y_axis), point(a.translation))
}

fn sides(rect: Rect<f32>) -> Sides {
    Sides {
        left: scalar(rect.left),
        right: scalar(rect.right),
        top: scalar(rect.top),
        bottom: scalar(rect.bottom),
    }
}

#[derive(Clone, Copy, PartialEq)]
enum Val {
    Auto,
    Px(f32),
    Percent(f32),
}

#[derive(Clone)]
struct Node {
    display: Display,
    absolute: bool,
    align_start: bool,
    left: Val,
    top: Val,
    width: Val,
    height: Val,
    margin: f32,
    border: Rect<f32>,
    padding: Rect<f32>,
    columns: usize,
}

impl Default for Node {
    fn default() -> Node {
        Node {
            display: Display::Flex,
            absolute: false,
            align_start: false,
            left: Val::Auto,
            top: Val::Auto,
            width: Val::Auto,
            height: Val::Auto,
            margin: 0.,
            border: Rect { left: 0., right: 0., top: 0., bottom: 0. },
            padding: Rect { left: 0., right: 0., top: 0., bottom: 0. },
            columns: 0,
        }
    }
}

fn dimension(val: Val, scale: f32) -> Dimension {
    match val {
        Val::Auto => Dimension::auto(),
        Val::Px(x) => length(x * scale),
        Val::Percent(x) => percent(x / 100.),
    }
}

fn inset(val: Val, scale: f32) -> LengthPercentageAuto {
    match val {
        Val::Auto => LengthPercentageAuto::auto(),
        Val::Px(x) => length(x * scale),
        Val::Percent(x) => percent(x / 100.),
    }
}

impl Node {
    fn style(&self, scale: f32) -> Style {
        let lengths = |rect: Rect<f32>| Rect {
            left: length(rect.left * scale),
            right: length(rect.right * scale),
            top: length(rect.top * scale),
            bottom: length(rect.bottom * scale),
        };
        Style {
            display: self.display,
            position: if self.absolute { Position::Absolute } else { Position::Relative },
            align_self: if self.align_start { Some(AlignItems::Start) } else { None },
            inset: Rect {
                left: inset(self.left, scale),
                right: LengthPercentageAuto::auto(),
                top: inset(self.top, scale),
                bottom: LengthPercentageAuto::auto(),
            },
            size: Size {
                width: dimension(self.width, scale),
                height: dimension(self.height, scale),
            },
            margin: Rect {
                left: length(self.margin * scale),
                right: length(self.margin * scale),
                top: length(self.margin * scale),
                bottom: length(self.margin * scale),
            },
            border: lengths(self.border),
            padding: lengths(self.padding),
            grid_template_columns: (0..self.columns).map(|_| min_content()).collect(),
            ..Style::default()
        }
    }
}

struct SurfaceNode {
    id: NodeId,
    viewport: Option<NodeId>,
}

/// The layout tree.
struct Surface {
    taffy: TaffyTree<Vec2>,
    entity_to_taffy: HashMap<Entity, SurfaceNode>,
    root_entity_to_viewport_node: HashMap<Entity, NodeId>,
}

impl Surface {
    fn upsert_node(&mut self, entity: Entity, style: Style, measure: Option<Vec2>) {
        match self.entity_to_taffy.get(&entity) {
            Some(node) => {
                if measure.is_some() {
                    self.taffy.set_node_context(node.id, measure).unwrap();
                }
                self.taffy.set_style(node.id, style).unwrap();
            }
            None => {
                let id = match measure {
                    Some(size) => self.taffy.new_leaf_with_context(style, size).unwrap(),
                    None => self.taffy.new_leaf(style).unwrap(),
                };
                self.entity_to_taffy.insert(entity, SurfaceNode { id, viewport: None });
            }
        }
    }

    fn try_remove_node_context(&mut self, entity: Entity) {
        if let Some(node) = self.entity_to_taffy.get(&entity) {
            self.taffy.set_node_context(node.id, None).unwrap();
        }
    }

    fn try_remove_children(&mut self, entity: Entity) {
        if let Some(node) = self.entity_to_taffy.get(&entity) {
            self.taffy.set_children(node.id, &[]).unwrap();
        }
    }

    fn update_children(&mut self, update: &ChildrenUpdate) {
        let mut children = Vec::new();
        for child in &update.children {
            let child = entity(*child);
            if let Some(node) = self.entity_to_taffy.get_mut(&child) {
                children.push(node.id);
                if let Some(viewport) = node.viewport.take() {
                    self.taffy.remove(viewport).unwrap();
                    self.root_entity_to_viewport_node.remove(&child);
                }
            }
        }
        let parent = self.entity_to_taffy[&entity(update.entity)].id;
        self.taffy.set_children(parent, &children).unwrap();
    }

    fn remove_entity(&mut self, entity: Entity) {
        if let Some(node) = self.entity_to_taffy.remove(&entity) {
            self.taffy.remove(node.id).unwrap();
            if let Some(viewport) = node.viewport {
                self.taffy.remove(viewport).unwrap();
                self.root_entity_to_viewport_node.remove(&entity);
            }
        }
    }

    fn compute_layout(&mut self, root: Entity, target: Vec2) {
        let node = self.entity_to_taffy.get_mut(&root).unwrap();
        let viewport = match node.viewport {
            Some(viewport) => viewport,
            None => {
                let viewport = self
                    .taffy
                    .new_leaf(Style {
                        display: Display::Grid,
                        size: Size { width: percent(1.0), height: percent(1.0) },
                        align_items: Some(AlignItems::Start),
                        justify_items: Some(AlignItems::Start),
                        ..Style::default()
                    })
                    .unwrap();
                if let Some(parent) = self.taffy.parent(node.id) {
                    self.taffy.remove_child(parent, node.id).unwrap();
                }
                self.taffy.add_child(viewport, node.id).unwrap();
                node.viewport = Some(viewport);
                self.root_entity_to_viewport_node.insert(root, viewport);
                viewport
            }
        };
        self.taffy.enable_rounding();
        self.taffy
            .compute_layout_with_measure(
                viewport,
                Size {
                    width: AvailableSpace::Definite(target.x),
                    height: AvailableSpace::Definite(target.y),
                },
                |known, _, _, context, _| {
                    let measured = match context {
                        Some(size) => *size,
                        None => Vec2::ZERO,
                    };
                    Size {
                        width: known.width.unwrap_or(measured.x),
                        height: known.height.unwrap_or(measured.y),
                    }
                },
            )
            .unwrap();
    }

    fn get_layout(
        &mut self,
        entity: Entity,
        use_rounding: bool,
    ) -> Result<(taffy::Layout, Vec2), LayoutError> {
        let Some(node) = self.entity_to_taffy.get(&entity) else {
            return Err(LayoutError::InvalidHierarchy);
        };
        self.taffy.disable_rounding();
        let unrounded = *self.taffy.layout(node.id).map_err(LayoutError::TaffyError)?;
        if use_rounding {
            self.taffy.enable_rounding();
        }
        let layout = *self.taffy.layout(node.id).map_err(LayoutError::TaffyError)?;
        Ok((layout, Vec2::new(unrounded.size.width, unrounded.size.height)))
    }
}

/// What changed since the last frame.
#[derive(Default)]
struct Changes {
    nodes: HashSet<Entity>,
    contents: HashSet<Entity>,
    targets: HashSet<Entity>,
    added: HashSet<Entity>,
    children: HashSet<Entity>,
    parents: HashSet<Entity>,
    geometry: HashSet<Entity>,
    added_independent: Vec<Entity>,
    removed_independent: Vec<Entity>,
    removed_parent: Vec<Entity>,
    removed_children: Vec<Entity>,
    removed_nodes: Vec<Entity>,
    ghosts: Vec<Entity>,
}

struct World {
    spawned: Vec<Entity>,
    nodes: HashMap<Entity, Node>,
    measures: HashMap<Entity, Option<Vec2>>,
    translations: HashMap<Entity, Vec2>,
    computed: HashMap<Entity, (ComputedNode, retained::math::Affine2)>,
    parents: HashMap<Entity, Entity>,
    children: HashMap<Entity, Vec<Entity>>,
    independent: HashSet<Entity>,
    ghosts: HashSet<Entity>,
    changes: Changes,
    placed: Placements,
    surface: Surface,
    scale: f32,
    target: Vec2,
    /// The cameras, with their viewports.
    cameras: Vec<(Entity, bevy_math::Rect)>,
    /// The cameras that roots are shown by, where they are not shown by the default one.
    target_cameras: HashMap<Entity, Entity>,
    /// The roots laid out and the nodes placed in the last frame.
    laid_out: Vec<Entity>,
    visited: Vec<Entity>,
}

fn setup_ui_test_app() -> World {
    World {
        spawned: Vec::new(),
        nodes: HashMap::new(),
        measures: HashMap::new(),
        translations: HashMap::new(),
        computed: HashMap::new(),
        parents: HashMap::new(),
        children: HashMap::new(),
        independent: HashSet::new(),
        ghosts: HashSet::new(),
        changes: Changes::default(),
        placed: Placements::new(),
        surface: Surface {
            taffy: TaffyTree::new(),
            entity_to_taffy: HashMap::new(),
            root_entity_to_viewport_node: HashMap::new(),
        },
        scale: 1.,
        target: Vec2::new(TARGET_WIDTH as f32, TARGET_HEIGHT as f32),
        cameras: Vec::new(),
        target_cameras: HashMap::new(),
        laid_out: Vec::new(),
        visited: Vec::new(),
    }
}

fn no_geometry() -> (ComputedNode, retained::math::Affine2) {
    let zero = vector(Vec2::ZERO);
    let rect = BorderRect { min_inset: zero, max_inset: zero };
    let none = scalar(0.);
    let node = ComputedNode {
        size: zero,
        unrounded_size: zero,
        inverse_scale_factor: scalar(1.),
        content_size: zero,
        scrollbar_size: zero,
        scroll_position: zero,
        border: rect,
        padding: rect,
        border_radius: radius(),
        outline_width: none,
        outline_offset: none,
    };
    (node, affine(Affine2::IDENTITY))
}

fn radius() -> BorderRadius {
    let none = scalar(0.);
    BorderRadius { top_left: none, top_right: none, bottom_right: none, bottom_left: none }
}

impl World {
    fn spawn_empty(&mut self) -> Entity {
        let entity = Entity::from_raw_u32(self.spawned.len() as u32 + 1).unwrap();
        self.spawned.push(entity);
        entity
    }

    fn spawn(&mut self, node: Node) -> Entity {
        let entity = self.spawn_empty();
        self.insert_node(entity, node);
        entity
    }

    fn spawn_child(&mut self, parent: Entity, node: Node) -> Entity {
        let child = self.spawn(node);
        self.add_child(parent, child);
        child
    }

    fn spawn_independent(&mut self, parent: Entity, node: Node) -> Entity {
        let child = self.spawn_child(parent, node);
        self.insert_independent(child);
        child
    }

    fn spawn_ghost(&mut self) -> Entity {
        let entity = self.spawn_empty();
        self.insert_ghost(entity);
        entity
    }

    fn insert_node(&mut self, entity: Entity, node: Node) {
        if self.nodes.insert(entity, node).is_none() {
            self.changes.added.insert(entity);
            self.changes.contents.insert(entity);
            self.changes.targets.insert(entity);
            self.changes.geometry.insert(entity);
            self.measures.insert(entity, None);
            self.computed.insert(entity, no_geometry());
        }
        self.changes.nodes.insert(entity);
    }

    fn remove_node(&mut self, entity: Entity) {
        if self.nodes.remove(&entity).is_some() {
            self.changes.removed_nodes.push(entity);
            self.changes.nodes.remove(&entity);
            self.changes.added.remove(&entity);
            self.computed.remove(&entity);
        }
    }

    fn change_node(&mut self, entity: Entity) -> &mut Node {
        self.changes.nodes.insert(entity);
        self.nodes.get_mut(&entity).unwrap()
    }

    fn insert_content(&mut self, entity: Entity, measure: Option<Vec2>) {
        self.measures.insert(entity, measure);
        self.changes.contents.insert(entity);
    }

    fn insert_independent(&mut self, entity: Entity) {
        self.independent.insert(entity);
        self.changes.added_independent.push(entity);
    }

    fn remove_independent(&mut self, entity: Entity) {
        self.independent.remove(&entity);
        self.changes.removed_independent.push(entity);
    }

    fn insert_ghost(&mut self, entity: Entity) {
        self.ghosts.insert(entity);
        self.changes.ghosts.push(entity);
    }

    fn remove_ghost(&mut self, entity: Entity) {
        self.ghosts.remove(&entity);
        self.changes.ghosts.push(entity);
    }

    fn detach(&mut self, child: Entity) {
        if let Some(parent) = self.parents.remove(&child) {
            let list = self.children.get_mut(&parent).unwrap();
            list.retain(|e| *e != child);
            if list.is_empty() {
                self.children.remove(&parent);
                self.changes.removed_children.push(parent);
                self.changes.children.remove(&parent);
            } else {
                self.changes.children.insert(parent);
            }
        }
    }

    fn add_child(&mut self, parent: Entity, child: Entity) {
        self.detach(child);
        self.parents.insert(child, parent);
        self.children.entry(parent).or_default().push(child);
        self.changes.children.insert(parent);
        self.changes.parents.insert(child);
    }

    fn remove_parent(&mut self, child: Entity) {
        self.detach(child);
        self.changes.parents.remove(&child);
        self.changes.removed_parent.push(child);
    }

    fn detach_all_children(&mut self, parent: Entity) {
        for child in self.children.get(&parent).cloned().unwrap_or_default() {
            self.remove_parent(child);
        }
    }

    fn despawn(&mut self, entity: Entity) {
        for child in self.children.get(&entity).cloned().unwrap_or_default() {
            self.despawn(child);
        }
        self.detach(entity);
        self.changes.parents.remove(&entity);
        self.remove_node(entity);
        self.changes.contents.remove(&entity);
    }

    fn set_scale(&mut self, scale: f32) {
        self.scale = scale;
        self.changes.targets.extend(self.nodes.keys().copied());
    }

    fn set_target_camera(&mut self, root: Entity, camera: Entity) {
        if self.target_cameras.insert(root, camera) != Some(camera) {
            self.changes.targets.insert(root);
        }
    }

    fn set_viewport(&mut self, camera: Entity, viewport: bevy_math::Rect) {
        for (entity, rect) in &mut self.cameras {
            if *entity == camera {
                *rect = viewport;
            }
        }
        for (root, shown_by) in &self.target_cameras {
            if *shown_by == camera {
                self.changes.targets.insert(*root);
            }
        }
    }

    /// The size of what a node is shown in: the viewport of the camera of its root.
    fn target_of(&self, entity: Entity) -> Vec2 {
        let mut top = entity;
        while let Some(parent) = self.parents.get(&top) {
            top = *parent;
        }
        match self.target_cameras.get(&top) {
            Some(camera) => {
                self.cameras.iter().find(|(entity, _)| entity == camera).unwrap().1.size()
            }
            None => self.target,
        }
    }

    fn ui_children(&self, entity: Entity) -> Vec<Entity> {
        let mut list = Vec::new();
        for child in self.children.get(&entity).into_iter().flatten() {
            if self.ghosts.contains(child) {
                list.extend(self.ui_children(*child));
            } else if self.nodes.contains_key(child) {
                list.push(*child);
            }
        }
        list
    }

    fn closest_parent(&self, entity: Entity) -> Option<Entity> {
        let mut current = entity;
        while let Some(parent) = self.parents.get(&current) {
            if !self.ghosts.contains(parent) {
                return Some(*parent);
            }
            current = *parent;
        }
        None
    }

    fn children_changed(&self, entity: Entity) -> bool {
        self.changes.children.contains(&entity)
            || self
                .children
                .get(&entity)
                .into_iter()
                .flatten()
                .any(|child| self.ghosts.contains(child) && self.children_changed(*child))
    }

    fn ui_roots(&self) -> Vec<Entity> {
        let mut list = Vec::new();
        for entity in &self.spawned {
            if !self.parents.contains_key(entity) {
                if self.ghosts.contains(entity) {
                    list.extend(self.ui_children(*entity));
                } else if self.nodes.contains_key(entity) {
                    list.push(*entity);
                }
            }
        }
        list
    }

    fn with_node(&self, entities: &HashSet<Entity>) -> Vec<EntityId> {
        let mut list = Vec::new();
        for entity in &self.spawned {
            if entities.contains(entity) && self.nodes.contains_key(entity) {
                list.push(id(*entity));
            }
        }
        list
    }

    fn frame(&self) -> Frame {
        let mut rows = Vec::new();
        for entity in &self.spawned {
            if self.nodes.contains_key(entity) {
                rows.push(NodeRow {
                    entity: id(*entity),
                    node_changed: self.changes.nodes.contains(entity),
                    content_changed: self.changes.contents.contains(entity),
                    target_changed: self.changes.targets.contains(entity),
                    measured: self.measures[entity].is_some(),
                    scale_factor: scalar(self.scale),
                    physical_size: vector(self.target_of(*entity)),
                });
            }
        }
        let mut parents = EntityLinks::new();
        let mut closest = EntityLinks::new();
        let mut children = ChildLists::new();
        let mut changed = EntitySet::new();
        for entity in &self.spawned {
            if let Some(parent) = self.parents.get(entity) {
                parents.insert(id(*entity), id(*parent));
            }
            if let Some(parent) = self.closest_parent(*entity) {
                closest.insert(id(*entity), id(parent));
            }
            if !self.ghosts.contains(entity) {
                children.insert(id(*entity), ids(&self.ui_children(*entity)));
            }
            if self.children_changed(*entity) {
                changed.insert(id(*entity));
            }
        }
        let hidden: Vec<Entity> = self
            .spawned
            .iter()
            .copied()
            .filter(|e| self.nodes.get(e).is_some_and(|node| node.display == Display::None))
            .collect();
        Frame {
            rows,
            added: id_set(&self.changes.added),
            removed_children: ids(&self.changes.removed_children),
            removed_nodes: ids(&self.changes.removed_nodes),
            ghosts_changed: ids(&self.changes.ghosts),
            ui_roots: ids(&self.ui_roots()),
            roots: LayoutRoots {
                independent: id_set(&self.independent),
                added_independent: ids(&self.changes.added_independent),
                removed_independent: ids(&self.changes.removed_independent),
                parents,
                ghosts: id_set(&self.ghosts),
                nodes: id_set(self.nodes.keys()),
                hidden: id_set(&hidden),
                changed_children: self.with_node(&self.changes.children),
                changed_parent: self.with_node(&self.changes.parents),
                removed_parent: ids(&self.changes.removed_parent),
                changed_geometry: self.with_node(&self.changes.geometry),
            },
            tree: UiTree { children, parents: closest, changed },
        }
    }

    fn update(&mut self) {
        let frame = self.frame();
        assert!(frame.well_formed());
        let plan = frame.plan(&mut self.placed);
        for sync in &plan.node_syncs {
            let node = entity(sync.entity);
            if sync.clear_context {
                self.surface.try_remove_node_context(node);
            }
            let measure = self.measures.insert(node, None).unwrap();
            let style = self.nodes[&node].style(number(sync.context.scale_factor));
            self.surface.upsert_node(node, style, measure);
        }
        for entity in &self.changes.removed_children {
            self.surface.try_remove_children(*entity);
        }
        for removed in &plan.removed {
            self.surface.remove_entity(entity(*removed));
        }
        let surface = id_set(self.surface.entity_to_taffy.keys());
        let nodes = GeometryNodes {
            present: id_set(self.computed.keys()),
            rounded: EntitySet::new(),
            unrounded: EntitySet::new(),
        };
        self.laid_out.clear();
        self.visited.clear();
        let mut pass = LayoutPass::start(&frame, &plan);
        let mut event = Event::Done;
        loop {
            assert!(pass.expects(&event));
            match ui_layout_system(
                &frame,
                &plan,
                &surface,
                &nodes,
                &mut self.placed,
                &mut pass,
                event,
            ) {
                Action::LayOut { root, updates } => {
                    for update in &updates {
                        self.surface.update_children(update);
                    }
                    let target = self.target_of(entity(root));
                    self.surface.compute_layout(entity(root), target);
                    self.laid_out.push(entity(root));
                    event = Event::Done;
                }
                Action::Visit { visit } => event = Event::Placed(self.place(visit)),
                Action::AskParent { parent, .. } => {
                    event = Event::Parent(self.computed.get(&entity(parent)).map(
                        |(node, transform)| ParentGeometry {
                            transform: *transform,
                            size: node.size,
                            scroll: node.scroll_position,
                        },
                    ));
                }
                Action::Collapse { entities } => {
                    for collapsed in entities {
                        if let Some((node, _)) = self.computed.get_mut(&entity(collapsed)) {
                            node.collapse();
                        }
                    }
                    event = Event::Done;
                }
                Action::Finished => break,
            }
        }
        self.changes = Changes::default();
    }

    fn place(&mut self, visit: Visit) -> Result<ParentGeometry, LayoutError> {
        let placed = entity(visit.entity);
        let (layout, unrounded_size) = self.surface.get_layout(placed, visit.use_rounding)?;
        self.visited.push(placed);
        let size = Vec2::new(layout.size.width, layout.size.height);
        let content = Vec2::new(layout.content_size.width, layout.content_size.height);
        let scrollbar = Vec2::new(layout.scrollbar_size.width, layout.scrollbar_size.height);
        let location = Vec2::new(layout.location.x, layout.location.y);
        let center = location - point(visit.parent.scroll) + 0.5 * (size - point(visit.parent.size));
        let offset = self.translations.get(&placed).copied().unwrap_or_default() * self.scale;
        let global = transform(visit.parent.transform) * Affine2::from_translation(offset + center);
        let displayed = self.nodes[&placed].display != Display::None;
        let (node, node_transform) = self.computed.get_mut(&placed).unwrap();
        let result = update_uinode_geometry(
            node,
            node_transform,
            NodeLayout {
                size: vector(size),
                unrounded_size: vector(unrounded_size),
                content_size: vector(content),
                scrollbar_size: vector(scrollbar),
                border: sides(layout.border),
                padding: sides(layout.padding),
            },
            scalar(self.scale.recip()),
            affine(global),
            |_size| StyleInput {
                displayed,
                border_radius: radius(),
                outline: None,
                scroll: ScrollInput {
                    position: None,
                    scrolls_x: false,
                    scrolls_y: false,
                    excess: vector(content - size + scrollbar),
                },
            },
            |v| vector(point(v).floor()),
        );
        Ok(result.geometry)
    }

    fn layout(&mut self, entity: Entity) -> taffy::Layout {
        self.surface.get_layout(entity, true).unwrap().0
    }

    fn size(&self, entity: Entity) -> Vec2 {
        point(self.computed[&entity].0.size)
    }
}

/// The laid-out size and the top-left corner (physical px) of a UI node.
fn size_and_corner(world: &World, entity: Entity) -> (Vec2, Vec2) {
    let (node, global) = &world.computed[&entity];
    let size = point(node.size);
    (size, transform(*global).translation - 0.5 * size)
}

fn full_viewport() -> Node {
    Node { width: Val::Percent(100.), height: Val::Percent(100.), ..Node::default() }
}

fn sized(width: f32, height: f32) -> Node {
    Node { width: Val::Px(width), height: Val::Px(height), ..Node::default() }
}

#[test]
fn ui_nodes_with_percent_100_dimensions_should_fill_their_parent() {
    let mut world = setup_ui_test_app();
    let ui_root = world.spawn(full_viewport());
    let ui_child = world.spawn(full_viewport());
    world.add_child(ui_root, ui_child);
    world.update();
    for ui_entity in [ui_root, ui_child] {
        let layout = world.layout(ui_entity);
        assert_eq!(layout.size.width, TARGET_WIDTH as f32);
        assert_eq!(layout.size.height, TARGET_HEIGHT as f32);
        assert_eq!(world.size(ui_entity), Vec2::new(1000., 100.));
    }
}

#[test]
fn ui_surface_tracks_ui_entities() {
    let mut world = setup_ui_test_app();
    assert!(world.surface.entity_to_taffy.is_empty());
    let ui_entity = world.spawn(Node::default());
    world.update();
    assert!(world.surface.entity_to_taffy.contains_key(&ui_entity));
    assert_eq!(world.surface.entity_to_taffy.len(), 1);
    world.despawn(ui_entity);
    world.update();
    assert!(!world.surface.entity_to_taffy.contains_key(&ui_entity));
    assert!(world.surface.entity_to_taffy.is_empty());
}

#[test]
#[should_panic]
fn despawning_a_ui_entity_should_remove_its_corresponding_ui_node() {
    let mut world = setup_ui_test_app();
    let ui_entity = world.spawn(Node::default());
    world.update();
    let ui_node = world.surface.entity_to_taffy[&ui_entity].id;
    world.despawn(ui_entity);
    world.update();
    let _ = world.surface.taffy.style(ui_node);
}

#[test]
fn changes_to_children_of_a_ui_entity_change_its_corresponding_ui_nodes_children() {
    let mut world = setup_ui_test_app();
    let parent = world.spawn(Node::default());
    world.update();
    let parent_node = world.surface.entity_to_taffy[&parent].id;
    assert_eq!(world.surface.taffy.child_count(parent_node), 0);

    let mut children: Vec<Entity> =
        (0..10).map(|_| world.spawn_child(parent, Node::default())).collect();
    world.update();
    assert_eq!(world.surface.entity_to_taffy.len(), 1 + children.len());
    assert_eq!(world.surface.taffy.child_count(parent_node), children.len());
    let child_nodes: HashMap<Entity, NodeId> = children
        .iter()
        .map(|child| (*child, world.surface.entity_to_taffy[child].id))
        .collect();
    for node in child_nodes.values() {
        assert_eq!(world.surface.taffy.parent(*node), Some(parent_node));
    }

    // delete every second child
    let mut deleted = vec![];
    for i in (0..children.len()).rev().step_by(2) {
        let child = children.remove(i);
        world.despawn(child);
        deleted.push(child);
    }
    world.update();
    assert_eq!(world.surface.entity_to_taffy.len(), 1 + children.len());
    assert_eq!(world.surface.taffy.child_count(parent_node), children.len());
    let left = world.surface.taffy.children(parent_node).unwrap();
    for child in &children {
        let node = child_nodes[child];
        assert_eq!(world.surface.entity_to_taffy[child].id, node);
        assert_eq!(world.surface.taffy.parent(node), Some(parent_node));
        assert!(left.contains(&node));
    }
    for child in &deleted {
        assert!(!world.surface.entity_to_taffy.contains_key(child));
        assert!(!left.contains(&child_nodes[child]));
    }

    world.despawn(parent);
    world.update();
    assert!(world.surface.entity_to_taffy.is_empty());
}

#[test]
fn node_removal_and_reinsert_should_work() {
    let mut world = setup_ui_test_app();
    world.update();
    assert!(world.surface.entity_to_taffy.is_empty());
    let ui_entity = world.spawn(Node::default());
    world.update();
    assert!(world.surface.entity_to_taffy.contains_key(&ui_entity));
    assert_eq!(world.surface.entity_to_taffy.len(), 1);
    world.remove_node(ui_entity);
    world.insert_node(ui_entity, Node::default());
    world.update();
    assert!(world.surface.entity_to_taffy.contains_key(&ui_entity));
    assert_eq!(world.surface.entity_to_taffy.len(), 1);
}

#[test]
fn node_addition_should_sync_children() {
    let mut world = setup_ui_test_app();
    // an entity that is no node, with a node under it
    let root_node = world.spawn_empty();
    world.spawn_child(root_node, Node::default());
    world.update();
    world.insert_node(root_node, Node::default());
    world.update();
    let taffy_root = world.surface.entity_to_taffy[&root_node].id;
    assert_eq!(world.surface.taffy.child_count(taffy_root), 1);
}

#[test]
fn node_addition_should_sync_parent_and_children() {
    let mut world = setup_ui_test_app();
    let d = world.spawn(Node::default());
    let c = world.spawn_empty();
    world.add_child(c, d);
    let b = world.spawn(Node::default());
    let a = world.spawn(Node::default());
    world.add_child(a, b);
    world.add_child(a, c);
    world.update();
    world.insert_node(c, Node::default());
    world.update();
    for (entity, n) in [(a, 2), (b, 0), (c, 1), (d, 0)] {
        let taffy_id = world.surface.entity_to_taffy[&entity].id;
        assert_eq!(world.surface.taffy.child_count(taffy_id), n);
    }
}

#[test]
fn ui_root_node_should_act_like_position_absolute() {
    let mut world = setup_ui_test_app();
    let mut size = 150.;
    world.spawn(sized(size, size));
    size -= 50.;
    world.spawn(sized(size, size));
    size -= 50.;
    world.spawn(sized(size, size));
    world.update();

    let mut overlap_check: Option<(bevy_math::Rect, bool)> = None;
    for entity in &world.spawned {
        let (node, global) = &world.computed[entity];
        let translation = transform(*global).translation;
        let current_rect = bevy_math::Rect::from_center_size(translation, point(node.size));
        assert!(current_rect.height().abs() + current_rect.width().abs() > 0.);
        assert_ne!(transform(*global), Affine2::IDENTITY);
        overlap_check = match overlap_check {
            None => Some((current_rect, false)),
            Some((rect, is_overlapping)) => {
                if rect.contains(current_rect.center()) {
                    Some((current_rect, true))
                } else {
                    Some((current_rect, is_overlapping))
                }
            }
        };
    }
    let Some((_rect, is_overlapping)) = overlap_check else {
        unreachable!("test not setup properly");
    };
    assert!(is_overlapping);
}

fn do_move_and_test(world: &mut World, moving: Entity, new_pos: Vec2, expected_camera: Entity) {
    let camera = world
        .cameras
        .iter()
        .find(|(_, viewport)| viewport.contains(new_pos))
        .map(|(camera, _)| *camera)
        .expect("cursor position outside of camera viewport");
    world.set_target_camera(moving, camera);
    world.insert_node(
        moving,
        Node {
            absolute: true,
            left: Val::Px(new_pos.x),
            top: Val::Px(new_pos.y),
            ..Node::default()
        },
    );
    world.update();
    assert_eq!(expected_camera, world.target_cameras[&moving]);
    let layout = world.layout(moving);
    assert_eq!(Vec2::new(layout.location.x, layout.location.y), new_pos);
    assert_eq!(size_and_corner(world, moving).1, new_pos);
}

#[test]
fn ui_node_should_properly_update_when_changing_target_camera() {
    let mut world = setup_ui_test_app();
    let target_size = Vec2::new(TARGET_WIDTH as f32, TARGET_HEIGHT as f32);
    let whole = bevy_math::Rect::from_corners(Vec2::ZERO, target_size);
    for _ in 0..2 {
        let camera = world.spawn_empty();
        world.cameras.push((camera, whole));
    }
    let moving = world.spawn(Node {
        absolute: true,
        left: Val::Px(0.),
        top: Val::Px(0.),
        ..Node::default()
    });
    let default_camera = world.cameras[0].0;
    world.set_target_camera(moving, default_camera);
    world.update();

    let pos_inc = Vec2::splat(1.);
    let total_cameras = world.cameras.len();
    let expected_max_taffy_node_count = world.surface.taffy.total_node_count() + total_cameras - 1;

    // each camera gets its part of the target
    for (index, (camera, _)) in world.cameras.clone().into_iter().enumerate() {
        let width = target_size.x / total_cameras as f32;
        let min = Vec2::new(width * index as f32, 0.);
        let viewport = bevy_math::Rect::from_corners(min, min + Vec2::new(width, target_size.y));
        world.set_viewport(camera, viewport);
    }
    world.update();
    assert_eq!(world.laid_out, vec![moving]);

    let mut viewport_rects = world.cameras.clone();
    for (camera, viewport) in &viewport_rects {
        do_move_and_test(&mut world, moving, viewport.min + pos_inc, *camera);
    }
    // reverse direction
    viewport_rects.reverse();
    for (camera, viewport) in &viewport_rects {
        do_move_and_test(&mut world, moving, viewport.max - pos_inc, *camera);
    }
    assert!(world.surface.taffy.total_node_count() <= expected_max_taffy_node_count);
}

#[test]
fn ui_node_should_be_set_to_its_content_size() {
    let mut world = setup_ui_test_app();
    let content_size = Vec2::new(50., 25.);
    let ui_entity = world.spawn(Node { align_start: true, ..Node::default() });
    world.insert_content(ui_entity, Some(content_size));
    world.update();
    let layout = world.layout(ui_entity);
    assert_eq!(layout.size.width, content_size.x);
    assert_eq!(layout.size.height, content_size.y);
}

#[test]
fn measured_node_includes_border_and_padding() {
    let mut world = setup_ui_test_app();
    let ui_node = world.spawn(Node {
        align_start: true,
        border: Rect { left: 2.0, right: 6.0, top: 4.0, bottom: 8.0 },
        padding: Rect { left: 3.0, right: 5.0, top: 7.0, bottom: 11.0 },
        ..Node::default()
    });
    world.insert_content(ui_node, Some(Vec2::new(50.0, 25.0)));
    world.update();
    let layout = world.layout(ui_node);
    assert_eq!(layout.border.left, 2.0);
    assert_eq!(layout.border.right, 6.0);
    assert_eq!(layout.border.top, 4.0);
    assert_eq!(layout.border.bottom, 8.0);
    assert_eq!(layout.padding.left, 3.0);
    assert_eq!(layout.padding.right, 5.0);
    assert_eq!(layout.padding.top, 7.0);
    assert_eq!(layout.padding.bottom, 11.0);
    assert_eq!(layout.size.width, 66.0);
    assert_eq!(layout.size.height, 55.0);
    assert_eq!(layout.content_size.width, 58.0);
    assert_eq!(layout.content_size.height, 43.0);
    assert_eq!(layout.content_box_width(), 50.0);
    assert_eq!(layout.content_box_height(), 25.0);
    let node = &world.computed[&ui_node].0;
    assert_eq!(point(node.border.min_inset), Vec2::new(2.0, 4.0));
    assert_eq!(point(node.border.max_inset), Vec2::new(6.0, 8.0));
    assert_eq!(point(node.padding.min_inset), Vec2::new(3.0, 7.0));
    assert_eq!(point(node.padding.max_inset), Vec2::new(5.0, 11.0));
}

#[test]
fn measure_funcs_should_be_removed_on_content_size_clear() {
    let mut world = setup_ui_test_app();
    let content_size = Vec2::new(50., 25.);
    let ui_entity = world.spawn(Node { align_start: true, ..Node::default() });
    world.insert_content(ui_entity, Some(content_size));
    world.update();
    let ui_node = world.surface.entity_to_taffy[&ui_entity].id;
    assert!(world.surface.taffy.get_node_context(ui_node).is_some());
    let layout = world.layout(ui_entity);
    assert_eq!(layout.size.width, content_size.x);
    assert_eq!(layout.size.height, content_size.y);
    world.insert_content(ui_entity, None);
    world.update();
    assert!(world.surface.taffy.get_node_context(ui_node).is_none());
    let layout = world.layout(ui_entity);
    assert_eq!(layout.size.width, 0.);
    assert_eq!(layout.size.height, 0.);
}

#[test]
fn measure_funcs_should_persist_until_cleared() {
    let mut world = setup_ui_test_app();
    let content_size = Vec2::new(50., 25.);
    let ui_entity = world.spawn(Node::default());
    world.insert_content(ui_entity, Some(content_size));
    world.update();
    let ui_node = world.surface.entity_to_taffy[&ui_entity].id;
    assert!(world.surface.taffy.get_node_context(ui_node).is_some());
    let layout = world.layout(ui_entity);
    assert_eq!(layout.size.width, content_size.x);
    assert_eq!(layout.size.height, content_size.y);
    world.insert_node(ui_entity, Node::default());
    world.update();
    assert!(world.surface.taffy.get_node_context(ui_node).is_some());
    let layout = world.layout(ui_entity);
    assert_eq!(layout.size.width, content_size.x);
    assert_eq!(layout.size.height, content_size.y);
    world.insert_content(ui_entity, None);
    world.update();
    assert!(world.surface.taffy.get_node_context(ui_node).is_none());
    let layout = world.layout(ui_entity);
    assert_eq!(layout.size.width, 0.);
    assert_eq!(layout.size.height, 0.);
}

#[test]
fn ui_rounding_test() {
    let mut world = setup_ui_test_app();
    let parent = world.spawn(Node {
        display: Display::Grid,
        columns: 2,
        margin: 4.0,
        ..Node::default()
    });
    let children: Vec<Entity> = (0..2)
        .map(|_| world.spawn_child(parent, Node { display: Display::Grid, ..sized(160., 160.) }))
        .collect();
    for r in [2, 3, 5, 7, 11, 13, 17, 19, 21, 23, 29, 31].map(|n| (n as f32).recip()) {
        // This fails with very small / unrealistic scale values
        let mut s = 1. - r;
        while s <= 5. {
            world.set_scale(s);
            world.update();
            let width_sum: f32 = children.iter().map(|child| world.size(*child).x).sum();
            let parent_width = world.size(parent).x;
            assert!((width_sum - parent_width).abs() < 0.001);
            assert!((width_sum - 320. * s).abs() <= 1.);
            s += r;
        }
    }
}

#[test]
fn no_camera_ui() {
    let mut world = setup_ui_test_app();
    world.target = Vec2::ZERO;
    let ui_root = world.spawn(full_viewport());
    let ui_child = world.spawn(full_viewport());
    world.add_child(ui_root, ui_child);
    world.update();
}

#[test]
fn no_viewport_node_leak_on_root_despawned() {
    let mut world = setup_ui_test_app();
    let ui_root_entity = world.spawn(Node::default());
    world.update();
    assert_eq!(world.surface.taffy.total_node_count(), 2);
    world.despawn(ui_root_entity);
    world.update();
    assert_eq!(world.surface.taffy.total_node_count(), 0);
}

#[test]
fn no_viewport_node_leak_on_parented_root() {
    let mut world = setup_ui_test_app();
    let ui_root_entity_1 = world.spawn(Node::default());
    let ui_root_entity_2 = world.spawn(Node::default());
    world.update();
    assert_eq!(world.surface.taffy.total_node_count(), 4);
    assert_eq!(world.surface.root_entity_to_viewport_node.len(), 2);
    world.add_child(ui_root_entity_1, ui_root_entity_2);
    world.update();
    assert_eq!(world.surface.taffy.total_node_count(), 3);
    assert_eq!(world.surface.root_entity_to_viewport_node.len(), 1);
    assert!(world.surface.root_entity_to_viewport_node.contains_key(&ui_root_entity_1));
}

/// A full-viewport root holding, in a row, an independent node absolutely placed at
/// (30, 20) and a 50 px wide sibling. Returns (root, independent, sibling).
fn spawn_independent_fixture(world: &mut World) -> (Entity, Entity, Entity) {
    let root = world.spawn(full_viewport());
    let independent = world.spawn_independent(
        root,
        Node { absolute: true, left: Val::Px(30.), top: Val::Px(20.), ..sized(100., 40.) },
    );
    let sibling = world.spawn_child(root, sized(50., 10.));
    (root, independent, sibling)
}

#[test]
fn an_independent_node_is_placed_relative_to_its_parent_and_takes_no_space() {
    let mut world = setup_ui_test_app();
    let (root, independent, sibling) = spawn_independent_fixture(&mut world);
    // A non-absolute independent node would have taken the row's first 200 px; it must not.
    let flowing = world.spawn_independent(root, sized(200., 10.));
    world.update();
    let (size, corner) = size_and_corner(&world, independent);
    assert_eq!(size, Vec2::new(100., 40.));
    assert_eq!(corner, Vec2::new(30., 20.));
    let (_, sibling_corner) = size_and_corner(&world, sibling);
    assert_eq!(sibling_corner, Vec2::ZERO, "the sibling is first in the row");
    let (flowing_size, flowing_corner) = size_and_corner(&world, flowing);
    assert_eq!(flowing_size, Vec2::new(200., 10.));
    assert_eq!(flowing_corner, Vec2::ZERO);
}

#[test]
fn a_change_inside_an_independent_node_leaves_its_parents_tree_alone() {
    let mut world = setup_ui_test_app();
    let (_root, independent, sibling) = spawn_independent_fixture(&mut world);
    let inner = world.spawn_child(independent, sized(10., 10.));
    world.update();
    let (_, before) = size_and_corner(&world, sibling);

    // An offset on the sibling that is not marked as a change: a pass over the root's tree
    // would apply it.
    world.translations.insert(sibling, Vec2::new(7., 0.));
    world.change_node(inner).width = Val::Px(20.);
    world.update();
    let (inner_size, _) = size_and_corner(&world, inner);
    assert_eq!(inner_size.x, 20., "the independent node was laid out");
    let (_, after) = size_and_corner(&world, sibling);
    assert_eq!(
        after, before,
        "a change inside an independent node must not walk its parent's tree"
    );
    assert_eq!(world.laid_out, vec![independent]);
    assert_eq!(world.visited, vec![independent, inner]);

    // With teeth: a change in the root's own tree does walk it, and the planted offset then
    // shows.
    world.change_node(sibling).height = Val::Px(11.);
    world.update();
    let (_, walked) = size_and_corner(&world, sibling);
    assert_eq!(walked, before + Vec2::new(7., 0.));
}

#[test]
fn an_independent_node_under_a_hidden_ancestor_is_collapsed_and_restored() {
    let mut world = setup_ui_test_app();
    let root = world.spawn(full_viewport());
    let container = world.spawn_child(root, sized(300., 60.));
    let independent = world.spawn_independent(container, sized(100., 40.));
    world.update();
    assert_eq!(size_and_corner(&world, independent).0, Vec2::new(100., 40.));
    world.change_node(container).display = Display::None;
    world.update();
    assert_eq!(size_and_corner(&world, independent).0, Vec2::ZERO);
    world.change_node(container).display = Display::Flex;
    world.update();
    assert_eq!(size_and_corner(&world, independent).0, Vec2::new(100., 40.));
}

#[test]
fn a_change_made_while_an_ancestor_was_hidden_is_laid_out() {
    let mut world = setup_ui_test_app();
    let root = world.spawn(full_viewport());
    let hidden = Node { display: Display::None, ..sized(300., 60.) };
    let container = world.spawn_child(root, hidden);
    let independent = world.spawn_independent(container, sized(100., 40.));
    world.update();
    assert_eq!(world.size(independent), Vec2::ZERO);
    world.change_node(container).display = Display::Flex;
    world.update();
    assert_eq!(world.size(independent), Vec2::new(100., 40.));

    // A child that came while the ancestor was hidden.
    world.change_node(container).display = Display::None;
    world.update();
    let child = world.spawn_child(independent, sized(30., 30.));
    world.update();
    assert_eq!(world.size(child), Vec2::ZERO);
    world.change_node(container).display = Display::Flex;
    world.update();
    assert_eq!(world.size(child), Vec2::new(30., 30.));
    assert!(compare_taffy_children(&world, independent, &[child]));
}

#[test]
fn nested_independent_nodes_are_collapsed_and_restored() {
    let mut world = setup_ui_test_app();
    let root = world.spawn(full_viewport());
    let container = world.spawn_child(root, sized(300., 60.));
    let outer = world.spawn_independent(container, sized(100., 40.));
    let inner = world.spawn_independent(outer, sized(20., 20.));
    world.update();
    assert_eq!(world.size(outer), Vec2::new(100., 40.));
    assert_eq!(world.size(inner), Vec2::new(20., 20.));
    world.change_node(container).display = Display::None;
    world.update();
    assert_eq!(world.size(outer), Vec2::ZERO);
    assert_eq!(world.size(inner), Vec2::ZERO);
    world.change_node(container).display = Display::Flex;
    world.update();
    assert_eq!(world.size(outer), Vec2::new(100., 40.));
    assert_eq!(world.size(inner), Vec2::new(20., 20.));
}

#[test]
fn a_change_under_a_ghost_lays_out_the_root_above() {
    let mut world = setup_ui_test_app();
    let root = world.spawn(full_viewport());
    let ghost = world.spawn_ghost();
    world.add_child(root, ghost);
    let child = world.spawn_child(ghost, sized(10., 10.));
    let independent = world.spawn_independent(
        ghost,
        Node { absolute: true, left: Val::Px(5.), top: Val::Px(6.), ..sized(20., 20.) },
    );
    world.update();
    assert_eq!(world.size(child), Vec2::new(10., 10.));
    let (size, corner) = size_and_corner(&world, independent);
    assert_eq!((size, corner), (Vec2::new(20., 20.), Vec2::new(5., 6.)));
    world.change_node(child).width = Val::Px(30.);
    world.update();
    assert_eq!(world.laid_out, vec![root]);
    assert_eq!(world.size(child), Vec2::new(30., 10.));

    // A child that leaves a ghost leaves the node above it.
    let other = world.spawn(full_viewport());
    world.update();
    world.add_child(other, child);
    world.update();
    assert!(compare_taffy_children(&world, root, &[]));
    assert!(compare_taffy_children(&world, other, &[child]));
}

#[test]
fn removing_independence_rejoins_the_parents_layout() {
    let mut world = setup_ui_test_app();
    let root = world.spawn(full_viewport());
    let first = world.spawn_independent(root, sized(200., 10.));
    let second = world.spawn_child(root, sized(50., 10.));
    world.update();
    assert_eq!(size_and_corner(&world, second).1, Vec2::ZERO);
    world.remove_independent(first);
    world.update();
    assert_eq!(
        size_and_corner(&world, second).1,
        Vec2::new(200., 0.),
        "the formerly independent node takes its place in the row again"
    );
    world.insert_independent(first);
    world.update();
    assert_eq!(size_and_corner(&world, second).1, Vec2::ZERO);
}

#[test]
fn an_independent_node_follows_its_parent() {
    let mut world = setup_ui_test_app();
    let root = world.spawn(full_viewport());
    let parent = world.spawn_child(
        root,
        Node { absolute: true, left: Val::Px(100.), top: Val::Px(10.), ..sized(300., 60.) },
    );
    let independent = world.spawn_independent(
        parent,
        Node { absolute: true, left: Val::Px(5.), top: Val::Px(5.), ..sized(20., 20.) },
    );
    world.update();
    assert_eq!(size_and_corner(&world, independent).1, Vec2::new(105., 15.));
    world.change_node(parent).left = Val::Px(200.);
    world.update();
    assert_eq!(
        size_and_corner(&world, independent).1,
        Vec2::new(205., 15.),
        "an unchanged independent node is placed again when its parent moves"
    );
    assert_eq!(world.laid_out, vec![root]);
}

#[test]
fn an_unparented_node_is_laid_out_as_a_root() {
    let mut world = setup_ui_test_app();
    let root = world.spawn(full_viewport());
    let child = world.spawn_child(
        root,
        Node { width: Val::Percent(50.), height: Val::Px(10.), ..Node::default() },
    );
    world.update();
    // Nothing about the child itself changes: only its parent goes.
    world.remove_parent(child);
    world.update();
    assert!(
        world.surface.root_entity_to_viewport_node.contains_key(&child),
        "an un-parented node becomes a layout root of its own"
    );
    assert_eq!(
        size_and_corner(&world, child).0.x,
        TARGET_WIDTH as f32 / 2.,
        "and is laid out against the viewport"
    );
}

fn compare_taffy_children(world: &World, parent: Entity, children: &[Entity]) -> bool {
    let ids: Vec<NodeId> =
        children.iter().map(|child| world.surface.entity_to_taffy[child].id).collect();
    world.surface.taffy.children(world.surface.entity_to_taffy[&parent].id).unwrap() == ids
}

fn compare_taffy_parent(world: &World, child: Entity, parent: Option<Entity>) -> bool {
    let above = world.surface.taffy.parent(world.surface.entity_to_taffy[&child].id);
    above == parent.map(|entity| world.surface.entity_to_taffy[&entity].id)
}

#[test]
fn unparenting_ghost_child_should_unparent_taffy_child() {
    let mut world = setup_ui_test_app();
    let child = world.spawn(Node::default());
    let ghost = world.spawn_ghost();
    world.add_child(ghost, child);
    let root = world.spawn(Node::default());
    world.add_child(root, ghost);
    world.update();
    assert!(compare_taffy_children(&world, root, &[child]));
    assert!(compare_taffy_parent(&world, child, Some(root)));
    assert!(!world.surface.root_entity_to_viewport_node.contains_key(&child));

    world.detach_all_children(ghost);
    world.update();
    assert!(compare_taffy_children(&world, root, &[]));
    let viewport_node = world
        .surface
        .root_entity_to_viewport_node
        .get(&child)
        .copied()
        .expect("detached child should become a UI root and have an associated viewport node");
    let taffy_child = world.surface.entity_to_taffy[&child].id;
    assert_eq!(world.surface.taffy.parent(taffy_child), Some(viewport_node));
}

#[test]
fn adding_intermediate_ghost_node_attaches_taffy_nodes() {
    let mut world = setup_ui_test_app();
    let child = world.spawn(Node::default());
    let mid = world.spawn_empty();
    world.add_child(mid, child);
    let root = world.spawn(Node::default());
    world.add_child(root, mid);
    world.update();
    assert!(compare_taffy_children(&world, root, &[]));
    assert!(compare_taffy_parent(&world, child, None));
    world.insert_ghost(mid);
    world.update();
    assert!(compare_taffy_children(&world, root, &[child]));
    assert!(compare_taffy_parent(&world, child, Some(root)));
}

#[test]
fn removing_intermeditate_ghost_node_detaches_taffy_nodes() {
    let mut world = setup_ui_test_app();
    let child = world.spawn(Node::default());
    let mid = world.spawn_ghost();
    world.add_child(mid, child);
    let root = world.spawn(Node::default());
    world.add_child(root, mid);
    world.update();
    assert!(compare_taffy_children(&world, root, &[child]));
    assert!(compare_taffy_parent(&world, child, Some(root)));
    world.remove_ghost(mid);
    world.update();
    assert!(compare_taffy_children(&world, root, &[]));
    assert!(compare_taffy_parent(&world, child, None));
    assert!(!world.surface.root_entity_to_viewport_node.contains_key(&child));
}

#[test]
fn a_still_frame_places_nothing() {
    let mut world = setup_ui_test_app();
    let (root, independent, sibling) = spawn_independent_fixture(&mut world);
    world.update();
    assert_eq!(world.laid_out, vec![root, independent]);
    assert_eq!(world.visited, vec![root, sibling, independent]);
    world.update();
    assert!(world.laid_out.is_empty());
    assert!(world.visited.is_empty());
}

#[test]
fn nested_independent_nodes_are_placed_from_the_outside_in() {
    let mut world = setup_ui_test_app();
    let root = world.spawn(full_viewport());
    let outer = world.spawn_independent(root, sized(200., 50.));
    let inner = world.spawn_independent(outer, sized(100., 20.));
    let innermost = world.spawn_independent(inner, sized(10., 10.));
    world.update();
    assert_eq!(world.laid_out, vec![root, outer, inner, innermost]);
    // Moving the outermost one moves the others with it, without laying them out again.
    world.change_node(root).padding = Rect { left: 8., right: 0., top: 0., bottom: 0. };
    world.translations.insert(outer, Vec2::new(3., 4.));
    world.changes.geometry.insert(outer);
    world.update();
    assert_eq!(world.laid_out, vec![root, outer]);
    assert_eq!(world.visited, vec![root, outer, inner, innermost]);
    assert_eq!(size_and_corner(&world, innermost).1, Vec2::new(3., 4.));
}

#[test]
fn a_default_context_has_no_size() {
    let context = LayoutContext::default();
    assert_eq!(number(context.scale_factor), 1.0);
    assert_eq!(point(context.physical_size), Vec2::ZERO);
    let context = LayoutContext::new(scalar(2.0), vector(Vec2::new(3.0, 4.0)));
    assert_eq!(number(context.scale_factor), 2.0);
    assert_eq!(point(context.physical_size), Vec2::new(3.0, 4.0));
}
