//! What changed since the last frame, and what has to be done about it: the nodes to
//! sync, and the layout roots that are dirty.
use crate::context::LayoutContext;
use crate::entity::{EntityId, EntityLinks, EntitySet};
use crate::hierarchy::{
    acyclic, ancestor, closest, depth, law_chains_end_without_loops, lemma_closest_depth,
};
use crate::math::Vec2;
use crate::placement::Placements;
use crate::roots::{
    is_layout_root, law_memo_is_transparent, law_root_is_nearest, law_root_of_root, memo_sound,
    LayoutRoots,
};
use crate::scalar::Scalar;
use crate::tree::UiTree;
use vstd::prelude::*;

verus! {

/// A node that takes part in layout, and what changed about it this frame.
#[derive(Clone, Copy, Debug)]
pub struct NodeRow {
    pub entity: EntityId,
    /// Its style changed.
    pub node_changed: bool,
    /// Its content size changed.
    pub content_changed: bool,
    /// Its render target changed.
    pub target_changed: bool,
    /// Its content size holds a measure.
    pub measured: bool,
    /// The scale factor of its render target.
    pub scale_factor: Scalar,
    /// The size of its render target, in physical pixels.
    pub physical_size: Vec2,
}

/// A node to write to the layout tree.
#[derive(Clone, Copy, Debug)]
pub struct NodeSync {
    pub entity: EntityId,
    /// What it is laid out in.
    pub context: LayoutContext,
    /// Whether what the layout tree holds to measure the node with is dropped first.
    pub clear_context: bool,
}

/// The state of the UI in one frame.
pub struct Frame {
    /// The nodes that take part in layout.
    pub rows: Vec<NodeRow>,
    /// The nodes that are new.
    pub added: EntitySet,
    /// The entities that lost their children.
    pub removed_children: Vec<EntityId>,
    /// The entities that are no nodes any more, or were for a moment.
    pub removed_nodes: Vec<EntityId>,
    /// The entities that became a ghost or stopped being one.
    pub ghosts_changed: Vec<EntityId>,
    /// The nodes without a UI parent, in the order in which they are laid out.
    pub ui_roots: Vec<EntityId>,
    /// The hierarchy, as seen from below.
    pub roots: LayoutRoots,
    /// The hierarchy, as seen from above.
    pub tree: UiTree,
}

/// What has to be done about the changes of a frame.
pub struct FramePlan {
    /// The nodes that take part in layout.
    pub synced: EntitySet,
    /// The nodes to write to the layout tree, in order.
    pub node_syncs: Vec<NodeSync>,
    /// The entities to remove from the layout tree.
    pub removed: Vec<EntityId>,
    /// The nodes whose children changed because a ghost came or went.
    pub ghost_parents: EntitySet,
    /// The nodes whose children are synced again because one of them became
    /// independent or stopped being so.
    pub resync_children_of: EntitySet,
    /// The layout roots to lay out.
    pub dirty_roots: EntitySet,
}

impl FramePlan {
    /// Whether this is what has to be done about the changes of `frame`.
    pub open spec fn of(self, frame: Frame) -> bool {
        &&& self.synced@ == frame.synced()
        &&& self.node_syncs@ == frame.rows@.filter(|row: NodeRow| row_changed(row)).map_values(
            |row: NodeRow| row_sync(row),
        )
        &&& self.removed@ == frame.removed_nodes@.filter(
            |e: EntityId| !frame.synced().contains(e),
        )
        &&& self.ghost_parents@ == frame.ghost_parents()
        &&& self.resync_children_of@ == frame.resync_children_of()
        &&& self.dirty_roots@ == frame.dirty_roots()
    }
}

/// Whether the node of a row is written to the layout tree.
pub open spec fn row_changed(row: NodeRow) -> bool {
    row.target_changed || row.node_changed || row.content_changed
}

/// The write to the layout tree for the node of a row.
pub open spec fn row_sync(row: NodeRow) -> NodeSync {
    NodeSync {
        entity: row.entity,
        context: LayoutContext {
            scale_factor: row.scale_factor,
            physical_size: row.physical_size,
        },
        clear_context: row.content_changed && !row.measured,
    }
}

/// What `f` gives for the first `n` entities of `list`.
pub open spec fn image_of_first(
    list: Seq<EntityId>,
    n: int,
    f: spec_fn(EntityId) -> Option<EntityId>,
) -> Set<EntityId> {
    Set::new(|e: EntityId| exists|k: int| 0 <= k < n && f(#[trigger] list[k]) == Some(e))
}

/// What `f` gives for the entities of `list`.
pub open spec fn image(
    list: Seq<EntityId>,
    f: spec_fn(EntityId) -> Option<EntityId>,
) -> Set<EntityId> {
    image_of_first(list, list.len() as int, f)
}

proof fn lemma_image_step(list: Seq<EntityId>, n: int, f: spec_fn(EntityId) -> Option<EntityId>)
    requires
        0 <= n < list.len(),
    ensures
        image_of_first(list, n + 1, f) == (match f(list[n]) {
            Some(e) => image_of_first(list, n, f).insert(e),
            None => image_of_first(list, n, f),
        }),
{
    let next = match f(list[n]) {
        Some(e) => image_of_first(list, n, f).insert(e),
        None => image_of_first(list, n, f),
    };
    assert forall|e: EntityId| next.contains(e) implies image_of_first(list, n + 1, f).contains(
        e,
    ) by {
        if image_of_first(list, n, f).contains(e) {
            let k = choose|k: int| 0 <= k < n && f(#[trigger] list[k]) == Some(e);
            assert(f(list[k]) == Some(e));
        } else {
            assert(f(list[n]) == Some(e));
        }
    }
    assert(image_of_first(list, n + 1, f) =~= next);
}

impl LayoutRoots {
    /// The UI parent of an entity, as a function.
    pub open spec fn ui_parent_fn(self) -> spec_fn(EntityId) -> Option<EntityId> {
        |e: EntityId| self.ui_parent(e)
    }
}

impl UiTree {
    /// The closest UI node above an entity, as a function.
    pub open spec fn above_fn(self) -> spec_fn(EntityId) -> Option<EntityId> {
        |e: EntityId|
            if self.parents@.dom().contains(e) {
                Some(self.parents@[e])
            } else {
                None
            }
    }

    /// The closest UI node above an entity of `some`, as a function.
    pub open spec fn above_some_fn(
        self,
        some: Set<EntityId>,
    ) -> spec_fn(EntityId) -> Option<EntityId> {
        |e: EntityId|
            if some.contains(e) {
                (self.above_fn())(e)
            } else {
                None
            }
    }
}

impl Frame {
    /// Whether the hierarchy is sound, and the same as seen from below and from above: the
    /// node above each entity is its closest ancestor that is no ghost, the children of an
    /// entity are the nodes right below it, and what takes part in layout is a node.
    pub open spec fn wf(self) -> bool {
        &&& self.roots.wf()
        &&& self.tree.wf()
        &&& self.tree.parents@ == self.roots.closest_parents()
        &&& forall|p: EntityId, i: int|
            0 <= i < self.tree.kids(p).len() ==> self.is_ui_node(#[trigger] self.tree.kids(p)[i])
        &&& forall|e: EntityId| #[trigger] self.is_listed(e)
        &&& forall|i: int|
            0 <= i < self.rows@.len() ==> self.roots.nodes@.contains(
                (#[trigger] self.rows@[i]).entity,
            )
    }

    /// Whether `entity` is a node, and no ghost.
    pub open spec fn is_ui_node(self, entity: EntityId) -> bool {
        self.roots.nodes@.contains(entity) && !self.roots.ghosts@.contains(entity)
    }

    /// Whether `entity` is among the children of the entity above it, where it is a node.
    pub open spec fn is_listed(self, entity: EntityId) -> bool {
        self.is_ui_node(entity) && self.tree.parents@.dom().contains(entity) ==> self.tree.kids(
            self.tree.parents@[entity],
        ).contains(entity)
    }

    /// The nodes that take part in layout.
    pub open spec fn synced(self) -> Set<EntityId> {
        self.rows@.map_values(|row: NodeRow| row.entity).to_set()
    }

    /// The nodes of the rows that changed.
    pub open spec fn rows_changed(self) -> Set<EntityId> {
        self.rows@.filter(|row: NodeRow| row_changed(row)).map_values(
            |row: NodeRow| row.entity,
        ).to_set()
    }

    /// The nodes whose children changed because a ghost came or went: the closest node
    /// above each entity that became a ghost or stopped being one, and above each ghost
    /// that lost its children.
    pub open spec fn ghost_parents(self) -> Set<EntityId> {
        image(self.ghosts_changed@, self.tree.above_fn()).union(
            image(self.removed_children@, self.tree.above_some_fn(self.roots.ghosts@)),
        )
    }

    /// The nodes that became independent or stopped being so, in order.
    pub open spec fn independence_changed(self) -> Seq<EntityId> {
        (self.roots.added_independent@ + self.roots.removed_independent@).filter(
            |e: EntityId| self.synced().contains(e),
        )
    }

    /// The parents of the nodes that became independent or stopped being so.
    pub open spec fn resync_children_of(self) -> Set<EntityId> {
        image(self.independence_changed(), self.roots.ui_parent_fn())
    }

    /// Whether the layout or placement of `entity` changed.
    pub open spec fn changed(self, entity: EntityId) -> bool {
        ||| self.rows_changed().contains(entity)
        ||| self.removed_children@.contains(entity)
        ||| self.independence_changed().contains(entity)
        ||| self.resync_children_of().contains(entity)
        ||| self.roots.changed_children@.contains(entity)
        ||| self.roots.changed_parent@.contains(entity)
        ||| self.roots.removed_parent@.contains(entity)
        ||| self.roots.changed_geometry@.contains(entity)
        ||| self.ghost_parents().contains(entity)
        ||| self.tree.changed@.contains(entity)
    }

    /// The layout roots to lay out: those that a changed node belongs to.
    pub open spec fn dirty_roots(self) -> Set<EntityId> {
        Set::new(
            |root: EntityId|
                exists|e: EntityId|
                    #[trigger] self.changed(e) && self.synced().contains(e) && self.roots.root(e)
                        == root,
        )
    }

    /// Whether the hierarchy is sound, and the same as seen from below and from above (see
    /// [`Frame::wf`]).
    pub fn well_formed(&self) -> (r: bool)
        ensures
            r == self.wf(),
    {
        self.roots.well_formed() && self.tree.well_formed() && self.check_parents()
            && self.check_children_are_nodes() && self.check_children_are_listed()
            && self.check_rows()
    }

    fn check_rows(&self) -> (r: bool)
        ensures
            r == forall|i: int|
                0 <= i < self.rows@.len() ==> self.roots.nodes@.contains(
                    (#[trigger] self.rows@[i]).entity,
                ),
    {
        for i in 0..self.rows.len()
            invariant
                forall|k: int|
                    0 <= k < i ==> self.roots.nodes@.contains((#[trigger] self.rows@[k]).entity),
        {
            if !self.roots.nodes.contains(self.rows[i].entity) {
                assert(!self.roots.nodes@.contains(self.rows@[i as int].entity));
                return false;
            }
        }
        true
    }

    fn check_parents(&self) -> (r: bool)
        requires
            self.roots.wf(),
        ensures
            r == (self.tree.parents@ == self.roots.closest_parents()),
    {
        let ghost want = self.roots.closest_parents();
        let below = self.roots.parents.keys();
        for i in 0..below.len()
            invariant
                self.roots.wf(),
                want == self.roots.closest_parents(),
                forall|k: int|
                    0 <= k < i ==> closest(self.roots.parents@, self.roots.ghosts@, below@[k]) == (
                    self.tree.above_fn())(#[trigger] below@[k]),
        {
            let entity = below[i];
            let found = self.roots.closest_parent(entity);
            let noted = self.tree.parents.get(entity);
            if found != noted {
                assert(want.dom().contains(entity) != self.tree.parents@.dom().contains(entity)
                    || want[entity] != self.tree.parents@[entity]);
                return false;
            }
        }
        let noted = self.tree.parents.keys();
        for i in 0..noted.len()
            invariant
                self.roots.wf(),
                want == self.roots.closest_parents(),
                noted@.to_set() == self.tree.parents@.dom(),
                forall|k: int|
                    0 <= k < i ==> self.roots.parents@.dom().contains(#[trigger] noted@[k]),
        {
            if self.roots.parents.get(noted[i]).is_none() {
                proof {
                    lemma_closest_depth(self.roots.parents@, self.roots.ghosts@, noted@[i as int]);
                    assert(noted@.to_set().contains(noted@[i as int]));
                    assert(!want.dom().contains(noted@[i as int]));
                }
                return false;
            }
        }
        proof {
            assert forall|e: EntityId|
                closest(self.roots.parents@, self.roots.ghosts@, e) == #[trigger] (
                self.tree.above_fn())(e) by {
                lemma_closest_depth(self.roots.parents@, self.roots.ghosts@, e);
                assert(below@.to_set().contains(e) == self.roots.parents@.dom().contains(e));
                assert(noted@.to_set().contains(e) == self.tree.parents@.dom().contains(e));
                if self.roots.parents@.dom().contains(e) {
                    let k = choose|k: int| 0 <= k < below@.len() && below@[k] == e;
                    assert((self.tree.above_fn())(below@[k]) == (self.tree.above_fn())(e));
                } else if self.tree.parents@.dom().contains(e) {
                    let k = choose|k: int| 0 <= k < noted@.len() && noted@[k] == e;
                    assert(self.roots.parents@.dom().contains(noted@[k]));
                }
            }
            assert forall|e: EntityId|
                want.dom().contains(e) == #[trigger] self.tree.parents@.dom().contains(e) && (
                want.dom().contains(e) ==> want[e] == self.tree.parents@[e]) by {
                assert((self.tree.above_fn())(e) == closest(
                    self.roots.parents@,
                    self.roots.ghosts@,
                    e,
                ));
            }
            assert(self.tree.parents@ =~= want);
        }
        true
    }

    fn check_children_are_nodes(&self) -> (r: bool)
        ensures
            r == forall|p: EntityId, i: int|
                0 <= i < self.tree.kids(p).len() ==> self.is_ui_node(
                    #[trigger] self.tree.kids(p)[i],
                ),
    {
        let keys = self.tree.children.keys();
        for k in 0..keys.len()
            invariant
                keys@.to_set() == self.tree.children@.dom(),
                forall|a: int, i: int|
                    0 <= a < k && 0 <= i < self.tree.kids(keys@[a]).len() ==> self.is_ui_node(
                        #[trigger] self.tree.kids(keys@[a])[i],
                    ),
        {
            let kids = self.tree.children_of(keys[k]);
            for i in 0..kids.len()
                invariant
                    0 <= k < keys@.len(),
                    kids@ == self.tree.kids(keys@[k as int]),
                    forall|j: int|
                        0 <= j < i ==> self.is_ui_node(
                            #[trigger] self.tree.kids(keys@[k as int])[j],
                        ),
            {
                let kid = kids[i];
                if !self.roots.nodes.contains(kid) || self.roots.ghosts.contains(kid) {
                    assert(!self.is_ui_node(self.tree.kids(keys@[k as int])[i as int]));
                    return false;
                }
            }
        }
        assert forall|p: EntityId, i: int|
            0 <= i < self.tree.kids(p).len() implies self.is_ui_node(
            #[trigger] self.tree.kids(p)[i],
        ) by {
            assert(keys@.to_set().contains(p));
            let a = choose|a: int| 0 <= a < keys@.len() && keys@[a] == p;
            assert(self.tree.kids(keys@[a])[i] == self.tree.kids(p)[i]);
        }
        true
    }

    fn check_children_are_listed(&self) -> (r: bool)
        ensures
            r == forall|e: EntityId| #[trigger] self.is_listed(e),
    {
        let nodes = self.roots.nodes.elements();
        for k in 0..nodes.len()
            invariant
                forall|j: int| 0 <= j < k ==> #[trigger] self.is_listed(nodes@[j]),
                nodes@.to_set() == self.roots.nodes@,
        {
            let node = nodes[k];
            assert(nodes@.to_set().contains(node));
            if !self.roots.ghosts.contains(node) {
                match self.tree.parents.get(node) {
                    Some(parent) => {
                        let kids = self.tree.children_of(parent);
                        if !lists(&kids, node) {
                            assert(!self.is_listed(node));
                            return false;
                        }
                    },
                    None => {},
                }
            }
            assert(self.is_listed(nodes@[k as int]));
        }
        assert forall|e: EntityId| #[trigger] self.is_listed(e) by {
            if self.roots.nodes@.contains(e) {
                assert(nodes@.to_set().contains(e));
                let j = choose|j: int| 0 <= j < nodes@.len() && nodes@[j] == e;
                assert(self.is_listed(nodes@[j]));
            }
        }
        true
    }

    fn synced_nodes(&self) -> (r: EntitySet)
        ensures
            r@ == self.synced(),
    {
        let mut list: Vec<EntityId> = Vec::new();
        for i in 0..self.rows.len()
            invariant
                list@ == self.rows@.take(i as int).map_values(|row: NodeRow| row.entity),
        {
            list.push(self.rows[i].entity);
            assert(list@ =~= self.rows@.take(i + 1).map_values(|row: NodeRow| row.entity));
        }
        assert(self.rows@.take(self.rows@.len() as int) =~= self.rows@);
        EntitySet::from_list(&list)
    }

    /// The nodes to write to the layout tree, in order: those that changed.
    pub fn node_syncs(&self) -> (r: Vec<NodeSync>)
        ensures
            r@ == self.rows@.filter(|row: NodeRow| row_changed(row)).map_values(
                |row: NodeRow| row_sync(row),
            ),
    {
        let ghost keep = |row: NodeRow| row_changed(row);
        let ghost sync = |row: NodeRow| row_sync(row);
        let mut r: Vec<NodeSync> = Vec::new();
        assert(self.rows@.take(0).filter(keep) =~= Seq::empty()) by {
            reveal(Seq::filter);
        }
        for i in 0..self.rows.len()
            invariant
                keep == (|row: NodeRow| row_changed(row)),
                sync == (|row: NodeRow| row_sync(row)),
                r@ == self.rows@.take(i as int).filter(keep).map_values(sync),
        {
            let row = self.rows[i];
            proof {
                assert(self.rows@.take(i + 1) =~= self.rows@.take(i as int).push(row));
                self.rows@.take(i as int).lemma_filter_push(row, keep);
            }
            if row.target_changed || row.node_changed || row.content_changed {
                r.push(
                    NodeSync {
                        entity: row.entity,
                        context: LayoutContext::new(row.scale_factor, row.physical_size),
                        clear_context: row.content_changed && !row.measured,
                    },
                );
            }
            assert(r@ =~= self.rows@.take(i + 1).filter(keep).map_values(sync));
        }
        assert(self.rows@.take(self.rows@.len() as int) =~= self.rows@);
        r
    }

    /// The nodes whose children changed because a ghost came or went.
    fn find_ghost_parents(&self) -> (r: EntitySet)
        ensures
            r@ == self.ghost_parents(),
    {
        let ghost above = self.tree.above_fn();
        let ghost above_ghost = self.tree.above_some_fn(self.roots.ghosts@);
        let ghost lost = self.removed_children@;
        let mut r = EntitySet::new();
        assert(r@ =~= image_of_first(self.ghosts_changed@, 0, above));
        for i in 0..self.ghosts_changed.len()
            invariant
                above == self.tree.above_fn(),
                r@ == image_of_first(self.ghosts_changed@, i as int, above),
        {
            proof {
                lemma_image_step(self.ghosts_changed@, i as int, above);
            }
            match self.tree.parents.get(self.ghosts_changed[i]) {
                Some(parent) => {
                    r.insert(parent);
                },
                None => {},
            }
        }
        let ghost first = r@;
        assert(r@ =~= first.union(image_of_first(lost, 0, above_ghost)));
        for i in 0..self.removed_children.len()
            invariant
                lost == self.removed_children@,
                above_ghost == self.tree.above_some_fn(self.roots.ghosts@),
                r@ == first.union(image_of_first(lost, i as int, above_ghost)),
        {
            proof {
                lemma_image_step(lost, i as int, above_ghost);
            }
            let entity = self.removed_children[i];
            if self.roots.ghosts.contains(entity) {
                match self.tree.parents.get(entity) {
                    Some(parent) => {
                        r.insert(parent);
                    },
                    None => {},
                }
            }
            assert(r@ =~= first.union(image_of_first(lost, i + 1, above_ghost)));
        }
        r
    }

    /// The nodes that became independent or stopped being so.
    fn find_independence_changed(&self, synced: &EntitySet) -> (r: Vec<EntityId>)
        requires
            synced@ == self.synced(),
        ensures
            r@ == self.independence_changed(),
    {
        let ghost gained = self.roots.added_independent@;
        let ghost lost = self.roots.removed_independent@;
        let ghost keep = |e: EntityId| self.synced().contains(e);
        let mut r: Vec<EntityId> = Vec::new();
        keep_entities(&self.roots.added_independent, synced, &mut r);
        keep_entities(&self.roots.removed_independent, synced, &mut r);
        proof {
            Seq::filter_distributes_over_add(gained, lost, keep);
            assert(keep =~= kept_fn(synced@));
            assert(r@ =~= gained.filter(keep) + lost.filter(keep));
        }
        r
    }

    /// The layout roots to lay out: those that a node of `changed` belongs to.
    fn find_dirty_roots(&self, synced: &EntitySet, changed: &Vec<EntityId>) -> (r: EntitySet)
        requires
            self.wf(),
            synced@ == self.synced(),
            forall|e: EntityId| changed@.contains(e) <==> #[trigger] self.changed(e),
        ensures
            r@ == self.dirty_roots(),
    {
        let ghost up = self.roots.ui_parents();
        let ghost ind = self.roots.independent@;
        let ghost root_fn = |e: EntityId|
            if synced@.contains(e) {
                Some(self.roots.root(e))
            } else {
                None
            };
        proof {
            self.roots.lemma_ui_parents();
        }
        let mut memo = EntityLinks::new();
        let mut r = EntitySet::new();
        assert(r@ =~= image_of_first(changed@, 0, root_fn));
        for i in 0..changed.len()
            invariant
                self.wf(),
                acyclic(up),
                up == self.roots.ui_parents(),
                ind == self.roots.independent@,
                memo_sound(up, ind, memo@),
                root_fn == (|e: EntityId|
                    if synced@.contains(e) {
                        Some(self.roots.root(e))
                    } else {
                        None
                    }),
                r@ == image_of_first(changed@, i as int, root_fn),
        {
            proof {
                lemma_image_step(changed@, i as int, root_fn);
            }
            let entity = changed[i];
            if synced.contains(entity) {
                proof {
                    law_memo_is_transparent(up, ind, memo@, entity);
                }
                let root = self.roots.root_of(entity, &mut memo);
                r.insert(root);
            }
        }
        proof {
            assert forall|root: EntityId| r@.contains(root) implies self.dirty_roots().contains(
                root,
            ) by {
                let k = choose|k: int|
                    0 <= k < changed@.len() && root_fn(#[trigger] changed@[k]) == Some(root);
                assert(changed@.contains(changed@[k]));
                assert(self.changed(changed@[k]));
            }
            assert forall|root: EntityId| self.dirty_roots().contains(root) implies r@.contains(
                root,
            ) by {
                let e = choose|e: EntityId| #[trigger]
                    self.changed(e) && self.synced().contains(e) && self.roots.root(e) == root;
                assert(changed@.contains(e));
                let k = choose|k: int| 0 <= k < changed@.len() && changed@[k] == e;
                assert(root_fn(changed@[k]) == Some(root));
            }
            assert(r@ =~= self.dirty_roots());
        }
        r
    }

    /// Finds what has to be done about the changes of the frame, and forgets the
    /// placements of the nodes that are gone.
    pub fn plan(&self, placed: &mut Placements) -> (r: FramePlan)
        requires
            self.wf(),
        ensures
            r.of(*self),
            final(placed)@ == old(placed)@.restrict(self.synced()),
    {
        let synced = self.synced_nodes();
        let node_syncs = self.node_syncs();
        let ghost_parents = self.find_ghost_parents();

        let mut removed: Vec<EntityId> = Vec::new();
        let ghost gone = |e: EntityId| !self.synced().contains(e);
        assert(self.removed_nodes@.take(0).filter(gone) =~= Seq::empty()) by {
            reveal(Seq::filter);
        }
        for i in 0..self.removed_nodes.len()
            invariant
                synced@ == self.synced(),
                gone == (|e: EntityId| !self.synced().contains(e)),
                removed@ == self.removed_nodes@.take(i as int).filter(gone),
        {
            let entity = self.removed_nodes[i];
            proof {
                assert(self.removed_nodes@.take(i + 1) =~= self.removed_nodes@.take(i as int).push(
                    entity,
                ));
                self.removed_nodes@.take(i as int).lemma_filter_push(entity, gone);
            }
            if !synced.contains(entity) {
                removed.push(entity);
            }
        }
        assert(self.removed_nodes@.take(self.removed_nodes@.len() as int) =~= self.removed_nodes@);

        placed.retain(&synced);

        let independence_changed = self.find_independence_changed(&synced);
        let ghost moved = independence_changed@;
        let ghost parent = self.roots.ui_parent_fn();
        let mut resync_children_of = EntitySet::new();
        assert(resync_children_of@ =~= image_of_first(moved, 0, parent));
        for i in 0..independence_changed.len()
            invariant
                self.wf(),
                moved == independence_changed@,
                parent == self.roots.ui_parent_fn(),
                resync_children_of@ == image_of_first(moved, i as int, parent),
        {
            proof {
                lemma_image_step(moved, i as int, parent);
            }
            match self.roots.parent_of(independence_changed[i]) {
                Some(above) => {
                    resync_children_of.insert(above);
                },
                None => {},
            }
        }

        let mut changed: Vec<EntityId> = Vec::new();
        for i in 0..node_syncs.len()
            invariant
                changed@ == node_syncs@.take(i as int).map_values(|sync: NodeSync| sync.entity),
        {
            changed.push(node_syncs[i].entity);
            assert(changed@ =~= node_syncs@.take(i + 1).map_values(|sync: NodeSync| sync.entity));
        }
        assert(node_syncs@.take(node_syncs@.len() as int) =~= node_syncs@);
        let ghost rows = changed@;
        assert(rows =~= self.rows@.filter(|row: NodeRow| row_changed(row)).map_values(
            |row: NodeRow| row.entity,
        ));
        let resynced = resync_children_of.elements();
        let from_ghosts = ghost_parents.elements();
        let from_tree = self.tree.changed.elements();
        extend(&mut changed, &self.removed_children);
        extend(&mut changed, &independence_changed);
        extend(&mut changed, &resynced);
        extend(&mut changed, &self.roots.changed_children);
        extend(&mut changed, &self.roots.changed_parent);
        extend(&mut changed, &self.roots.removed_parent);
        extend(&mut changed, &self.roots.changed_geometry);
        extend(&mut changed, &from_ghosts);
        extend(&mut changed, &from_tree);
        assert forall|e: EntityId| changed@.contains(e) <==> #[trigger] self.changed(e) by {
            lemma_contains_sum(rows, self.removed_children@, e);
            let s1 = rows + self.removed_children@;
            lemma_contains_sum(s1, independence_changed@, e);
            let s2 = s1 + independence_changed@;
            lemma_contains_sum(s2, resynced@, e);
            let s3 = s2 + resynced@;
            lemma_contains_sum(s3, self.roots.changed_children@, e);
            let s4 = s3 + self.roots.changed_children@;
            lemma_contains_sum(s4, self.roots.changed_parent@, e);
            let s5 = s4 + self.roots.changed_parent@;
            lemma_contains_sum(s5, self.roots.removed_parent@, e);
            let s6 = s5 + self.roots.removed_parent@;
            lemma_contains_sum(s6, self.roots.changed_geometry@, e);
            let s7 = s6 + self.roots.changed_geometry@;
            lemma_contains_sum(s7, from_ghosts@, e);
            let s8 = s7 + from_ghosts@;
            lemma_contains_sum(s8, from_tree@, e);
            assert(rows.to_set().contains(e) == rows.contains(e));
            assert(resynced@.to_set().contains(e) == resynced@.contains(e));
            assert(from_ghosts@.to_set().contains(e) == from_ghosts@.contains(e));
            assert(from_tree@.to_set().contains(e) == from_tree@.contains(e));
        }
        let dirty_roots = self.find_dirty_roots(&synced, &changed);
        FramePlan { synced, node_syncs, removed, ghost_parents, resync_children_of, dirty_roots }
    }
}

spec fn kept_fn(kept: Set<EntityId>) -> spec_fn(EntityId) -> bool {
    |e: EntityId| kept.contains(e)
}

/// Appends the entities of `list` that `kept` holds.
fn keep_entities(list: &Vec<EntityId>, kept: &EntitySet, out: &mut Vec<EntityId>)
    ensures
        final(out)@ == old(out)@ + list@.filter(kept_fn(kept@)),
{
    let ghost start = out@;
    let ghost keep = kept_fn(kept@);
    assert(list@.take(0).filter(keep) =~= Seq::empty()) by {
        reveal(Seq::filter);
    }
    assert(out@ =~= start + list@.take(0).filter(keep));
    for i in 0..list.len()
        invariant
            keep == kept_fn(kept@),
            out@ == start + list@.take(i as int).filter(keep),
    {
        let entity = list[i];
        proof {
            assert(list@.take(i + 1) =~= list@.take(i as int).push(entity));
            list@.take(i as int).lemma_filter_push(entity, keep);
        }
        if kept.contains(entity) {
            out.push(entity);
        }
        assert(out@ =~= start + list@.take(i + 1).filter(keep));
    }
    assert(list@.take(list@.len() as int) =~= list@);
}

/// Whether `entity` is in `list`.
fn lists(list: &Vec<EntityId>, entity: EntityId) -> (r: bool)
    ensures
        r == list@.contains(entity),
{
    for i in 0..list.len()
        invariant
            forall|k: int| 0 <= k < i ==> list@[k] != entity,
    {
        if list[i] == entity {
            assert(list@[i as int] == entity);
            return true;
        }
    }
    false
}

/// Appends the entities of `list`.
fn extend(out: &mut Vec<EntityId>, list: &Vec<EntityId>)
    ensures
        final(out)@ == old(out)@ + list@,
{
    let ghost start = out@;
    assert(out@ =~= start + list@.take(0));
    for i in 0..list.len()
        invariant
            out@ == start + list@.take(i as int),
    {
        out.push(list[i]);
        assert(out@ =~= start + list@.take(i + 1));
    }
    assert(list@.take(list@.len() as int) =~= list@);
}

proof fn lemma_contains_sum(a: Seq<EntityId>, b: Seq<EntityId>, e: EntityId)
    ensures
        (a + b).contains(e) <==> a.contains(e) || b.contains(e),
{
    let s = a + b;
    if a.contains(e) {
        let k = choose|k: int| 0 <= k < a.len() && a[k] == e;
        assert(s[k] == e);
    }
    if b.contains(e) {
        let k = choose|k: int| 0 <= k < b.len() && b[k] == e;
        assert(s[a.len() + k] == e);
    }
}

/// The layout root of a node is a node.
pub proof fn lemma_root_is_node(frame: Frame, entity: EntityId)
    requires
        frame.wf(),
        frame.roots.nodes@.contains(entity),
    ensures
        frame.roots.nodes@.contains(frame.roots.root(entity)),
    decreases depth(frame.roots.parents@, entity),
{
    frame.roots.lemma_ui_parents();
    let up = frame.roots.ui_parents();
    if !frame.roots.independent@.contains(entity) && up.dom().contains(entity) {
        lemma_closest_depth(frame.roots.parents@, frame.roots.ghosts@, entity);
        lemma_root_is_node(frame, up[entity]);
    }
}

/// A dirty root is a node.
pub proof fn lemma_dirty_root_is_node(frame: Frame, root: EntityId)
    requires
        frame.wf(),
        frame.dirty_roots().contains(root),
    ensures
        frame.roots.nodes@.contains(root),
{
    let e = choose|e: EntityId| #[trigger]
        frame.changed(e) && frame.synced().contains(e) && frame.roots.root(e) == root;
    lemma_synced_is_node(frame, e);
    lemma_root_is_node(frame, e);
}

/// What takes part in layout is a node.
pub proof fn lemma_synced_is_node(frame: Frame, entity: EntityId)
    requires
        frame.wf(),
        frame.synced().contains(entity),
    ensures
        frame.roots.nodes@.contains(entity),
{
    let list = frame.rows@.map_values(|row: NodeRow| row.entity);
    let k = choose|k: int| 0 <= k < list.len() && list[k] == entity;
    assert(frame.rows@[k].entity == entity);
}

/// The dirty roots are layout roots.
pub proof fn law_dirty_roots_are_roots(frame: Frame, root: EntityId)
    requires
        frame.wf(),
        frame.dirty_roots().contains(root),
    ensures
        is_layout_root(frame.roots.ui_parents(), frame.roots.independent@, root),
        frame.roots.root(root) == root,
{
    frame.roots.lemma_ui_parents();
    let e = choose|e: EntityId| #[trigger]
        frame.changed(e) && frame.synced().contains(e) && frame.roots.root(e) == root;
    law_root_is_nearest(frame.roots.ui_parents(), frame.roots.independent@, e);
    law_root_of_root(frame.roots.ui_parents(), frame.roots.independent@, e);
}

/// Changes within one layout root leave every other root clean.
pub proof fn law_change_stays_in_root(frame: Frame, root: EntityId)
    requires
        frame.wf(),
        forall|e: EntityId| #[trigger]
            frame.changed(e) && frame.synced().contains(e) ==> frame.roots.root(e) == root,
    ensures
        forall|other: EntityId| #[trigger]
            frame.dirty_roots().contains(other) ==> other == root,
{
}

/// The layout root of every changed node is dirty.
pub proof fn law_change_dirties_root(frame: Frame, entity: EntityId)
    requires
        frame.wf(),
        frame.changed(entity),
        frame.synced().contains(entity),
    ensures
        frame.dirty_roots().contains(frame.roots.root(entity)),
{
}

/// A node that became independent or stopped being so dirties its own layout root and
/// that of its parent, whose children are synced again.
pub proof fn law_independence_dirties_both(frame: Frame, entity: EntityId)
    requires
        frame.wf(),
        frame.roots.added_independent@.contains(entity)
            || frame.roots.removed_independent@.contains(entity),
        frame.synced().contains(entity),
    ensures
        frame.dirty_roots().contains(frame.roots.root(entity)),
        frame.roots.ui_parent(entity) matches Some(parent) ==> {
            &&& frame.resync_children_of().contains(parent)
            &&& frame.synced().contains(parent) ==> frame.dirty_roots().contains(
                frame.roots.root(parent),
            )
        },
{
    let moved = frame.roots.added_independent@ + frame.roots.removed_independent@;
    let keep = |e: EntityId| frame.synced().contains(e);
    lemma_contains_sum(
        frame.roots.added_independent@,
        frame.roots.removed_independent@,
        entity,
    );
    let i = choose|i: int| 0 <= i < moved.len() && moved[i] == entity;
    moved.lemma_filter_contains(keep, i);
    let list = frame.independence_changed();
    assert(list.contains(entity));
    assert(frame.changed(entity));
    let k = choose|k: int| 0 <= k < list.len() && list[k] == entity;
    match frame.roots.ui_parent(entity) {
        Some(parent) => {
            assert((frame.roots.ui_parent_fn())(list[k]) == Some(parent));
            assert(frame.resync_children_of().contains(parent));
            assert(frame.changed(parent));
        },
        None => {},
    }
}

/// A node that lost its parent is a layout root of its own, and dirty.
pub proof fn law_unparented_is_dirty(frame: Frame, entity: EntityId)
    requires
        frame.wf(),
        frame.roots.removed_parent@.contains(entity),
        frame.synced().contains(entity),
        frame.roots.ui_parent(entity) is None,
    ensures
        frame.dirty_roots().contains(entity),
{
    frame.roots.lemma_ui_parents();
    assert(frame.changed(entity));
    assert(frame.roots.root(entity) == entity);
}

/// Where nothing changed, no root is dirty and no node is written.
pub proof fn law_still_frame_is_clean(frame: Frame)
    requires
        forall|e: EntityId| !#[trigger] frame.changed(e),
    ensures
        frame.dirty_roots() == Set::<EntityId>::empty(),
        frame.rows@.filter(|row: NodeRow| row_changed(row)).len() == 0,
{
    assert(frame.dirty_roots() =~= Set::<EntityId>::empty());
    let rows = frame.rows@.filter(|row: NodeRow| row_changed(row));
    if rows.len() > 0 {
        let list = rows.map_values(|row: NodeRow| row.entity);
        assert(list[0] == rows[0].entity);
        assert(list.contains(rows[0].entity));
        assert(frame.changed(rows[0].entity));
    }
}

/// The places in `list` of the elements that a filter keeps, in order.
pub proof fn lemma_filter_places<A>(list: Seq<A>, keep: spec_fn(A) -> bool) -> (at: Seq<int>)
    ensures
        at.len() == list.filter(keep).len(),
        forall|k: int|
            0 <= k < at.len() ==> 0 <= #[trigger] at[k] < list.len() && keep(list[at[k]])
                && list.filter(keep)[k] == list[at[k]],
        forall|j: int, k: int| 0 <= j < k < at.len() ==> #[trigger] at[j] < #[trigger] at[k],
        forall|i: int| 0 <= i < list.len() && keep(#[trigger] list[i]) ==> at.contains(i),
    decreases list.len(),
{
    if list.len() == 0 {
        assert(list.filter(keep) =~= Seq::empty()) by {
            reveal(Seq::filter);
        }
        Seq::empty()
    } else {
        let less = list.drop_last();
        let before = lemma_filter_places(less, keep);
        assert(less.push(list.last()) =~= list);
        less.lemma_filter_push(list.last(), keep);
        let at = if keep(list.last()) {
            before.push(list.len() - 1)
        } else {
            before
        };
        assert forall|k: int| 0 <= k < at.len() implies 0 <= #[trigger] at[k] < list.len() && keep(
            list[at[k]],
        ) && list.filter(keep)[k] == list[at[k]] by {
            if k < before.len() {
                assert(at[k] == before[k]);
                assert(less[before[k]] == list[at[k]]);
            }
        }
        assert forall|j: int, k: int| 0 <= j < k < at.len() implies #[trigger] at[j]
            < #[trigger] at[k] by {
            assert(at[j] == before[j]);
            if k < before.len() {
                assert(at[k] == before[k]);
            }
        }
        assert forall|i: int| 0 <= i < list.len() && keep(#[trigger] list[i]) implies at.contains(
            i,
        ) by {
            if i < less.len() {
                assert(less[i] == list[i]);
                let k = choose|k: int| 0 <= k < before.len() && before[k] == i;
                assert(at[k] == i);
            } else {
                assert(at[before.len() as int] == i);
            }
        }
        at
    }
}

/// The nodes that are written to the layout tree are those of the rows with a mark, in the
/// order of the rows: the k-th is that of the row at the k-th of the places that are
/// returned, with its scale factor and the size of its target. What the layout tree
/// measures a node with is dropped where its content changed and has no measure.
pub proof fn law_marked_rows_are_written(frame: Frame, plan: FramePlan) -> (at: Seq<int>)
    requires
        plan.of(frame),
    ensures
        at.len() == plan.node_syncs@.len(),
        forall|k: int|
            0 <= k < at.len() ==> 0 <= #[trigger] at[k] < frame.rows@.len() && {
                let row = frame.rows@[at[k]];
                let sync = plan.node_syncs@[k];
                &&& row.node_changed || row.content_changed || row.target_changed
                &&& sync.entity == row.entity
                &&& sync.context.scale_factor == row.scale_factor
                &&& sync.context.physical_size == row.physical_size
                &&& sync.clear_context <==> row.content_changed && !row.measured
            },
        forall|j: int, k: int| 0 <= j < k < at.len() ==> #[trigger] at[j] < #[trigger] at[k],
        forall|i: int|
            0 <= i < frame.rows@.len() && ((#[trigger] frame.rows@[i]).node_changed
                || frame.rows@[i].content_changed || frame.rows@[i].target_changed)
                ==> at.contains(i),
{
    lemma_filter_places(frame.rows@, |row: NodeRow| row_changed(row))
}

/// What is removed from the layout tree are the entities that stopped being nodes and have
/// no row, in order: the k-th is the one at the k-th of the places that are returned.
pub proof fn law_gone_nodes_are_removed(frame: Frame, plan: FramePlan) -> (at: Seq<int>)
    requires
        plan.of(frame),
    ensures
        at.len() == plan.removed@.len(),
        forall|k: int|
            0 <= k < at.len() ==> 0 <= #[trigger] at[k] < frame.removed_nodes@.len()
                && plan.removed@[k] == frame.removed_nodes@[at[k]] && forall|i: int|
                0 <= i < frame.rows@.len() ==> (#[trigger] frame.rows@[i]).entity
                    != plan.removed@[k],
        forall|j: int, k: int| 0 <= j < k < at.len() ==> #[trigger] at[j] < #[trigger] at[k],
        forall|n: int|
            0 <= n < frame.removed_nodes@.len() && !plan.synced@.contains(
                #[trigger] frame.removed_nodes@[n],
            ) ==> at.contains(n),
{
    assert forall|e: EntityId|
        !(#[trigger] frame.synced().contains(e)) <==> forall|i: int|
            0 <= i < frame.rows@.len() ==> (#[trigger] frame.rows@[i]).entity != e by {
        law_rows_take_part(frame, e);
    }
    lemma_filter_places(frame.removed_nodes@, |e: EntityId| !frame.synced().contains(e))
}

/// What takes part in layout are the entities that have a row.
pub proof fn law_rows_take_part(frame: Frame, entity: EntityId)
    ensures
        frame.synced().contains(entity) <==> exists|i: int|
            0 <= i < frame.rows@.len() && (#[trigger] frame.rows@[i]).entity == entity,
{
    let list = frame.rows@.map_values(|row: NodeRow| row.entity);
    if frame.synced().contains(entity) {
        let k = choose|k: int| 0 <= k < list.len() && list[k] == entity;
        assert(frame.rows@[k].entity == entity);
    }
    if exists|i: int| 0 <= i < frame.rows@.len() && (#[trigger] frame.rows@[i]).entity == entity {
        let i = choose|i: int|
            0 <= i < frame.rows@.len() && (#[trigger] frame.rows@[i]).entity == entity;
        assert(list[i] == entity);
    }
}

/// The children of a node are written again because of a ghost exactly where the node is
/// the closest one above an entity that became a ghost or stopped being one, or above a
/// ghost that lost its children.
pub proof fn law_ghost_parents(frame: Frame, plan: FramePlan, node: EntityId)
    requires
        plan.of(frame),
    ensures
        plan.ghost_parents@.contains(node) <==> exists|e: EntityId|
            {
                &&& frame.tree.parents@.dom().contains(e)
                &&& #[trigger] frame.tree.parents@[e] == node
                &&& frame.ghosts_changed@.contains(e) || (frame.removed_children@.contains(e)
                    && frame.roots.ghosts@.contains(e))
            },
{
    let above = frame.tree.above_fn();
    let above_ghost = frame.tree.above_some_fn(frame.roots.ghosts@);
    let moved = frame.ghosts_changed@;
    let lost = frame.removed_children@;
    if image(moved, above).contains(node) {
        let k = choose|k: int| 0 <= k < moved.len() && above(#[trigger] moved[k]) == Some(node);
        assert(moved.contains(moved[k]));
        assert(frame.tree.parents@[moved[k]] == node);
    }
    if image(lost, above_ghost).contains(node) {
        let k = choose|k: int|
            0 <= k < lost.len() && above_ghost(#[trigger] lost[k]) == Some(node);
        assert(lost.contains(lost[k]));
        assert(frame.tree.parents@[lost[k]] == node);
    }
    assert forall|e: EntityId|
        frame.tree.parents@.dom().contains(e) && #[trigger] frame.tree.parents@[e] == node && (
        moved.contains(e) || (lost.contains(e) && frame.roots.ghosts@.contains(e))) implies
        plan.ghost_parents@.contains(node) by {
        if moved.contains(e) {
            let k = choose|k: int| 0 <= k < moved.len() && moved[k] == e;
            assert(above(moved[k]) == Some(node));
        } else {
            let k = choose|k: int| 0 <= k < lost.len() && lost[k] == e;
            assert(above_ghost(lost[k]) == Some(node));
        }
    }
}

/// The children of a node are written again because of independence exactly where it is
/// the UI parent of an entity with a row that became independent or stopped being so.
pub proof fn law_resynced_parents(frame: Frame, plan: FramePlan, node: EntityId)
    requires
        plan.of(frame),
    ensures
        plan.resync_children_of@.contains(node) <==> exists|e: EntityId|
            {
                &&& #[trigger] frame.roots.ui_parent(e) == Some(node)
                &&& frame.roots.added_independent@.contains(e)
                    || frame.roots.removed_independent@.contains(e)
                &&& exists|i: int| 0 <= i < frame.rows@.len() && (#[trigger] frame.rows@[i]).entity == e
            },
{
    let list = frame.independence_changed();
    let parent = frame.roots.ui_parent_fn();
    if plan.resync_children_of@.contains(node) {
        let k = choose|k: int| 0 <= k < list.len() && parent(#[trigger] list[k]) == Some(node);
        assert(list.contains(list[k]));
        lemma_independence_changed(frame, list[k]);
        assert(frame.roots.ui_parent(list[k]) == Some(node));
    }
    assert forall|e: EntityId|
        {
            &&& #[trigger] frame.roots.ui_parent(e) == Some(node)
            &&& frame.roots.added_independent@.contains(e)
                || frame.roots.removed_independent@.contains(e)
            &&& exists|i: int| 0 <= i < frame.rows@.len() && (#[trigger] frame.rows@[i]).entity == e
        } implies plan.resync_children_of@.contains(node) by {
        lemma_independence_changed(frame, e);
        let k = choose|k: int| 0 <= k < list.len() && list[k] == e;
        assert(parent(list[k]) == Some(node));
    }
}

proof fn lemma_independence_changed(frame: Frame, e: EntityId)
    ensures
        frame.independence_changed().contains(e) <==> {
            &&& frame.roots.added_independent@.contains(e)
                || frame.roots.removed_independent@.contains(e)
            &&& exists|i: int| 0 <= i < frame.rows@.len() && (#[trigger] frame.rows@[i]).entity == e
        },
{
    let all = frame.roots.added_independent@ + frame.roots.removed_independent@;
    let keep = |e: EntityId| frame.synced().contains(e);
    law_rows_take_part(frame, e);
    lemma_contains_sum(frame.roots.added_independent@, frame.roots.removed_independent@, e);
    if frame.independence_changed().contains(e) {
        let k = choose|k: int|
            0 <= k < frame.independence_changed().len() && frame.independence_changed()[k] == e;
        all.lemma_filter_pred(keep, k);
        all.lemma_filter_contains_rev(keep, e);
    }
    if all.contains(e) && frame.synced().contains(e) {
        let i = choose|i: int| 0 <= i < all.len() && all[i] == e;
        all.lemma_filter_contains(keep, i);
    }
}

proof fn lemma_rows_changed(frame: Frame, e: EntityId)
    ensures
        frame.rows_changed().contains(e) <==> exists|i: int|
            {
                &&& 0 <= i < frame.rows@.len()
                &&& (#[trigger] frame.rows@[i]).entity == e
                &&& frame.rows@[i].node_changed || frame.rows@[i].content_changed
                    || frame.rows@[i].target_changed
            },
{
    let at = lemma_filter_places(frame.rows@, |row: NodeRow| row_changed(row));
    let kept = frame.rows@.filter(|row: NodeRow| row_changed(row));
    let list = kept.map_values(|row: NodeRow| row.entity);
    if frame.rows_changed().contains(e) {
        let k = choose|k: int| 0 <= k < list.len() && list[k] == e;
        assert(frame.rows@[at[k]].entity == e);
    }
    assert forall|i: int|
        {
            &&& 0 <= i < frame.rows@.len()
            &&& (#[trigger] frame.rows@[i]).entity == e
            &&& frame.rows@[i].node_changed || frame.rows@[i].content_changed
                || frame.rows@[i].target_changed
        } implies frame.rows_changed().contains(e) by {
        let k = choose|k: int| 0 <= k < at.len() && at[k] == i;
        assert(list[k] == e);
    }
}

/// A root is dirty exactly where an entity with a row belongs to it whose row has a mark,
/// which lost its children or a parent, was moved to another parent, had its children or
/// its geometry changed, became independent or stopped being so, or is the parent of one
/// with a row that did, or the closest node above a ghost that came, went or lost its
/// children.
pub proof fn law_roots_of_changes_are_dirty(frame: Frame, plan: FramePlan, root: EntityId)
    requires
        plan.of(frame),
    ensures
        plan.dirty_roots@.contains(root) <==> exists|e: EntityId|
            {
                &&& #[trigger] frame.roots.root(e) == root
                &&& exists|i: int| 0 <= i < frame.rows@.len() && (#[trigger] frame.rows@[i]).entity == e
                &&& {
                    ||| exists|i: int|
                        {
                            &&& 0 <= i < frame.rows@.len()
                            &&& (#[trigger] frame.rows@[i]).entity == e
                            &&& frame.rows@[i].node_changed || frame.rows@[i].content_changed
                                || frame.rows@[i].target_changed
                        }
                    ||| frame.removed_children@.contains(e)
                    ||| frame.roots.changed_children@.contains(e)
                    ||| frame.roots.changed_parent@.contains(e)
                    ||| frame.roots.removed_parent@.contains(e)
                    ||| frame.roots.changed_geometry@.contains(e)
                    ||| frame.tree.changed@.contains(e)
                    ||| frame.roots.added_independent@.contains(e)
                    ||| frame.roots.removed_independent@.contains(e)
                    ||| plan.resync_children_of@.contains(e)
                    ||| plan.ghost_parents@.contains(e)
                }
            },
{
    assert forall|e: EntityId| #[trigger] frame.roots.root(e) == root implies (frame.changed(e)
        && frame.synced().contains(e) <==> {
        &&& exists|i: int| 0 <= i < frame.rows@.len() && (#[trigger] frame.rows@[i]).entity == e
        &&& {
            ||| exists|i: int|
                {
                    &&& 0 <= i < frame.rows@.len()
                    &&& (#[trigger] frame.rows@[i]).entity == e
                    &&& frame.rows@[i].node_changed || frame.rows@[i].content_changed
                        || frame.rows@[i].target_changed
                }
            ||| frame.removed_children@.contains(e)
            ||| frame.roots.changed_children@.contains(e)
            ||| frame.roots.changed_parent@.contains(e)
            ||| frame.roots.removed_parent@.contains(e)
            ||| frame.roots.changed_geometry@.contains(e)
            ||| frame.tree.changed@.contains(e)
            ||| frame.roots.added_independent@.contains(e)
            ||| frame.roots.removed_independent@.contains(e)
            ||| plan.resync_children_of@.contains(e)
            ||| plan.ghost_parents@.contains(e)
        }
    }) by {
        law_rows_take_part(frame, e);
        lemma_independence_changed(frame, e);
        lemma_rows_changed(frame, e);
    }
}

/// A frame is well formed exactly where no entity is its own ancestor, the node above each
/// entity is its nearest ancestor that is no ghost, the children of each are the nodes
/// that it is above, and what has a row is a node.
pub proof fn law_well_formed_frame(frame: Frame)
    requires
        frame.roots.parents@.dom().finite(),
        frame.tree.parents@.dom().finite(),
    ensures
        frame.wf() <==> {
            &&& forall|e: EntityId, n: nat|
                n > 0 ==> #[trigger] ancestor(frame.roots.parents@, e, n) != Some(e)
            &&& forall|e: EntityId|
                closest(frame.roots.parents@, frame.roots.ghosts@, e) == (
                if #[trigger] frame.tree.parents@.dom().contains(e) {
                    Some(frame.tree.parents@[e])
                } else {
                    None
                })
            &&& forall|p: EntityId, i: int|
                0 <= i < frame.tree.kids(p).len() ==> {
                    let kid = #[trigger] frame.tree.kids(p)[i];
                    &&& frame.roots.nodes@.contains(kid) && !frame.roots.ghosts@.contains(kid)
                    &&& frame.tree.parents@.dom().contains(kid) && frame.tree.parents@[kid] == p
                }
            &&& forall|e: EntityId| #[trigger]
                frame.roots.nodes@.contains(e) && !frame.roots.ghosts@.contains(e)
                    && frame.tree.parents@.dom().contains(e) ==> frame.tree.kids(
                    frame.tree.parents@[e],
                ).contains(e)
            &&& forall|i: int|
                0 <= i < frame.rows@.len() ==> frame.roots.nodes@.contains(
                    (#[trigger] frame.rows@[i]).entity,
                )
        },
{
    law_chains_end_without_loops(frame.roots.parents@);
    if frame.roots.wf() {
        frame.roots.lemma_ui_parents();
    }
    if forall|e: EntityId|
        closest(frame.roots.parents@, frame.roots.ghosts@, e) == (
        if #[trigger] frame.tree.parents@.dom().contains(e) {
            Some(frame.tree.parents@[e])
        } else {
            None
        }) {
        assert(frame.tree.parents@ =~= frame.roots.closest_parents());
    }
    if frame.tree.parents@ == frame.roots.closest_parents() {
        assert forall|e: EntityId|
            closest(frame.roots.parents@, frame.roots.ghosts@, e) == (
            if #[trigger] frame.tree.parents@.dom().contains(e) {
                Some(frame.tree.parents@[e])
            } else {
                None
            }) by {
            assert(frame.tree.parents@.dom().contains(e)
                == frame.roots.closest_parents().dom().contains(e));
        }
    }
    if forall|e: EntityId| #[trigger] frame.is_listed(e) {
        assert forall|e: EntityId| #[trigger]
            frame.roots.nodes@.contains(e) && !frame.roots.ghosts@.contains(e)
                && frame.tree.parents@.dom().contains(e) implies frame.tree.kids(
            frame.tree.parents@[e],
        ).contains(e) by {
            assert(frame.is_listed(e));
        }
    }
}

} // verus!
