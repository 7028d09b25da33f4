//! Writing the children of nodes to the layout tree.
use crate::entity::{EntityId, EntitySet};
use crate::frame::{lemma_filter_places, Frame, FramePlan};
use vstd::prelude::*;

verus! {

/// The children to give to a node of the layout tree.
pub struct ChildrenUpdate {
    pub entity: EntityId,
    pub children: Vec<EntityId>,
}

impl View for ChildrenUpdate {
    type V = (EntityId, Seq<EntityId>);

    open spec fn view(&self) -> (EntityId, Seq<EntityId>) {
        (self.entity, self.children@)
    }
}

/// The updates of a list, by their views.
pub open spec fn update_views(updates: Seq<ChildrenUpdate>) -> Seq<(EntityId, Seq<EntityId>)> {
    updates.map_values(|update: ChildrenUpdate| update@)
}

impl Frame {
    /// The children of `entity` that are laid out with it: all but the independent ones.
    pub open spec fn layout_children(self, entity: EntityId) -> Seq<EntityId> {
        self.tree.kids(entity).filter(|child: EntityId| !self.roots.independent@.contains(child))
    }

    /// Whether the children of `entity` changed: they did in the hierarchy, one of them
    /// became independent or stopped being so, a ghost between came or went, or one of
    /// them is new.
    pub open spec fn children_changed(self, entity: EntityId) -> bool {
        ||| self.tree.changed@.contains(entity)
        ||| self.resync_children_of().contains(entity)
        ||| self.ghost_parents().contains(entity)
        ||| exists|i: int|
            0 <= i < self.tree.kids(entity).len() && self.added@.contains(
                #[trigger] self.tree.kids(entity)[i],
            )
    }

    /// Whether the children of `entity` are written to the layout tree, where `surface`
    /// are the nodes that the layout tree has.
    pub open spec fn needs_children(self, surface: Set<EntityId>, entity: EntityId) -> bool {
        surface.contains(entity) && (self.added@.contains(entity) || self.children_changed(entity))
    }

    /// The children to write to the layout tree for the nodes that are laid out with
    /// `entity`, each before those under it.
    pub open spec fn children_updates(
        self,
        surface: Set<EntityId>,
        entity: EntityId,
    ) -> Seq<(EntityId, Seq<EntityId>)> {
        self.tree.preorder(self.roots.independent@, entity).filter(
            |e: EntityId| self.needs_children(surface, e),
        ).map_values(|e: EntityId| (e, self.layout_children(e)))
    }

    /// The children of `entity` that are laid out with it.
    fn find_layout_children(&self, entity: EntityId) -> (r: Vec<EntityId>)
        ensures
            r@ == self.layout_children(entity),
    {
        let ghost keep = |child: EntityId| !self.roots.independent@.contains(child);
        let kids = self.tree.children_of(entity);
        let mut r: Vec<EntityId> = Vec::new();
        assert(kids@.take(0).filter(keep) =~= Seq::empty()) by {
            reveal(Seq::filter);
        }
        for i in 0..kids.len()
            invariant
                keep == (|child: EntityId| !self.roots.independent@.contains(child)),
                r@ == kids@.take(i as int).filter(keep),
        {
            let child = kids[i];
            proof {
                assert(kids@.take(i + 1) =~= kids@.take(i as int).push(child));
                kids@.take(i as int).lemma_filter_push(child, keep);
            }
            if !self.roots.independent.contains(child) {
                r.push(child);
            }
        }
        assert(kids@.take(kids@.len() as int) =~= kids@);
        r
    }

    /// Whether the children of `entity` are written to the layout tree.
    fn check_children(&self, plan: &FramePlan, surface: &EntitySet, entity: EntityId) -> (r: bool)
        requires
            plan.of(*self),
        ensures
            r == self.needs_children(surface@, entity),
    {
        if !surface.contains(entity) {
            return false;
        }
        if self.added.contains(entity) || self.tree.changed.contains(entity)
            || plan.resync_children_of.contains(entity) || plan.ghost_parents.contains(entity) {
            return true;
        }
        let kids = self.tree.children_of(entity);
        for i in 0..kids.len()
            invariant
                kids@ == self.tree.kids(entity),
                surface@.contains(entity),
                forall|k: int|
                    0 <= k < i ==> !self.added@.contains(#[trigger] self.tree.kids(entity)[k]),
        {
            assert(kids@[i as int] == self.tree.kids(entity)[i as int]);
            if self.added.contains(kids[i]) {
                return true;
            }
        }
        false
    }

    /// The children to write to the layout tree for every node in `entity`'s layout tree
    /// that needs it, leaving independent children (and their subtrees) out: they are
    /// layout roots of their own.
    ///
    /// `surface` are the nodes that the layout tree has.
    pub fn update_children_recursively(
        &self,
        plan: &FramePlan,
        surface: &EntitySet,
        entity: EntityId,
    ) -> (r: Vec<ChildrenUpdate>)
        requires
            self.wf(),
            plan.of(*self),
        ensures
            update_views(r@) == self.children_updates(surface@, entity),
            r@.len() == self.children_updates(surface@, entity).len(),
            forall|k: int|
                0 <= k < r@.len() ==> (#[trigger] r@[k]).entity == self.children_updates(
                    surface@,
                    entity,
                )[k].0 && r@[k].children@ == self.children_updates(surface@, entity)[k].1,
    {
        let ghost needs = |e: EntityId| self.needs_children(surface@, e);
        let ghost update = |e: EntityId| (e, self.layout_children(e));
        let mut nodes: Vec<EntityId> = Vec::new();
        self.tree.walk(&self.roots.independent, entity, &mut nodes);
        assert(nodes@ =~= self.tree.preorder(self.roots.independent@, entity));
        let mut r: Vec<ChildrenUpdate> = Vec::new();
        assert(nodes@.take(0).filter(needs) =~= Seq::empty()) by {
            reveal(Seq::filter);
        }
        assert(update_views(r@) =~= nodes@.take(0).filter(needs).map_values(update));
        for i in 0..nodes.len()
            invariant
                plan.of(*self),
                needs == (|e: EntityId| self.needs_children(surface@, e)),
                update == (|e: EntityId| (e, self.layout_children(e))),
                update_views(r@) == nodes@.take(i as int).filter(needs).map_values(update),
        {
            let node = nodes[i];
            let ghost before = r@;
            proof {
                assert(nodes@.take(i + 1) =~= nodes@.take(i as int).push(node));
                nodes@.take(i as int).lemma_filter_push(node, needs);
            }
            if self.check_children(plan, surface, node) {
                let children = self.find_layout_children(node);
                r.push(ChildrenUpdate { entity: node, children });
                assert(update_views(r@) =~= update_views(before).push(update(node)));
            }
            assert(update_views(r@) =~= nodes@.take(i + 1).filter(needs).map_values(update));
        }
        assert(nodes@.take(nodes@.len() as int) =~= nodes@);
        assert forall|k: int| 0 <= k < r@.len() implies (#[trigger] r@[k])@ == update_views(
            r@,
        )[k] by {}
        r
    }
}

/// The nodes whose children are written for a root are in its layout tree, and in the
/// tree that lays them out; and they are given no independent children, which are layout
/// roots of their own.
pub proof fn law_updates_stay_in_layout_tree(
    frame: Frame,
    surface: Set<EntityId>,
    root: EntityId,
    i: int,
)
    requires
        frame.wf(),
        0 <= i < frame.children_updates(surface, root).len(),
    ensures
        ({
            let (entity, children) = frame.children_updates(surface, root)[i];
            &&& frame.tree.preorder(frame.roots.independent@, root).contains(entity)
            &&& surface.contains(entity)
            &&& forall|k: int|
                0 <= k < children.len() ==> !frame.roots.independent@.contains(
                    #[trigger] children[k],
                ) && frame.tree.kids(entity).contains(children[k])
        }),
{
    let needs = |e: EntityId| frame.needs_children(surface, e);
    let all = frame.tree.preorder(frame.roots.independent@, root);
    let (entity, children) = frame.children_updates(surface, root)[i];
    all.lemma_filter_pred(needs, i);
    assert(all.filter(needs).contains(entity));
    all.lemma_filter_contains_rev(needs, entity);
    let own = |child: EntityId| !frame.roots.independent@.contains(child);
    assert forall|k: int| 0 <= k < children.len() implies !frame.roots.independent@.contains(
        #[trigger] children[k],
    ) && frame.tree.kids(entity).contains(children[k]) by {
        frame.tree.kids(entity).lemma_filter_pred(own, k);
        assert(children.contains(children[k]));
        frame.tree.kids(entity).lemma_filter_contains_rev(own, children[k]);
    }
}

/// The children that a node is laid out with are all its children but the independent
/// ones, in order: the k-th is the one at the k-th of the places that are returned.
pub proof fn law_layout_children_are_the_dependent_ones(frame: Frame, entity: EntityId) -> (at: Seq<
    int,
>)
    ensures
        at.len() == frame.layout_children(entity).len(),
        forall|k: int|
            0 <= k < at.len() ==> 0 <= #[trigger] at[k] < frame.tree.kids(entity).len()
                && frame.layout_children(entity)[k] == frame.tree.kids(entity)[at[k]]
                && !frame.roots.independent@.contains(frame.layout_children(entity)[k]),
        forall|j: int, k: int| 0 <= j < k < at.len() ==> #[trigger] at[j] < #[trigger] at[k],
        forall|i: int|
            0 <= i < frame.tree.kids(entity).len() && !frame.roots.independent@.contains(
                #[trigger] frame.tree.kids(entity)[i],
            ) ==> at.contains(i),
{
    lemma_filter_places(
        frame.tree.kids(entity),
        |child: EntityId| !frame.roots.independent@.contains(child),
    )
}

/// The nodes whose children are written for a root are, in order, those of its layout tree
/// that the tree that lays them out has and that are new, have a new child, or had their
/// children changed, also by a child that became independent or stopped being so, or by a
/// ghost. Each is given all its children but the independent ones.
pub proof fn law_changed_children_are_written(
    frame: Frame,
    plan: FramePlan,
    surface: Set<EntityId>,
    root: EntityId,
) -> (at: Seq<int>)
    requires
        frame.wf(),
        plan.of(frame),
    ensures
        ({
            let all = frame.tree.preorder(frame.roots.independent@, root);
            let updates = frame.children_updates(surface, root);
            &&& at.len() == updates.len()
            &&& forall|k: int|
                0 <= k < at.len() ==> 0 <= #[trigger] at[k] < all.len() && updates[k].0
                    == all[at[k]] && updates[k].1 == frame.tree.kids(updates[k].0).filter(
                    |child: EntityId| !frame.roots.independent@.contains(child),
                )
            &&& forall|j: int, k: int| 0 <= j < k < at.len() ==> #[trigger] at[j] < #[trigger] at[k]
            &&& forall|i: int|
                0 <= i < all.len() ==> (at.contains(i) <==> {
                    let node = #[trigger] all[i];
                    &&& surface.contains(node)
                    &&& {
                        ||| frame.added@.contains(node)
                        ||| frame.tree.changed@.contains(node)
                        ||| plan.resync_children_of@.contains(node)
                        ||| plan.ghost_parents@.contains(node)
                        ||| exists|c: EntityId| #[trigger]
                            frame.tree.kids(node).contains(c) && frame.added@.contains(c)
                    }
                })
        }),
{
    let needs = |e: EntityId| frame.needs_children(surface, e);
    let all = frame.tree.preorder(frame.roots.independent@, root);
    let at = lemma_filter_places(all, needs);
    assert forall|i: int| 0 <= i < all.len() implies (at.contains(i) <==> {
        let node = #[trigger] all[i];
        &&& surface.contains(node)
        &&& {
            ||| frame.added@.contains(node)
            ||| frame.tree.changed@.contains(node)
            ||| plan.resync_children_of@.contains(node)
            ||| plan.ghost_parents@.contains(node)
            ||| exists|c: EntityId| #[trigger]
                frame.tree.kids(node).contains(c) && frame.added@.contains(c)
        }
    }) by {
        let node = all[i];
        if at.contains(i) {
            let k = choose|k: int| 0 <= k < at.len() && at[k] == i;
            assert(needs(all[at[k]]));
        }
        assert(needs(node) == frame.needs_children(surface, node));
        if exists|j: int|
            0 <= j < frame.tree.kids(node).len() && frame.added@.contains(
                #[trigger] frame.tree.kids(node)[j],
            ) {
            let j = choose|j: int|
                0 <= j < frame.tree.kids(node).len() && frame.added@.contains(
                    #[trigger] frame.tree.kids(node)[j],
                );
            assert(frame.tree.kids(node).contains(frame.tree.kids(node)[j]));
        }
        assert forall|c: EntityId| #[trigger]
            frame.tree.kids(node).contains(c) && frame.added@.contains(c) implies exists|j: int|
            0 <= j < frame.tree.kids(node).len() && frame.added@.contains(
                #[trigger] frame.tree.kids(node)[j],
            ) by {
            let j = choose|j: int| 0 <= j < frame.tree.kids(node).len() && frame.tree.kids(node)[j] == c;
            assert(frame.added@.contains(frame.tree.kids(node)[j]));
        }
    }
    at
}

} // verus!
