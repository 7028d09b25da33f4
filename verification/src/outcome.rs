//! What the layout of a whole frame comes to: which nodes it leaves alone, and what the
//! layout tree holds afterwards.
use crate::entity::EntityId;
use crate::frame::{
    law_dirty_roots_are_roots, lemma_dirty_root_is_node, lemma_root_is_node, Frame,
};
use crate::geometry::{
    child_item, child_items, flagged, lemma_child_flags, lemma_walk_next_flags, walk_next,
    GeometryNodes, Visit,
};
use crate::hierarchy::{depth, law_closest_is_nearest, lemma_closest_depth, lemma_depth};
use crate::independent::{
    decision, law_next_is_shallowest, lays_out, select, waiting, Decision,
};
use crate::placement::IndependentPlacement;
use crate::roots::law_root_of_root;
use crate::sync::law_updates_stay_in_layout_tree;
use crate::system::{
    action_of, awaits, finishes, fits, in_placed_tree, is_run, laid_out_by,
    law_change_is_laid_out, law_independent_roots_come_last, law_no_root_is_forgotten,
    law_places_dirty_and_independent_trees_only, lemma_run, lemma_step_is_advance,
    lemma_walk_next_parts, parents_have_geometry, roots_are_listed, sound, walk_of, ActionView,
    Event, PassState, Waiting,
};
use vstd::prelude::*;

verus! {

impl Frame {
    /// A walk down from a node takes in nodes of its own layout root only.
    pub proof fn law_layout_tree_has_one_root(self, root: EntityId, member: EntityId)
        requires
            self.wf(),
            self.roots.nodes@.contains(root),
            self.tree.preorder(self.roots.independent@, root).contains(member),
        ensures
            self.roots.nodes@.contains(member),
            self.roots.root(member) == self.roots.root(root),
        decreases depth(self.tree.parents@, member),
    {
        self.roots.lemma_ui_parents();
        self.tree.law_walk_stays_in_layout_tree(self.roots.independent@, root, member);
        if member != root {
            let p = self.tree.parents@[member];
            lemma_depth(self.tree.parents@, member);
            self.law_layout_tree_has_one_root(root, p);
            let i = choose|i: int| 0 <= i < self.tree.kids(p).len() && self.tree.kids(p)[i]
                == member;
            assert(self.is_ui_node(self.tree.kids(p)[i]));
            assert(self.roots.ui_parents().dom().contains(member));
            assert(self.roots.ui_parents()[member] == p);
        }
    }

    /// A walk down from a layout root takes in every node that belongs to it, but ghosts.
    pub proof fn law_layout_tree_is_whole(self, member: EntityId)
        requires
            self.wf(),
            self.is_ui_node(member),
        ensures
            self.tree.preorder(self.roots.independent@, self.roots.root(member)).contains(member),
        decreases depth(self.roots.parents@, member),
    {
        self.roots.lemma_ui_parents();
        let up = self.roots.ui_parents();
        let root = self.roots.root(member);
        let all = self.tree.preorder(self.roots.independent@, root);
        if self.roots.independent@.contains(member) || !up.dom().contains(member) {
            assert(all[0] == member);
        } else {
            let p = up[member];
            lemma_closest_depth(self.roots.parents@, self.roots.ghosts@, member);
            law_closest_is_nearest(self.roots.parents@, self.roots.ghosts@, member);
            self.law_layout_tree_is_whole(p);
            assert(self.is_listed(member));
            assert(self.tree.parents@.dom().contains(member) && self.tree.parents@[member] == p);
            let i = choose|i: int| 0 <= i < self.tree.kids(p).len() && self.tree.kids(p)[i]
                == member;
            self.tree.law_walk_is_complete(self.roots.independent@, root, p, i);
        }
    }

    /// Everything under an independent node belongs to an independent root.
    proof fn lemma_under_independent(self, root: EntityId, member: EntityId)
        requires
            self.wf(),
            self.independent_nodes().contains(root),
            self.tree.preorder(Set::empty(), root).contains(member),
        ensures
            self.roots.nodes@.contains(member),
            self.roots.independent@.contains(self.roots.root(member)),
        decreases depth(self.tree.parents@, member),
    {
        self.roots.lemma_ui_parents();
        self.tree.law_walk_stays_in_layout_tree(Set::empty(), root, member);
        if member != root {
            let p = self.tree.parents@[member];
            lemma_depth(self.tree.parents@, member);
            self.lemma_under_independent(root, p);
            let i = choose|i: int| 0 <= i < self.tree.kids(p).len() && self.tree.kids(p)[i]
                == member;
            assert(self.is_ui_node(self.tree.kids(p)[i]));
            assert(self.roots.ui_parents().dom().contains(member));
            assert(self.roots.ui_parents()[member] == p);
        }
    }
}

/// The nodes that belong to a clean layout root which is not independent are left alone:
/// none of them is placed or collapsed, whatever happens in the independent nodes below.
pub proof fn law_clean_tree_is_left_alone(
    frame: Frame,
    surface: Set<EntityId>,
    nodes: GeometryNodes,
    states: Seq<(PassState, Map<EntityId, IndependentPlacement>)>,
    events: Seq<Event>,
    i: int,
    entity: EntityId,
)
    requires
        frame.wf(),
        is_run(frame, surface, nodes, states, events),
        0 <= i < events.len(),
        !frame.dirty_roots().contains(frame.roots.root(entity)),
        !frame.roots.independent@.contains(frame.roots.root(entity)),
    ensures
        match action_of(frame, surface, nodes, states, events, i) {
            ActionView::Visit { visit } => visit.entity != entity,
            ActionView::Collapse { entities } => !entities.contains(entity),
            _ => true,
        },
{
    let up = frame.roots.ui_parents();
    let ind = frame.roots.independent@;
    frame.roots.lemma_ui_parents();
    lemma_run(frame, surface, nodes, states, events, i, entity);
    let (state, placed) = states[i];
    let event = events[i];
    law_places_dirty_and_independent_trees_only(frame, surface, nodes, placed, state, event);
    match action_of(frame, surface, nodes, states, events, i) {
        ActionView::Visit { visit } => {
            if visit.entity == entity {
                assert(in_placed_tree(frame, entity));
                let root = choose|root: EntityId|
                    (frame.dirty_roots().contains(root) || frame.independent_nodes().contains(root))
                        && #[trigger] frame.tree.preorder(ind, root).contains(entity);
                if frame.dirty_roots().contains(root) {
                    lemma_dirty_root_is_node(frame, root);
                    law_dirty_roots_are_roots(frame, root);
                }
                law_root_of_root(up, ind, root);
                frame.law_layout_tree_has_one_root(root, entity);
            }
        },
        ActionView::Collapse { entities } => {
            if entities.contains(entity) {
                match (state.waiting, event) {
                    (Waiting::LayingOut { root, then_do: _ }, _) => {
                        frame.lemma_under_independent(root, entity);
                    },
                    (Waiting::Asking { root }, _) => {
                        frame.lemma_under_independent(root, entity);
                    },
                    _ => {},
                }
            }
        },
        _ => {},
    }
}

/// The children that the layout tree holds for each node, before a pass and after the
/// nodes of the frame were written to it: new nodes have none, nodes that lost their
/// children have none, and nodes that are gone are gone.
pub open spec fn prepared(frame: Frame, before: Map<EntityId, Seq<EntityId>>) -> Map<
    EntityId,
    Seq<EntityId>,
> {
    let gone = |e: EntityId| frame.removed_nodes@.contains(e) && !frame.synced().contains(e);
    Map::new(
        |e: EntityId|
            (before.dom().contains(e) || frame.rows_changed().contains(e)) && !gone(e),
        |e: EntityId|
            if frame.removed_children@.contains(e) || !before.dom().contains(e) {
                Seq::empty()
            } else {
                before[e].filter(|c: EntityId| !gone(c))
            },
    )
}

/// The layout tree after the children of some nodes were written to it, in order.
pub open spec fn written(
    tree: Map<EntityId, Seq<EntityId>>,
    updates: Seq<(EntityId, Seq<EntityId>)>,
) -> Map<EntityId, Seq<EntityId>>
    decreases updates.len(),
{
    if updates.len() == 0 {
        tree
    } else {
        written(tree, updates.drop_last()).insert(updates.last().0, updates.last().1)
    }
}

/// The layout tree after the first `n` steps of a pass.
pub open spec fn tree_after(
    frame: Frame,
    surface: Set<EntityId>,
    nodes: GeometryNodes,
    states: Seq<(PassState, Map<EntityId, IndependentPlacement>)>,
    events: Seq<Event>,
    start: Map<EntityId, Seq<EntityId>>,
    n: int,
) -> Map<EntityId, Seq<EntityId>>
    decreases n,
{
    if n <= 0 {
        start
    } else {
        let before = tree_after(frame, surface, nodes, states, events, start, n - 1);
        match action_of(frame, surface, nodes, states, events, n - 1) {
            ActionView::LayOut { root: _, updates } => written(before, updates),
            _ => before,
        }
    }
}

/// Whether the frame tells that the children laid out with `entity` may have changed.
pub open spec fn children_flagged(frame: Frame, entity: EntityId) -> bool {
    ||| frame.added@.contains(entity)
    ||| frame.tree.changed@.contains(entity)
    ||| frame.resync_children_of().contains(entity)
    ||| frame.ghost_parents().contains(entity)
    ||| exists|i: int|
        0 <= i < frame.tree.kids(entity).len() && frame.added@.contains(
            #[trigger] frame.tree.kids(entity)[i],
        ) && !frame.roots.independent@.contains(frame.tree.kids(entity)[i])
}

/// Whether the frame tells of every change to the children laid out with a node, where
/// `before` are the children that the layout tree holds.
pub open spec fn flags_are_faithful(frame: Frame, before: Map<EntityId, Seq<EntityId>>) -> bool {
    &&& prepared(frame, before).dom() == frame.roots.nodes@
    &&& forall|e: EntityId| #[trigger]
        frame.is_ui_node(e) && !children_flagged(frame, e) ==> prepared(frame, before)[e]
            == frame.layout_children(e)
    &&& forall|e: EntityId| #[trigger]
        frame.added@.contains(e) && frame.roots.nodes@.contains(e) ==> frame.changed(e)
    &&& forall|e: EntityId| #[trigger] frame.roots.nodes@.contains(e) ==> frame.synced().contains(e)
}

proof fn lemma_written(
    frame: Frame,
    tree: Map<EntityId, Seq<EntityId>>,
    updates: Seq<(EntityId, Seq<EntityId>)>,
    entity: EntityId,
)
    requires
        forall|k: int|
            0 <= k < updates.len() ==> {
                &&& tree.dom().contains((#[trigger] updates[k]).0)
                &&& updates[k].1 == frame.layout_children(updates[k].0)
            },
    ensures
        written(tree, updates).dom() == tree.dom(),
        tree[entity] == frame.layout_children(entity) ==> written(tree, updates)[entity]
            == frame.layout_children(entity),
        updates.contains((entity, frame.layout_children(entity))) ==> written(tree, updates)[entity]
            == frame.layout_children(entity),
    decreases updates.len(),
{
    if updates.len() > 0 {
        let less = updates.drop_last();
        let last = updates.last();
        assert(last == updates[updates.len() - 1]);
        assert forall|k: int| 0 <= k < less.len() implies {
            &&& tree.dom().contains((#[trigger] less[k]).0)
            &&& less[k].1 == frame.layout_children(less[k].0)
        } by {
            assert(less[k] == updates[k]);
        }
        lemma_written(frame, tree, less, entity);
        assert(written(tree, updates).dom() =~= tree.dom());
        if updates.contains((entity, frame.layout_children(entity))) && last.0 != entity {
            let k = choose|k: int|
                0 <= k < updates.len() && updates[k] == (entity, frame.layout_children(entity));
            assert(less[k] == updates[k]);
        }
    }
}

/// What is written when a root is laid out.
proof fn lemma_lay_out_updates(
    frame: Frame,
    surface: Set<EntityId>,
    nodes: GeometryNodes,
    placed: Map<EntityId, IndependentPlacement>,
    state: PassState,
    event: Event,
)
    ensures
        frame.step(surface, nodes, placed, state, event).1 matches ActionView::LayOut {
            root,
            updates,
        } ==> updates == frame.children_updates(surface, root),
{
}

proof fn lemma_tree_after(
    frame: Frame,
    surface: Set<EntityId>,
    nodes: GeometryNodes,
    states: Seq<(PassState, Map<EntityId, IndependentPlacement>)>,
    events: Seq<Event>,
    start: Map<EntityId, Seq<EntityId>>,
    n: int,
    entity: EntityId,
)
    requires
        frame.wf(),
        surface == start.dom(),
        0 <= n <= events.len(),
    ensures
        tree_after(frame, surface, nodes, states, events, start, n).dom() == start.dom(),
        start[entity] == frame.layout_children(entity) ==> tree_after(
            frame,
            surface,
            nodes,
            states,
            events,
            start,
            n,
        )[entity] == frame.layout_children(entity),
        frame.is_ui_node(entity) && frame.needs_children(surface, entity) && laid_out_by(
            frame,
            surface,
            nodes,
            states,
            events,
            n,
            frame.roots.root(entity),
        ) ==> tree_after(frame, surface, nodes, states, events, start, n)[entity]
            == frame.layout_children(entity),
    decreases n,
{
    if n > 0 {
        let i = n - 1;
        let before = tree_after(frame, surface, nodes, states, events, start, i);
        lemma_tree_after(frame, surface, nodes, states, events, start, i, entity);
        let own = frame.roots.root(entity);
        lemma_lay_out_updates(frame, surface, nodes, states[i].1, states[i].0, events[i]);
        match action_of(frame, surface, nodes, states, events, i) {
            ActionView::LayOut { root, updates } => {
                assert forall|k: int| 0 <= k < updates.len() implies {
                    &&& before.dom().contains((#[trigger] updates[k]).0)
                    &&& updates[k].1 == frame.layout_children(updates[k].0)
                } by {
                    law_updates_stay_in_layout_tree(frame, surface, root, k);
                }
                lemma_written(frame, before, updates, entity);
                if root == own && frame.is_ui_node(entity) && frame.needs_children(
                    surface,
                    entity,
                ) {
                    frame.law_layout_tree_is_whole(entity);
                    let all = frame.tree.preorder(frame.roots.independent@, root);
                    let needs = |e: EntityId| frame.needs_children(surface, e);
                    let k = choose|k: int| 0 <= k < all.len() && all[k] == entity;
                    all.lemma_filter_contains(needs, k);
                    let kept = all.filter(needs);
                    let j = choose|j: int| 0 <= j < kept.len() && kept[j] == entity;
                    assert(updates[j] == (entity, frame.layout_children(entity)));
                }
            },
            _ => {},
        }
        if laid_out_by(frame, surface, nodes, states, events, n, own) {
            let k = choose|k: int|
                0 <= k < n && (#[trigger] action_of(
                    frame,
                    surface,
                    nodes,
                    states,
                    events,
                    k,
                ) matches ActionView::LayOut { root: r, updates: _ } && r == own);
            if k < i {
                assert(laid_out_by(frame, surface, nodes, states, events, i, own));
            }
        }
    }
}

/// After a pass, the layout tree holds for each node the children that are laid out with
/// it, in order; independent children are left out. It is enough that the frame told of
/// every change since the layout tree held `before`, and that may be what it held after
/// the pass of the last frame.
pub proof fn law_layout_tree_is_current(
    frame: Frame,
    nodes: GeometryNodes,
    states: Seq<(PassState, Map<EntityId, IndependentPlacement>)>,
    events: Seq<Event>,
    before: Map<EntityId, Seq<EntityId>>,
)
    requires
        frame.wf(),
        roots_are_listed(frame),
        flags_are_faithful(frame, before),
        is_run(frame, frame.roots.nodes@, nodes, states, events),
        finishes(frame, frame.roots.nodes@, nodes, states, events),
        parents_have_geometry(events),
    ensures
        ({
            let after = tree_after(
                frame,
                frame.roots.nodes@,
                nodes,
                states,
                events,
                prepared(frame, before),
                events.len() as int,
            );
            &&& after.dom() == frame.roots.nodes@
            &&& forall|e: EntityId| #[trigger]
                frame.is_ui_node(e) ==> after[e] == frame.layout_children(e)
        }),
{
    let surface = frame.roots.nodes@;
    let start = prepared(frame, before);
    let n = events.len() as int;
    let after = tree_after(frame, surface, nodes, states, events, start, n);
    lemma_tree_after(frame, surface, nodes, states, events, start, n, arbitrary());
    assert forall|e: EntityId| #[trigger] frame.is_ui_node(e) implies after[e]
        == frame.layout_children(e) by {
        lemma_tree_after(frame, surface, nodes, states, events, start, n, e);
        if children_flagged(frame, e) {
            let changed = lemma_flagged_dirties(frame, before, e);
            lemma_root_is_node(frame, changed);
            law_change_is_laid_out(frame, surface, nodes, states, events, changed);
        }
    }
}

/// Where the children of a node may have changed, a node of its layout root changed.
proof fn lemma_flagged_dirties(
    frame: Frame,
    before: Map<EntityId, Seq<EntityId>>,
    entity: EntityId,
) -> (changed: EntityId)
    requires
        frame.wf(),
        flags_are_faithful(frame, before),
        frame.is_ui_node(entity),
        children_flagged(frame, entity),
    ensures
        frame.changed(changed),
        frame.synced().contains(changed),
        frame.roots.nodes@.contains(changed),
        frame.roots.root(changed) == frame.roots.root(entity),
        frame.needs_children(frame.roots.nodes@, entity),
{
    if frame.changed(entity) {
        entity
    } else {
        frame.roots.lemma_ui_parents();
        let kids = frame.tree.kids(entity);
        let i = choose|i: int|
            0 <= i < kids.len() && frame.added@.contains(#[trigger] kids[i])
                && !frame.roots.independent@.contains(kids[i]);
        let kid = kids[i];
        assert(frame.is_ui_node(frame.tree.kids(entity)[i]));
        assert(frame.tree.parents@.dom().contains(frame.tree.kids(entity)[i]));
        assert(frame.roots.ui_parents().dom().contains(kid));
        assert(frame.roots.ui_parents()[kid] == entity);
        kid
    }
}

/// Whether `entity` is noted to be turned to, or was turned to.
pub open spec fn noted_or_done(frame: Frame, state: PassState, entity: EntityId) -> bool {
    flagged(state.stack, entity) || awaits(frame, state, entity) || state.done.contains(entity)
}

proof fn lemma_advance_keeps_note(
    frame: Frame,
    surface: Set<EntityId>,
    nodes: GeometryNodes,
    state: PassState,
    entity: EntityId,
)
    requires
        frame.roots.ui_parents().dom().contains(entity),
        noted_or_done(frame, state, entity),
    ensures
        noted_or_done(frame, frame.advance(surface, nodes, state).0, entity),
{
    let up = frame.roots.ui_parents();
    let (visit, left, noted) = walk_next(nodes, state.stack);
    let all = state.pending + noted;
    lemma_walk_next_flags(nodes, state.stack, entity);
    law_next_is_shallowest(up, all, state.done);
    if !state.done.contains(entity) && !flagged(left, entity) {
        if noted.contains(entity) {
            let k = choose|k: int| 0 <= k < noted.len() && noted[k] == entity;
            assert(all[state.pending.len() + k] == entity);
        } else {
            let k = choose|k: int| 0 <= k < state.pending.len() && state.pending[k] == entity;
            assert(all[k] == entity);
        }
        assert(waiting(up, all, state.done, entity));
    }
}

proof fn lemma_step_keeps_note(
    frame: Frame,
    surface: Set<EntityId>,
    nodes: GeometryNodes,
    placed: Map<EntityId, IndependentPlacement>,
    state: PassState,
    event: Event,
    entity: EntityId,
)
    requires
        sound(frame, state),
        fits(state.waiting, event),
        frame.roots.ui_parents().dom().contains(entity),
        noted_or_done(frame, state, entity),
    ensures
        noted_or_done(frame, frame.step(surface, nodes, placed, state, event).0, entity),
{
    let idle = PassState { waiting: Waiting::Nothing, ..state };
    lemma_advance_keeps_note(frame, surface, nodes, idle, entity);
    match (state.waiting, event) {
        (Waiting::LayingOut { root, then_do }, Event::Done) => {
            lemma_follow_keeps_note(frame, surface, nodes, state, root, then_do, entity);
        },
        (Waiting::Visiting { visit }, Event::Placed(Ok(geometry))) => {
            let ind = frame.roots.independent@;
            lemma_child_flags(frame.tree, ind, state.stack, visit, geometry, entity);
            let items = child_items(frame.tree, ind, visit, geometry);
            let other = PassState { stack: state.stack + items, ..idle };
            lemma_advance_keeps_note(frame, surface, nodes, other, entity);
        },
        (Waiting::Asking { root }, Event::Parent(parent)) => {
            let decided = decision(frame, placed, root, parent);
            lemma_follow_keeps_note(frame, surface, nodes, state, root, decided, entity);
        },
        _ => {},
    }
}

proof fn lemma_follow_keeps_note(
    frame: Frame,
    surface: Set<EntityId>,
    nodes: GeometryNodes,
    state: PassState,
    root: EntityId,
    decided: Decision,
    entity: EntityId,
)
    requires
        state.stack.len() == 0,
        frame.roots.ui_parents().dom().contains(entity),
        noted_or_done(frame, state, entity),
    ensures
        noted_or_done(frame, frame.follow(surface, nodes, state, root, decided).0, entity),
{
    let idle = PassState { waiting: Waiting::Nothing, ..state };
    assert(!flagged(state.stack, entity));
    match decided {
        Decision::Keep => {
            lemma_advance_keeps_note(frame, surface, nodes, idle, entity);
        },
        Decision::Collapse => {},
        Decision::Place { parent } => {
            let other = PassState { stack: walk_of(root, parent), ..idle };
            lemma_advance_keeps_note(frame, surface, nodes, other, entity);
        },
    }
}

proof fn lemma_run_keeps_note(
    frame: Frame,
    surface: Set<EntityId>,
    nodes: GeometryNodes,
    states: Seq<(PassState, Map<EntityId, IndependentPlacement>)>,
    events: Seq<Event>,
    i: int,
    n: int,
    entity: EntityId,
)
    requires
        frame.wf(),
        is_run(frame, surface, nodes, states, events),
        0 <= i <= n <= events.len(),
        frame.roots.ui_parents().dom().contains(entity),
        noted_or_done(frame, states[i].0, entity),
    ensures
        noted_or_done(frame, states[n].0, entity),
    decreases n - i,
{
    if i < n {
        lemma_run_keeps_note(frame, surface, nodes, states, events, i, n - 1, entity);
        lemma_run(frame, surface, nodes, states, events, n - 1, entity);
        let (state, placed) = states[n - 1];
        let event = events[n - 1];
        assert(states[n].0 == frame.step(surface, nodes, placed, state, event).0);
        lemma_step_keeps_note(frame, surface, nodes, placed, state, event, entity);
    }
}

/// The nodes that a pass comes to are nodes, and their children are right below them.
proof fn lemma_kid_of_placed(frame: Frame, node: EntityId, kid: EntityId)
    requires
        frame.wf(),
        in_placed_tree(frame, node),
        frame.tree.kids(node).contains(kid),
    ensures
        frame.roots.nodes@.contains(node),
        frame.roots.nodes@.contains(kid),
        frame.roots.ui_parent(kid) == Some(node),
{
    let ind = frame.roots.independent@;
    let root = choose|root: EntityId|
        (frame.dirty_roots().contains(root) || frame.independent_nodes().contains(root))
            && #[trigger] frame.tree.preorder(ind, root).contains(node);
    if frame.dirty_roots().contains(root) {
        lemma_dirty_root_is_node(frame, root);
    }
    frame.law_layout_tree_has_one_root(root, node);
    let i = choose|i: int| 0 <= i < frame.tree.kids(node).len() && frame.tree.kids(node)[i] == kid;
    assert(frame.is_ui_node(frame.tree.kids(node)[i]));
    assert(frame.tree.parents@.dom().contains(frame.tree.kids(node)[i]));
}

/// Every independent child of a node that a pass places is turned to before the pass
/// finishes, so that an independent node follows its parent.
pub proof fn law_independent_child_is_turned_to(
    frame: Frame,
    surface: Set<EntityId>,
    nodes: GeometryNodes,
    states: Seq<(PassState, Map<EntityId, IndependentPlacement>)>,
    events: Seq<Event>,
    i: int,
    visit: Visit,
    child: EntityId,
)
    requires
        frame.wf(),
        is_run(frame, surface, nodes, states, events),
        finishes(frame, surface, nodes, states, events),
        0 <= i < events.len(),
        states[i].0.waiting == (Waiting::Visiting { visit }),
        events[i] matches Event::Placed(result) && result is Ok,
        frame.tree.kids(visit.entity).contains(child),
        frame.roots.independent@.contains(child),
    ensures
        states.last().0.done.contains(child),
{
    let n = events.len() as int;
    let ind = frame.roots.independent@;
    let state = states[i].0;
    lemma_run(frame, surface, nodes, states, events, i, child);
    lemma_run(frame, surface, nodes, states, events, n - 1, child);
    lemma_kid_of_placed(frame, visit.entity, child);
    let geometry = events[i]->Placed_0->Ok_0;
    let items = child_items(frame.tree, ind, visit, geometry);
    let other = PassState {
        stack: state.stack + items,
        waiting: Waiting::Nothing,
        ..state
    };
    lemma_child_flags(frame.tree, ind, state.stack, visit, geometry, child);
    lemma_advance_keeps_note(frame, surface, nodes, other, child);
    assert(states[i + 1].0 == frame.step(surface, nodes, states[i].1, state, events[i]).0);
    lemma_run_keeps_note(frame, surface, nodes, states, events, i + 1, n, child);
    let (last, placed) = states[n - 1];
    law_no_root_is_forgotten(frame, surface, nodes, placed, last, events[n - 1], child);
    assert(states[n].0 == frame.step(surface, nodes, placed, last, events[n - 1]).0);
}

/// Whether all that is left of a pass has at least `d` UI ancestors.
pub open spec fn at_least_as_deep(frame: Frame, state: PassState, d: nat) -> bool {
    let up = frame.roots.ui_parents();
    &&& state.ordinary.len() == 0
    &&& forall|i: int|
        0 <= i < state.stack.len() ==> depth(up, (#[trigger] state.stack[i]).entity) >= d
    &&& forall|e: EntityId| #[trigger] awaits(frame, state, e) ==> depth(up, e) >= d
    &&& match state.waiting {
        Waiting::LayingOut { root, then_do: _ } => depth(up, root) >= d,
        Waiting::Visiting { visit } => depth(up, visit.entity) >= d,
        Waiting::Asking { root } => depth(up, root) >= d,
        _ => true,
    }
}

proof fn lemma_advance_stays_deep(
    frame: Frame,
    surface: Set<EntityId>,
    nodes: GeometryNodes,
    state: PassState,
    d: nat,
)
    requires
        at_least_as_deep(frame, state, d),
        state.waiting is Nothing,
    ensures
        at_least_as_deep(frame, frame.advance(surface, nodes, state).0, d),
{
    let up = frame.roots.ui_parents();
    let (visit, left, noted) = walk_next(nodes, state.stack);
    let all = state.pending + noted;
    let deep = Set::new(|e: EntityId| depth(up, e) >= d);
    lemma_walk_next_parts(deep, nodes, state.stack);
    law_next_is_shallowest(up, all, state.done);
    let next = frame.advance(surface, nodes, state).0;
    assert forall|i: int| 0 <= i < left.len() implies depth(up, (#[trigger] left[i]).entity)
        >= d by {
        assert(left[i] == state.stack[i]);
    }
    assert forall|e: EntityId| #[trigger] waiting(up, all, state.done, e) implies depth(up, e)
        >= d by {
        let k = choose|k: int| 0 <= k < all.len() && all[k] == e;
        if k < state.pending.len() {
            assert(state.pending[k] == e);
            assert(awaits(frame, state, e));
        } else {
            assert(noted[k - state.pending.len()] == e);
            assert(deep.contains(noted[k - state.pending.len()]));
        }
    }
    let (root, rest, taken) = select(up, all, state.done);
    assert forall|e: EntityId| #[trigger] awaits(frame, next, e) implies depth(up, e) >= d by {
        assert(waiting(up, rest, taken, e) ==> root is Some);
        assert(waiting(up, all, state.done, e));
    }
}

proof fn lemma_follow_stays_deep(
    frame: Frame,
    surface: Set<EntityId>,
    nodes: GeometryNodes,
    state: PassState,
    root: EntityId,
    decided: Decision,
    d: nat,
)
    requires
        at_least_as_deep(frame, state, d),
        depth(frame.roots.ui_parents(), root) >= d,
    ensures
        at_least_as_deep(frame, frame.follow(surface, nodes, state, root, decided).0, d),
{
    let idle = PassState { waiting: Waiting::Nothing, ..state };
    assert forall|e: EntityId| #[trigger] awaits(frame, idle, e) implies awaits(
        frame,
        state,
        e,
    ) by {}
    match decided {
        Decision::Keep => {
            assert(at_least_as_deep(frame, idle, d));
            lemma_advance_stays_deep(frame, surface, nodes, idle, d);
        },
        Decision::Collapse => {
            let next = PassState { waiting: Waiting::Collapsing, ..state };
            assert forall|e: EntityId| #[trigger] awaits(frame, next, e) implies awaits(
                frame,
                state,
                e,
            ) by {}
        },
        Decision::Place { parent } => {
            let other = PassState { stack: walk_of(root, parent), ..idle };
            assert forall|e: EntityId| #[trigger] awaits(frame, other, e) implies awaits(
                frame,
                state,
                e,
            ) by {}
            assert(at_least_as_deep(frame, other, d));
            lemma_advance_stays_deep(frame, surface, nodes, other, d);
        },
    }
}

proof fn lemma_step_stays_deep(
    frame: Frame,
    surface: Set<EntityId>,
    nodes: GeometryNodes,
    placed: Map<EntityId, IndependentPlacement>,
    state: PassState,
    event: Event,
    d: nat,
)
    requires
        frame.wf(),
        sound(frame, state),
        fits(state.waiting, event),
        at_least_as_deep(frame, state, d),
    ensures
        at_least_as_deep(frame, frame.step(surface, nodes, placed, state, event).0, d),
{
    let up = frame.roots.ui_parents();
    let idle = PassState { waiting: Waiting::Nothing, ..state };
    assert forall|e: EntityId| #[trigger] awaits(frame, idle, e) implies awaits(
        frame,
        state,
        e,
    ) by {}
    assert(at_least_as_deep(frame, idle, d));
    match (state.waiting, event) {
        (Waiting::LayingOut { root, then_do }, Event::Done) => {
            lemma_follow_stays_deep(frame, surface, nodes, state, root, then_do, d);
        },
        (Waiting::Visiting { visit }, Event::Placed(Ok(geometry))) => {
            frame.roots.lemma_ui_parents();
            let ind = frame.roots.independent@;
            let kids = frame.tree.kids(visit.entity);
            let items = child_items(frame.tree, ind, visit, geometry);
            let stack = state.stack + items;
            assert forall|i: int| 0 <= i < stack.len() implies depth(
                up,
                (#[trigger] stack[i]).entity,
            ) >= d by {
                if i < state.stack.len() {
                    assert(stack[i] == state.stack[i]);
                } else {
                    let k = kids.len() - 1 - (i - state.stack.len());
                    assert(stack[i] == child_item(ind, visit, geometry, kids[k]));
                    assert(kids.contains(kids[k]));
                    lemma_kid_of_placed(frame, visit.entity, kids[k]);
                    lemma_depth(up, kids[k]);
                }
            }
            let other = PassState { stack, ..idle };
            assert forall|e: EntityId| #[trigger] awaits(frame, other, e) implies awaits(
                frame,
                state,
                e,
            ) by {}
            assert(at_least_as_deep(frame, other, d));
            lemma_advance_stays_deep(frame, surface, nodes, other, d);
        },
        (Waiting::Asking { root }, Event::Parent(parent)) => {
            let decided = decision(frame, placed, root, parent);
            if lays_out(frame, root, parent) {
                let next = frame.step(surface, nodes, placed, state, event).0;
                assert forall|e: EntityId| #[trigger] awaits(frame, next, e) implies awaits(
                    frame,
                    state,
                    e,
                ) by {}
            } else {
                lemma_follow_stays_deep(frame, surface, nodes, state, root, decided, d);
            }
        },
        _ => {
            lemma_advance_stays_deep(frame, surface, nodes, idle, d);
        },
    }
}

/// When an independent root is turned to, all that is left is at least as deep as it.
proof fn lemma_asking_is_deep(
    frame: Frame,
    surface: Set<EntityId>,
    nodes: GeometryNodes,
    placed: Map<EntityId, IndependentPlacement>,
    state: PassState,
    event: Event,
    root: EntityId,
    parent: EntityId,
)
    requires
        frame.wf(),
        sound(frame, state),
        fits(state.waiting, event),
        frame.step(surface, nodes, placed, state, event).1 == (ActionView::AskParent {
            root,
            parent,
        }),
    ensures
        at_least_as_deep(
            frame,
            frame.step(surface, nodes, placed, state, event).0,
            depth(frame.roots.ui_parents(), root),
        ),
{
    let up = frame.roots.ui_parents();
    let (next, action) = frame.step(surface, nodes, placed, state, event);
    law_independent_roots_come_last(frame, surface, nodes, placed, state, event);
    lemma_step_is_advance(frame, surface, nodes, placed, state, event);
    let other = choose|other: PassState|
        {
            &&& sound(frame, other)
            &&& other.waiting is Nothing
            &&& other.pending == state.pending
            &&& other.done == state.done
            &&& other.ordinary == state.ordinary
            &&& (next, action) == #[trigger] frame.advance(surface, nodes, other)
        };
    let (visit, left, noted) = walk_next(nodes, other.stack);
    let all = other.pending + noted;
    law_next_is_shallowest(up, all, other.done);
    let (taken_root, rest, taken) = select(up, all, other.done);
    assert(taken_root == Some(root));
    assert forall|e: EntityId| #[trigger] awaits(frame, next, e) implies depth(up, e) >= depth(
        up,
        root,
    ) by {
        assert(waiting(up, rest, taken, e));
        assert(waiting(up, all, other.done, e));
    }
}

proof fn lemma_run_stays_deep(
    frame: Frame,
    surface: Set<EntityId>,
    nodes: GeometryNodes,
    states: Seq<(PassState, Map<EntityId, IndependentPlacement>)>,
    events: Seq<Event>,
    i: int,
    n: int,
    d: nat,
)
    requires
        frame.wf(),
        is_run(frame, surface, nodes, states, events),
        0 <= i <= n <= events.len(),
        at_least_as_deep(frame, states[i].0, d),
    ensures
        at_least_as_deep(frame, states[n].0, d),
    decreases n - i,
{
    if i < n {
        lemma_run_stays_deep(frame, surface, nodes, states, events, i, n - 1, d);
        lemma_run(frame, surface, nodes, states, events, n - 1, arbitrary());
        let (state, placed) = states[n - 1];
        let event = events[n - 1];
        assert(states[n].0 == frame.step(surface, nodes, placed, state, event).0);
        lemma_step_stays_deep(frame, surface, nodes, placed, state, event, d);
    }
}

/// What is under a node has at least as many UI ancestors.
proof fn lemma_under_is_deeper(frame: Frame, root: EntityId, member: EntityId)
    requires
        frame.wf(),
        frame.roots.nodes@.contains(root),
        frame.tree.preorder(Set::empty(), root).contains(member),
    ensures
        frame.roots.nodes@.contains(member),
        depth(frame.roots.ui_parents(), member) >= depth(frame.roots.ui_parents(), root),
    decreases depth(frame.tree.parents@, member),
{
    frame.roots.lemma_ui_parents();
    frame.tree.law_walk_stays_in_layout_tree(Set::empty(), root, member);
    if member != root {
        let p = frame.tree.parents@[member];
        lemma_depth(frame.tree.parents@, member);
        lemma_under_is_deeper(frame, root, p);
        let i = choose|i: int| 0 <= i < frame.tree.kids(p).len() && frame.tree.kids(p)[i]
            == member;
        assert(frame.is_ui_node(frame.tree.kids(p)[i]));
        assert(frame.roots.ui_parents().dom().contains(member));
        assert(frame.roots.ui_parents()[member] == p);
        lemma_depth(frame.roots.ui_parents(), member);
    }
}

/// An independent root is placed against the final geometry of its parent: once that was
/// asked for, the parent is neither placed nor collapsed any more.
pub proof fn law_parent_geometry_is_final(
    frame: Frame,
    surface: Set<EntityId>,
    nodes: GeometryNodes,
    states: Seq<(PassState, Map<EntityId, IndependentPlacement>)>,
    events: Seq<Event>,
    i: int,
    j: int,
    root: EntityId,
    parent: EntityId,
)
    requires
        frame.wf(),
        is_run(frame, surface, nodes, states, events),
        0 <= i < j < events.len(),
        action_of(frame, surface, nodes, states, events, i) == (ActionView::AskParent {
            root,
            parent,
        }),
    ensures
        match action_of(frame, surface, nodes, states, events, j) {
            ActionView::Visit { visit } => visit.entity != parent,
            ActionView::Collapse { entities } => !entities.contains(parent),
            _ => true,
        },
{
    let up = frame.roots.ui_parents();
    let d = depth(up, root);
    frame.roots.lemma_ui_parents();
    lemma_run(frame, surface, nodes, states, events, i, root);
    lemma_run(frame, surface, nodes, states, events, j, root);
    let (asking, noted) = states[i];
    law_independent_roots_come_last(frame, surface, nodes, noted, asking, events[i]);
    lemma_asking_is_deep(frame, surface, nodes, noted, asking, events[i], root, parent);
    assert(states[i + 1].0 == frame.step(surface, nodes, noted, asking, events[i]).0);
    lemma_depth(up, root);
    lemma_run_stays_deep(frame, surface, nodes, states, events, i + 1, j, d);
    lemma_run_stays_deep(frame, surface, nodes, states, events, i + 1, j + 1, d);
    let (state, placed) = states[j];
    let event = events[j];
    let (next, action) = frame.step(surface, nodes, placed, state, event);
    assert(states[j + 1].0 == next);
    match action {
        ActionView::Visit { visit } => {
            lemma_visit_is_waited_for(frame, surface, nodes, placed, state, event);
        },
        ActionView::Collapse { entities } => {
            if entities.contains(parent) {
                match (state.waiting, event) {
                    (Waiting::LayingOut { root: collapsed, then_do: _ }, _) => {
                        lemma_under_is_deeper(frame, collapsed, parent);
                    },
                    (Waiting::Asking { root: collapsed }, _) => {
                        lemma_under_is_deeper(frame, collapsed, parent);
                    },
                    _ => {},
                }
            }
        },
        _ => {},
    }
}

proof fn lemma_visit_is_waited_for(
    frame: Frame,
    surface: Set<EntityId>,
    nodes: GeometryNodes,
    placed: Map<EntityId, IndependentPlacement>,
    state: PassState,
    event: Event,
)
    ensures
        ({
            let (next, action) = frame.step(surface, nodes, placed, state, event);
            action matches ActionView::Visit { visit } ==> next.waiting == (Waiting::Visiting {
                visit,
            })
        }),
{
}

} // verus!
