//! What the steps of a layout pass come to: what each one asks for, and where every node
//! that is placed has its geometry from.
use crate::context::LayoutError;
use crate::entity::EntityId;
use crate::frame::{lemma_filter_places, Frame};
use crate::geometry::{
    child_items, law_children_are_handed_geometry, law_walk_goes_on_with_last_item, passed_by,
    walk_next, GeometryNodes, ParentGeometry, Visit, WalkItem,
};
use crate::independent::{
    decision, law_hidden_root_is_collapsed, law_moved_root_is_placed, law_next_root_waits,
    law_root_without_geometry_is_kept, lays_out, moved, select, Decision,
};
use crate::placement::IndependentPlacement;
use crate::system::{
    action_of, finishes, fits, is_run, law_no_root_is_forgotten, lemma_run, outermost, sound,
    starts, walk_of, ActionView, Event, PassState, Waiting,
};
use vstd::prelude::*;

verus! {

/// A pass starts with the dirty roots without a parent, in the order in which they are
/// listed: the k-th is the one at the k-th of the places that are returned.
pub proof fn law_pass_starts_with_dirty_roots_in_order(frame: Frame, state: PassState) -> (at: Seq<
    int,
>)
    requires
        starts(frame, state),
    ensures
        at.len() == state.ordinary.len(),
        forall|k: int|
            0 <= k < at.len() ==> 0 <= #[trigger] at[k] < frame.ui_roots@.len()
                && state.ordinary[k] == frame.ui_roots@[at[k]] && frame.dirty_roots().contains(
                state.ordinary[k],
            ),
        forall|j: int, k: int| 0 <= j < k < at.len() ==> #[trigger] at[j] < #[trigger] at[k],
        forall|i: int|
            0 <= i < frame.ui_roots@.len() && frame.dirty_roots().contains(
                #[trigger] frame.ui_roots@[i],
            ) ==> at.contains(i),
{
    lemma_filter_places(frame.ui_roots@, |e: EntityId| frame.dirty_roots().contains(e))
}

/// A pass waits for what it asked for, and takes that and nothing else: a node to be
/// placed, the geometry of the UI parent of a root, or that something is done.
pub proof fn law_pass_waits_for_what_it_asked(
    frame: Frame,
    surface: Set<EntityId>,
    nodes: GeometryNodes,
    placed: Map<EntityId, IndependentPlacement>,
    state: PassState,
    event: Event,
    result: Result<ParentGeometry, LayoutError>,
    answer: Option<ParentGeometry>,
)
    requires
        frame.wf(),
        sound(frame, state),
        fits(state.waiting, event),
    ensures
        ({
            let (next, action) = frame.step(surface, nodes, placed, state, event);
            &&& fits(next.waiting, Event::Done) <==> (action is LayOut || action is Collapse
                || action is Finished)
            &&& fits(next.waiting, Event::Placed(result)) <==> action is Visit
            &&& fits(next.waiting, Event::Parent(answer)) <==> action is AskParent
            &&& match action {
                ActionView::LayOut { root, updates } => {
                    &&& next.waiting matches Waiting::LayingOut { root: r, then_do: _ } && r == root
                    &&& updates == frame.children_updates(surface, root)
                },
                ActionView::Visit { visit } => next.waiting == (Waiting::Visiting { visit }),
                ActionView::AskParent { root, parent } => {
                    &&& next.waiting == (Waiting::Asking { root })
                    &&& frame.roots.ui_parent(root) == Some(parent)
                },
                ActionView::Collapse { entities: _ } => next.waiting is Collapsing,
                ActionView::Finished => next.waiting is Nothing,
            }
        }),
{
    let up = frame.roots.ui_parents();
    assert forall|pending: Seq<EntityId>, done: Set<EntityId>|
        (#[trigger] select(up, pending, done)).0 matches Some(r) ==> up.dom().contains(r) by {
        law_next_root_waits(up, pending, done);
    }
}

/// A root that was laid out, and is to be placed, is visited next, where it can be placed:
/// against the transform, the size and the scroll position that were decided on. One that
/// is to be collapsed is collapsed with all that is under it.
pub proof fn law_laid_out_root_is_visited(
    frame: Frame,
    surface: Set<EntityId>,
    nodes: GeometryNodes,
    placed: Map<EntityId, IndependentPlacement>,
    state: PassState,
    root: EntityId,
    then_do: Decision,
)
    requires
        state.waiting == (Waiting::LayingOut { root, then_do }),
        nodes.present@.contains(root),
    ensures
        ({
            let (next, action) = frame.step(surface, nodes, placed, state, Event::Done);
            &&& then_do matches Decision::Place { parent } ==> (action matches ActionView::Visit {
                visit,
            } && {
                &&& visit.entity == root
                &&& visit.parent.transform == parent.transform
                &&& visit.parent.size == parent.size
                &&& visit.parent.scroll == parent.scroll
                &&& next.stack.len() == 0
                &&& next.ordinary == state.ordinary
                &&& next.pending == state.pending
            })
            &&& then_do is Collapse ==> (action matches ActionView::Collapse { entities }
                && entities == frame.tree.preorder(Set::empty(), root))
        }),
{
    match then_do {
        Decision::Place { parent } => {
            lemma_walk_of_visits(nodes, root, parent);
            assert(state.pending + Seq::<EntityId>::empty() =~= state.pending);
        },
        _ => {},
    }
}

proof fn lemma_walk_of_visits(nodes: GeometryNodes, root: EntityId, parent: ParentGeometry)
    requires
        nodes.present@.contains(root),
    ensures
        ({
            let (visit, left, noted) = walk_next(nodes, walk_of(root, parent));
            &&& visit matches Some(v) && v.entity == root && v.parent == parent
            &&& left.len() == 0
            &&& noted == Seq::<EntityId>::empty()
        }),
{
    let stack = walk_of(root, parent);
    assert(stack.last().entity == root);
    assert(stack.drop_last() =~= Seq::empty());
}

/// The roots without a parent are laid out one after the other, in order, once all nodes
/// of the one before were come to; and each is then placed against an identity transform,
/// no size and no scrolling.
pub proof fn law_roots_are_laid_out_in_order(
    frame: Frame,
    surface: Set<EntityId>,
    nodes: GeometryNodes,
    placed: Map<EntityId, IndependentPlacement>,
    state: PassState,
)
    requires
        state.waiting is Nothing || state.waiting is Collapsing,
        state.ordinary.len() > 0,
        forall|k: int|
            0 <= k < state.stack.len() ==> (#[trigger] state.stack[k]).independent
                || !nodes.present@.contains(state.stack[k].entity),
    ensures
        ({
            let (next, action) = frame.step(surface, nodes, placed, state, Event::Done);
            &&& action matches ActionView::LayOut { root, updates: _ } && root == state.ordinary[0]
            &&& next.ordinary == state.ordinary.skip(1)
            &&& next.waiting matches Waiting::LayingOut { root, then_do: Decision::Place { parent } }
                && {
                &&& root == state.ordinary[0]
                &&& parent.transform.x_axis.x.bits == 0x3f80_0000
                &&& parent.transform.x_axis.y.bits == 0
                &&& parent.transform.y_axis.x.bits == 0
                &&& parent.transform.y_axis.y.bits == 0x3f80_0000
                &&& parent.transform.translation.x.bits == 0
                &&& parent.transform.translation.y.bits == 0
                &&& parent.size.x.bits == 0 && parent.size.y.bits == 0
                &&& parent.scroll.x.bits == 0 && parent.scroll.y.bits == 0
            }
        }),
{
    law_walk_goes_on_with_last_item(nodes, state.stack);
}

/// An independent root that is turned to, takes part in layout and has no hidden ancestor
/// is visited against what its parent answered, after being laid out where it is dirty:
/// where nothing was noted for it yet, where it was hidden, where a number of its parent's
/// transform, size or scroll position is not what it was, or where it is dirty.
pub proof fn law_moved_root_is_visited(
    frame: Frame,
    surface: Set<EntityId>,
    nodes: GeometryNodes,
    placed: Map<EntityId, IndependentPlacement>,
    state: PassState,
    root: EntityId,
    parent: ParentGeometry,
)
    requires
        state.waiting == (Waiting::Asking { root }),
        frame.synced().contains(root),
        !frame.roots.hidden_above(root),
        nodes.present@.contains(root),
        frame.dirty_roots().contains(root) || !placed.dom().contains(root) || placed[root].hidden
            || moved(placed[root], parent),
    ensures
        ({
            let (next, action) = frame.step(
                surface,
                nodes,
                placed,
                state,
                Event::Parent(Some(parent)),
            );
            let (last, then) = frame.step(surface, nodes, placed, next, Event::Done);
            let seen = if frame.dirty_roots().contains(root) {
                then
            } else {
                action
            };
            &&& frame.dirty_roots().contains(root) ==> (action matches ActionView::LayOut {
                root: r,
                updates: _,
            } && r == root)
            &&& seen matches ActionView::Visit { visit } && {
                &&& visit.entity == root
                &&& visit.parent.transform == parent.transform
                &&& visit.parent.size == parent.size
                &&& visit.parent.scroll == parent.scroll
            }
        }),
{
    if !frame.dirty_roots().contains(root) {
        law_moved_root_is_placed(frame, placed, root, parent);
    }
    assert(decision(frame, placed, root, Some(parent)) == Decision::Place { parent });
    lemma_walk_of_visits(nodes, root, parent);
}

/// An independent root under a hidden ancestor that is turned to is collapsed, with all
/// that is under it, after being laid out where it is dirty and takes part in layout:
/// where nothing was noted for it yet, where it was shown, where its parent moved, was
/// resized or scrolled, or where it is dirty.
pub proof fn law_newly_hidden_root_is_collapsed(
    frame: Frame,
    surface: Set<EntityId>,
    nodes: GeometryNodes,
    placed: Map<EntityId, IndependentPlacement>,
    state: PassState,
    root: EntityId,
    parent: ParentGeometry,
)
    requires
        state.waiting == (Waiting::Asking { root }),
        frame.roots.hidden_above(root),
        frame.dirty_roots().contains(root) || !placed.dom().contains(root) || !placed[root].hidden
            || moved(placed[root], parent),
    ensures
        ({
            let (next, action) = frame.step(
                surface,
                nodes,
                placed,
                state,
                Event::Parent(Some(parent)),
            );
            let (last, then) = frame.step(surface, nodes, placed, next, Event::Done);
            let first = frame.dirty_roots().contains(root) && frame.synced().contains(root);
            let seen = if first {
                then
            } else {
                action
            };
            &&& first ==> (action matches ActionView::LayOut { root: r, updates: _ } && r == root)
            &&& seen matches ActionView::Collapse { entities } && entities == frame.tree.preorder(
                Set::empty(),
                root,
            )
        }),
{
    if !frame.dirty_roots().contains(root) {
        law_hidden_root_is_collapsed(frame, placed, root, parent);
    }
    assert(decision(frame, placed, root, Some(parent)) is Collapse);
}

/// Turning to an independent root whose parent has no geometry, or none of whose own nodes
/// changed and whose parent is what it was, as hidden or shown, does nothing: the pass
/// goes on as if it had not been turned to, and what is noted of the roots stays.
pub proof fn law_unmoved_root_is_passed_over(
    frame: Frame,
    surface: Set<EntityId>,
    nodes: GeometryNodes,
    placed: Map<EntityId, IndependentPlacement>,
    state: PassState,
    root: EntityId,
    parent: Option<ParentGeometry>,
)
    requires
        state.waiting == (Waiting::Asking { root }),
        parent matches Some(geometry) ==> {
            &&& !frame.dirty_roots().contains(root)
            &&& placed.dom().contains(root)
            &&& placed[root].hidden == frame.roots.hidden_above(root)
            &&& !moved(placed[root], geometry)
        },
    ensures
        frame.step(surface, nodes, placed, state, Event::Parent(parent)) == frame.step(
            surface,
            nodes,
            placed,
            (PassState { waiting: Waiting::Nothing, ..state }),
            Event::Done,
        ),
        frame.placements_next(placed, state.waiting, Event::Parent(parent)) == placed,
{
    if parent is None {
        law_root_without_geometry_is_kept(frame, placed, root);
    }
}

/// What is noted of the roots changes only where the parent of a root answers, and then of
/// that root, and where it is collapsed of those under it.
pub proof fn law_notes_change_for_the_root_asked_about(
    frame: Frame,
    placed: Map<EntityId, IndependentPlacement>,
    waiting: Waiting,
    event: Event,
    entity: EntityId,
)
    ensures
        ({
            let after = frame.placements_next(placed, waiting, event);
            let same = after.dom().contains(entity) == placed.dom().contains(entity) && (
            placed.dom().contains(entity) ==> after[entity] == placed[entity]);
            &&& !(waiting is Asking) || !(event is Parent) ==> same
            &&& waiting matches Waiting::Asking { root } ==> {
                ||| same
                ||| root == entity
                ||| frame.roots.hidden_above(root) && frame.tree.preorder(
                    Set::empty(),
                    root,
                ).contains(entity) && !after.dom().contains(entity)
            }
        }),
{
    match (waiting, event) {
        (Waiting::Asking { root }, Event::Parent(Some(parent))) => {
            let below = frame.tree.preorder(Set::empty(), root);
            assert(below.to_set().contains(entity) == below.contains(entity));
        },
        _ => {},
    }
}

/// Whether a node that a pass has still to come to, after its first `n` events, is what an
/// earlier step made it: a child of a node that was placed, with what that handed down; a
/// dirty root without a parent; or an independent root, with what its parent answered.
spec fn has_origin(
    frame: Frame,
    states: Seq<(PassState, Map<EntityId, IndependentPlacement>)>,
    events: Seq<Event>,
    n: int,
    item: WalkItem,
) -> bool {
    ||| exists|j: int|
        0 <= j < n && (states[j].0.waiting matches Waiting::Visiting { visit: above } && (
        #[trigger] events[j] matches Event::Placed(Ok(handed)) && {
            &&& frame.tree.kids(above.entity).contains(item.entity)
            &&& !frame.roots.independent@.contains(item.entity)
            &&& item.parent == handed
            &&& item.inherited_rounding == above.use_rounding
        }))
    ||| {
        &&& item.inherited_rounding
        &&& frame.ui_roots@.contains(item.entity)
        &&& frame.dirty_roots().contains(item.entity)
        &&& item.parent == outermost()
    }
    ||| {
        &&& item.inherited_rounding
        &&& exists|j: int|
            0 <= j < n && states[j].0.waiting == (Waiting::Asking { root: item.entity }) && (
            #[trigger] events[j] matches Event::Parent(Some(answer)) && item.parent == answer)
    }
}

/// Whether all that a pass has still to come to has an origin, and the visit that it waits
/// for.
spec fn all_have_origin(
    frame: Frame,
    nodes: GeometryNodes,
    states: Seq<(PassState, Map<EntityId, IndependentPlacement>)>,
    events: Seq<Event>,
    n: int,
    state: PassState,
) -> bool {
    &&& forall|s: int|
        0 <= s < state.stack.len() && !(#[trigger] state.stack[s]).independent ==> has_origin(
            frame,
            states,
            events,
            n,
            state.stack[s],
        )
    &&& forall|s: int|
        0 <= s < state.ordinary.len() ==> frame.ui_roots@.contains(#[trigger] state.ordinary[s])
            && frame.dirty_roots().contains(state.ordinary[s])
    &&& state.waiting matches Waiting::LayingOut { root, then_do: Decision::Place { parent } }
        ==> has_origin(frame, states, events, n, walk_of(root, parent)[0])
    &&& state.waiting matches Waiting::Visiting { visit } ==> exists|item: WalkItem|
        {
            &&& #[trigger] has_origin(frame, states, events, n, item)
            &&& nodes.present@.contains(item.entity)
            &&& visit == nodes.visit(item)
        }
}

proof fn lemma_origin_stays(
    frame: Frame,
    states: Seq<(PassState, Map<EntityId, IndependentPlacement>)>,
    events: Seq<Event>,
    n: int,
    item: WalkItem,
)
    requires
        has_origin(frame, states, events, n, item),
    ensures
        has_origin(frame, states, events, n + 1, item),
{
    if exists|j: int|
        0 <= j < n && (states[j].0.waiting matches Waiting::Visiting { visit: above } && (
        #[trigger] events[j] matches Event::Placed(Ok(handed)) && {
            &&& frame.tree.kids(above.entity).contains(item.entity)
            &&& !frame.roots.independent@.contains(item.entity)
            &&& item.parent == handed
            &&& item.inherited_rounding == above.use_rounding
        })) {
        let j = choose|j: int|
            0 <= j < n && (states[j].0.waiting matches Waiting::Visiting { visit: above } && (
            #[trigger] events[j] matches Event::Placed(Ok(handed)) && {
                &&& frame.tree.kids(above.entity).contains(item.entity)
                &&& !frame.roots.independent@.contains(item.entity)
                &&& item.parent == handed
                &&& item.inherited_rounding == above.use_rounding
            }));
        assert(events[j] is Placed);
    } else if exists|j: int|
        0 <= j < n && states[j].0.waiting == (Waiting::Asking { root: item.entity }) && (
        #[trigger] events[j] matches Event::Parent(Some(answer)) && item.parent == answer) {
        let j = choose|j: int|
            0 <= j < n && states[j].0.waiting == (Waiting::Asking { root: item.entity }) && (
            #[trigger] events[j] matches Event::Parent(Some(answer)) && item.parent == answer);
        assert(events[j] is Parent);
    }
}

/// Going on keeps the origins.
proof fn lemma_advance_keeps_origins(
    frame: Frame,
    surface: Set<EntityId>,
    nodes: GeometryNodes,
    states: Seq<(PassState, Map<EntityId, IndependentPlacement>)>,
    events: Seq<Event>,
    n: int,
    state: PassState,
)
    requires
        all_have_origin(frame, nodes, states, events, n, state),
    ensures
        all_have_origin(
            frame,
            nodes,
            states,
            events,
            n,
            frame.advance(surface, nodes, state).0,
        ),
{
    let (visit, left, noted) = walk_next(nodes, state.stack);
    law_walk_goes_on_with_last_item(nodes, state.stack);
    let next = frame.advance(surface, nodes, state).0;
    assert forall|s: int| 0 <= s < next.stack.len() && !(#[trigger] next.stack[s]).independent
        implies has_origin(frame, states, events, n, next.stack[s]) by {
        assert(next.stack[s] == state.stack[s]);
    }
    match visit {
        Some(v) => {
            let item = state.stack[left.len() as int];
            assert(has_origin(frame, states, events, n, item));
            assert(v == nodes.visit(item));
        },
        None => {
            if state.ordinary.len() > 0 {
                assert(frame.ui_roots@.contains(state.ordinary[0]));
                assert forall|s: int| 0 <= s < next.ordinary.len() implies
                    frame.ui_roots@.contains(#[trigger] next.ordinary[s])
                    && frame.dirty_roots().contains(next.ordinary[s]) by {
                    assert(next.ordinary[s] == state.ordinary[s + 1]);
                }
            }
        },
    }
}

proof fn lemma_run_origins(
    frame: Frame,
    surface: Set<EntityId>,
    nodes: GeometryNodes,
    states: Seq<(PassState, Map<EntityId, IndependentPlacement>)>,
    events: Seq<Event>,
    n: int,
)
    requires
        is_run(frame, surface, nodes, states, events),
        0 <= n <= events.len(),
    ensures
        all_have_origin(frame, nodes, states, events, n, states[n].0),
    decreases n,
{
    if n == 0 {
        let state = states[0].0;
        let at = law_pass_starts_with_dirty_roots_in_order(frame, state);
        assert forall|s: int| 0 <= s < state.ordinary.len() implies frame.ui_roots@.contains(
            #[trigger] state.ordinary[s],
        ) && frame.dirty_roots().contains(state.ordinary[s]) by {
            assert(state.ordinary[s] == frame.ui_roots@[at[s]]);
        }
    } else {
        let i = n - 1;
        lemma_run_origins(frame, surface, nodes, states, events, i);
        let (before, placed) = states[i];
        let event = events[i];
        let idle = PassState { waiting: Waiting::Nothing, ..before };
        assert forall|item: WalkItem| #[trigger]
            has_origin(frame, states, events, i, item) implies has_origin(
            frame,
            states,
            events,
            n,
            item,
        ) by {
            lemma_origin_stays(frame, states, events, i, item);
        }
        assert(all_have_origin(frame, nodes, states, events, n, idle));
        match (before.waiting, event) {
            (Waiting::LayingOut { root, then_do }, Event::Done) => {
                lemma_follow_keeps_origins(
                    frame,
                    surface,
                    nodes,
                    states,
                    events,
                    n,
                    before,
                    root,
                    then_do,
                );
            },
            (Waiting::Visiting { visit }, Event::Placed(Ok(geometry))) => {
                let kids = frame.tree.kids(visit.entity);
                let items = child_items(frame.tree, frame.roots.independent@, visit, geometry);
                let stack = before.stack + items;
                law_children_are_handed_geometry(
                    frame.tree,
                    frame.roots.independent@,
                    visit,
                    geometry,
                );
                assert forall|s: int| 0 <= s < stack.len() && !(#[trigger] stack[s]).independent
                    implies has_origin(frame, states, events, n, stack[s]) by {
                    if s < before.stack.len() {
                        assert(stack[s] == before.stack[s]);
                    } else {
                        let k = kids.len() - 1 - (s - before.stack.len());
                        assert(stack[s] == items[items.len() - 1 - k]);
                        assert(stack[s].entity == kids[k]);
                        assert(stack[s].parent == geometry);
                        assert(events[i] is Placed);
                    }
                }
                let other = PassState { stack, ..idle };
                lemma_advance_keeps_origins(frame, surface, nodes, states, events, n, other);
            },
            (Waiting::Asking { root }, Event::Parent(parent)) => {
                let decided = decision(frame, placed, root, parent);
                match decided {
                    Decision::Place { parent: against } => {
                        assert(parent == Some(against));
                        assert(events[i] is Parent);
                        assert(has_origin(frame, states, events, n, walk_of(root, against)[0]));
                    },
                    _ => {},
                }
                if !lays_out(frame, root, parent) {
                    lemma_follow_keeps_origins(
                        frame,
                        surface,
                        nodes,
                        states,
                        events,
                        n,
                        before,
                        root,
                        decided,
                    );
                }
            },
            _ => {
                lemma_advance_keeps_origins(frame, surface, nodes, states, events, n, idle);
            },
        }
    }
}

proof fn lemma_follow_keeps_origins(
    frame: Frame,
    surface: Set<EntityId>,
    nodes: GeometryNodes,
    states: Seq<(PassState, Map<EntityId, IndependentPlacement>)>,
    events: Seq<Event>,
    n: int,
    state: PassState,
    root: EntityId,
    decided: Decision,
)
    requires
        all_have_origin(
            frame,
            nodes,
            states,
            events,
            n,
            (PassState { waiting: Waiting::Nothing, ..state }),
        ),
        decided matches Decision::Place { parent } ==> has_origin(
            frame,
            states,
            events,
            n,
            walk_of(root, parent)[0],
        ),
    ensures
        all_have_origin(
            frame,
            nodes,
            states,
            events,
            n,
            frame.follow(surface, nodes, state, root, decided).0,
        ),
{
    let idle = PassState { waiting: Waiting::Nothing, ..state };
    let next = frame.follow(surface, nodes, state, root, decided).0;
    match decided {
        Decision::Keep => {
            lemma_advance_keeps_origins(frame, surface, nodes, states, events, n, idle);
        },
        Decision::Collapse => {
            assert(next.stack == idle.stack && next.ordinary == idle.ordinary);
        },
        Decision::Place { parent } => {
            let other = PassState { stack: walk_of(root, parent), ..idle };
            assert(all_have_origin(frame, nodes, states, events, n, other));
            lemma_advance_keeps_origins(frame, surface, nodes, states, events, n, other);
        },
    }
}

/// Every node that a pass has placed can be, and is rounded as its own configuration says.
/// It is either a child, not independent, of a node that was placed before, and is placed
/// against the transform, the size and the scroll position that this node handed down,
/// rounded as this node was where its own configuration says nothing; or a dirty root
/// without a parent, placed against an identity transform without size or scrolling; or an
/// independent root, placed against what its parent answered when it was turned to.
pub proof fn law_visit_has_geometry_of_its_parent(
    frame: Frame,
    surface: Set<EntityId>,
    nodes: GeometryNodes,
    states: Seq<(PassState, Map<EntityId, IndependentPlacement>)>,
    events: Seq<Event>,
    i: int,
    visit: Visit,
)
    requires
        frame.wf(),
        is_run(frame, surface, nodes, states, events),
        0 <= i < events.len(),
        action_of(frame, surface, nodes, states, events, i) == (ActionView::Visit { visit }),
    ensures
        ({
            let own = nodes.rounded@.contains(visit.entity) || nodes.unrounded@.contains(
                visit.entity,
            );
            &&& nodes.present@.contains(visit.entity)
            &&& own ==> visit.use_rounding == nodes.rounded@.contains(visit.entity)
            &&& {
                ||| exists|j: int|
                    0 <= j <= i && (states[j].0.waiting matches Waiting::Visiting { visit: above }
                        && (#[trigger] events[j] matches Event::Placed(Ok(handed)) && {
                        &&& frame.tree.kids(above.entity).contains(visit.entity)
                        &&& !frame.roots.independent@.contains(visit.entity)
                        &&& visit.parent.transform == handed.transform
                        &&& visit.parent.size == handed.size
                        &&& visit.parent.scroll == handed.scroll
                        &&& !own ==> visit.use_rounding == above.use_rounding
                    }))
                ||| {
                    let parent = visit.parent;
                    &&& frame.ui_roots@.contains(visit.entity)
                    &&& frame.dirty_roots().contains(visit.entity)
                    &&& !own ==> visit.use_rounding
                    &&& parent.transform.x_axis.x.bits == 0x3f80_0000
                    &&& parent.transform.x_axis.y.bits == 0
                    &&& parent.transform.y_axis.x.bits == 0
                    &&& parent.transform.y_axis.y.bits == 0x3f80_0000
                    &&& parent.transform.translation.x.bits == 0
                    &&& parent.transform.translation.y.bits == 0
                    &&& parent.size.x.bits == 0 && parent.size.y.bits == 0
                    &&& parent.scroll.x.bits == 0 && parent.scroll.y.bits == 0
                }
                ||| {
                    &&& !own ==> visit.use_rounding
                    &&& exists|j: int|
                        0 <= j <= i && states[j].0.waiting == (Waiting::Asking {
                            root: visit.entity,
                        }) && (#[trigger] events[j] matches Event::Parent(Some(answer)) && {
                            &&& visit.parent.transform == answer.transform
                            &&& visit.parent.size == answer.size
                            &&& visit.parent.scroll == answer.scroll
                        })
                }
            }
        }),
{
    lemma_run_origins(frame, surface, nodes, states, events, i + 1);
    lemma_run(frame, surface, nodes, states, events, i, visit.entity);
    law_pass_waits_for_what_it_asked(
        frame,
        surface,
        nodes,
        states[i].1,
        states[i].0,
        events[i],
        Ok(visit.parent),
        None,
    );
    let item = choose|item: WalkItem|
        {
            &&& #[trigger] has_origin(frame, states, events, i + 1, item)
            &&& nodes.present@.contains(item.entity)
            &&& visit == nodes.visit(item)
        };
    assert(has_origin(frame, states, events, i + 1, item));
}

/// A node that a pass has still to come to stays where it is until it is visited.
proof fn lemma_item_waits(
    frame: Frame,
    surface: Set<EntityId>,
    nodes: GeometryNodes,
    states: Seq<(PassState, Map<EntityId, IndependentPlacement>)>,
    events: Seq<Event>,
    m: int,
    n: int,
    s: int,
    item: WalkItem,
)
    requires
        frame.wf(),
        is_run(frame, surface, nodes, states, events),
        0 <= m <= n <= events.len(),
        0 <= s < states[m].0.stack.len(),
        states[m].0.stack[s] == item,
        !item.independent,
        nodes.present@.contains(item.entity),
    ensures
        (s < states[n].0.stack.len() && states[n].0.stack[s] == item) || exists|i: int|
            m <= i < n && #[trigger] action_of(frame, surface, nodes, states, events, i) == (
            ActionView::Visit { visit: nodes.visit(item) }),
    decreases n - m,
{
    if m < n {
        let k = n - 1;
        lemma_item_waits(frame, surface, nodes, states, events, m, k, s, item);
        if s < states[k].0.stack.len() && states[k].0.stack[s] == item {
            lemma_run(frame, surface, nodes, states, events, k, item.entity);
            let (before, placed) = states[k];
            let event = events[k];
            let idle = PassState { waiting: Waiting::Nothing, ..before };
            assert(fits(before.waiting, event));
            let other = match (before.waiting, event) {
                (Waiting::Visiting { visit }, Event::Placed(Ok(geometry))) => PassState {
                    stack: before.stack + child_items(
                        frame.tree,
                        frame.roots.independent@,
                        visit,
                        geometry,
                    ),
                    ..idle
                },
                _ => idle,
            };
            assert(other.stack[s] == item);
            assert(frame.step(surface, nodes, placed, before, event) == frame.advance(
                surface,
                nodes,
                other,
            ));
            lemma_advance_keeps_item(frame, surface, nodes, other, s, item);
            assert(action_of(frame, surface, nodes, states, events, k) == frame.advance(
                surface,
                nodes,
                other,
            ).1);
        } else {
            let i = choose|i: int|
                m <= i < k && #[trigger] action_of(frame, surface, nodes, states, events, i) == (
                ActionView::Visit { visit: nodes.visit(item) });
            assert(action_of(frame, surface, nodes, states, events, i) is Visit);
        }
    }
}

proof fn lemma_advance_keeps_item(
    frame: Frame,
    surface: Set<EntityId>,
    nodes: GeometryNodes,
    state: PassState,
    s: int,
    item: WalkItem,
)
    requires
        0 <= s < state.stack.len(),
        state.stack[s] == item,
        !item.independent,
        nodes.present@.contains(item.entity),
    ensures
        ({
            let (next, action) = frame.advance(surface, nodes, state);
            ||| s < next.stack.len() && next.stack[s] == item
            ||| action == (ActionView::Visit { visit: nodes.visit(item) })
        }),
{
    let (visit, left, noted) = walk_next(nodes, state.stack);
    law_walk_goes_on_with_last_item(nodes, state.stack);
    let passed = passed_by(state.stack, visit, left);
    if visit is None {
        assert(passed[s] == item);
    } else if s > left.len() {
        assert(passed[s - left.len() - 1] == item);
    }
}

/// Where a pass that finishes has placed a node, it has placed each child of the node that
/// is not independent and can be placed, against the transform, the size and the scroll
/// position that the node handed down.
pub proof fn law_children_of_placed_node_are_placed(
    frame: Frame,
    surface: Set<EntityId>,
    nodes: GeometryNodes,
    states: Seq<(PassState, Map<EntityId, IndependentPlacement>)>,
    events: Seq<Event>,
    j: int,
    above: Visit,
    handed: ParentGeometry,
    child: EntityId,
)
    requires
        frame.wf(),
        is_run(frame, surface, nodes, states, events),
        finishes(frame, surface, nodes, states, events),
        0 <= j < events.len(),
        states[j].0.waiting == (Waiting::Visiting { visit: above }),
        events[j] == Event::Placed(Ok(handed)),
        frame.tree.kids(above.entity).contains(child),
        !frame.roots.independent@.contains(child),
        nodes.present@.contains(child),
    ensures
        exists|i: int|
            j <= i < events.len() && (#[trigger] action_of(
                frame,
                surface,
                nodes,
                states,
                events,
                i,
            ) matches ActionView::Visit { visit } && {
                &&& visit.entity == child
                &&& visit.parent.transform == handed.transform
                &&& visit.parent.size == handed.size
                &&& visit.parent.scroll == handed.scroll
                &&& !nodes.rounded@.contains(child) && !nodes.unrounded@.contains(child)
                    ==> visit.use_rounding == above.use_rounding
            }),
{
    let (before, placed) = states[j];
    let kids = frame.tree.kids(above.entity);
    let items = child_items(frame.tree, frame.roots.independent@, above, handed);
    let k = choose|k: int| 0 <= k < kids.len() && kids[k] == child;
    law_children_are_handed_geometry(frame.tree, frame.roots.independent@, above, handed);
    let item = items[items.len() - 1 - k];
    assert(item.entity == kids[k]);
    let s = before.stack.len() + (items.len() - 1 - k);
    let other = PassState {
        stack: before.stack + items,
        waiting: Waiting::Nothing,
        ..before
    };
    assert(other.stack[s] == item);
    lemma_advance_keeps_item(frame, surface, nodes, other, s, item);
    let action = action_of(frame, surface, nodes, states, events, j);
    assert(events[j] is Placed);
    assert(action == frame.advance(surface, nodes, other).1);
    let n = events.len() as int;
    if action != (ActionView::Visit { visit: nodes.visit(item) }) {
        lemma_item_waits(frame, surface, nodes, states, events, j + 1, n, s, item);
        lemma_run(frame, surface, nodes, states, events, n - 1, child);
        law_no_root_is_forgotten(
            frame,
            surface,
            nodes,
            states[n - 1].1,
            states[n - 1].0,
            events[n - 1],
            child,
        );
        assert(states[n].0.stack.len() == 0);
        let i = choose|i: int|
            j + 1 <= i < n && #[trigger] action_of(frame, surface, nodes, states, events, i) == (
            ActionView::Visit { visit: nodes.visit(item) });
        assert(action_of(frame, surface, nodes, states, events, i) is Visit);
    }
}

} // verus!
