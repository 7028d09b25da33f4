//! A frame's layout, step by step: what is to be done next, given what was done so far.
use crate::context::LayoutError;
use crate::entity::{EntityId, EntitySet};
use crate::frame::{
    law_change_dirties_root, law_dirty_roots_are_roots, law_still_frame_is_clean,
    lemma_dirty_root_is_node, Frame, FramePlan,
};
use crate::geometry::{
    child_item, child_items, lemma_children_size, lemma_walk_next_size, stack_nodes, walk_next,
    walk_size, GeometryNodes, GeometryWalk, ParentGeometry, Visit, WalkItem,
};
use crate::independent::{
    decision, law_next_is_shallowest, lays_out, lemma_select_left, placements_after, select, waiting,
    Decision, IndependentPass,
};
use crate::math::{Affine2, Vec2};
use crate::placement::{IndependentPlacement, Placements};
use crate::scalar::{Scalar, ONE, ZERO};
use crate::sync::{update_views, ChildrenUpdate};
use crate::tree::UiTree;
use vstd::prelude::*;

verus! {

/// What a layout pass waits for.
#[derive(Clone, Copy, Debug)]
pub enum Waiting {
    /// Nothing: it can go on.
    Nothing,
    /// That `root` is laid out, for what follows to be done about it.
    LayingOut { root: EntityId, then_do: Decision },
    /// That a node is placed.
    Visiting { visit: Visit },
    /// The geometry of the parent of `root`.
    Asking { root: EntityId },
    /// That a subtree is collapsed.
    Collapsing,
}

/// What happened since the last step.
pub enum Event {
    /// What was asked for was done, or nothing was asked for yet.
    Done,
    /// The node was placed, and hands this down; or it has no layout.
    Placed(Result<ParentGeometry, LayoutError>),
    /// The geometry of the parent that was asked for, if it has one.
    Parent(Option<ParentGeometry>),
}

/// What is to be done next.
pub enum Action {
    /// The children of the nodes of `updates` are written to the layout tree, and `root`
    /// is laid out.
    LayOut { root: EntityId, updates: Vec<ChildrenUpdate> },
    /// A node is placed as its layout says.
    Visit { visit: Visit },
    /// The geometry of `parent`, which `root` is placed against, is looked up.
    AskParent { root: EntityId, parent: EntityId },
    /// The nodes are given no size.
    Collapse { entities: Vec<EntityId> },
    /// The layout of the frame is complete.
    Finished,
}

/// The model of an [`Action`].
pub enum ActionView {
    LayOut { root: EntityId, updates: Seq<(EntityId, Seq<EntityId>)> },
    Visit { visit: Visit },
    AskParent { root: EntityId, parent: EntityId },
    Collapse { entities: Seq<EntityId> },
    Finished,
}

impl View for Action {
    type V = ActionView;

    open spec fn view(&self) -> ActionView {
        match *self {
            Action::LayOut { root, updates } => ActionView::LayOut {
                root,
                updates: update_views(updates@),
            },
            Action::Visit { visit } => ActionView::Visit { visit },
            Action::AskParent { root, parent } => ActionView::AskParent { root, parent },
            Action::Collapse { entities } => ActionView::Collapse { entities: entities@ },
            Action::Finished => ActionView::Finished,
        }
    }
}

/// How far the layout of a frame got.
pub struct LayoutPass {
    /// The dirty roots without a parent, in order.
    pub ordinary: Vec<EntityId>,
    /// How many of them were laid out.
    pub next: usize,
    /// The nodes still to place of the root that was laid out last.
    pub walk: GeometryWalk,
    /// The independent roots still to look at.
    pub independent: IndependentPass,
    /// What is waited for.
    pub waiting: Waiting,
}

/// The model of a [`LayoutPass`].
pub struct PassState {
    /// The dirty roots without a parent that are still to lay out.
    pub ordinary: Seq<EntityId>,
    /// The nodes still to place of the root that was laid out last, the next one last.
    pub stack: Seq<WalkItem>,
    /// The independent roots still to look at.
    pub pending: Seq<EntityId>,
    /// The independent roots that were looked at.
    pub done: Set<EntityId>,
    /// What is waited for.
    pub waiting: Waiting,
}

impl View for LayoutPass {
    type V = PassState;

    open spec fn view(&self) -> PassState {
        PassState {
            ordinary: self.ordinary@.skip(self.next as int),
            stack: self.walk@,
            pending: self.independent.pending@,
            done: self.independent.done@,
            waiting: self.waiting,
        }
    }
}

/// Whether the event is what was waited for.
pub open spec fn fits(waiting: Waiting, event: Event) -> bool {
    match event {
        Event::Done => waiting is Nothing || waiting is LayingOut || waiting is Collapsing,
        Event::Placed(_) => waiting is Visiting,
        Event::Parent(_) => waiting is Asking,
    }
}

/// What the roots without a parent are placed against: nothing that moves, scrolls or
/// has a size.
pub open spec fn outermost() -> ParentGeometry {
    let zero = Scalar { bits: ZERO };
    let one = Scalar { bits: ONE };
    ParentGeometry {
        transform: Affine2 {
            x_axis: Vec2 { x: one, y: zero },
            y_axis: Vec2 { x: zero, y: one },
            translation: Vec2 { x: zero, y: zero },
        },
        size: Vec2 { x: zero, y: zero },
        scroll: Vec2 { x: zero, y: zero },
    }
}

/// The walk over the layout tree of `root`, which is placed against `parent`.
pub open spec fn walk_of(root: EntityId, parent: ParentGeometry) -> Seq<WalkItem> {
    seq![WalkItem { entity: root, independent: false, inherited_rounding: true, parent }]
}

/// The pass at its start.
pub open spec fn starts(frame: Frame, state: PassState) -> bool {
    &&& state.ordinary == frame.ui_roots@.filter(|e: EntityId| frame.dirty_roots().contains(e))
    &&& state.stack == Seq::<WalkItem>::empty()
    &&& state.pending.no_duplicates()
    &&& forall|e: EntityId| #[trigger]
        state.pending.contains(e) <==> (frame.dirty_roots().contains(e)
            && frame.roots.independent@.contains(e) && frame.roots.ui_parent(e) is Some)
    &&& state.done == Set::<EntityId>::empty()
    &&& state.waiting == Waiting::Nothing
}

impl Frame {
    /// What a pass that waits for nothing does next: it places the nodes of the root
    /// that was laid out last, then goes on to the next root without a parent, and then
    /// to the shallowest independent root.
    pub open spec fn advance(
        self,
        surface: Set<EntityId>,
        nodes: GeometryNodes,
        state: PassState,
    ) -> (PassState, ActionView) {
        let (visit, left, noted) = walk_next(nodes, state.stack);
        let walked = PassState { stack: left, pending: state.pending + noted, ..state };
        match visit {
            Some(v) => (
                PassState { waiting: Waiting::Visiting { visit: v }, ..walked },
                ActionView::Visit { visit: v },
            ),
            None => if walked.ordinary.len() > 0 {
                let root = walked.ordinary[0];
                (
                    PassState {
                        ordinary: walked.ordinary.skip(1),
                        waiting: Waiting::LayingOut {
                            root,
                            then_do: Decision::Place { parent: outermost() },
                        },
                        ..walked
                    },
                    ActionView::LayOut { root, updates: self.children_updates(surface, root) },
                )
            } else {
                let up = self.roots.ui_parents();
                let (root, pending, done) = select(up, walked.pending, walked.done);
                match root {
                    Some(r) => (
                        PassState { pending, done, waiting: Waiting::Asking { root: r }, ..walked },
                        ActionView::AskParent { root: r, parent: up[r] },
                    ),
                    None => (
                        PassState { pending, done, waiting: Waiting::Nothing, ..walked },
                        ActionView::Finished,
                    ),
                }
            },
        }
    }

    /// What a pass does next about a root that was decided on: it leaves it, collapses
    /// all that is under it, or places its nodes.
    pub open spec fn follow(
        self,
        surface: Set<EntityId>,
        nodes: GeometryNodes,
        state: PassState,
        root: EntityId,
        decided: Decision,
    ) -> (PassState, ActionView) {
        let idle = PassState { waiting: Waiting::Nothing, ..state };
        match decided {
            Decision::Keep => self.advance(surface, nodes, idle),
            Decision::Collapse => (
                PassState { waiting: Waiting::Collapsing, ..state },
                ActionView::Collapse { entities: self.tree.preorder(Set::empty(), root) },
            ),
            Decision::Place { parent } => self.advance(
                surface,
                nodes,
                PassState { stack: walk_of(root, parent), ..idle },
            ),
        }
    }

    /// What a pass does next after an event.
    pub open spec fn step(
        self,
        surface: Set<EntityId>,
        nodes: GeometryNodes,
        placed: Map<EntityId, IndependentPlacement>,
        state: PassState,
        event: Event,
    ) -> (PassState, ActionView) {
        let idle = PassState { waiting: Waiting::Nothing, ..state };
        match (state.waiting, event) {
            (Waiting::LayingOut { root, then_do }, Event::Done) => self.follow(
                surface,
                nodes,
                state,
                root,
                then_do,
            ),
            (Waiting::Visiting { visit }, Event::Placed(Ok(geometry))) => self.advance(
                surface,
                nodes,
                PassState {
                    stack: state.stack + child_items(
                        self.tree,
                        self.roots.independent@,
                        visit,
                        geometry,
                    ),
                    ..idle
                },
            ),
            (Waiting::Asking { root }, Event::Parent(parent)) => {
                let decided = decision(self, placed, root, parent);
                if lays_out(self, root, parent) {
                    (
                        PassState { waiting: Waiting::LayingOut { root, then_do: decided }, ..state },
                        ActionView::LayOut { root, updates: self.children_updates(surface, root) },
                    )
                } else {
                    self.follow(surface, nodes, state, root, decided)
                }
            },
            _ => self.advance(surface, nodes, idle),
        }
    }

    /// The placements after an event.
    pub open spec fn placements_next(
        self,
        placed: Map<EntityId, IndependentPlacement>,
        waiting: Waiting,
        event: Event,
    ) -> Map<EntityId, IndependentPlacement> {
        match (waiting, event) {
            (Waiting::Asking { root }, Event::Parent(parent)) => placements_after(
                self,
                placed,
                root,
                parent,
            ),
            _ => placed,
        }
    }
}

impl LayoutPass {
    /// Whether the model is that of the fields.
    pub open spec fn wf(self) -> bool {
        self.next <= self.ordinary@.len()
    }

    /// The start of the layout of a frame.
    pub fn start(frame: &Frame, plan: &FramePlan) -> (r: LayoutPass)
        requires
            frame.wf(),
            plan.of(*frame),
        ensures
            r.wf(),
            starts(*frame, r@),
    {
        let ghost dirty = |e: EntityId| frame.dirty_roots().contains(e);
        let mut ordinary: Vec<EntityId> = Vec::new();
        assert(frame.ui_roots@.take(0).filter(dirty) =~= Seq::empty()) by {
            reveal(Seq::filter);
        }
        for i in 0..frame.ui_roots.len()
            invariant
                plan.of(*frame),
                dirty == (|e: EntityId| frame.dirty_roots().contains(e)),
                ordinary@ == frame.ui_roots@.take(i as int).filter(dirty),
        {
            let root = frame.ui_roots[i];
            proof {
                assert(frame.ui_roots@.take(i + 1) =~= frame.ui_roots@.take(i as int).push(root));
                frame.ui_roots@.take(i as int).lemma_filter_push(root, dirty);
            }
            if plan.dirty_roots.contains(root) {
                ordinary.push(root);
            }
        }
        assert(frame.ui_roots@.take(frame.ui_roots@.len() as int) =~= frame.ui_roots@);
        assert(ordinary@.skip(0) =~= ordinary@);
        LayoutPass {
            ordinary,
            next: 0,
            walk: GeometryWalk::empty(),
            independent: IndependentPass::start(frame, plan),
            waiting: Waiting::Nothing,
        }
    }

    /// Whether the event is what is waited for.
    pub fn expects(&self, event: &Event) -> (r: bool)
        ensures
            r == fits(self@.waiting, *event),
    {
        match event {
            Event::Done => match self.waiting {
                Waiting::Nothing => true,
                Waiting::LayingOut { root: _, then_do: _ } => true,
                Waiting::Visiting { visit: _ } => false,
                Waiting::Asking { root: _ } => false,
                Waiting::Collapsing => true,
            },
            Event::Placed(_) => matches!(self.waiting, Waiting::Visiting { visit: _ }),
            Event::Parent(_) => matches!(self.waiting, Waiting::Asking { root: _ }),
        }
    }

    fn advance(
        &mut self,
        frame: &Frame,
        plan: &FramePlan,
        surface: &EntitySet,
        nodes: &GeometryNodes,
    ) -> (r: Action)
        requires
            old(self).wf(),
            frame.wf(),
            plan.of(*frame),
            old(self).waiting is Nothing,
        ensures
            final(self).wf(),
            (final(self)@, r@) == frame.advance(surface@, *nodes, old(self)@),
    {
        match self.walk.next(nodes, &mut self.independent.pending) {
            Some(visit) => {
                self.waiting = Waiting::Visiting { visit };
                Action::Visit { visit }
            },
            None => {
                if self.next < self.ordinary.len() {
                    let root = self.ordinary[self.next];
                    let ghost before = self@.ordinary;
                    self.next = self.next + 1;
                    assert(self@.ordinary =~= before.skip(1));
                    self.waiting = Waiting::LayingOut {
                        root,
                        then_do: Decision::Place { parent: outermost_geometry() },
                    };
                    let updates = frame.update_children_recursively(plan, surface, root);
                    Action::LayOut { root, updates }
                } else {
                    match self.independent.next(&frame.roots) {
                        Some((root, parent)) => {
                            self.waiting = Waiting::Asking { root };
                            Action::AskParent { root, parent }
                        },
                        None => Action::Finished,
                    }
                }
            },
        }
    }
}

impl LayoutPass {
    fn follow(
        &mut self,
        frame: &Frame,
        plan: &FramePlan,
        surface: &EntitySet,
        nodes: &GeometryNodes,
        root: EntityId,
        decided: Decision,
    ) -> (r: Action)
        requires
            old(self).wf(),
            frame.wf(),
            plan.of(*frame),
        ensures
            final(self).wf(),
            (final(self)@, r@) == frame.follow(surface@, *nodes, old(self)@, root, decided),
    {
        match decided {
            Decision::Keep => {},
            Decision::Collapse => {
                let mut entities: Vec<EntityId> = Vec::new();
                frame.tree.walk(&EntitySet::new(), root, &mut entities);
                assert(entities@ =~= frame.tree.preorder(Set::empty(), root));
                self.waiting = Waiting::Collapsing;
                return Action::Collapse { entities };
            },
            Decision::Place { parent } => {
                self.walk = GeometryWalk::start(root, parent);
            },
        }
        self.waiting = Waiting::Nothing;
        self.advance(frame, plan, surface, nodes)
    }
}

fn outermost_geometry() -> (r: ParentGeometry)
    ensures
        r == outermost(),
{
    let zero = Scalar { bits: ZERO };
    let one = Scalar { bits: ONE };
    ParentGeometry {
        transform: Affine2 {
            x_axis: Vec2 { x: one, y: zero },
            y_axis: Vec2 { x: zero, y: one },
            translation: Vec2 { x: zero, y: zero },
        },
        size: Vec2 { x: zero, y: zero },
        scroll: Vec2 { x: zero, y: zero },
    }
}

/// Takes the layout of a frame one step on: takes in what happened, and says what is to
/// be done next.
///
/// Only **dirty layout roots** are laid out: a layout root is a root node or an
/// independent node, and a change to any node dirties the root it belongs to. A dirty
/// root is laid out even where an ancestor is hidden, so that nothing is missed once it
/// is shown; one whose parent has no geometry is skipped. An independent root whose own
/// nodes did not change is placed again only when its parent moved, resized, scrolled, or
/// an ancestor was hidden or shown.
///
/// `surface` are the nodes that the layout tree has, and `nodes` those that can be
/// placed.
pub fn ui_layout_system(
    frame: &Frame,
    plan: &FramePlan,
    surface: &EntitySet,
    nodes: &GeometryNodes,
    placed: &mut Placements,
    pass: &mut LayoutPass,
    event: Event,
) -> (r: Action)
    requires
        old(pass).wf(),
        frame.wf(),
        plan.of(*frame),
        fits(old(pass)@.waiting, event),
    ensures
        final(pass).wf(),
        (final(pass)@, r@) == frame.step(surface@, *nodes, old(placed)@, old(pass)@, event),
        final(placed)@ == frame.placements_next(old(placed)@, old(pass)@.waiting, event),
        ({
            let action = frame.step(surface@, *nodes, old(placed)@, old(pass)@, event).1;
            match r {
                Action::LayOut { root, updates } => action matches ActionView::LayOut {
                    root: other,
                    updates: views,
                } && root == other && updates@.len() == views.len() && forall|k: int|
                    0 <= k < views.len() ==> (#[trigger] updates@[k]).entity == views[k].0
                        && updates@[k].children@ == views[k].1,
                Action::Visit { visit } => action == (ActionView::Visit { visit }),
                Action::AskParent { root, parent } => action == (ActionView::AskParent {
                    root,
                    parent,
                }),
                Action::Collapse { entities } => action matches ActionView::Collapse {
                    entities: other,
                } && entities@ == other,
                Action::Finished => action is Finished,
            }
        }),
{
    let waiting = pass.waiting;
    match event {
        Event::Done => {
            match waiting {
                Waiting::LayingOut { root, then_do } => {
                    return pass.follow(frame, plan, surface, nodes, root, then_do);
                },
                _ => {},
            }
            pass.waiting = Waiting::Nothing;
            pass.advance(frame, plan, surface, nodes)
        },
        Event::Placed(result) => {
            let geometry = match result {
                Ok(geometry) => Some(geometry),
                Err(_) => None,
            };
            match waiting {
                Waiting::Visiting { visit } => {
                    let ghost before = pass.walk@;
                    pass.walk.placed(&frame.tree, &frame.roots.independent, visit, geometry);
                    assert(geometry is None ==> pass.walk@ =~= before);
                },
                _ => {},
            }
            pass.waiting = Waiting::Nothing;
            pass.advance(frame, plan, surface, nodes)
        },
        Event::Parent(parent) => {
            match waiting {
                Waiting::Asking { root } => {
                    let decided = frame.decide(plan, placed, root, parent);
                    if parent.is_some() && plan.dirty_roots.contains(root)
                        && plan.synced.contains(root) {
                        pass.waiting = Waiting::LayingOut { root, then_do: decided };
                        let updates = frame.update_children_recursively(plan, surface, root);
                        return Action::LayOut { root, updates };
                    }
                    return pass.follow(frame, plan, surface, nodes, root, decided);
                },
                _ => {},
            }
            pass.waiting = Waiting::Nothing;
            pass.advance(frame, plan, surface, nodes)
        },
    }
}

impl Frame {
    /// The nodes that are independent.
    pub open spec fn independent_nodes(self) -> Set<EntityId> {
        self.roots.independent@.intersect(self.roots.nodes@)
    }
}

/// Whether `entity` is in the layout tree of a root that is dirty or independent.
pub open spec fn in_placed_tree(frame: Frame, entity: EntityId) -> bool {
    exists|root: EntityId|
        (frame.dirty_roots().contains(root) || frame.independent_nodes().contains(root))
            && #[trigger] frame.tree.preorder(frame.roots.independent@, root).contains(entity)
}

/// What holds of a pass at every step: it has only dirty roots to lay out, and only nodes
/// of the layout trees of dirty and independent roots to place; it notes only independent
/// nodes; and it turns to an independent root only after all that comes before.
pub open spec fn sound(frame: Frame, state: PassState) -> bool {
    let up = frame.roots.ui_parents();
    &&& forall|i: int|
        0 <= i < state.ordinary.len() ==> frame.dirty_roots().contains(
            #[trigger] state.ordinary[i],
        )
    &&& forall|i: int|
        0 <= i < state.stack.len() && (#[trigger] state.stack[i]).independent
            ==> frame.independent_nodes().contains(state.stack[i].entity)
    &&& forall|i: int|
        0 <= i < state.stack.len() && !(#[trigger] state.stack[i]).independent ==> in_placed_tree(
            frame,
            state.stack[i].entity,
        )
    &&& forall|e: EntityId| #[trigger]
        state.pending.contains(e) ==> frame.independent_nodes().contains(e)
    &&& match state.waiting {
        Waiting::Nothing => true,
        Waiting::LayingOut { root, then_do } => {
            &&& state.stack.len() == 0
            &&& frame.dirty_roots().contains(root)
            &&& then_do is Collapse ==> frame.independent_nodes().contains(root)
        },
        Waiting::Visiting { visit } => in_placed_tree(frame, visit.entity),
        Waiting::Asking { root } => {
            &&& state.stack.len() == 0
            &&& state.ordinary.len() == 0
            &&& state.done.contains(root)
            &&& up.dom().contains(root)
            &&& frame.independent_nodes().contains(root)
        },
        Waiting::Collapsing => state.stack.len() == 0,
    }
}

/// A walk takes its items from the end, and notes independent nodes only.
pub proof fn lemma_walk_next_parts(
    independent: Set<EntityId>,
    nodes: GeometryNodes,
    stack: Seq<WalkItem>,
)
    requires
        forall|i: int|
            0 <= i < stack.len() && (#[trigger] stack[i]).independent ==> independent.contains(
                stack[i].entity,
            ),
    ensures
        ({
            let (visit, left, noted) = walk_next(nodes, stack);
            &&& left.len() <= stack.len()
            &&& left == stack.take(left.len() as int)
            &&& forall|i: int| 0 <= i < noted.len() ==> independent.contains(#[trigger] noted[i])
            &&& visit is None ==> left.len() == 0
            &&& visit matches Some(v) ==> {
                &&& left.len() < stack.len()
                &&& !stack[left.len() as int].independent
                &&& stack[left.len() as int].entity == v.entity
            }
        }),
    decreases stack.len(),
{
    if stack.len() > 0 {
        let item = stack.last();
        let rest = stack.drop_last();
        lemma_walk_next_parts(independent, nodes, rest);
        let (visit, left, noted) = walk_next(nodes, rest);
        assert(stack[stack.len() - 1] == item);
        assert(left =~= stack.take(left.len() as int));
        assert(rest =~= stack.take(rest.len() as int));
    }
}

proof fn lemma_advance_sound(
    frame: Frame,
    surface: Set<EntityId>,
    nodes: GeometryNodes,
    state: PassState,
)
    requires
        frame.wf(),
        sound(frame, state),
        state.waiting is Nothing,
    ensures
        sound(frame, frame.advance(surface, nodes, state).0),
{
    let up = frame.roots.ui_parents();
    let (visit, left, noted) = walk_next(nodes, state.stack);
    let all = state.pending + noted;
    lemma_walk_next_parts(frame.independent_nodes(), nodes, state.stack);
    assert forall|i: int| 0 <= i < left.len() && (#[trigger] left[i]).independent implies
        frame.independent_nodes().contains(left[i].entity) by {
        assert(left[i] == state.stack[i]);
    }
    assert forall|i: int| 0 <= i < left.len() && !(#[trigger] left[i]).independent implies
        in_placed_tree(frame, left[i].entity) by {
        assert(left[i] == state.stack[i]);
    }
    assert forall|e: EntityId| #[trigger] all.contains(e) implies
        frame.independent_nodes().contains(e) by {
        let k = choose|k: int| 0 <= k < all.len() && all[k] == e;
        if k < state.pending.len() {
            assert(state.pending[k] == e);
            assert(state.pending.contains(e));
        } else {
            assert(noted[k - state.pending.len()] == e);
        }
    }
    if visit is None && state.ordinary.len() == 0 {
        law_next_is_shallowest(up, all, state.done);
        lemma_select_left(up, all, state.done);
    }
}

/// A pass is sound from its start to its end.
pub proof fn law_pass_stays_sound(
    frame: Frame,
    surface: Set<EntityId>,
    nodes: GeometryNodes,
    placed: Map<EntityId, IndependentPlacement>,
    state: PassState,
    event: Event,
)
    requires
        frame.wf(),
    ensures
        starts(frame, state) ==> sound(frame, state),
        sound(frame, state) && fits(state.waiting, event) ==> sound(
            frame,
            frame.step(surface, nodes, placed, state, event).0,
        ),
{
    if starts(frame, state) {
        let dirty = |e: EntityId| frame.dirty_roots().contains(e);
        assert forall|i: int| 0 <= i < state.ordinary.len() implies frame.dirty_roots().contains(
            #[trigger] state.ordinary[i],
        ) by {
            frame.ui_roots@.lemma_filter_pred(dirty, i);
        }
        assert forall|e: EntityId| #[trigger] state.pending.contains(e) implies
            frame.independent_nodes().contains(e) by {
            lemma_dirty_root_is_node(frame, e);
        }
    }
    if sound(frame, state) && fits(state.waiting, event) {
        lemma_step_is_advance(frame, surface, nodes, placed, state, event);
        assert forall|other: PassState|
            sound(frame, other) && other.waiting is Nothing implies sound(
            frame,
            (#[trigger] frame.advance(surface, nodes, other)).0,
        ) by {
            lemma_advance_sound(frame, surface, nodes, other);
        }
    }
}

/// Only dirty layout roots are laid out.
pub proof fn law_lays_out_dirty_roots_only(
    frame: Frame,
    surface: Set<EntityId>,
    nodes: GeometryNodes,
    placed: Map<EntityId, IndependentPlacement>,
    state: PassState,
    event: Event,
)
    requires
        frame.wf(),
        sound(frame, state),
        fits(state.waiting, event),
    ensures
        frame.step(surface, nodes, placed, state, event).1 matches ActionView::LayOut {
            root,
            updates: _,
        } ==> frame.dirty_roots().contains(root),
{
    law_pass_stays_sound(frame, surface, nodes, placed, state, event);
}

/// Only nodes of the layout trees of dirty and independent roots are placed: a change
/// inside an independent node leaves its parent's tree alone.
pub proof fn law_places_dirty_and_independent_trees_only(
    frame: Frame,
    surface: Set<EntityId>,
    nodes: GeometryNodes,
    placed: Map<EntityId, IndependentPlacement>,
    state: PassState,
    event: Event,
)
    requires
        frame.wf(),
        sound(frame, state),
        fits(state.waiting, event),
    ensures
        frame.step(surface, nodes, placed, state, event).1 matches ActionView::Visit {
            visit,
        } ==> in_placed_tree(frame, visit.entity),
{
    law_pass_stays_sound(frame, surface, nodes, placed, state, event);
}

/// Where nothing changed, there is nothing to do.
pub proof fn law_still_frame_finishes_at_once(
    frame: Frame,
    surface: Set<EntityId>,
    nodes: GeometryNodes,
    placed: Map<EntityId, IndependentPlacement>,
    state: PassState,
)
    requires
        forall|e: EntityId| !#[trigger] frame.changed(e),
        starts(frame, state),
    ensures
        frame.step(surface, nodes, placed, state, Event::Done).1 is Finished,
{
    law_still_frame_is_clean(frame);
    let dirty = |e: EntityId| frame.dirty_roots().contains(e);
    if state.ordinary.len() > 0 {
        frame.ui_roots@.lemma_filter_pred(dirty, 0);
    }
    if state.pending.len() > 0 {
        assert(state.pending.contains(state.pending[0]));
    }
    assert(state.pending + Seq::<EntityId>::empty() =~= state.pending);
}

/// An independent root is turned to after all the roots without a parent, and after the
/// nodes of the root before it; and it was not turned to before.
pub proof fn law_independent_roots_come_last(
    frame: Frame,
    surface: Set<EntityId>,
    nodes: GeometryNodes,
    placed: Map<EntityId, IndependentPlacement>,
    state: PassState,
    event: Event,
)
    requires
        frame.wf(),
        sound(frame, state),
        fits(state.waiting, event),
    ensures
        ({
            let (next, action) = frame.step(surface, nodes, placed, state, event);
            &&& state.done.subset_of(next.done)
            &&& action matches ActionView::AskParent { root, parent } ==> {
                &&& next.ordinary.len() == 0
                &&& next.stack.len() == 0
                &&& !state.done.contains(root)
                &&& next.done.contains(root)
                &&& frame.independent_nodes().contains(root)
                &&& frame.roots.ui_parent(root) == Some(parent)
            }
        }),
{
    law_pass_stays_sound(frame, surface, nodes, placed, state, event);
    assert forall|pending: Seq<EntityId>, done: Set<EntityId>|
        done.subset_of((#[trigger] select(frame.roots.ui_parents(), pending, done)).2) && (select(
            frame.roots.ui_parents(),
            pending,
            done,
        ).0 matches Some(r) ==> !done.contains(r)) by {
        law_next_is_shallowest(frame.roots.ui_parents(), pending, done);
    }
}

/// Whether `entity` waits to be turned to, as an independent root.
pub open spec fn awaits(frame: Frame, state: PassState, entity: EntityId) -> bool {
    waiting(frame.roots.ui_parents(), state.pending, state.done, entity)
}

proof fn lemma_advance_awaits(
    frame: Frame,
    surface: Set<EntityId>,
    nodes: GeometryNodes,
    state: PassState,
    entity: EntityId,
)
    requires
        frame.wf(),
        sound(frame, state),
        awaits(frame, state, entity),
    ensures
        ({
            let next = frame.advance(surface, nodes, state).0;
            awaits(frame, next, entity) || next.done.contains(entity)
        }),
{
    let up = frame.roots.ui_parents();
    let (visit, left, noted) = walk_next(nodes, state.stack);
    let all = state.pending + noted;
    let k = choose|k: int| 0 <= k < state.pending.len() && state.pending[k] == entity;
    assert(all[k] == entity);
    assert(waiting(up, all, state.done, entity));
    law_next_is_shallowest(up, all, state.done);
}

/// No independent root that waits is forgotten: it keeps waiting until it is turned to.
/// Where a pass finishes none waits, every root without a parent was laid out, and every
/// node of the root laid out last was placed.
pub proof fn law_no_root_is_forgotten(
    frame: Frame,
    surface: Set<EntityId>,
    nodes: GeometryNodes,
    placed: Map<EntityId, IndependentPlacement>,
    state: PassState,
    event: Event,
    entity: EntityId,
)
    requires
        frame.wf(),
        sound(frame, state),
        fits(state.waiting, event),
    ensures
        ({
            let (next, action) = frame.step(surface, nodes, placed, state, event);
            &&& awaits(frame, state, entity) ==> awaits(frame, next, entity) || next.done.contains(
                entity,
            )
            &&& action is Finished ==> {
                &&& !awaits(frame, next, entity)
                &&& next.ordinary.len() == 0
                &&& next.stack.len() == 0
            }
        }),
{
    let up = frame.roots.ui_parents();
    assert forall|other: PassState|
        sound(frame, other) && awaits(frame, other, entity) implies {
        let next = (#[trigger] frame.advance(surface, nodes, other)).0;
        awaits(frame, next, entity) || next.done.contains(entity)
    } by {
        lemma_advance_awaits(frame, surface, nodes, other, entity);
    }
    assert forall|other: PassState|
        sound(frame, other) && (#[trigger] frame.advance(surface, nodes, other)).1 is Finished
            implies {
        let next = frame.advance(surface, nodes, other).0;
        !awaits(frame, next, entity) && next.ordinary.len() == 0 && next.stack.len() == 0
    } by {
        let (visit, left, noted) = walk_next(nodes, other.stack);
        lemma_walk_next_parts(frame.independent_nodes(), nodes, other.stack);
        law_next_is_shallowest(up, other.pending + noted, other.done);
    }
    lemma_step_is_advance(frame, surface, nodes, placed, state, event);
}

proof fn lemma_root_in_placed_tree(frame: Frame, root: EntityId)
    requires
        frame.wf(),
        frame.dirty_roots().contains(root) || frame.independent_nodes().contains(root),
    ensures
        in_placed_tree(frame, root),
{
    let below = frame.tree.preorder(frame.roots.independent@, root);
    assert(below[0] == root);
    assert(below.contains(root));
}

proof fn lemma_follow_is_advance(
    frame: Frame,
    surface: Set<EntityId>,
    nodes: GeometryNodes,
    state: PassState,
    root: EntityId,
    decided: Decision,
)
    requires
        frame.wf(),
        sound(frame, state),
        state.stack.len() == 0,
        frame.dirty_roots().contains(root) || frame.independent_nodes().contains(root),
    ensures
        ({
            let (next, action) = frame.follow(surface, nodes, state, root, decided);
            ||| {
                &&& sound(frame, next)
                &&& next.pending == state.pending
                &&& next.done == state.done
                &&& next.ordinary == state.ordinary
                &&& action is Collapse
            }
            ||| exists|other: PassState|
                {
                    &&& sound(frame, other)
                    &&& other.waiting is Nothing
                    &&& other.pending == state.pending
                    &&& other.done == state.done
                    &&& other.ordinary == state.ordinary
                    &&& (next, action) == #[trigger] frame.advance(surface, nodes, other)
                }
        }),
{
    let idle = PassState { waiting: Waiting::Nothing, ..state };
    let (next, action) = frame.follow(surface, nodes, state, root, decided);
    match decided {
        Decision::Keep => {
            assert(sound(frame, idle));
            assert((next, action) == frame.advance(surface, nodes, idle));
        },
        Decision::Collapse => {
            assert(sound(frame, next));
        },
        Decision::Place { parent } => {
            let other = PassState { stack: walk_of(root, parent), ..idle };
            lemma_root_in_placed_tree(frame, root);
            assert(sound(frame, other));
            assert((next, action) == frame.advance(surface, nodes, other));
        },
    }
}

/// Every step either turns to a root that was decided on, or goes on with a sound pass
/// that has the same roots to turn to.
pub proof fn lemma_step_is_advance(
    frame: Frame,
    surface: Set<EntityId>,
    nodes: GeometryNodes,
    placed: Map<EntityId, IndependentPlacement>,
    state: PassState,
    event: Event,
)
    requires
        frame.wf(),
        sound(frame, state),
        fits(state.waiting, event),
    ensures
        ({
            let (next, action) = frame.step(surface, nodes, placed, state, event);
            ||| {
                &&& sound(frame, next)
                &&& next.pending == state.pending
                &&& next.done == state.done
                &&& next.ordinary == state.ordinary
                &&& action is LayOut || action is Collapse
            }
            ||| exists|other: PassState|
                {
                    &&& sound(frame, other)
                    &&& other.waiting is Nothing
                    &&& other.pending == state.pending
                    &&& other.done == state.done
                    &&& other.ordinary == state.ordinary
                    &&& (next, action) == #[trigger] frame.advance(surface, nodes, other)
                }
        }),
{
    let idle = PassState { waiting: Waiting::Nothing, ..state };
    let (next, action) = frame.step(surface, nodes, placed, state, event);
    match (state.waiting, event) {
        (Waiting::LayingOut { root, then_do }, Event::Done) => {
            lemma_follow_is_advance(frame, surface, nodes, state, root, then_do);
        },
        (Waiting::Visiting { visit }, Event::Placed(Ok(geometry))) => {
            let kids = frame.tree.kids(visit.entity);
            let items = child_items(frame.tree, frame.roots.independent@, visit, geometry);
            let stack = state.stack + items;
            assert forall|i: int| 0 <= i < stack.len() && (#[trigger] stack[i]).independent
                implies frame.independent_nodes().contains(stack[i].entity) by {
                if i < state.stack.len() {
                    assert(stack[i] == state.stack[i]);
                } else {
                    let k = kids.len() - 1 - (i - state.stack.len());
                    assert(stack[i] == child_item(
                        frame.roots.independent@,
                        visit,
                        geometry,
                        kids[k],
                    ));
                }
            }
            assert forall|i: int| 0 <= i < stack.len() && !(#[trigger] stack[i]).independent
                implies in_placed_tree(frame, stack[i].entity) by {
                if i < state.stack.len() {
                    assert(stack[i] == state.stack[i]);
                } else {
                    let k = kids.len() - 1 - (i - state.stack.len());
                    assert(stack[i] == child_item(
                        frame.roots.independent@,
                        visit,
                        geometry,
                        kids[k],
                    ));
                    let root = choose|root: EntityId|
                        (frame.dirty_roots().contains(root)
                            || frame.independent_nodes().contains(root))
                            && #[trigger] frame.tree.preorder(
                            frame.roots.independent@,
                            root,
                        ).contains(visit.entity);
                    frame.tree.law_walk_is_complete(
                        frame.roots.independent@,
                        root,
                        visit.entity,
                        k,
                    );
                }
            }
            let other = PassState { stack, ..idle };
            assert(sound(frame, other));
            assert((next, action) == frame.advance(surface, nodes, other));
        },
        (Waiting::Asking { root }, Event::Parent(parent)) => {
            if lays_out(frame, root, parent) {
                assert(sound(frame, next));
            } else {
                let decided = decision(frame, placed, root, parent);
                lemma_follow_is_advance(frame, surface, nodes, state, root, decided);
            }
        },
        _ => {
            assert(sound(frame, idle));
            assert((next, action) == frame.advance(surface, nodes, idle));
        },
    }
}

/// How much is left of what was begun: of the root that is laid out, placed or asked
/// for.
pub open spec fn begun(frame: Frame, state: PassState) -> nat {
    match state.waiting {
        Waiting::Nothing => walk_size(frame.tree, state.stack) + 1,
        Waiting::LayingOut { root, then_do: _ } => frame.tree.preorder(Set::empty(), root).len() + 2,
        Waiting::Visiting { visit } => walk_size(frame.tree, state.stack) + frame.tree.preorder(
            Set::empty(),
            visit.entity,
        ).len(),
        Waiting::Asking { root } => frame.tree.preorder(Set::empty(), root).len() + 3,
        Waiting::Collapsing => 1,
    }
}

/// Whether less is left to do in `after` than in `before`: fewer roots without a parent
/// to lay out; or as many, and fewer roots to turn to; or as many of both, and less of
/// what was begun.
pub open spec fn less_left(frame: Frame, after: PassState, before: PassState) -> bool {
    let unseen_after = frame.roots.ui_parents().dom().difference(after.done).len();
    let unseen_before = frame.roots.ui_parents().dom().difference(before.done).len();
    ||| after.ordinary.len() < before.ordinary.len()
    ||| {
        &&& after.ordinary.len() == before.ordinary.len()
        &&& {
            ||| unseen_after < unseen_before
            ||| unseen_after == unseen_before && begun(frame, after) < begun(frame, before)
        }
    }
}

proof fn lemma_advance_shrinks(
    frame: Frame,
    surface: Set<EntityId>,
    nodes: GeometryNodes,
    state: PassState,
)
    requires
        frame.wf(),
    ensures
        ({
            let (next, action) = frame.advance(surface, nodes, state);
            ||| action is Finished
            ||| next.ordinary.len() < state.ordinary.len()
            ||| {
                &&& next.ordinary.len() == state.ordinary.len()
                &&& frame.roots.ui_parents().dom().difference(next.done).len()
                    < frame.roots.ui_parents().dom().difference(state.done).len()
            }
            ||| {
                &&& next.ordinary.len() == state.ordinary.len()
                &&& next.done == state.done
                &&& begun(frame, next) <= walk_size(frame.tree, state.stack)
            }
        }),
{
    let up = frame.roots.ui_parents();
    assert(up.dom().subset_of(frame.tree.parents@.dom()));
    vstd::set_lib::lemma_set_subset_finite(frame.tree.parents@.dom(), up.dom());
    let (visit, left, noted) = walk_next(nodes, state.stack);
    lemma_walk_next_size(frame.tree, nodes, state.stack);
    if visit is None && state.ordinary.len() == 0 {
        let all = state.pending + noted;
        law_next_is_shallowest(up, all, state.done);
        let (root, pending, done) = select(up, all, state.done);
        match root {
            Some(r) => {
                let before = up.dom().difference(state.done);
                let after = up.dom().difference(done);
                assert(after.subset_of(before.remove(r)));
                vstd::set_lib::lemma_len_subset(after, before.remove(r));
            },
            None => {},
        }
    }
}

/// Every step leaves less to do, until the pass finishes: the layout of a frame comes to
/// an end.
pub proof fn law_pass_ends(
    frame: Frame,
    surface: Set<EntityId>,
    nodes: GeometryNodes,
    placed: Map<EntityId, IndependentPlacement>,
    state: PassState,
    event: Event,
)
    requires
        frame.wf(),
        sound(frame, state),
        fits(state.waiting, event),
    ensures
        ({
            let (next, action) = frame.step(surface, nodes, placed, state, event);
            action is Finished || less_left(frame, next, state)
        }),
{
    let idle = PassState { waiting: Waiting::Nothing, ..state };
    match (state.waiting, event) {
        (Waiting::LayingOut { root, then_do }, Event::Done) => {
            lemma_follow_shrinks(frame, surface, nodes, state, root, then_do);
        },
        (Waiting::Visiting { visit }, Event::Placed(Ok(geometry))) => {
            let items = child_items(frame.tree, frame.roots.independent@, visit, geometry);
            lemma_children_size(
                frame.tree,
                frame.roots.independent@,
                state.stack,
                visit,
                geometry,
            );
            lemma_advance_shrinks(
                frame,
                surface,
                nodes,
                PassState { stack: state.stack + items, ..idle },
            );
        },
        (Waiting::Visiting { visit }, _) => {
            let below = frame.tree.preorder(Set::empty(), visit.entity);
            assert(below[0] == visit.entity && below.len() > 0);
            lemma_advance_shrinks(frame, surface, nodes, idle);
        },
        (Waiting::Asking { root }, Event::Parent(parent)) => {
            if !lays_out(frame, root, parent) {
                let decided = decision(frame, placed, root, parent);
                lemma_follow_shrinks(frame, surface, nodes, state, root, decided);
            }
        },
        _ => {
            assert(state.waiting is Collapsing ==> walk_size(frame.tree, idle.stack) == 0);
            lemma_advance_shrinks(frame, surface, nodes, idle);
        },
    }
}

proof fn lemma_follow_shrinks(
    frame: Frame,
    surface: Set<EntityId>,
    nodes: GeometryNodes,
    state: PassState,
    root: EntityId,
    decided: Decision,
)
    requires
        frame.wf(),
        state.stack.len() == 0,
        begun(frame, state) >= frame.tree.preorder(Set::empty(), root).len() + 2,
    ensures
        ({
            let (next, action) = frame.follow(surface, nodes, state, root, decided);
            action is Finished || less_left(frame, next, state)
        }),
{
    let idle = PassState { waiting: Waiting::Nothing, ..state };
    match decided {
        Decision::Keep => {
            assert(walk_size(frame.tree, idle.stack) == 0);
            lemma_advance_shrinks(frame, surface, nodes, idle);
        },
        Decision::Collapse => {},
        Decision::Place { parent } => {
            let other = PassState { stack: walk_of(root, parent), ..idle };
            lemma_walk_of_size(frame.tree, root, parent);
            lemma_advance_shrinks(frame, surface, nodes, other);
        },
    }
}

proof fn lemma_walk_of_size(tree: UiTree, root: EntityId, parent: ParentGeometry)
    requires
        tree.wf(),
    ensures
        walk_size(tree, walk_of(root, parent)) == tree.preorder(Set::empty(), root).len(),
{
    let stack = walk_of(root, parent);
    assert(stack.drop_last() =~= Seq::empty());
    assert(stack_nodes(tree, Set::empty(), false, stack.drop_last()) =~= Seq::empty());
}

/// A pass from its start, step by step: `states` are the pass and the placements before
/// and after each of `events`.
pub open spec fn is_run(
    frame: Frame,
    surface: Set<EntityId>,
    nodes: GeometryNodes,
    states: Seq<(PassState, Map<EntityId, IndependentPlacement>)>,
    events: Seq<Event>,
) -> bool {
    &&& states.len() == events.len() + 1
    &&& starts(frame, states[0].0)
    &&& forall|i: int|
        0 <= i < events.len() ==> {
            &&& fits(states[i].0.waiting, #[trigger] events[i])
            &&& states[i + 1].0 == frame.step(
                surface,
                nodes,
                states[i].1,
                states[i].0,
                events[i],
            ).0
            &&& states[i + 1].1 == frame.placements_next(
                states[i].1,
                states[i].0.waiting,
                events[i],
            )
        }
}

/// What is to be done after the `i`-th event of a pass.
pub open spec fn action_of(
    frame: Frame,
    surface: Set<EntityId>,
    nodes: GeometryNodes,
    states: Seq<(PassState, Map<EntityId, IndependentPlacement>)>,
    events: Seq<Event>,
    i: int,
) -> ActionView {
    frame.step(surface, nodes, states[i].1, states[i].0, events[i]).1
}

/// Whether `root` was laid out in the first `n` steps of a pass.
pub open spec fn laid_out_by(
    frame: Frame,
    surface: Set<EntityId>,
    nodes: GeometryNodes,
    states: Seq<(PassState, Map<EntityId, IndependentPlacement>)>,
    events: Seq<Event>,
    n: int,
    root: EntityId,
) -> bool {
    exists|i: int|
        0 <= i < n && (#[trigger] action_of(
            frame,
            surface,
            nodes,
            states,
            events,
            i,
        ) matches ActionView::LayOut { root: r, updates: _ } && r == root)
}

/// Whether `root` was turned to in the first `n` steps of a pass, and its parent had no
/// geometry to place it against.
pub open spec fn skipped_by(
    states: Seq<(PassState, Map<EntityId, IndependentPlacement>)>,
    events: Seq<Event>,
    n: int,
    root: EntityId,
) -> bool {
    exists|i: int|
        0 <= i < n && states[i].0.waiting == (Waiting::Asking { root }) && (
        #[trigger] events[i] matches Event::Parent(p) && p is None)
}

/// Whether every parent that is asked for has a geometry.
pub open spec fn parents_have_geometry(events: Seq<Event>) -> bool {
    forall|i: int|
        0 <= i < events.len() ==> (#[trigger] events[i] matches Event::Parent(p) ==> p is Some)
}

/// A root with a parent counts as turned to only where its parent is asked for.
proof fn lemma_newly_done(
    frame: Frame,
    surface: Set<EntityId>,
    nodes: GeometryNodes,
    placed: Map<EntityId, IndependentPlacement>,
    state: PassState,
    event: Event,
    entity: EntityId,
)
    requires
        frame.wf(),
        sound(frame, state),
        fits(state.waiting, event),
        frame.roots.ui_parents().dom().contains(entity),
        !state.done.contains(entity),
        frame.step(surface, nodes, placed, state, event).0.done.contains(entity),
    ensures
        frame.step(surface, nodes, placed, state, event).0.waiting == (Waiting::Asking {
            root: entity,
        }),
{
    let up = frame.roots.ui_parents();
    lemma_step_is_advance(frame, surface, nodes, placed, state, event);
    assert forall|pending: Seq<EntityId>|
        (#[trigger] select(up, pending, state.done)).2.contains(entity) implies select(
        up,
        pending,
        state.done,
    ).0 == Some(entity) by {
        law_next_is_shallowest(up, pending, state.done);
    }
}

pub proof fn lemma_run(
    frame: Frame,
    surface: Set<EntityId>,
    nodes: GeometryNodes,
    states: Seq<(PassState, Map<EntityId, IndependentPlacement>)>,
    events: Seq<Event>,
    n: int,
    entity: EntityId,
)
    requires
        frame.wf(),
        is_run(frame, surface, nodes, states, events),
        0 <= n <= events.len(),
    ensures
        sound(frame, states[n].0),
        awaits(frame, states[0].0, entity) ==> awaits(frame, states[n].0, entity)
            || states[n].0.done.contains(entity),
        states[0].0.ordinary.contains(entity) ==> states[n].0.ordinary.contains(entity)
            || laid_out_by(frame, surface, nodes, states, events, n, entity),
        frame.dirty_roots().contains(entity) && frame.synced().contains(entity)
            && frame.roots.ui_parents().dom().contains(entity) && states[n].0.done.contains(entity)
            ==> laid_out_by(frame, surface, nodes, states, events, n, entity) || skipped_by(
            states,
            events,
            n,
            entity,
        ) || states[n].0.waiting == (Waiting::Asking { root: entity }),
    decreases n,
{
    if n == 0 {
        law_pass_stays_sound(
            frame,
            surface,
            nodes,
            states[0].1,
            states[0].0,
            Event::Done,
        );
    } else {
        let i = n - 1;
        lemma_run(frame, surface, nodes, states, events, i, entity);
        let (before, placed) = states[i];
        let event = events[i];
        let after = states[n].0;
        assert(after == frame.step(surface, nodes, placed, before, event).0);
        law_pass_stays_sound(frame, surface, nodes, placed, before, event);
        law_no_root_is_forgotten(frame, surface, nodes, placed, before, event, entity);
        law_independent_roots_come_last(frame, surface, nodes, placed, before, event);
        let action = action_of(frame, surface, nodes, states, events, i);
        if skipped_by(states, events, i, entity) {
            let k = choose|k: int|
                0 <= k < i && states[k].0.waiting == (Waiting::Asking { root: entity }) && (
                #[trigger] events[k] matches Event::Parent(p) && p is None);
            assert(events[k] is Parent);
        }
        if frame.dirty_roots().contains(entity) && frame.synced().contains(entity)
            && frame.roots.ui_parents().dom().contains(entity) && after.done.contains(entity) {
            if !before.done.contains(entity) {
                lemma_newly_done(frame, surface, nodes, placed, before, event, entity);
            } else if before.waiting == (Waiting::Asking { root: entity }) {
                let parent = event->Parent_0;
                assert(parent is None ==> events[i] is Parent);
                assert(parent is Some ==> (action matches ActionView::LayOut { root: r, updates: _ }
                    && r == entity));
            }
        }
        if laid_out_by(frame, surface, nodes, states, events, i, entity) {
            let k = choose|k: int|
                0 <= k < i && (#[trigger] action_of(
                    frame,
                    surface,
                    nodes,
                    states,
                    events,
                    k,
                ) matches ActionView::LayOut { root: r, updates: _ } && r == entity);
            assert(action_of(frame, surface, nodes, states, events, k) is LayOut);
        } else if before.ordinary.contains(entity) {
            lemma_step_is_advance(frame, surface, nodes, placed, before, event);
            let k = choose|k: int| 0 <= k < before.ordinary.len() && before.ordinary[k] == entity;
            if after.ordinary != before.ordinary {
                assert(after.ordinary == before.ordinary.skip(1));
                assert(action matches ActionView::LayOut { root: r, updates: _ } && r
                    == before.ordinary[0]);
                if k > 0 {
                    assert(after.ordinary[k - 1] == entity);
                }
            }
        }
    }
}

/// A pass that finishes has laid out every dirty root without a parent; and it has turned
/// to every dirty independent root with one, and laid it out where it takes part in
/// layout and its parent has a geometry.
pub proof fn law_finished_pass_is_complete(
    frame: Frame,
    surface: Set<EntityId>,
    nodes: GeometryNodes,
    states: Seq<(PassState, Map<EntityId, IndependentPlacement>)>,
    events: Seq<Event>,
    root: EntityId,
)
    requires
        frame.wf(),
        is_run(frame, surface, nodes, states, events),
        finishes(frame, surface, nodes, states, events),
        frame.dirty_roots().contains(root),
    ensures
        frame.ui_roots@.contains(root) ==> laid_out_by(
            frame,
            surface,
            nodes,
            states,
            events,
            events.len() as int,
            root,
        ),
        frame.roots.independent@.contains(root) && frame.roots.ui_parent(root) is Some ==> {
            &&& states.last().0.done.contains(root)
            &&& frame.synced().contains(root) ==> laid_out_by(
                frame,
                surface,
                nodes,
                states,
                events,
                events.len() as int,
                root,
            ) || skipped_by(states, events, events.len() as int, root)
        },
{
    let n = events.len() as int;
    let start = states[0].0;
    lemma_run(frame, surface, nodes, states, events, n, root);
    lemma_run(frame, surface, nodes, states, events, n - 1, root);
    let (before, placed) = states[n - 1];
    law_no_root_is_forgotten(frame, surface, nodes, placed, before, events[n - 1], root);
    lemma_finished_waits_for_nothing(frame, surface, nodes, placed, before, events[n - 1]);
    if frame.ui_roots@.contains(root) {
        let k = choose|k: int| 0 <= k < frame.ui_roots@.len() && frame.ui_roots@[k] == root;
        let dirty = |e: EntityId| frame.dirty_roots().contains(e);
        frame.ui_roots@.lemma_filter_contains(dirty, k);
        assert(start.ordinary.contains(root));
    }
    if frame.roots.independent@.contains(root) && frame.roots.ui_parent(root) is Some {
        assert(start.pending.contains(root));
        assert(awaits(frame, start, root));
    }
}

/// Whether the last step of a pass finishes it.
pub open spec fn finishes(
    frame: Frame,
    surface: Set<EntityId>,
    nodes: GeometryNodes,
    states: Seq<(PassState, Map<EntityId, IndependentPlacement>)>,
    events: Seq<Event>,
) -> bool {
    events.len() > 0 && action_of(frame, surface, nodes, states, events, events.len() - 1)
        is Finished
}

proof fn lemma_finished_waits_for_nothing(
    frame: Frame,
    surface: Set<EntityId>,
    nodes: GeometryNodes,
    placed: Map<EntityId, IndependentPlacement>,
    state: PassState,
    event: Event,
)
    requires
        frame.wf(),
        sound(frame, state),
        fits(state.waiting, event),
        frame.step(surface, nodes, placed, state, event).1 is Finished,
    ensures
        frame.step(surface, nodes, placed, state, event).0.waiting is Nothing,
{
    lemma_step_is_advance(frame, surface, nodes, placed, state, event);
}

/// Whether the nodes without a UI parent are all listed as roots.
pub open spec fn roots_are_listed(frame: Frame) -> bool {
    forall|e: EntityId| #[trigger]
        frame.roots.nodes@.contains(e) && frame.roots.ui_parent(e) is None
            ==> frame.ui_roots@.contains(e)
}

/// A change to a node has the layout root that it belongs to laid out by the end of the
/// pass.
pub proof fn law_change_is_laid_out(
    frame: Frame,
    surface: Set<EntityId>,
    nodes: GeometryNodes,
    states: Seq<(PassState, Map<EntityId, IndependentPlacement>)>,
    events: Seq<Event>,
    entity: EntityId,
)
    requires
        frame.wf(),
        roots_are_listed(frame),
        is_run(frame, surface, nodes, states, events),
        finishes(frame, surface, nodes, states, events),
        parents_have_geometry(events),
        frame.changed(entity),
        frame.synced().contains(entity),
        frame.synced().contains(frame.roots.root(entity)),
    ensures
        laid_out_by(
            frame,
            surface,
            nodes,
            states,
            events,
            events.len() as int,
            frame.roots.root(entity),
        ),
{
    let root = frame.roots.root(entity);
    law_change_dirties_root(frame, entity);
    law_dirty_roots_are_roots(frame, root);
    lemma_dirty_root_is_node(frame, root);
    law_finished_pass_is_complete(frame, surface, nodes, states, events, root);
}

} // verus!
