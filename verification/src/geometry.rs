//! Placing the nodes of a layout tree: the order in which they are visited, and what
//! each one hands down to its children.
use crate::entity::{EntityId, EntitySet};
use crate::math::{Affine2, Vec2};
use crate::tree::UiTree;
use vstd::prelude::*;

verus! {

/// What the placement of a node hands down to its children.
#[derive(Clone, Copy, Debug)]
pub struct ParentGeometry {
    /// The global transform of the node.
    pub transform: Affine2,
    /// Its size.
    pub size: Vec2,
    /// How far its content is scrolled.
    pub scroll: Vec2,
}

/// A node to place.
#[derive(Clone, Copy, Debug)]
pub struct Visit {
    pub entity: EntityId,
    /// Whether its layout is rounded to whole pixels.
    pub use_rounding: bool,
    /// What it is placed against.
    pub parent: ParentGeometry,
}

/// A node that the walk has still to come to.
#[derive(Clone, Copy, Debug)]
pub struct WalkItem {
    pub entity: EntityId,
    /// Whether it is only noted, as a layout root of its own.
    pub independent: bool,
    /// Whether its parent's layout is rounded.
    pub inherited_rounding: bool,
    /// What it is placed against.
    pub parent: ParentGeometry,
}

/// What the walk reads about the nodes it comes to.
pub struct GeometryNodes {
    /// The nodes that can be placed.
    pub present: EntitySet,
    /// The nodes whose layout is to be rounded, whatever their parent's is.
    pub rounded: EntitySet,
    /// The nodes whose layout is not to be rounded, whatever their parent's is.
    pub unrounded: EntitySet,
}

impl GeometryNodes {
    /// Whether the layout of `entity` is rounded: as its own configuration says, and
    /// otherwise as its parent's is.
    pub open spec fn rounding(self, entity: EntityId, inherited: bool) -> bool {
        if self.rounded@.contains(entity) {
            true
        } else if self.unrounded@.contains(entity) {
            false
        } else {
            inherited
        }
    }

    /// Whether the layout of `entity` is rounded.
    pub fn use_rounding(&self, entity: EntityId, inherited: bool) -> (r: bool)
        ensures
            r == self.rounding(entity, inherited),
    {
        if self.rounded.contains(entity) {
            true
        } else if self.unrounded.contains(entity) {
            false
        } else {
            inherited
        }
    }

    /// The visit that an item stands for.
    pub open spec fn visit(self, item: WalkItem) -> Visit {
        Visit {
            entity: item.entity,
            use_rounding: self.rounding(item.entity, item.inherited_rounding),
            parent: item.parent,
        }
    }
}

/// The item for a child of a node that was placed.
pub open spec fn child_item(
    independent: Set<EntityId>,
    visit: Visit,
    placed: ParentGeometry,
    child: EntityId,
) -> WalkItem {
    WalkItem {
        entity: child,
        independent: independent.contains(child),
        inherited_rounding: visit.use_rounding,
        parent: placed,
    }
}

/// The items for the children of a node that was placed, the first child last.
pub open spec fn child_items(
    tree: UiTree,
    independent: Set<EntityId>,
    visit: Visit,
    placed: ParentGeometry,
) -> Seq<WalkItem> {
    tree.kids(visit.entity).map_values(
        |child: EntityId| child_item(independent, visit, placed, child),
    ).reverse()
}

/// What a walk does next, up to the next node to place: the node, the items that are
/// then left, and the independent nodes that it came to.
pub open spec fn walk_next(nodes: GeometryNodes, stack: Seq<WalkItem>) -> (
    Option<Visit>,
    Seq<WalkItem>,
    Seq<EntityId>,
)
    decreases stack.len(),
{
    if stack.len() == 0 {
        (None, stack, Seq::empty())
    } else {
        let item = stack.last();
        let rest = stack.drop_last();
        if item.independent {
            let (visit, left, noted) = walk_next(nodes, rest);
            (visit, left, seq![item.entity] + noted)
        } else if !nodes.present@.contains(item.entity) {
            walk_next(nodes, rest)
        } else {
            (Some(nodes.visit(item)), rest, Seq::empty())
        }
    }
}

/// A walk over the nodes of a layout tree, each before those under it.
pub struct GeometryWalk {
    /// The nodes that the walk has still to come to, the next one last.
    pub stack: Vec<WalkItem>,
}

impl View for GeometryWalk {
    type V = Seq<WalkItem>;

    open spec fn view(&self) -> Seq<WalkItem> {
        self.stack@
    }
}

impl GeometryWalk {
    /// A walk over nothing.
    pub fn empty() -> (r: GeometryWalk)
        ensures
            r@ == Seq::<WalkItem>::empty(),
    {
        GeometryWalk { stack: Vec::new() }
    }

    /// A walk over the layout tree of `root`, which is placed against `parent`.
    pub fn start(root: EntityId, parent: ParentGeometry) -> (r: GeometryWalk)
        ensures
            r@ == seq![
                WalkItem { entity: root, independent: false, inherited_rounding: true, parent },
            ],
    {
        let mut stack: Vec<WalkItem> = Vec::new();
        stack.push(
            WalkItem { entity: root, independent: false, inherited_rounding: true, parent },
        );
        GeometryWalk { stack }
    }

    /// Goes on to the next node to place, if one is left. The independent nodes on the
    /// way are appended to `independent_children`.
    pub fn next(
        &mut self,
        nodes: &GeometryNodes,
        independent_children: &mut Vec<EntityId>,
    ) -> (r: Option<Visit>)
        ensures
            r == walk_next(*nodes, old(self)@).0,
            final(self)@ == walk_next(*nodes, old(self)@).1,
            final(independent_children)@ == old(independent_children)@ + walk_next(
                *nodes,
                old(self)@,
            ).2,
    {
        let ghost start = self@;
        let ghost noted = independent_children@;
        assert(noted =~= noted + Seq::<EntityId>::empty());
        loop
            invariant
                start == old(self)@,
                noted == old(independent_children)@,
                walk_next(*nodes, start).0 == walk_next(*nodes, self@).0,
                walk_next(*nodes, start).1 == walk_next(*nodes, self@).1,
                independent_children@ + walk_next(*nodes, self@).2 == noted + walk_next(
                    *nodes,
                    start,
                ).2,
            decreases self@.len(),
        {
            let ghost before = self@;
            match self.stack.pop() {
                None => {
                    assert(independent_children@ =~= independent_children@
                        + Seq::<EntityId>::empty());
                    return None;
                },
                Some(item) => {
                    assert(self@ =~= before.drop_last());
                    if item.independent {
                        let ghost so_far = independent_children@;
                        independent_children.push(item.entity);
                        assert(independent_children@ + walk_next(*nodes, self@).2 =~= so_far + (
                        seq![item.entity] + walk_next(*nodes, self@).2));
                    } else if nodes.present.contains(item.entity) {
                        assert(independent_children@ =~= independent_children@
                            + Seq::<EntityId>::empty());
                        return Some(
                            Visit {
                                entity: item.entity,
                                use_rounding: nodes.use_rounding(
                                    item.entity,
                                    item.inherited_rounding,
                                ),
                                parent: item.parent,
                            },
                        );
                    }
                },
            }
        }
    }

    /// Takes in that the node of `visit` was placed, so that its children come next, or
    /// that it has no layout, so that they are left out.
    pub fn placed(
        &mut self,
        tree: &UiTree,
        independent: &EntitySet,
        visit: Visit,
        placed: Option<ParentGeometry>,
    )
        ensures
            final(self)@ == old(self)@ + (match placed {
                Some(geometry) => child_items(*tree, independent@, visit, geometry),
                None => Seq::empty(),
            }),
    {
        let ghost start = self@;
        match placed {
            Some(geometry) => {
                let kids = tree.children_of(visit.entity);
                let ghost items = child_items(*tree, independent@, visit, geometry);
                let mut i: usize = kids.len();
                assert(self@ =~= start + items.take(0));
                while i > 0
                    invariant
                        i <= kids@.len(),
                        kids@ == tree.kids(visit.entity),
                        items == child_items(*tree, independent@, visit, geometry),
                        self@ == start + items.take(kids@.len() - i),
                    decreases i,
                {
                    i = i - 1;
                    let child = kids[i];
                    self.stack.push(
                        WalkItem {
                            entity: child,
                            independent: independent.contains(child),
                            inherited_rounding: visit.use_rounding,
                            parent: geometry,
                        },
                    );
                    assert(self@ =~= start + items.take(kids@.len() - i));
                }
                assert(items.take(kids@.len() as int) =~= items);
            },
            None => {
                assert(self@ =~= start + Seq::<WalkItem>::empty());
            },
        }
    }
}

/// The nodes that the items of a stack stand for, with those under them, each before
/// those under it and the last item's first. Where `skipping`, the items that are only
/// noted stand for nothing.
pub open spec fn stack_nodes(
    tree: UiTree,
    skip: Set<EntityId>,
    skipping: bool,
    stack: Seq<WalkItem>,
) -> Seq<EntityId>
    decreases stack.len(),
{
    if stack.len() == 0 {
        Seq::empty()
    } else {
        let rest = stack_nodes(tree, skip, skipping, stack.drop_last());
        if skipping && stack.last().independent {
            rest
        } else {
            tree.preorder(skip, stack.last().entity) + rest
        }
    }
}

/// What is left of a walk, and the more the longer it takes.
pub open spec fn walk_size(tree: UiTree, stack: Seq<WalkItem>) -> nat {
    stack_nodes(tree, Set::empty(), false, stack).len()
}

proof fn lemma_stack_children(
    tree: UiTree,
    independent: Set<EntityId>,
    skip: Set<EntityId>,
    skipping: bool,
    left: Seq<WalkItem>,
    visit: Visit,
    placed: ParentGeometry,
    n: int,
)
    requires
        tree.wf(),
        0 <= n <= tree.kids(visit.entity).len(),
        skip == (if skipping {
            independent
        } else {
            Set::empty()
        }),
    ensures
        tree.preorder_kids(skip, visit.entity, n) + stack_nodes(
            tree,
            skip,
            skipping,
            left + child_items(tree, independent, visit, placed).take(
                tree.kids(visit.entity).len() - n,
            ),
        ) == tree.preorder_kids(skip, visit.entity, tree.kids(visit.entity).len() as int)
            + stack_nodes(tree, skip, skipping, left),
    decreases tree.kids(visit.entity).len() - n,
{
    let kids = tree.kids(visit.entity);
    let len = kids.len() as int;
    let items = child_items(tree, independent, visit, placed);
    let stack = left + items.take(len - n);
    if n == len {
        assert(stack =~= left);
    } else {
        lemma_stack_children(tree, independent, skip, skipping, left, visit, placed, n + 1);
        let less = left + items.take(len - (n + 1));
        assert(stack.drop_last() =~= less);
        assert(stack.last() == child_item(independent, visit, placed, kids[n]));
        let before = tree.preorder_kids(skip, visit.entity, n);
        let rest = stack_nodes(tree, skip, skipping, less);
        if skip.contains(kids[n]) {
            assert(tree.preorder_kids(skip, visit.entity, n + 1) == before);
        } else {
            let below = tree.preorder(skip, kids[n]);
            assert(tree.preorder_kids(skip, visit.entity, n + 1) == before + below);
            assert(before + (below + rest) =~= (before + below) + rest);
        }
    }
}

/// Placing a node replaces it by its children, and leaving it out drops them.
proof fn lemma_stack_visit(
    tree: UiTree,
    independent: Set<EntityId>,
    skip: Set<EntityId>,
    skipping: bool,
    left: Seq<WalkItem>,
    visit: Visit,
    placed: ParentGeometry,
)
    requires
        tree.wf(),
        skip == (if skipping {
            independent
        } else {
            Set::empty()
        }),
    ensures
        seq![visit.entity] + stack_nodes(
            tree,
            skip,
            skipping,
            left + child_items(tree, independent, visit, placed),
        ) == tree.preorder(skip, visit.entity) + stack_nodes(tree, skip, skipping, left),
{
    let len = tree.kids(visit.entity).len() as int;
    let items = child_items(tree, independent, visit, placed);
    lemma_stack_children(tree, independent, skip, skipping, left, visit, placed, 0);
    assert(items.take(len) =~= items);
    let next = stack_nodes(tree, skip, skipping, left + items);
    assert(tree.preorder_kids(skip, visit.entity, 0) + next =~= next);
    assert(seq![visit.entity] + (tree.preorder_kids(skip, visit.entity, len) + stack_nodes(
        tree,
        skip,
        skipping,
        left,
    )) =~= tree.preorder(skip, visit.entity) + stack_nodes(tree, skip, skipping, left));
}

pub proof fn lemma_walk_next_size(tree: UiTree, nodes: GeometryNodes, stack: Seq<WalkItem>)
    requires
        tree.wf(),
    ensures
        ({
            let (visit, left, _) = walk_next(nodes, stack);
            visit matches Some(v) ==> walk_size(tree, left) + tree.preorder(
                Set::empty(),
                v.entity,
            ).len() <= walk_size(tree, stack)
        }),
    decreases stack.len(),
{
    if stack.len() > 0 {
        lemma_walk_next_size(tree, nodes, stack.drop_last());
    }
}

/// The children of a node are less than the node with all that is under it.
pub proof fn lemma_children_size(
    tree: UiTree,
    independent: Set<EntityId>,
    left: Seq<WalkItem>,
    visit: Visit,
    placed: ParentGeometry,
)
    requires
        tree.wf(),
    ensures
        walk_size(tree, left + child_items(tree, independent, visit, placed)) < walk_size(tree, left)
            + tree.preorder(Set::empty(), visit.entity).len(),
{
    lemma_stack_visit(tree, independent, Set::empty(), false, left, visit, placed);
    let later = stack_nodes(
        tree,
        Set::empty(),
        false,
        left + child_items(tree, independent, visit, placed),
    );
    assert((seq![visit.entity] + later).len() == 1 + later.len());
}

/// Every step of a walk leaves less of it, so that it comes to an end.
pub proof fn law_walk_shrinks(
    tree: UiTree,
    independent: Set<EntityId>,
    nodes: GeometryNodes,
    stack: Seq<WalkItem>,
    placed: Option<ParentGeometry>,
)
    requires
        tree.wf(),
    ensures
        ({
            let (visit, left, _) = walk_next(nodes, stack);
            visit matches Some(v) ==> walk_size(
                tree,
                left + (match placed {
                    Some(geometry) => child_items(tree, independent, v, geometry),
                    None => Seq::empty(),
                }),
            ) < walk_size(tree, stack)
        }),
{
    let (visit, left, _) = walk_next(nodes, stack);
    lemma_walk_next_size(tree, nodes, stack);
    match visit {
        Some(v) => {
            let below = tree.preorder(Set::empty(), v.entity);
            assert(below[0] == v.entity && below.len() > 0);
            match placed {
                Some(geometry) => {
                    lemma_children_size(tree, independent, left, v, geometry);
                },
                None => {
                    assert(left + Seq::<WalkItem>::empty() =~= left);
                },
            }
        },
        None => {},
    }
}

/// A whole walk, where `laid` tells for each node what it hands down, or that it has no
/// layout: the nodes placed, in order, and the independent nodes come to.
pub open spec fn walk_run(
    tree: UiTree,
    independent: Set<EntityId>,
    nodes: GeometryNodes,
    laid: spec_fn(Visit) -> Option<ParentGeometry>,
    stack: Seq<WalkItem>,
) -> (Seq<Visit>, Seq<EntityId>)
    decreases walk_size(tree, stack),
    when tree.wf()
{
    let (visit, left, noted) = walk_next(nodes, stack);
    match visit {
        None => (Seq::empty(), noted),
        Some(v) => {
            let next = left + (match laid(v) {
                Some(geometry) => child_items(tree, independent, v, geometry),
                None => Seq::empty(),
            });
            proof {
                law_walk_shrinks(tree, independent, nodes, stack, laid(v));
            }
            let (visits, more) = walk_run(tree, independent, nodes, laid, next);
            (seq![v] + visits, noted + more)
        },
    }
}

/// The entities of a list of visits.
pub open spec fn visited(visits: Seq<Visit>) -> Seq<EntityId> {
    visits.map_values(|visit: Visit| visit.entity)
}

proof fn lemma_walk_next_nodes(
    tree: UiTree,
    independent: Set<EntityId>,
    nodes: GeometryNodes,
    stack: Seq<WalkItem>,
)
    requires
        tree.wf(),
        forall|e: EntityId|
            stack_nodes(tree, independent, true, stack).contains(e) ==> nodes.present@.contains(e),
    ensures
        ({
            let (visit, left, _) = walk_next(nodes, stack);
            match visit {
                Some(v) => stack_nodes(tree, independent, true, stack) == tree.preorder(
                    independent,
                    v.entity,
                ) + stack_nodes(tree, independent, true, left),
                None => stack_nodes(tree, independent, true, stack).len() == 0,
            }
        }),
    decreases stack.len(),
{
    if stack.len() > 0 {
        let all = stack_nodes(tree, independent, true, stack);
        let item = stack.last();
        if item.independent {
            lemma_walk_next_nodes(tree, independent, nodes, stack.drop_last());
        } else {
            assert(all[0] == item.entity);
            assert(nodes.present@.contains(item.entity));
        }
    }
}

proof fn lemma_walk_run(
    tree: UiTree,
    independent: Set<EntityId>,
    nodes: GeometryNodes,
    laid: spec_fn(Visit) -> Option<ParentGeometry>,
    stack: Seq<WalkItem>,
)
    requires
        tree.wf(),
        forall|v: Visit| #[trigger] laid(v) is Some,
        forall|e: EntityId|
            stack_nodes(tree, independent, true, stack).contains(e) ==> nodes.present@.contains(e),
    ensures
        visited(walk_run(tree, independent, nodes, laid, stack).0) == stack_nodes(
            tree,
            independent,
            true,
            stack,
        ),
    decreases walk_size(tree, stack),
{
    let all = stack_nodes(tree, independent, true, stack);
    let (visit, left, noted) = walk_next(nodes, stack);
    lemma_walk_next_nodes(tree, independent, nodes, stack);
    match visit {
        None => {
            assert(visited(Seq::empty()) =~= all);
        },
        Some(v) => {
            let geometry = laid(v)->0;
            let next = left + child_items(tree, independent, v, geometry);
            law_walk_shrinks(tree, independent, nodes, stack, laid(v));
            lemma_stack_visit(tree, independent, independent, true, left, v, geometry);
            let later = stack_nodes(tree, independent, true, next);
            assert(all == seq![v.entity] + later);
            assert forall|e: EntityId| later.contains(e) implies nodes.present@.contains(e) by {
                let k = choose|k: int| 0 <= k < later.len() && later[k] == e;
                assert(all[k + 1] == e);
            }
            lemma_walk_run(tree, independent, nodes, laid, next);
            let (visits, more) = walk_run(tree, independent, nodes, laid, next);
            assert(visited(seq![v] + visits) =~= seq![v.entity] + visited(visits));
        },
    }
}

/// A walk in which every node has a layout places the nodes of the layout tree of its
/// root, each once for every place it has there and before those under it, and no
/// others.
pub proof fn law_walk_places_layout_tree(
    tree: UiTree,
    independent: Set<EntityId>,
    nodes: GeometryNodes,
    laid: spec_fn(Visit) -> Option<ParentGeometry>,
    root: EntityId,
    parent: ParentGeometry,
)
    requires
        tree.wf(),
        forall|v: Visit| #[trigger] laid(v) is Some,
        forall|e: EntityId|
            tree.preorder(independent, root).contains(e) ==> nodes.present@.contains(e),
    ensures
        visited(
            walk_run(
                tree,
                independent,
                nodes,
                laid,
                seq![
                    WalkItem { entity: root, independent: false, inherited_rounding: true, parent },
                ],
            ).0,
        ) == tree.preorder(independent, root),
{
    let item = WalkItem { entity: root, independent: false, inherited_rounding: true, parent };
    let stack = seq![item];
    assert(stack.drop_last() =~= Seq::empty());
    assert(stack_nodes(tree, independent, true, stack.drop_last()) =~= Seq::empty());
    assert(stack_nodes(tree, independent, true, stack) =~= tree.preorder(independent, root));
    lemma_walk_run(tree, independent, nodes, laid, stack);
}

/// Whether `entity` is only noted by an item of `stack`.
pub open spec fn flagged(stack: Seq<WalkItem>, entity: EntityId) -> bool {
    exists|k: int| 0 <= k < stack.len() && (#[trigger] stack[k]).independent && stack[k].entity == entity
}

/// Whether `entity` is an independent child of a node that was placed.
pub open spec fn below_placed(
    tree: UiTree,
    independent: Set<EntityId>,
    laid: spec_fn(Visit) -> Option<ParentGeometry>,
    visits: Seq<Visit>,
    entity: EntityId,
) -> bool {
    independent.contains(entity) && exists|k: int|
        0 <= k < visits.len() && laid(#[trigger] visits[k]) is Some && tree.kids(
            visits[k].entity,
        ).contains(entity)
}

pub proof fn lemma_walk_next_flags(nodes: GeometryNodes, stack: Seq<WalkItem>, entity: EntityId)
    ensures
        ({
            let (visit, left, noted) = walk_next(nodes, stack);
            flagged(stack, entity) <==> noted.contains(entity) || flagged(left, entity)
        }),
        walk_next(nodes, stack).0 is None ==> walk_next(nodes, stack).1.len() == 0,
    decreases stack.len(),
{
    if stack.len() > 0 {
        let item = stack.last();
        let rest = stack.drop_last();
        let (visit, left, noted) = walk_next(nodes, rest);
        lemma_walk_next_flags(nodes, rest, entity);
        if flagged(rest, entity) {
            let k = choose|k: int|
                0 <= k < rest.len() && (#[trigger] rest[k]).independent && rest[k].entity == entity;
            assert(stack[k] == rest[k]);
        }
        if item.independent && item.entity == entity {
            assert(stack[stack.len() - 1] == item);
        }
        if flagged(stack, entity) {
            let k = choose|k: int|
                0 <= k < stack.len() && (#[trigger] stack[k]).independent && stack[k].entity
                    == entity;
            if k < rest.len() {
                assert(rest[k] == stack[k]);
            }
        }
        if item.independent {
            let all = seq![item.entity] + noted;
            assert(all[0] == item.entity);
            if noted.contains(entity) {
                let k = choose|k: int| 0 <= k < noted.len() && noted[k] == entity;
                assert(all[k + 1] == entity);
            }
            if all.contains(entity) && item.entity != entity {
                let k = choose|k: int| 0 <= k < all.len() && all[k] == entity;
                assert(noted[k - 1] == entity);
            }
        }
    }
}

pub proof fn lemma_child_flags(
    tree: UiTree,
    independent: Set<EntityId>,
    left: Seq<WalkItem>,
    visit: Visit,
    placed: ParentGeometry,
    entity: EntityId,
)
    ensures
        flagged(left + child_items(tree, independent, visit, placed), entity) <==> flagged(
            left,
            entity,
        ) || (independent.contains(entity) && tree.kids(visit.entity).contains(entity)),
{
    let kids = tree.kids(visit.entity);
    let items = child_items(tree, independent, visit, placed);
    let stack = left + items;
    if flagged(left, entity) {
        let k = choose|k: int|
            0 <= k < left.len() && (#[trigger] left[k]).independent && left[k].entity == entity;
        assert(stack[k] == left[k]);
    }
    if independent.contains(entity) && kids.contains(entity) {
        let i = choose|i: int| 0 <= i < kids.len() && kids[i] == entity;
        assert(stack[left.len() + (kids.len() - 1 - i)] == child_item(
            independent,
            visit,
            placed,
            kids[i],
        ));
    }
    if flagged(stack, entity) {
        let k = choose|k: int|
            0 <= k < stack.len() && (#[trigger] stack[k]).independent && stack[k].entity == entity;
        if k < left.len() {
            assert(left[k] == stack[k]);
        } else {
            let i = kids.len() - 1 - (k - left.len());
            assert(stack[k] == child_item(independent, visit, placed, kids[i]));
        }
    }
}

proof fn lemma_walk_run_notes(
    tree: UiTree,
    independent: Set<EntityId>,
    nodes: GeometryNodes,
    laid: spec_fn(Visit) -> Option<ParentGeometry>,
    stack: Seq<WalkItem>,
    entity: EntityId,
)
    requires
        tree.wf(),
    ensures
        ({
            let (visits, noted) = walk_run(tree, independent, nodes, laid, stack);
            noted.contains(entity) <==> flagged(stack, entity) || below_placed(
                tree,
                independent,
                laid,
                visits,
                entity,
            )
        }),
    decreases walk_size(tree, stack),
{
    let (visit, left, noted) = walk_next(nodes, stack);
    lemma_walk_next_flags(nodes, stack, entity);
    match visit {
        None => {},
        Some(v) => {
            let items = match laid(v) {
                Some(geometry) => child_items(tree, independent, v, geometry),
                None => Seq::empty(),
            };
            let next = left + items;
            law_walk_shrinks(tree, independent, nodes, stack, laid(v));
            lemma_walk_run_notes(tree, independent, nodes, laid, next, entity);
            match laid(v) {
                Some(geometry) => {
                    lemma_child_flags(tree, independent, left, v, geometry, entity);
                },
                None => {
                    assert(next =~= left);
                },
            }
            let (visits, more) = walk_run(tree, independent, nodes, laid, next);
            let all = seq![v] + visits;
            let every = noted + more;
            if below_placed(tree, independent, laid, visits, entity) {
                let k = choose|k: int|
                    0 <= k < visits.len() && laid(#[trigger] visits[k]) is Some && tree.kids(
                        visits[k].entity,
                    ).contains(entity);
                assert(all[k + 1] == visits[k]);
            }
            if below_placed(tree, independent, laid, all, entity) {
                let k = choose|k: int|
                    0 <= k < all.len() && laid(#[trigger] all[k]) is Some && tree.kids(
                        all[k].entity,
                    ).contains(entity);
                if k > 0 {
                    assert(visits[k - 1] == all[k]);
                }
            }
            assert(all[0] == v);
            if noted.contains(entity) {
                let k = choose|k: int| 0 <= k < noted.len() && noted[k] == entity;
                assert(every[k] == entity);
            }
            if more.contains(entity) {
                let k = choose|k: int| 0 <= k < more.len() && more[k] == entity;
                assert(every[noted.len() + k] == entity);
            }
            if every.contains(entity) {
                let k = choose|k: int| 0 <= k < every.len() && every[k] == entity;
                if k < noted.len() {
                    assert(noted[k] == entity);
                } else {
                    assert(more[k - noted.len()] == entity);
                }
            }
        },
    }
}

/// A walk notes, for being placed later, exactly the independent children of the nodes
/// that it places.
pub proof fn law_walk_notes_independent_children(
    tree: UiTree,
    independent: Set<EntityId>,
    nodes: GeometryNodes,
    laid: spec_fn(Visit) -> Option<ParentGeometry>,
    root: EntityId,
    parent: ParentGeometry,
    entity: EntityId,
)
    requires
        tree.wf(),
    ensures
        ({
            let (visits, noted) = walk_run(
                tree,
                independent,
                nodes,
                laid,
                seq![
                    WalkItem { entity: root, independent: false, inherited_rounding: true, parent },
                ],
            );
            noted.contains(entity) <==> below_placed(tree, independent, laid, visits, entity)
        }),
{
    let item = WalkItem { entity: root, independent: false, inherited_rounding: true, parent };
    lemma_walk_run_notes(tree, independent, nodes, laid, seq![item], entity);
}

/// The items that a walk came by: those after the one that it went on with, or all.
pub open spec fn passed_by(
    stack: Seq<WalkItem>,
    visit: Option<Visit>,
    left: Seq<WalkItem>,
) -> Seq<WalkItem> {
    match visit {
        Some(_) => stack.skip(left.len() as int + 1),
        None => stack,
    }
}

/// A walk goes on with the last item that is neither independent nor of a node that
/// cannot be placed: its node is visited against what the item carries, rounded as its own
/// configuration says and otherwise as its parent is. The items after that one are gone,
/// and the independent nodes among them are noted, the last one first.
pub proof fn law_walk_goes_on_with_last_item(nodes: GeometryNodes, stack: Seq<WalkItem>)
    ensures
        ({
            let (visit, left, noted) = walk_next(nodes, stack);
            let passed = passed_by(stack, visit, left);
            &&& left == stack.take(left.len() as int)
            &&& noted == passed.reverse().filter(|item: WalkItem| item.independent).map_values(
                |item: WalkItem| item.entity,
            )
            &&& forall|k: int|
                0 <= k < passed.len() ==> (#[trigger] passed[k]).independent
                    || !nodes.present@.contains(passed[k].entity)
            &&& visit is None ==> left.len() == 0
            &&& visit matches Some(v) ==> {
                let item = stack[left.len() as int];
                &&& left.len() < stack.len()
                &&& !item.independent
                &&& nodes.present@.contains(item.entity)
                &&& v.entity == item.entity
                &&& v.parent.transform == item.parent.transform
                &&& v.parent.size == item.parent.size
                &&& v.parent.scroll == item.parent.scroll
                &&& nodes.rounded@.contains(v.entity) ==> v.use_rounding
                &&& !nodes.rounded@.contains(v.entity) && nodes.unrounded@.contains(v.entity)
                    ==> !v.use_rounding
                &&& !nodes.rounded@.contains(v.entity) && !nodes.unrounded@.contains(v.entity)
                    ==> v.use_rounding == item.inherited_rounding
            }
        }),
    decreases stack.len(),
{
    let (visit, left, noted) = walk_next(nodes, stack);
    let only = |item: WalkItem| item.independent;
    let name = |item: WalkItem| item.entity;
    if stack.len() == 0 {
        assert(left =~= stack.take(0));
        assert(stack.reverse() =~= Seq::empty());
        reveal(Seq::filter);
        assert(noted =~= Seq::<WalkItem>::empty().filter(only).map_values(name));
    } else {
        let item = stack.last();
        let rest = stack.drop_last();
        if item.independent || !nodes.present@.contains(item.entity) {
            law_walk_goes_on_with_last_item(nodes, rest);
            let (visit0, left0, noted0) = walk_next(nodes, rest);
            assert(left =~= stack.take(left.len() as int));
            let before = passed_by(rest, visit, left);
            let passed = passed_by(stack, visit, left);
            assert(passed =~= before.push(item));
            assert(passed.reverse() =~= seq![item] + before.reverse());
            Seq::filter_distributes_over_add(seq![item], before.reverse(), only);
            assert(seq![item].drop_last() =~= Seq::empty());
            assert(Seq::<WalkItem>::empty().filter(only) =~= Seq::empty()) by {
                reveal(Seq::filter);
            }
            if item.independent {
                assert(seq![item].filter(only) =~= seq![item]) by {
                    reveal(Seq::filter);
                }
            } else {
                assert(seq![item].filter(only) =~= Seq::empty()) by {
                    reveal(Seq::filter);
                }
            }
            assert(noted =~= passed.reverse().filter(only).map_values(name));
            assert forall|k: int| 0 <= k < passed.len() implies (#[trigger] passed[k]).independent
                || !nodes.present@.contains(passed[k].entity) by {
                if k < before.len() {
                    assert(before[k] == passed[k]);
                }
            }
        } else {
            assert(left =~= stack.take(left.len() as int));
            assert(stack.skip(stack.len() as int).reverse() =~= Seq::empty());
            reveal(Seq::filter);
            assert(noted =~= Seq::<WalkItem>::empty().filter(only).map_values(name));
        }
    }
}

/// A node that was placed leaves one item for each of its children, the first child to
/// come first: with the transform, the size and the scroll position that the node was
/// given, with its rounding, and marked where the child is independent.
pub proof fn law_children_are_handed_geometry(
    tree: UiTree,
    independent: Set<EntityId>,
    visit: Visit,
    placed: ParentGeometry,
)
    ensures
        ({
            let kids = tree.kids(visit.entity);
            let items = child_items(tree, independent, visit, placed);
            &&& items.len() == kids.len()
            &&& forall|i: int|
                0 <= i < kids.len() ==> {
                    let item = items[items.len() - 1 - i];
                    &&& item.entity == #[trigger] kids[i]
                    &&& item.independent == independent.contains(kids[i])
                    &&& item.inherited_rounding == visit.use_rounding
                    &&& item.parent.transform == placed.transform
                    &&& item.parent.size == placed.size
                    &&& item.parent.scroll == placed.scroll
                }
        }),
{
}

/// Whether `child` is the visit of a child of the node of `above`, against what that node
/// handed down, and rounded as its own configuration says or as `above` is.
spec fn follows(
    tree: UiTree,
    independent: Set<EntityId>,
    nodes: GeometryNodes,
    laid: spec_fn(Visit) -> Option<ParentGeometry>,
    above: Visit,
    child: Visit,
) -> bool {
    &&& laid(above) == Some(child.parent)
    &&& tree.kids(above.entity).contains(child.entity)
    &&& !independent.contains(child.entity)
    &&& nodes.present@.contains(child.entity)
    &&& nodes.rounded@.contains(child.entity) ==> child.use_rounding
    &&& !nodes.rounded@.contains(child.entity) && nodes.unrounded@.contains(child.entity)
        ==> !child.use_rounding
    &&& !nodes.rounded@.contains(child.entity) && !nodes.unrounded@.contains(child.entity)
        ==> child.use_rounding == above.use_rounding
}

/// Every visit of a walk is that of an item that it started with, or follows an earlier
/// one.
proof fn lemma_visit_has_origin(
    tree: UiTree,
    independent: Set<EntityId>,
    nodes: GeometryNodes,
    laid: spec_fn(Visit) -> Option<ParentGeometry>,
    stack: Seq<WalkItem>,
    k: int,
)
    requires
        tree.wf(),
        0 <= k < walk_run(tree, independent, nodes, laid, stack).0.len(),
    ensures
        ({
            let visits = walk_run(tree, independent, nodes, laid, stack).0;
            ||| exists|s: int|
                0 <= s < stack.len() && !(#[trigger] stack[s]).independent && visits[k]
                    == nodes.visit(stack[s]) && nodes.present@.contains(stack[s].entity)
            ||| exists|j: int|
                0 <= j < k && follows(
                    tree,
                    independent,
                    nodes,
                    laid,
                    #[trigger] visits[j],
                    visits[k],
                )
        }),
    decreases walk_size(tree, stack),
{
    let visits = walk_run(tree, independent, nodes, laid, stack).0;
    let (visit, left, noted) = walk_next(nodes, stack);
    law_walk_goes_on_with_last_item(nodes, stack);
    match visit {
        None => {},
        Some(v) => {
            let items = match laid(v) {
                Some(geometry) => child_items(tree, independent, v, geometry),
                None => Seq::empty(),
            };
            let next = left + items;
            law_walk_shrinks(tree, independent, nodes, stack, laid(v));
            let later = walk_run(tree, independent, nodes, laid, next).0;
            assert(visits == seq![v] + later);
            assert(visits[0] == v);
            if k == 0 {
                assert(visits[k] == nodes.visit(stack[left.len() as int]));
            } else {
                lemma_visit_has_origin(tree, independent, nodes, laid, next, k - 1);
                assert(visits[k] == later[k - 1]);
                if exists|s: int|
                    0 <= s < next.len() && !(#[trigger] next[s]).independent && later[k - 1]
                        == nodes.visit(next[s]) && nodes.present@.contains(next[s].entity) {
                    let s = choose|s: int|
                        0 <= s < next.len() && !(#[trigger] next[s]).independent && later[k - 1]
                            == nodes.visit(next[s]) && nodes.present@.contains(next[s].entity);
                    if s < left.len() {
                        assert(stack[s] == next[s]);
                    } else {
                        let kids = tree.kids(v.entity);
                        let i = kids.len() - 1 - (s - left.len());
                        assert(next[s] == items[s - left.len()]);
                        assert(next[s].entity == kids[i]);
                        assert(follows(tree, independent, nodes, laid, visits[0], visits[k]));
                    }
                } else {
                    let j = choose|j: int|
                        0 <= j < k - 1 && follows(
                            tree,
                            independent,
                            nodes,
                            laid,
                            #[trigger] later[j],
                            later[k - 1],
                        );
                    assert(visits[j + 1] == later[j]);
                }
            }
        },
    }
}

/// The first visit of a walk is that of its root, against what the root was to be placed
/// against. Every other one is of a child of a node visited before: against exactly the
/// transform, the size and the scroll position that this node handed down, and rounded as
/// the child's own configuration says, or where it says nothing as this node was.
pub proof fn law_visit_is_against_parent(
    tree: UiTree,
    independent: Set<EntityId>,
    nodes: GeometryNodes,
    laid: spec_fn(Visit) -> Option<ParentGeometry>,
    root: EntityId,
    parent: ParentGeometry,
    k: int,
)
    requires
        tree.wf(),
        ({
            let start = WalkItem {
                entity: root,
                independent: false,
                inherited_rounding: true,
                parent,
            };
            0 <= k < walk_run(tree, independent, nodes, laid, seq![start]).0.len()
        }),
    ensures
        ({
            let start = WalkItem {
                entity: root,
                independent: false,
                inherited_rounding: true,
                parent,
            };
            let visits = walk_run(tree, independent, nodes, laid, seq![start]).0;
            let visit = visits[k];
            let own = nodes.rounded@.contains(visit.entity) || nodes.unrounded@.contains(
                visit.entity,
            );
            &&& nodes.present@.contains(visit.entity)
            &&& own ==> visit.use_rounding == nodes.rounded@.contains(visit.entity)
            &&& k == 0 ==> {
                &&& visit.entity == root
                &&& visit.parent.transform == parent.transform
                &&& visit.parent.size == parent.size
                &&& visit.parent.scroll == parent.scroll
                &&& !own ==> visit.use_rounding
            }
            &&& k > 0 ==> exists|j: int|
                {
                    &&& 0 <= j < k
                    &&& laid(#[trigger] visits[j]) matches Some(handed) && {
                        &&& visit.parent.transform == handed.transform
                        &&& visit.parent.size == handed.size
                        &&& visit.parent.scroll == handed.scroll
                    }
                    &&& tree.kids(visits[j].entity).contains(visit.entity)
                    &&& !independent.contains(visit.entity)
                    &&& !own ==> visit.use_rounding == visits[j].use_rounding
                }
        }),
{
    let start = WalkItem { entity: root, independent: false, inherited_rounding: true, parent };
    let stack = seq![start];
    let visits = walk_run(tree, independent, nodes, laid, stack).0;
    let (visit, left, noted) = walk_next(nodes, stack);
    law_walk_goes_on_with_last_item(nodes, stack);
    let v = visit->0;
    assert(left.len() == 0);
    assert(stack[left.len() as int] == start);
    let items = match laid(v) {
        Some(geometry) => child_items(tree, independent, v, geometry),
        None => Seq::empty(),
    };
    let next = left + items;
    assert(next =~= items);
    law_walk_shrinks(tree, independent, nodes, stack, laid(v));
    let later = walk_run(tree, independent, nodes, laid, next).0;
    assert(visits == seq![v] + later);
    assert(visits[0] == v);
    if k > 0 {
        lemma_visit_has_origin(tree, independent, nodes, laid, next, k - 1);
        assert(visits[k] == later[k - 1]);
        if exists|s: int|
            0 <= s < next.len() && !(#[trigger] next[s]).independent && later[k - 1]
                == nodes.visit(next[s]) && nodes.present@.contains(next[s].entity) {
            let s = choose|s: int|
                0 <= s < next.len() && !(#[trigger] next[s]).independent && later[k - 1]
                    == nodes.visit(next[s]) && nodes.present@.contains(next[s].entity);
            let kids = tree.kids(v.entity);
            assert(next[s] == items[s]);
            assert(next[s].entity == kids[kids.len() - 1 - s]);
            assert(follows(tree, independent, nodes, laid, visits[0], visits[k]));
        } else {
            let j = choose|j: int|
                0 <= j < k - 1 && follows(
                    tree,
                    independent,
                    nodes,
                    laid,
                    #[trigger] later[j],
                    later[k - 1],
                );
            assert(visits[j + 1] == later[j]);
        }
    }
}

/// An item that is not only noted, and whose node can be placed, is visited.
proof fn lemma_item_is_visited(
    tree: UiTree,
    independent: Set<EntityId>,
    nodes: GeometryNodes,
    laid: spec_fn(Visit) -> Option<ParentGeometry>,
    stack: Seq<WalkItem>,
    s: int,
) -> (k: int)
    requires
        tree.wf(),
        0 <= s < stack.len(),
        !stack[s].independent,
        nodes.present@.contains(stack[s].entity),
    ensures
        0 <= k < walk_run(tree, independent, nodes, laid, stack).0.len(),
        walk_run(tree, independent, nodes, laid, stack).0[k] == nodes.visit(stack[s]),
    decreases walk_size(tree, stack),
{
    let (visit, left, noted) = walk_next(nodes, stack);
    law_walk_goes_on_with_last_item(nodes, stack);
    assert(visit is Some);
    let v = visit->0;
    if s > left.len() {
        assert(stack.skip(left.len() as int + 1)[s - left.len() - 1] == stack[s]);
    }
    let next = left + (match laid(v) {
        Some(geometry) => child_items(tree, independent, v, geometry),
        None => Seq::empty(),
    });
    law_walk_shrinks(tree, independent, nodes, stack, laid(v));
    let later = walk_run(tree, independent, nodes, laid, next).0;
    let visits = walk_run(tree, independent, nodes, laid, stack).0;
    assert(visits == seq![v] + later);
    if s == left.len() {
        assert(visits[0] == nodes.visit(stack[s]));
        0
    } else {
        assert(next[s] == stack[s]);
        let k = lemma_item_is_visited(tree, independent, nodes, laid, next, s);
        assert(visits[k + 1] == later[k]);
        k + 1
    }
}

/// Where a walk visits a node that hands its geometry down, it goes on to visit each child
/// of the node that is not independent and can be placed, against that geometry.
pub proof fn law_children_of_visit_are_visited(
    tree: UiTree,
    independent: Set<EntityId>,
    nodes: GeometryNodes,
    laid: spec_fn(Visit) -> Option<ParentGeometry>,
    stack: Seq<WalkItem>,
    j: int,
    child: EntityId,
) -> (k: int)
    requires
        tree.wf(),
        0 <= j < walk_run(tree, independent, nodes, laid, stack).0.len(),
        laid(walk_run(tree, independent, nodes, laid, stack).0[j]) is Some,
        tree.kids(walk_run(tree, independent, nodes, laid, stack).0[j].entity).contains(child),
        !independent.contains(child),
        nodes.present@.contains(child),
    ensures
        ({
            let visits = walk_run(tree, independent, nodes, laid, stack).0;
            let handed = laid(visits[j])->0;
            &&& j < k < visits.len()
            &&& visits[k].entity == child
            &&& visits[k].parent.transform == handed.transform
            &&& visits[k].parent.size == handed.size
            &&& visits[k].parent.scroll == handed.scroll
            &&& !nodes.rounded@.contains(child) && !nodes.unrounded@.contains(child)
                ==> visits[k].use_rounding == visits[j].use_rounding
        }),
    decreases walk_size(tree, stack),
{
    let (visit, left, noted) = walk_next(nodes, stack);
    let v = visit->0;
    let items = match laid(v) {
        Some(geometry) => child_items(tree, independent, v, geometry),
        None => Seq::empty(),
    };
    let next = left + items;
    law_walk_shrinks(tree, independent, nodes, stack, laid(v));
    let later = walk_run(tree, independent, nodes, laid, next).0;
    let visits = walk_run(tree, independent, nodes, laid, stack).0;
    assert(visits == seq![v] + later);
    assert(visits[0] == v);
    if j == 0 {
        let kids = tree.kids(v.entity);
        let i = choose|i: int| 0 <= i < kids.len() && kids[i] == child;
        law_children_are_handed_geometry(tree, independent, v, laid(v)->0);
        let s = left.len() + (items.len() - 1 - i);
        assert(next[s] == items[items.len() - 1 - i]);
        assert(kids[i] == child);
        let k = lemma_item_is_visited(tree, independent, nodes, laid, next, s);
        assert(visits[k + 1] == later[k]);
        k + 1
    } else {
        assert(visits[j] == later[j - 1]);
        let k = law_children_of_visit_are_visited(
            tree,
            independent,
            nodes,
            laid,
            next,
            j - 1,
            child,
        );
        assert(visits[k + 1] == later[k]);
        k + 1
    }
}

} // verus!
