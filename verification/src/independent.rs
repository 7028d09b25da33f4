//! The independent layout roots of a frame: the order in which they are placed, and
//! which of them need it.
use crate::entity::{EntityId, EntitySet};
use crate::frame::{Frame, FramePlan};
use crate::geometry::ParentGeometry;
use crate::hierarchy::{acyclic, ancestor, depth, lemma_ancestor_depth, lemma_depth};
use crate::placement::{IndependentPlacement, Placements};
use crate::roots::{is_layout_root, law_root_is_nearest, layout_root, LayoutRoots};
use vstd::prelude::*;

verus! {

/// `sorted`, deepest first, with `entity` put in after those that are at least as deep.
pub open spec fn insert_by_depth(
    up: Map<EntityId, EntityId>,
    sorted: Seq<EntityId>,
    entity: EntityId,
) -> Seq<EntityId>
    decreases sorted.len(),
{
    if sorted.len() == 0 || depth(up, sorted.last()) >= depth(up, entity) {
        sorted.push(entity)
    } else {
        insert_by_depth(up, sorted.drop_last(), entity).push(sorted.last())
    }
}

/// The entities of `list`, deepest first; those that are equally deep stay in order.
pub open spec fn sort_by_depth(up: Map<EntityId, EntityId>, list: Seq<EntityId>) -> Seq<EntityId>
    decreases list.len(),
{
    if list.len() == 0 {
        Seq::empty()
    } else {
        insert_by_depth(up, sort_by_depth(up, list.drop_last()), list.last())
    }
}

/// `list` without the entities that follow themselves.
pub open spec fn without_repeats(list: Seq<EntityId>) -> Seq<EntityId>
    decreases list.len(),
{
    if list.len() <= 1 {
        list
    } else if list[list.len() - 2] == list.last() {
        without_repeats(list.drop_last())
    } else {
        without_repeats(list.drop_last()).push(list.last())
    }
}

proof fn lemma_insert_len(up: Map<EntityId, EntityId>, sorted: Seq<EntityId>, entity: EntityId)
    ensures
        insert_by_depth(up, sorted, entity).len() == sorted.len() + 1,
    decreases sorted.len(),
{
    if !(sorted.len() == 0 || depth(up, sorted.last()) >= depth(up, entity)) {
        lemma_insert_len(up, sorted.drop_last(), entity);
    }
}

pub proof fn lemma_sort_len(up: Map<EntityId, EntityId>, list: Seq<EntityId>)
    ensures
        sort_by_depth(up, list).len() == list.len(),
    decreases list.len(),
{
    if list.len() > 0 {
        lemma_sort_len(up, list.drop_last());
        lemma_insert_len(up, sort_by_depth(up, list.drop_last()), list.last());
    }
}

pub proof fn lemma_repeats_len(list: Seq<EntityId>)
    ensures
        without_repeats(list).len() <= list.len(),
        list.len() > 0 ==> without_repeats(list).len() > 0 && without_repeats(list).last()
            == list.last(),
    decreases list.len(),
{
    if list.len() > 1 {
        lemma_repeats_len(list.drop_last());
    }
}

/// What is left to place, in the order in which it is taken from the end.
pub open spec fn queue(up: Map<EntityId, EntityId>, pending: Seq<EntityId>) -> Seq<EntityId> {
    without_repeats(sort_by_depth(up, pending))
}

/// The next independent root to place, and what is then left and done.
pub open spec fn select(
    up: Map<EntityId, EntityId>,
    pending: Seq<EntityId>,
    done: Set<EntityId>,
) -> (Option<EntityId>, Seq<EntityId>, Set<EntityId>)
    decreases pending.len(),
{
    if pending.len() == 0 {
        (None, pending, done)
    } else {
        proof {
            lemma_sort_len(up, pending);
            lemma_repeats_len(sort_by_depth(up, pending));
        }
        let root = queue(up, pending).last();
        let rest = queue(up, pending).drop_last();
        if done.contains(root) {
            select(up, rest, done)
        } else if !up.dom().contains(root) {
            select(up, rest, done.insert(root))
        } else {
            (Some(root), rest, done.insert(root))
        }
    }
}

/// What an independent root whose parent has the given geometry is placed against.
pub open spec fn placement(
    frame: Frame,
    root: EntityId,
    parent: ParentGeometry,
) -> IndependentPlacement {
    IndependentPlacement {
        parent_transform: parent.transform,
        parent_size: parent.size,
        parent_scroll: parent.scroll,
        hidden: frame.roots.hidden_above(root),
    }
}

/// Whether an independent root is as it was placed last: none of its own nodes changed,
/// and what it is placed against is what it was.
pub open spec fn up_to_date(
    frame: Frame,
    placed: Map<EntityId, IndependentPlacement>,
    root: EntityId,
    parent: ParentGeometry,
) -> bool {
    &&& !frame.dirty_roots().contains(root)
    &&& placed.dom().contains(root)
    &&& placed[root].equals(placement(frame, root, parent))
}

/// What is done about an independent root, where `parent` is the geometry of its parent,
/// if that has one.
pub open spec fn decision(
    frame: Frame,
    placed: Map<EntityId, IndependentPlacement>,
    root: EntityId,
    parent: Option<ParentGeometry>,
) -> Decision {
    match parent {
        None => Decision::Keep,
        Some(geometry) => if up_to_date(frame, placed, root, geometry) {
            Decision::Keep
        } else if frame.roots.hidden_above(root) {
            Decision::Collapse
        } else if !frame.synced().contains(root) {
            Decision::Keep
        } else {
            Decision::Place { parent: geometry }
        },
    }
}

/// The placements after the decision about an independent root. Where it is collapsed,
/// so are the independent roots under it, and what they were placed against is forgotten.
pub open spec fn placements_after(
    frame: Frame,
    placed: Map<EntityId, IndependentPlacement>,
    root: EntityId,
    parent: Option<ParentGeometry>,
) -> Map<EntityId, IndependentPlacement> {
    match parent {
        None => placed,
        Some(geometry) => if up_to_date(frame, placed, root, geometry) {
            placed
        } else if frame.roots.hidden_above(root) {
            placed.remove_keys(frame.tree.preorder(Set::empty(), root).to_set()).insert(
                root,
                placement(frame, root, geometry),
            )
        } else {
            placed.insert(root, placement(frame, root, geometry))
        },
    }
}

/// Whether an independent root that is turned to is laid out, where `parent` is the
/// geometry of its parent: it has one to be placed against, is dirty, and takes part in
/// layout.
pub open spec fn lays_out(frame: Frame, root: EntityId, parent: Option<ParentGeometry>) -> bool {
    parent is Some && frame.dirty_roots().contains(root) && frame.synced().contains(root)
}

/// The independent roots that are still to be placed.
pub struct IndependentPass {
    /// The roots to place, in no particular order, some more than once.
    pub pending: Vec<EntityId>,
    /// The roots that were taken.
    pub done: EntitySet,
}

/// What is done about a layout root, after it is laid out where it is dirty.
#[derive(Clone, Copy, Debug)]
pub enum Decision {
    /// It is left as it is.
    Keep,
    /// It is under a hidden ancestor: its subtree takes no space.
    Collapse,
    /// It is placed against its parent.
    Place { parent: ParentGeometry },
}

impl LayoutRoots {
    /// Sorts `list`, deepest first; those that are equally deep stay in order.
    pub fn sort_deepest_first(&self, list: &Vec<EntityId>) -> (r: Vec<EntityId>)
        requires
            self.wf(),
        ensures
            r@ == sort_by_depth(self.ui_parents(), list@),
    {
        let ghost up = self.ui_parents();
        let mut sorted: Vec<EntityId> = Vec::new();
        let mut depths: Vec<usize> = Vec::new();
        assert(sort_by_depth(up, list@.take(0)) =~= Seq::empty());
        for i in 0..list.len()
            invariant
                self.wf(),
                up == self.ui_parents(),
                sorted@ == sort_by_depth(up, list@.take(i as int)),
                depths@.len() == sorted@.len(),
                forall|k: int|
                    0 <= k < sorted@.len() ==> #[trigger] depths@[k] == depth(up, sorted@[k]),
        {
            let entity = list[i];
            let entity_depth: usize = self.depth(entity);
            assert(list@.take(i + 1).drop_last() =~= list@.take(i as int));
            assert(list@.take(i + 1).last() == entity);
            let mut at: usize = sorted.len();
            assert(sorted@.take(at as int) =~= sorted@);
            assert(sorted@.skip(at as int) =~= Seq::empty());
            assert(insert_by_depth(up, sorted@, entity) =~= insert_by_depth(
                up,
                sorted@.take(at as int),
                entity,
            ) + sorted@.skip(at as int));
            while at > 0 && depths[at - 1] < entity_depth
                invariant
                    at <= sorted@.len(),
                    depths@.len() == sorted@.len(),
                    entity_depth == depth(up, entity),
                    forall|k: int|
                        0 <= k < sorted@.len() ==> #[trigger] depths@[k] == depth(up, sorted@[k]),
                    insert_by_depth(up, sorted@, entity) == insert_by_depth(
                        up,
                        sorted@.take(at as int),
                        entity,
                    ) + sorted@.skip(at as int),
                decreases at,
            {
                let ghost part = sorted@.take(at as int);
                at = at - 1;
                assert(depths@[at as int] == depth(up, sorted@[at as int]));
                assert(part.drop_last() =~= sorted@.take(at as int));
                assert(part.last() == sorted@[at as int]);
                let ghost less = insert_by_depth(up, sorted@.take(at as int), entity);
                assert(less.push(sorted@[at as int]) + sorted@.skip(at + 1) =~= less + sorted@.skip(
                    at as int,
                ));
            }
            proof {
                if at > 0 {
                    assert(depths@[at - 1] == depth(up, sorted@[at - 1]));
                }
                assert(sorted@.insert(at as int, entity) =~= sorted@.take(at as int).push(entity)
                    + sorted@.skip(at as int));
            }
            sorted.insert(at, entity);
            depths.insert(at, entity_depth);
        }
        assert(list@.take(list@.len() as int) =~= list@);
        sorted
    }
}

/// Removes the entities that follow themselves.
pub fn remove_repeats(list: &Vec<EntityId>) -> (r: Vec<EntityId>)
    ensures
        r@ == without_repeats(list@),
{
    let mut r: Vec<EntityId> = Vec::new();
    assert(without_repeats(list@.take(0)) =~= Seq::empty());
    for i in 0..list.len()
        invariant
            r@ == without_repeats(list@.take(i as int)),
    {
        assert(list@.take(i + 1).drop_last() =~= list@.take(i as int));
        if i == 0 {
            assert(list@.take(1) =~= seq![list@[0]]);
            assert(list@.take(0) =~= Seq::empty());
        }
        if i == 0 || list[i - 1] != list[i] {
            r.push(list[i]);
        }
        assert(r@ =~= without_repeats(list@.take(i + 1)));
    }
    assert(list@.take(list@.len() as int) =~= list@);
    r
}

impl IndependentPass {
    /// The pass over the dirty independent roots that have a parent.
    pub fn start(frame: &Frame, plan: &FramePlan) -> (r: IndependentPass)
        requires
            frame.wf(),
            plan.of(*frame),
        ensures
            r.pending@.no_duplicates(),
            forall|e: EntityId|
                r.pending@.contains(e) <==> (frame.dirty_roots().contains(e)
                    && frame.roots.independent@.contains(e) && frame.roots.ui_parent(e) is Some),
            r.done@ == Set::<EntityId>::empty(),
    {
        let dirty = plan.dirty_roots.elements();
        let mut pending: Vec<EntityId> = Vec::new();
        for i in 0..dirty.len()
            invariant
                frame.wf(),
                dirty@.no_duplicates(),
                pending@.no_duplicates(),
                forall|e: EntityId|
                    pending@.contains(e) <==> (dirty@.take(i as int).contains(e)
                        && frame.roots.independent@.contains(e) && frame.roots.ui_parent(e) is Some),
        {
            let root = dirty[i];
            let ghost before = pending@;
            let ghost seen = dirty@.take(i as int);
            assert(dirty@.take(i + 1) =~= seen.push(root));
            assert(!seen.contains(root));
            assert(!before.contains(root));
            if frame.roots.independent.contains(root) && frame.roots.parent_of(root).is_some() {
                pending.push(root);
                assert(pending@[before.len() as int] == root);
            }
            assert forall|e: EntityId|
                pending@.contains(e) <==> (dirty@.take(i + 1).contains(e)
                    && frame.roots.independent@.contains(e) && frame.roots.ui_parent(e) is Some) by {
                if before.contains(e) {
                    let k = choose|k: int| 0 <= k < before.len() && before[k] == e;
                    assert(pending@[k] == e);
                }
                if seen.contains(e) {
                    let k = choose|k: int| 0 <= k < seen.len() && seen[k] == e;
                    assert(dirty@.take(i + 1)[k] == e);
                }
                assert(dirty@.take(i + 1)[i as int] == root);
            }
        }
        assert(dirty@.take(dirty@.len() as int) =~= dirty@);
        assert forall|e: EntityId| dirty@.contains(e) <==> frame.dirty_roots().contains(e) by {
            assert(dirty@.to_set().contains(e) == dirty@.contains(e));
        }
        IndependentPass { pending, done: EntitySet::new() }
    }

    /// Takes the next independent root to place, with its parent: the shallowest of those
    /// left that was not taken yet and has a parent.
    pub fn next(&mut self, roots: &LayoutRoots) -> (r: Option<(EntityId, EntityId)>)
        requires
            roots.wf(),
        ensures
            ({
                let (root, pending, done) = select(
                    roots.ui_parents(),
                    old(self).pending@,
                    old(self).done@,
                );
                &&& r == (match root {
                    Some(e) => Some((e, roots.ui_parents()[e])),
                    None => None,
                })
                &&& final(self).pending@ == pending
                &&& final(self).done@ == done
            }),
    {
        let ghost up = roots.ui_parents();
        let ghost start = select(up, self.pending@, self.done@);
        while self.pending.len() > 0
            invariant
                roots.wf(),
                up == roots.ui_parents(),
                start == select(up, old(self).pending@, old(self).done@),
                select(up, self.pending@, self.done@) == start,
            decreases self.pending@.len(),
        {
            let ghost left = self.pending@;
            let ghost taken = self.done@;
            proof {
                lemma_sort_len(up, left);
                lemma_repeats_len(sort_by_depth(up, left));
            }
            let sorted = roots.sort_deepest_first(&self.pending);
            let mut rest = remove_repeats(&sorted);
            assert(rest@ == queue(up, left));
            match rest.pop() {
                None => {},
                Some(root) => {
                    assert(rest@ =~= queue(up, left).drop_last());
                    self.pending = rest;
                    if self.done.insert(root) {
                        match roots.parent_of(root) {
                            Some(parent) => {
                                return Some((root, parent));
                            },
                            None => {},
                        }
                    } else {
                        assert(self.done@ =~= taken);
                    }
                },
            }
        }
        None
    }
}

impl Frame {
    /// Decides what is done about an independent root, where `parent` is the geometry of
    /// its parent, if that has one, and notes what it is placed against.
    pub fn decide(
        &self,
        plan: &FramePlan,
        placed: &mut Placements,
        root: EntityId,
        parent: Option<ParentGeometry>,
    ) -> (r: Decision)
        requires
            self.wf(),
            plan.of(*self),
        ensures
            r == decision(*self, old(placed)@, root, parent),
            final(placed)@ == placements_after(*self, old(placed)@, root, parent),
    {
        match parent {
            None => Decision::Keep,
            Some(geometry) => {
                let placement = IndependentPlacement {
                    parent_transform: geometry.transform,
                    parent_size: geometry.size,
                    parent_scroll: geometry.scroll,
                    hidden: self.roots.ancestor_hidden(root),
                };
                let dirty: bool = plan.dirty_roots.contains(root);
                if !dirty {
                    match placed.get(root) {
                        Some(last) => {
                            if last == placement {
                                return Decision::Keep;
                            }
                        },
                        None => {},
                    }
                }
                if placement.hidden {
                    let mut collapsed: Vec<EntityId> = Vec::new();
                    self.tree.walk(&EntitySet::new(), root, &mut collapsed);
                    assert(collapsed@ =~= self.tree.preorder(Set::empty(), root));
                    placed.remove_all(&collapsed);
                    placed.insert(root, placement);
                    Decision::Collapse
                } else {
                    placed.insert(root, placement);
                    if plan.synced.contains(root) {
                        Decision::Place { parent: geometry }
                    } else {
                        Decision::Keep
                    }
                }
            },
        }
    }
}

proof fn lemma_insert_by_depth(
    up: Map<EntityId, EntityId>,
    sorted: Seq<EntityId>,
    entity: EntityId,
)
    requires
        forall|i: int, j: int|
            0 <= i <= j < sorted.len() ==> depth(up, sorted[i]) >= depth(up, sorted[j]),
    ensures
        ({
            let r = insert_by_depth(up, sorted, entity);
            &&& r.to_multiset() == sorted.to_multiset().insert(entity)
            &&& forall|i: int, j: int|
                0 <= i <= j < r.len() ==> depth(up, r[i]) >= depth(up, r[j])
        }),
        forall|d: nat|
            #[trigger] insert_by_depth(up, sorted, entity).filter(at_depth(up, d)) == (
            if depth(up, entity) == d {
                sorted.filter(at_depth(up, d)).push(entity)
            } else {
                sorted.filter(at_depth(up, d))
            }),
    decreases sorted.len(),
{
    broadcast use vstd::seq_lib::group_to_multiset_ensures;

    let r = insert_by_depth(up, sorted, entity);
    if sorted.len() == 0 || depth(up, sorted.last()) >= depth(up, entity) {
        assert forall|d: nat| #[trigger] r.filter(at_depth(up, d)) == (if depth(up, entity) == d {
            sorted.filter(at_depth(up, d)).push(entity)
        } else {
            sorted.filter(at_depth(up, d))
        }) by {
            sorted.lemma_filter_push(entity, at_depth(up, d));
        }
    } else {
        let last = sorted.last();
        let less = sorted.drop_last();
        lemma_insert_by_depth(up, less, entity);
        let part = insert_by_depth(up, less, entity);
        assert(less.push(last) =~= sorted);
        assert(r.to_multiset() == part.to_multiset().insert(last));
        assert(sorted.to_multiset() == less.to_multiset().insert(last));
        assert(r.to_multiset() =~= sorted.to_multiset().insert(entity));
        assert forall|i: int, j: int| 0 <= i <= j < r.len() implies depth(up, r[i]) >= depth(
            up,
            r[j],
        ) by {
            if j == part.len() && i < j {
                assert(part.to_multiset().count(part[i]) > 0) by {
                    assert(part.contains(part[i]));
                }
                if part[i] != entity {
                    assert(less.to_multiset().count(part[i]) > 0);
                    assert(less.contains(part[i]));
                    let k = choose|k: int| 0 <= k < less.len() && less[k] == part[i];
                    assert(sorted[k] == part[i]);
                    assert(depth(up, sorted[k]) >= depth(up, sorted[sorted.len() - 1]));
                }
            }
        }
        assert forall|d: nat| #[trigger] r.filter(at_depth(up, d)) == (if depth(up, entity) == d {
            sorted.filter(at_depth(up, d)).push(entity)
        } else {
            sorted.filter(at_depth(up, d))
        }) by {
            part.lemma_filter_push(last, at_depth(up, d));
            less.lemma_filter_push(last, at_depth(up, d));
            assert(part.filter(at_depth(up, d)) == (if depth(up, entity) == d {
                less.filter(at_depth(up, d)).push(entity)
            } else {
                less.filter(at_depth(up, d))
            }));
        }
    }
}

/// Whether an entity has `d` ancestors, as a function.
pub open spec fn at_depth(up: Map<EntityId, EntityId>, d: nat) -> spec_fn(EntityId) -> bool {
    |e: EntityId| depth(up, e) == d
}

/// Sorting by depth is a stable sort: it keeps the entities, puts the deeper ones first,
/// and keeps those of one depth in order.
pub proof fn law_sort_by_depth(up: Map<EntityId, EntityId>, list: Seq<EntityId>)
    ensures
        sort_by_depth(up, list).to_multiset() == list.to_multiset(),
        forall|i: int, j: int|
            0 <= i <= j < list.len() ==> depth(up, #[trigger] sort_by_depth(up, list)[i]) >= depth(
                up,
                #[trigger] sort_by_depth(up, list)[j],
            ),
        forall|d: nat|
            #[trigger] sort_by_depth(up, list).filter(at_depth(up, d)) == list.filter(
                at_depth(up, d),
            ),
    decreases list.len(),
{
    broadcast use vstd::seq_lib::group_to_multiset_ensures;

    let r = sort_by_depth(up, list);
    lemma_sort_len(up, list);
    if list.len() > 0 {
        let less = list.drop_last();
        law_sort_by_depth(up, less);
        lemma_sort_len(up, less);
        lemma_insert_by_depth(up, sort_by_depth(up, less), list.last());
        assert(less.push(list.last()) =~= list);
        assert forall|d: nat| #[trigger] r.filter(at_depth(up, d)) == list.filter(
            at_depth(up, d),
        ) by {
            less.lemma_filter_push(list.last(), at_depth(up, d));
        }
    } else {
        assert(r =~= list);
    }
}

proof fn lemma_repeats_contains(list: Seq<EntityId>, e: EntityId)
    ensures
        without_repeats(list).contains(e) <==> list.contains(e),
    decreases list.len(),
{
    if list.len() > 1 {
        let less = list.drop_last();
        lemma_repeats_contains(less, e);
        let part = without_repeats(less);
        if less.contains(e) {
            let k = choose|k: int| 0 <= k < less.len() && less[k] == e;
            assert(list[k] == e);
        }
        assert(list.contains(list.last())) by {
            assert(list[list.len() - 1] == list.last());
        }
        if list.contains(e) && e != list.last() {
            let k = choose|k: int| 0 <= k < list.len() && list[k] == e;
            assert(less[k] == e);
        }
        if list[list.len() - 2] == list.last() {
            assert(less[list.len() - 2] == list.last());
        } else {
            let all = part.push(list.last());
            assert(all[part.len() as int] == list.last());
            if part.contains(e) {
                let k = choose|k: int| 0 <= k < part.len() && part[k] == e;
                assert(all[k] == e);
            }
            if all.contains(e) && e != list.last() {
                let k = choose|k: int| 0 <= k < all.len() && all[k] == e;
                assert(part[k] == e);
            }
        }
    }
}

/// The queue holds what is pending, and its last entity is one of the shallowest.
proof fn lemma_queue(up: Map<EntityId, EntityId>, pending: Seq<EntityId>)
    requires
        pending.len() > 0,
    ensures
        0 < queue(up, pending).len() <= pending.len(),
        forall|e: EntityId| #[trigger] queue(up, pending).contains(e) <==> pending.contains(e),
        pending.contains(queue(up, pending).last()),
        forall|e: EntityId| #[trigger]
            pending.contains(e) ==> depth(up, queue(up, pending).last()) <= depth(up, e),
{
    broadcast use vstd::seq_lib::group_to_multiset_ensures;

    let sorted = sort_by_depth(up, pending);
    let q = queue(up, pending);
    law_sort_by_depth(up, pending);
    lemma_sort_len(up, pending);
    lemma_repeats_len(sorted);
    assert forall|e: EntityId| #[trigger] q.contains(e) <==> pending.contains(e) by {
        lemma_repeats_contains(sorted, e);
        assert(sorted.contains(e) <==> sorted.to_multiset().count(e) > 0);
        assert(pending.contains(e) <==> pending.to_multiset().count(e) > 0);
    }
    assert(q[q.len() - 1] == q.last());
    assert(q.contains(q.last()));
    assert forall|e: EntityId| #[trigger] pending.contains(e) implies depth(up, q.last()) <= depth(
        up,
        e,
    ) by {
        assert(q.contains(e));
        lemma_repeats_contains(sorted, e);
        let k = choose|k: int| 0 <= k < sorted.len() && sorted[k] == e;
        assert(sorted[sorted.len() - 1] == q.last());
        assert(depth(up, sorted[k]) >= depth(up, sorted[sorted.len() - 1]));
    }
}

/// Whether `entity` is among `pending`, was not taken yet and has a parent.
pub open spec fn waiting(
    up: Map<EntityId, EntityId>,
    pending: Seq<EntityId>,
    done: Set<EntityId>,
    entity: EntityId,
) -> bool {
    pending.contains(entity) && !done.contains(entity) && up.dom().contains(entity)
}

/// The root that is taken next is one of the shallowest of those that wait, and the
/// others keep waiting. None is taken only where none waits. A root that was taken stays
/// so, and is never taken again.
pub proof fn law_next_is_shallowest(
    up: Map<EntityId, EntityId>,
    pending: Seq<EntityId>,
    done: Set<EntityId>,
)
    ensures
        ({
            let (root, left, taken) = select(up, pending, done);
            &&& done.subset_of(taken)
            &&& forall|e: EntityId| #[trigger]
                taken.contains(e) && !done.contains(e) && up.dom().contains(e) ==> root == Some(e)
            &&& match root {
                Some(r) => {
                    &&& waiting(up, pending, done, r)
                    &&& taken.contains(r)
                    &&& left.len() < pending.len()
                    &&& forall|e: EntityId| #[trigger]
                        waiting(up, pending, done, e) ==> depth(up, r) <= depth(up, e)
                    &&& forall|e: EntityId| #[trigger]
                        waiting(up, left, taken, e) <==> waiting(up, pending, done, e) && e != r
                },
                None => left.len() == 0 && forall|e: EntityId|
                    !#[trigger] waiting(up, pending, done, e),
            }
        }),
    decreases pending.len(),
{
    if pending.len() > 0 {
        lemma_queue(up, pending);
        let q = queue(up, pending);
        let first = q.last();
        let rest = q.drop_last();
        assert forall|e: EntityId| rest.contains(e) || e == first <==> #[trigger] pending.contains(
            e,
        ) by {
            assert(q.contains(e) <==> pending.contains(e));
            if rest.contains(e) {
                let k = choose|k: int| 0 <= k < rest.len() && rest[k] == e;
                assert(q[k] == e);
            }
            if q.contains(e) && e != first {
                let k = choose|k: int| 0 <= k < q.len() && q[k] == e;
                assert(rest[k] == e);
            }
        }
        if done.contains(first) {
            law_next_is_shallowest(up, rest, done);
            assert forall|e: EntityId|
                #![trigger waiting(up, rest, done, e)]
                #![trigger waiting(up, pending, done, e)]
                waiting(up, rest, done, e) <==> waiting(up, pending, done, e) by {
                assert(rest.contains(e) || e == first <==> pending.contains(e));
            }
        } else if !up.dom().contains(first) {
            law_next_is_shallowest(up, rest, done.insert(first));
            assert forall|e: EntityId|
                #![trigger waiting(up, rest, done.insert(first), e)]
                #![trigger waiting(up, pending, done, e)]
                waiting(up, rest, done.insert(first), e) <==> waiting(up, pending, done, e) by {
                assert(rest.contains(e) || e == first <==> pending.contains(e));
            }
        } else {
            assert forall|e: EntityId| #[trigger]
                waiting(up, rest, done.insert(first), e) <==> waiting(up, pending, done, e) && e
                    != first by {
                assert(rest.contains(e) || e == first <==> pending.contains(e));
            }
        }
    }
}

/// Nothing is added to what is pending by taking from it.
pub proof fn lemma_select_left(
    up: Map<EntityId, EntityId>,
    pending: Seq<EntityId>,
    done: Set<EntityId>,
)
    ensures
        forall|e: EntityId| #[trigger]
            select(up, pending, done).1.contains(e) ==> pending.contains(e),
    decreases pending.len(),
{
    if pending.len() > 0 {
        lemma_queue(up, pending);
        let q = queue(up, pending);
        let rest = q.drop_last();
        assert forall|e: EntityId| #[trigger] rest.contains(e) implies pending.contains(e) by {
            let k = choose|k: int| 0 <= k < rest.len() && rest[k] == e;
            assert(q[k] == e);
            assert(q.contains(e));
        }
        lemma_select_left(up, rest, done);
        lemma_select_left(up, rest, done.insert(q.last()));
        let left = select(up, pending, done).1;
        assert(left == rest || left == select(up, rest, done).1 || left == select(
            up,
            rest,
            done.insert(q.last()),
        ).1);
        assert forall|e: EntityId| #[trigger] left.contains(e) implies pending.contains(e) by {
            assert(select(up, rest, done).1.contains(e) ==> rest.contains(e));
            assert(select(up, rest, done.insert(q.last())).1.contains(e) ==> rest.contains(e));
        }
    }
}

/// An independent child of a node is deeper than the layout root that the node belongs
/// to, so that it is placed after it.
pub proof fn law_nested_root_is_deeper(
    up: Map<EntityId, EntityId>,
    independent: Set<EntityId>,
    node: EntityId,
    child: EntityId,
)
    requires
        acyclic(up),
        up.dom().contains(child),
        up[child] == node,
    ensures
        depth(up, layout_root(up, independent, node)) < depth(up, child),
{
    law_root_is_nearest(up, independent, node);
    let n = choose|n: nat|
        #[trigger] ancestor(up, node, n) == Some(layout_root(up, independent, node)) && (forall|
            m: nat,
        |
            m < n ==> (#[trigger] ancestor(up, node, m) matches Some(a) && !is_layout_root(
                up,
                independent,
                a,
            )));
    lemma_ancestor_depth(up, node, n);
    lemma_depth(up, child);
}

/// An independent root none of whose own nodes changed is placed again, or collapsed,
/// only where its parent moved, was resized or scrolled, or an ancestor was hidden or
/// shown.
pub proof fn law_clean_root_is_kept(
    frame: Frame,
    placed: Map<EntityId, IndependentPlacement>,
    root: EntityId,
    parent: ParentGeometry,
)
    requires
        !frame.dirty_roots().contains(root),
        placed.dom().contains(root),
        placed[root].parent_transform.equals(parent.transform),
        placed[root].parent_size.equals(parent.size),
        placed[root].parent_scroll.equals(parent.scroll),
        placed[root].hidden == frame.roots.hidden_above(root),
    ensures
        decision(frame, placed, root, Some(parent)) == Decision::Keep,
        placements_after(frame, placed, root, Some(parent)) == placed,
{
}

/// A dirty independent root whose parent has a geometry is collapsed under a hidden
/// ancestor, and otherwise placed; either way it is laid out.
pub proof fn law_dirty_root_is_placed(
    frame: Frame,
    placed: Map<EntityId, IndependentPlacement>,
    root: EntityId,
    parent: ParentGeometry,
)
    requires
        frame.dirty_roots().contains(root),
        frame.synced().contains(root),
    ensures
        lays_out(frame, root, Some(parent)),
        decision(frame, placed, root, Some(parent)) == (if frame.roots.hidden_above(root) {
            Decision::Collapse
        } else {
            Decision::Place { parent }
        }),
        placements_after(frame, placed, root, Some(parent))[root] == placement(frame, root, parent),
{
}

/// An independent root that was collapsed, itself or with another one above it, is placed
/// again once no ancestor of it is hidden any more.
pub proof fn law_collapsed_root_is_restored(
    frame: Frame,
    placed: Map<EntityId, IndependentPlacement>,
    root: EntityId,
    parent: ParentGeometry,
    shown: Frame,
    nested: EntityId,
    geometry: ParentGeometry,
)
    requires
        frame.wf(),
        decision(frame, placed, root, Some(parent)) is Collapse,
        frame.tree.preorder(Set::empty(), root).contains(nested),
        !shown.roots.hidden_above(nested),
        shown.synced().contains(nested),
    ensures
        ({
            let kept = placements_after(frame, placed, root, Some(parent)).restrict(
                shown.synced(),
            );
            decision(shown, kept, nested, Some(geometry)) == Decision::Place { parent: geometry }
        }),
{
    assert(frame.tree.preorder(Set::empty(), root).to_set().contains(nested));
}

/// Whether a placement differs from what a root whose parent has the given geometry would
/// be placed against, in any number of the parent's transform, size or scroll position.
pub open spec fn moved(last: IndependentPlacement, parent: ParentGeometry) -> bool {
    ||| !last.parent_transform.x_axis.x.equals(parent.transform.x_axis.x)
    ||| !last.parent_transform.x_axis.y.equals(parent.transform.x_axis.y)
    ||| !last.parent_transform.y_axis.x.equals(parent.transform.y_axis.x)
    ||| !last.parent_transform.y_axis.y.equals(parent.transform.y_axis.y)
    ||| !last.parent_transform.translation.x.equals(parent.transform.translation.x)
    ||| !last.parent_transform.translation.y.equals(parent.transform.translation.y)
    ||| !last.parent_size.x.equals(parent.size.x)
    ||| !last.parent_size.y.equals(parent.size.y)
    ||| !last.parent_scroll.x.equals(parent.scroll.x)
    ||| !last.parent_scroll.y.equals(parent.scroll.y)
}

/// An independent root that takes part in layout and has no hidden ancestor is placed
/// where none was noted for it yet, where it was hidden when it was placed last, or where
/// any number of its parent's transform, size or scroll position is not what it was: along
/// either axis of the transform, in either coordinate. It is placed against the parent as
/// it is now, and that is what is noted. Nothing that is noted of the others changes.
pub proof fn law_moved_root_is_placed(
    frame: Frame,
    placed: Map<EntityId, IndependentPlacement>,
    root: EntityId,
    parent: ParentGeometry,
)
    requires
        frame.synced().contains(root),
        !frame.roots.hidden_above(root),
        placed.dom().contains(root) ==> {
            let last = placed[root];
            ||| last.hidden
            ||| !last.parent_transform.x_axis.x.equals(parent.transform.x_axis.x)
            ||| !last.parent_transform.x_axis.y.equals(parent.transform.x_axis.y)
            ||| !last.parent_transform.y_axis.x.equals(parent.transform.y_axis.x)
            ||| !last.parent_transform.y_axis.y.equals(parent.transform.y_axis.y)
            ||| !last.parent_transform.translation.x.equals(parent.transform.translation.x)
            ||| !last.parent_transform.translation.y.equals(parent.transform.translation.y)
            ||| !last.parent_size.x.equals(parent.size.x)
            ||| !last.parent_size.y.equals(parent.size.y)
            ||| !last.parent_scroll.x.equals(parent.scroll.x)
            ||| !last.parent_scroll.y.equals(parent.scroll.y)
        },
    ensures
        decision(frame, placed, root, Some(parent)) matches Decision::Place { parent: against } && {
            &&& against.transform == parent.transform
            &&& against.size == parent.size
            &&& against.scroll == parent.scroll
        },
        ({
            let after = placements_after(frame, placed, root, Some(parent));
            &&& after.dom().contains(root)
            &&& after[root].parent_transform == parent.transform
            &&& after[root].parent_size == parent.size
            &&& after[root].parent_scroll == parent.scroll
            &&& !after[root].hidden
            &&& forall|e: EntityId|
                e != root ==> (#[trigger] after.dom().contains(e) == placed.dom().contains(e)) && (
                placed.dom().contains(e) ==> after[e] == placed[e])
        }),
{
}

/// An independent root under a hidden ancestor is collapsed where none was noted for it
/// yet, where it was shown when it was placed last, or where its parent moved, was resized
/// or scrolled. What it would be placed against is noted, as hidden; what was noted of the
/// roots under it is forgotten, and the others keep theirs.
pub proof fn law_hidden_root_is_collapsed(
    frame: Frame,
    placed: Map<EntityId, IndependentPlacement>,
    root: EntityId,
    parent: ParentGeometry,
)
    requires
        frame.roots.hidden_above(root),
        placed.dom().contains(root) ==> !placed[root].hidden || moved(placed[root], parent),
    ensures
        decision(frame, placed, root, Some(parent)) is Collapse,
        ({
            let after = placements_after(frame, placed, root, Some(parent));
            let below = frame.tree.preorder(Set::empty(), root);
            &&& after.dom().contains(root)
            &&& after[root].parent_transform == parent.transform
            &&& after[root].parent_size == parent.size
            &&& after[root].parent_scroll == parent.scroll
            &&& after[root].hidden
            &&& forall|e: EntityId|
                e != root ==> {
                    &&& #[trigger] after.dom().contains(e) == (placed.dom().contains(e)
                        && !below.contains(e))
                    &&& after.dom().contains(e) ==> after[e] == placed[e]
                }
        }),
{
    let below = frame.tree.preorder(Set::empty(), root);
    assert forall|e: EntityId| below.to_set().contains(e) == #[trigger] below.contains(e) by {}
}

/// After a decision about an independent root, what is noted of it is what its parent has
/// and whether an ancestor is hidden: so that a second decision on the same inputs keeps
/// the root as it is, unless a node of it changed or a number of the parent's is not even
/// equal to itself.
pub proof fn law_second_decision_keeps(
    frame: Frame,
    placed: Map<EntityId, IndependentPlacement>,
    root: EntityId,
    parent: ParentGeometry,
)
    ensures
        ({
            let after = placements_after(frame, placed, root, Some(parent));
            let noted = after[root];
            &&& after.dom().contains(root)
            &&& noted.hidden == frame.roots.hidden_above(root)
            &&& !moved(noted, parent) || (noted.parent_transform == parent.transform
                && noted.parent_size == parent.size && noted.parent_scroll == parent.scroll)
            &&& !frame.dirty_roots().contains(root) && !moved(noted, parent) ==> {
                &&& decision(frame, after, root, Some(parent)) is Keep
                &&& placements_after(frame, after, root, Some(parent)) == after
            }
        }),
{
}

/// An independent root is turned to in earnest where its parent has a geometry and the
/// root is dirty, has nothing noted, was noted as hidden and is shown now or the other way
/// round, or has a parent that moved, was resized or scrolled. Then it is collapsed under
/// a hidden ancestor, placed where it takes part in layout, and otherwise only noted. In
/// all other cases it is kept, with what is noted. It is laid out where it is dirty, takes
/// part in layout and has a parent with a geometry.
pub proof fn law_decision_is_determined(
    frame: Frame,
    placed: Map<EntityId, IndependentPlacement>,
    root: EntityId,
    parent: Option<ParentGeometry>,
)
    ensures
        ({
            let dirty = frame.dirty_roots().contains(root);
            let hidden = frame.roots.hidden_above(root);
            let again = parent matches Some(geometry) && (dirty || !placed.dom().contains(root)
                || placed[root].hidden != hidden || moved(placed[root], geometry));
            let decided = decision(frame, placed, root, parent);
            let after = placements_after(frame, placed, root, parent);
            &&& decided is Place <==> again && !hidden && frame.synced().contains(root)
            &&& decided is Collapse <==> again && hidden
            &&& decided matches Decision::Place { parent: against } ==> parent == Some(against)
            &&& !again ==> after == placed
            &&& again ==> after.dom().contains(root) && after[root].hidden == hidden
                && parent == Some(
                ParentGeometry {
                    transform: after[root].parent_transform,
                    size: after[root].parent_size,
                    scroll: after[root].parent_scroll,
                },
            )
            &&& lays_out(frame, root, parent) <==> parent is Some && dirty
                && frame.synced().contains(root)
        }),
{
}

/// An independent root whose parent has no geometry is left as it is, and so is what is
/// noted of every root.
pub proof fn law_root_without_geometry_is_kept(
    frame: Frame,
    placed: Map<EntityId, IndependentPlacement>,
    root: EntityId,
)
    ensures
        decision(frame, placed, root, None) is Keep,
        placements_after(frame, placed, root, None) == placed,
        !lays_out(frame, root, None),
{
}

/// The root that is taken next is pending, was not taken before and has a parent, and none
/// such has fewer ancestors. Where none is taken, none such is left.
pub proof fn law_next_root_waits(
    up: Map<EntityId, EntityId>,
    pending: Seq<EntityId>,
    done: Set<EntityId>,
)
    ensures
        ({
            let (root, left, taken) = select(up, pending, done);
            &&& root matches Some(r) ==> {
                &&& pending.contains(r) && !done.contains(r) && up.dom().contains(r)
                &&& taken.contains(r)
                &&& forall|e: EntityId| #[trigger]
                    pending.contains(e) && !done.contains(e) && up.dom().contains(e) ==> depth(up, r)
                        <= depth(up, e) && (e == r || (left.contains(e) && !taken.contains(e)))
            }
            &&& root is None ==> forall|e: EntityId| #[trigger]
                pending.contains(e) ==> done.contains(e) || !up.dom().contains(e)
            &&& forall|e: EntityId| #[trigger] left.contains(e) ==> pending.contains(e)
            &&& forall|e: EntityId| #[trigger]
                taken.contains(e) ==> done.contains(e) || root == Some(e) || (pending.contains(e)
                    && !up.dom().contains(e))
        }),
    decreases pending.len(),
{
    law_next_is_shallowest(up, pending, done);
    lemma_select_left(up, pending, done);
    let (root, left, taken) = select(up, pending, done);
    assert forall|e: EntityId| #[trigger]
        pending.contains(e) && !done.contains(e) && up.dom().contains(e) implies waiting(
        up,
        pending,
        done,
        e,
    ) && (root matches Some(r) ==> e == r || waiting(up, left, taken, e)) by {}
    if pending.len() > 0 {
        lemma_queue(up, pending);
        let q = queue(up, pending);
        let rest = q.drop_last();
        assert forall|e: EntityId| #[trigger] rest.contains(e) implies pending.contains(e) by {
            let k = choose|k: int| 0 <= k < rest.len() && rest[k] == e;
            assert(q[k] == e);
            assert(q.contains(e));
        }
        law_next_root_waits(up, rest, done);
        law_next_root_waits(up, rest, done.insert(q.last()));
    }
}

/// Taking out the entities that follow themselves leaves one of each run of equal ones, in
/// order: the i-th that is left stands for the entities from the i-th of the starts that
/// are returned up to the next one, and no two that are left next to each other are equal.
pub proof fn law_without_repeats(list: Seq<EntityId>) -> (starts: Seq<int>)
    ensures
        ({
            let r = without_repeats(list);
            &&& starts.len() == r.len()
            &&& list.len() > 0 ==> starts.len() > 0 && starts[0] == 0
            &&& forall|i: int| 0 <= i < r.len() ==> 0 <= #[trigger] starts[i] < list.len()
            &&& forall|i: int, j: int|
                0 <= i < j < r.len() ==> #[trigger] starts[i] < #[trigger] starts[j]
            &&& forall|i: int, k: int|
                0 <= i < r.len() && starts[i] <= k < list.len() && (i + 1 < r.len() ==> k
                    < starts[i + 1]) ==> #[trigger] list[k] == #[trigger] r[i]
            &&& forall|i: int| 0 < i < r.len() ==> #[trigger] r[i] != r[i - 1]
        }),
    decreases list.len(),
{
    let r = without_repeats(list);
    if list.len() <= 1 {
        Seq::new(list.len(), |i: int| i)
    } else {
        let less = list.drop_last();
        let last = list.len() - 1;
        let part = without_repeats(less);
        let before = law_without_repeats(less);
        lemma_repeats_len(less);
        assert(part.last() == list[last - 1]);
        if list[last - 1] == list.last() {
            assert forall|i: int, k: int|
                0 <= i < r.len() && before[i] <= k < list.len() && (i + 1 < r.len() ==> k
                    < before[i + 1]) implies #[trigger] list[k] == #[trigger] r[i] by {
                if k < last {
                    assert(less[k] == list[k]);
                } else {
                    if i + 1 < r.len() {
                        assert(before[i + 1] < less.len());
                    }
                }
            }
            before
        } else {
            let starts = before.push(last);
            assert forall|i: int, k: int|
                0 <= i < r.len() && starts[i] <= k < list.len() && (i + 1 < r.len() ==> k
                    < starts[i + 1]) implies #[trigger] list[k] == #[trigger] r[i] by {
                if i < part.len() {
                    assert(r[i] == part[i]);
                    if i + 1 < part.len() {
                        assert(before[i + 1] < less.len());
                        assert(starts[i + 1] == before[i + 1]);
                    }
                    assert(less[k] == list[k]);
                }
            }
            starts
        }
    }
}

} // verus!
