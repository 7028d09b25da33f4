//! Layout roots: which part of the hierarchy each node is laid out with.
use crate::entity::{EntityId, EntityLinks, EntitySet};
use crate::hierarchy::{
    acyclic, ancestor, closest, depth, is_acyclic, law_closest_is_nearest, lemma_acyclic_by_depth,
    lemma_ancestor_next, lemma_ancestor_some_before, lemma_closest_depth, lemma_depth,
    lemma_depth_bound,
};
use vstd::prelude::*;

verus! {

/// What the **dirty layout roots** of a frame are found with.
///
/// A layout root is a root node or an independent node. A change to a node dirties
/// the layout root it belongs to (the nearest of itself and its ancestors that is
/// one), and only dirty roots are synced, laid out and placed.
pub struct LayoutRoots {
    /// Every independent layout root.
    pub independent: EntitySet,
    /// Nodes that became independent this frame.
    pub added_independent: Vec<EntityId>,
    /// Nodes that stopped being independent.
    pub removed_independent: Vec<EntityId>,
    /// The hierarchy, walked up to find a node's layout root.
    pub parents: EntityLinks,
    /// The ghosts: entities that pass their UI children on to the node above them.
    pub ghosts: EntitySet,
    /// UI nodes, for the walk.
    pub nodes: EntitySet,
    /// The UI nodes that are not displayed, for the hidden-ancestor check.
    pub hidden: EntitySet,
    /// Nodes whose children changed.
    pub changed_children: Vec<EntityId>,
    /// Nodes moved to another parent: their new layout root is dirty (their old one
    /// is, through the old parent's children changing).
    pub changed_parent: Vec<EntityId>,
    /// Nodes un-parented: each is now a root of its own, to be laid out.
    pub removed_parent: Vec<EntityId>,
    /// Nodes whose geometry inputs (not their layout) changed.
    pub changed_geometry: Vec<EntityId>,
}

/// The layout root that `entity` belongs to in the hierarchy `up`: the nearest of
/// itself and its ancestors that is independent or has no parent.
pub open spec fn layout_root(
    up: Map<EntityId, EntityId>,
    independent: Set<EntityId>,
    entity: EntityId,
) -> EntityId
    decreases depth(up, entity),
    when acyclic(up)
{
    if independent.contains(entity) || !up.dom().contains(entity) {
        entity
    } else {
        proof {
            lemma_depth(up, entity);
        }
        layout_root(up, independent, up[entity])
    }
}

/// The same walk, which also ends at an entity whose root is noted in `memo`.
pub open spec fn memo_root(
    up: Map<EntityId, EntityId>,
    independent: Set<EntityId>,
    memo: Map<EntityId, EntityId>,
    entity: EntityId,
) -> EntityId
    decreases depth(up, entity),
    when acyclic(up)
{
    if memo.dom().contains(entity) {
        memo[entity]
    } else if independent.contains(entity) || !up.dom().contains(entity) {
        entity
    } else {
        proof {
            lemma_depth(up, entity);
        }
        memo_root(up, independent, memo, up[entity])
    }
}

/// The entities that the walk to the root passes and that are not noted in `memo`.
pub open spec fn memo_walk(
    up: Map<EntityId, EntityId>,
    independent: Set<EntityId>,
    memo: Map<EntityId, EntityId>,
    entity: EntityId,
) -> Seq<EntityId>
    decreases depth(up, entity),
    when acyclic(up)
{
    if memo.dom().contains(entity) {
        Seq::empty()
    } else if independent.contains(entity) || !up.dom().contains(entity) {
        seq![entity]
    } else {
        proof {
            lemma_depth(up, entity);
        }
        seq![entity] + memo_walk(up, independent, memo, up[entity])
    }
}

/// `memo` with `root` noted for every entity of `walked`.
pub open spec fn noted(
    memo: Map<EntityId, EntityId>,
    walked: Seq<EntityId>,
    root: EntityId,
) -> Map<EntityId, EntityId> {
    Map::new(
        |e: EntityId| memo.dom().contains(e) || walked.contains(e),
        |e: EntityId|
            if walked.contains(e) {
                root
            } else {
                memo[e]
            },
    )
}

/// Whether `entity` is a layout root: it is independent or has no parent.
pub open spec fn is_layout_root(
    up: Map<EntityId, EntityId>,
    independent: Set<EntityId>,
    entity: EntityId,
) -> bool {
    independent.contains(entity) || !up.dom().contains(entity)
}

/// The layout root of an entity is the nearest of itself and its ancestors that is a
/// layout root: the `n`-th one, where none of the `n` before it is.
pub proof fn law_root_is_nearest(
    up: Map<EntityId, EntityId>,
    independent: Set<EntityId>,
    entity: EntityId,
)
    requires
        acyclic(up),
    ensures
        is_layout_root(up, independent, layout_root(up, independent, entity)),
        exists|n: nat|
            #[trigger] ancestor(up, entity, n) == Some(layout_root(up, independent, entity)) && (
            forall|m: nat|
                m < n ==> (#[trigger] ancestor(up, entity, m) matches Some(a) && !is_layout_root(
                    up,
                    independent,
                    a,
                ))),
    decreases depth(up, entity),
{
    let root = layout_root(up, independent, entity);
    if is_layout_root(up, independent, entity) {
        assert(ancestor(up, entity, 0) == Some(root));
    } else {
        lemma_depth(up, entity);
        let p = up[entity];
        law_root_is_nearest(up, independent, p);
        let n = choose|n: nat|
            #[trigger] ancestor(up, p, n) == Some(root) && (forall|m: nat|
                m < n ==> (#[trigger] ancestor(up, p, m) matches Some(a) && !is_layout_root(
                    up,
                    independent,
                    a,
                )));
        assert(ancestor(up, entity, n + 1) == Some(root));
        assert forall|m: nat| m < n + 1 implies (#[trigger] ancestor(up, entity, m) matches Some(a)
            && !is_layout_root(up, independent, a)) by {
            if m > 0 {
                assert(ancestor(up, p, (m - 1) as nat) == ancestor(up, entity, m));
            }
        }
    }
}

/// A layout root belongs to itself, so that the root of a root is the same root.
pub proof fn law_root_of_root(
    up: Map<EntityId, EntityId>,
    independent: Set<EntityId>,
    entity: EntityId,
)
    requires
        acyclic(up),
    ensures
        is_layout_root(up, independent, entity) <==> layout_root(up, independent, entity) == entity,
        layout_root(up, independent, layout_root(up, independent, entity)) == layout_root(
            up,
            independent,
            entity,
        ),
{
    law_root_is_nearest(up, independent, entity);
}

/// A node that is no layout root belongs to the layout root of its parent.
pub proof fn law_root_of_child(
    up: Map<EntityId, EntityId>,
    independent: Set<EntityId>,
    entity: EntityId,
)
    requires
        acyclic(up),
        up.dom().contains(entity),
        !independent.contains(entity),
    ensures
        layout_root(up, independent, entity) == layout_root(up, independent, up[entity]),
{
}

/// A walk with sound notes finds the layout root, and the notes it leaves are sound:
/// noting roots changes no answer.
pub proof fn law_memo_is_transparent(
    up: Map<EntityId, EntityId>,
    independent: Set<EntityId>,
    memo: Map<EntityId, EntityId>,
    entity: EntityId,
)
    requires
        acyclic(up),
        memo_sound(up, independent, memo),
    ensures
        memo_root(up, independent, memo, entity) == layout_root(up, independent, entity),
        memo_sound(
            up,
            independent,
            noted(
                memo,
                memo_walk(up, independent, memo, entity),
                memo_root(up, independent, memo, entity),
            ),
        ),
{
    lemma_memo_walk(up, independent, memo, entity);
}

proof fn lemma_memo_walk(
    up: Map<EntityId, EntityId>,
    independent: Set<EntityId>,
    memo: Map<EntityId, EntityId>,
    entity: EntityId,
)
    requires
        acyclic(up),
        memo_sound(up, independent, memo),
    ensures
        memo_root(up, independent, memo, entity) == layout_root(up, independent, entity),
        forall|e: EntityId|
            memo_walk(up, independent, memo, entity).contains(e) ==> #[trigger] layout_root(
                up,
                independent,
                e,
            ) == layout_root(up, independent, entity),
    decreases depth(up, entity),
{
    let walk = memo_walk(up, independent, memo, entity);
    if memo.dom().contains(entity) {
        assert(memo[entity] == layout_root(up, independent, entity));
    } else if is_layout_root(up, independent, entity) {
    } else {
        lemma_depth(up, entity);
        let rest = memo_walk(up, independent, memo, up[entity]);
        lemma_memo_walk(up, independent, memo, up[entity]);
        assert forall|e: EntityId| walk.contains(e) implies #[trigger] layout_root(
            up,
            independent,
            e,
        ) == layout_root(up, independent, entity) by {
            let k = choose|k: int| 0 <= k < walk.len() && walk[k] == e;
            if k > 0 {
                assert(rest[k - 1] == e);
            }
        }
    }
}

/// Whether every root that `memo` notes is the layout root.
pub open spec fn memo_sound(
    up: Map<EntityId, EntityId>,
    independent: Set<EntityId>,
    memo: Map<EntityId, EntityId>,
) -> bool {
    forall|e: EntityId|
        memo.dom().contains(e) ==> #[trigger] memo[e] == layout_root(up, independent, e)
}

impl LayoutRoots {
    /// The closest ancestor of each entity that is no ghost, where it has one.
    pub open spec fn closest_parents(self) -> Map<EntityId, EntityId> {
        Map::new(
            |e: EntityId| closest(self.parents@, self.ghosts@, e) is Some,
            |e: EntityId| closest(self.parents@, self.ghosts@, e)->0,
        )
    }

    /// The UI parent of each entity that has one: the closest ancestor that is no ghost,
    /// where that is a node.
    pub open spec fn ui_parents(self) -> Map<EntityId, EntityId> {
        Map::new(
            |e: EntityId|
                closest(self.parents@, self.ghosts@, e) matches Some(p) && self.nodes@.contains(p),
            |e: EntityId| closest(self.parents@, self.ghosts@, e)->0,
        )
    }

    /// The UI parent of `entity`, if it has one.
    pub open spec fn ui_parent(self, entity: EntityId) -> Option<EntityId> {
        if self.ui_parents().dom().contains(entity) {
            Some(self.ui_parents()[entity])
        } else {
            None
        }
    }

    /// Whether no entity is its own ancestor.
    pub open spec fn wf(self) -> bool {
        acyclic(self.parents@)
    }

    /// No node is its own UI ancestor, and none has more UI ancestors than ancestors.
    pub proof fn lemma_ui_parents(self)
        requires
            self.wf(),
        ensures
            acyclic(self.ui_parents()),
            acyclic(self.closest_parents()),
            self.ui_parents().dom().subset_of(self.parents@.dom()),
            forall|e: EntityId| #[trigger]
                depth(self.ui_parents(), e) <= depth(self.parents@, e),
    {
        assert forall|e: EntityId| closest(self.parents@, self.ghosts@, e) is Some implies (
        #[trigger] self.parents@.dom().contains(e) && depth(
            self.parents@,
            closest(self.parents@, self.ghosts@, e)->0,
        ) < depth(self.parents@, e)) by {
            lemma_closest_depth(self.parents@, self.ghosts@, e);
        }
        assert forall|e: EntityId| #[trigger] self.ui_parents().dom().contains(e) implies depth(
            self.parents@,
            self.ui_parents()[e],
        ) < depth(self.parents@, e) by {
            assert(self.parents@.dom().contains(e));
        }
        assert forall|e: EntityId| #[trigger] self.closest_parents().dom().contains(e) implies depth(
            self.parents@,
            self.closest_parents()[e],
        ) < depth(self.parents@, e) by {
            assert(self.parents@.dom().contains(e));
        }
        lemma_acyclic_by_depth(self.parents@, self.ui_parents());
        lemma_acyclic_by_depth(self.parents@, self.closest_parents());
    }

    /// The layout root that `entity` belongs to.
    pub open spec fn root(self, entity: EntityId) -> EntityId {
        layout_root(self.ui_parents(), self.independent@, entity)
    }

    /// Whether a strict UI ancestor of `entity` is not displayed.
    pub open spec fn hidden_above(self, entity: EntityId) -> bool {
        exists|n: nat|
            n > 0 && (#[trigger] ancestor(self.ui_parents(), entity, n) matches Some(a)
                && self.hidden@.contains(a))
    }

    /// Whether no entity is its own ancestor.
    pub fn well_formed(&self) -> (r: bool)
        ensures
            r == self.wf(),
    {
        is_acyclic(&self.parents)
    }

    /// The closest ancestor of `entity` that is no ghost, if there is one.
    pub fn closest_parent(&self, entity: EntityId) -> (r: Option<EntityId>)
        requires
            self.wf(),
        ensures
            r == closest(self.parents@, self.ghosts@, entity),
    {
        let mut current = entity;
        loop
            invariant
                self.wf(),
                closest(self.parents@, self.ghosts@, current) == closest(
                    self.parents@,
                    self.ghosts@,
                    entity,
                ),
            decreases depth(self.parents@, current),
        {
            proof {
                lemma_depth(self.parents@, current);
            }
            match self.parents.get(current) {
                Some(parent) => {
                    if !self.ghosts.contains(parent) {
                        return Some(parent);
                    }
                    current = parent;
                },
                None => {
                    return None;
                },
            }
        }
    }

    /// The layout root `entity` belongs to: the nearest of itself and its ancestors
    /// that is an independent node or has no UI parent.
    ///
    /// `memo` holds the roots found so far, and takes in those of the entities walked.
    pub fn root_of(&self, entity: EntityId, memo: &mut EntityLinks) -> (root: EntityId)
        requires
            self.wf(),
        ensures
            root == memo_root(self.ui_parents(), self.independent@, old(memo)@, entity),
            final(memo)@ == noted(
                old(memo)@,
                memo_walk(self.ui_parents(), self.independent@, old(memo)@, entity),
                root,
            ),
    {
        let ghost up = self.ui_parents();
        let ghost ind = self.independent@;
        let ghost known = memo@;
        proof {
            self.lemma_ui_parents();
        }
        let mut walked: Vec<EntityId> = Vec::new();
        let mut current = entity;
        let root: EntityId;
        loop
            invariant_except_break
                walked@ + memo_walk(up, ind, known, current) == memo_walk(up, ind, known, entity),
                memo_root(up, ind, known, current) == memo_root(up, ind, known, entity),
            invariant
                self.wf(),
                acyclic(up),
                up == self.ui_parents(),
                ind == self.independent@,
                known == memo@,
            ensures
                walked@ == memo_walk(up, ind, known, entity),
                root == memo_root(up, ind, known, entity),
            decreases depth(up, current),
        {
            match memo.get(current) {
                Some(noted_root) => {
                    root = noted_root;
                    assert(walked@ =~= walked@ + memo_walk(up, ind, known, current));
                    break;
                },
                None => {},
            }
            let ghost before = walked@;
            walked.push(current);
            if self.independent.contains(current) {
                root = current;
                assert(walked@ =~= before + seq![current]);
                break;
            }
            proof {
                lemma_depth(up, current);
            }
            match self.parent_of(current) {
                Some(parent) => {
                    assert(walked@ + memo_walk(up, ind, known, parent) =~= before + (seq![current]
                        + memo_walk(up, ind, known, parent)));
                    current = parent;
                },
                None => {
                    root = current;
                    assert(walked@ =~= before + seq![current]);
                    break;
                },
            }
        }
        assert(memo@ =~= noted(known, walked@.take(0), root));
        for i in 0..walked.len()
            invariant
                memo@ == noted(known, walked@.take(i as int), root),
        {
            memo.insert(walked[i], root);
            proof {
                let now = walked@.take(i as int);
                let next = walked@.take(i + 1);
                assert(next =~= now.push(walked@[i as int]));
                assert forall|e: EntityId|
                    next.contains(e) <==> now.contains(e) || e == walked@[i as int] by {
                    if now.contains(e) {
                        let k = choose|k: int| 0 <= k < now.len() && now[k] == e;
                        assert(next[k] == e);
                    }
                    if e == walked@[i as int] {
                        assert(next[i as int] == e);
                    }
                }
                assert(memo@ =~= noted(known, next, root));
            }
        }
        assert(walked@.take(walked@.len() as int) =~= walked@);
        root
    }

    /// The UI parent of `entity`, if it has one.
    pub fn parent_of(&self, entity: EntityId) -> (r: Option<EntityId>)
        requires
            self.wf(),
        ensures
            r == self.ui_parent(entity),
    {
        match self.closest_parent(entity) {
            Some(parent) => if self.nodes.contains(parent) {
                Some(parent)
            } else {
                None
            },
            None => None,
        }
    }

    /// Whether any strict UI ancestor of `entity` is not displayed.
    pub fn ancestor_hidden(&self, entity: EntityId) -> (r: bool)
        requires
            self.wf(),
        ensures
            r == self.hidden_above(entity),
    {
        let ghost up = self.ui_parents();
        proof {
            self.lemma_ui_parents();
        }
        let ghost mut n: nat = 0;
        let mut current = entity;
        loop
            invariant
                self.wf(),
                acyclic(up),
                up == self.ui_parents(),
                ancestor(up, entity, n) == Some(current),
                forall|m: nat|
                    0 < m <= n ==> !(#[trigger] ancestor(up, entity, m) matches Some(a)
                        && self.hidden@.contains(a)),
            decreases depth(up, current),
        {
            proof {
                lemma_depth(up, current);
                lemma_ancestor_next(up, entity, n);
            }
            match self.parent_of(current) {
                Some(parent) => {
                    assert(ancestor(up, entity, n + 1) == Some(parent));
                    if self.hidden.contains(parent) {
                        return true;
                    }
                    current = parent;
                    proof {
                        n = n + 1;
                    }
                },
                None => {
                    assert forall|m: nat| m > 0 implies !(#[trigger] ancestor(
                        up,
                        entity,
                        m,
                    ) matches Some(a) && self.hidden@.contains(a)) by {
                        if m > n && ancestor(up, entity, m) is Some {
                            lemma_ancestor_some_before(up, entity, n + 1, m);
                        }
                    }
                    return false;
                },
            }
        }
    }

    /// How many UI ancestors `entity` has.
    pub fn depth(&self, entity: EntityId) -> (r: usize)
        requires
            self.wf(),
        ensures
            r == depth(self.ui_parents(), entity),
    {
        let ghost up = self.ui_parents();
        let links = self.parents.len();
        proof {
            self.lemma_ui_parents();
            lemma_depth_bound(self.parents@, entity);
            assert(depth(up, entity) <= depth(self.parents@, entity));
        }
        let mut count: usize = 0;
        let mut current = entity;
        loop
            invariant
                self.wf(),
                acyclic(up),
                up == self.ui_parents(),
                depth(up, entity) == count + depth(up, current),
                depth(up, entity) <= links,
            decreases depth(up, current),
        {
            proof {
                lemma_depth(up, current);
            }
            match self.parent_of(current) {
                Some(parent) => {
                    count = count + 1;
                    current = parent;
                },
                None => {
                    return count;
                },
            }
        }
    }
}

/// An entity belongs to the first of itself and its ancestors that is independent or has
/// no parent, and to no other.
pub proof fn law_root_ends_the_walk_up(
    up: Map<EntityId, EntityId>,
    independent: Set<EntityId>,
    entity: EntityId,
    found: EntityId,
)
    requires
        acyclic(up),
    ensures
        layout_root(up, independent, entity) == found <==> exists|n: nat|
            {
                &&& #[trigger] ancestor(up, entity, n) == Some(found)
                &&& independent.contains(found) || !up.dom().contains(found)
                &&& forall|m: nat|
                    m < n ==> (#[trigger] ancestor(up, entity, m) matches Some(a)
                        && !independent.contains(a) && up.dom().contains(a))
            },
{
    let root = layout_root(up, independent, entity);
    law_root_is_nearest(up, independent, entity);
    let k = choose|n: nat|
        #[trigger] ancestor(up, entity, n) == Some(root) && (forall|m: nat|
            m < n ==> (#[trigger] ancestor(up, entity, m) matches Some(a) && !is_layout_root(
                up,
                independent,
                a,
            )));
    assert(ancestor(up, entity, k) == Some(root));
    assert forall|n: nat|
        {
            &&& #[trigger] ancestor(up, entity, n) == Some(found)
            &&& independent.contains(found) || !up.dom().contains(found)
            &&& forall|m: nat|
                m < n ==> (#[trigger] ancestor(up, entity, m) matches Some(a)
                    && !independent.contains(a) && up.dom().contains(a))
        } implies found == root by {
        if n < k {
            assert(ancestor(up, entity, n) == Some(found));
        }
        if k < n {
            assert(ancestor(up, entity, k) == Some(root));
        }
    }
}

/// Finding the layout root of an entity notes it for the entity, keeps every root that was
/// noted, and adds notes of that root only.
pub proof fn law_memo_grows(
    up: Map<EntityId, EntityId>,
    independent: Set<EntityId>,
    memo: Map<EntityId, EntityId>,
    entity: EntityId,
)
    requires
        acyclic(up),
    ensures
        ({
            let root = memo_root(up, independent, memo, entity);
            let after = noted(memo, memo_walk(up, independent, memo, entity), root);
            &&& after.dom().contains(entity) && after[entity] == root
            &&& forall|e: EntityId| #[trigger]
                memo.dom().contains(e) ==> after.dom().contains(e) && after[e] == memo[e]
            &&& forall|e: EntityId| #[trigger]
                after.dom().contains(e) && !memo.dom().contains(e) ==> after[e] == root && exists|
                    n: nat,
                |
                    #[trigger] ancestor(up, entity, n) == Some(e)
        }),
{
    let walk = memo_walk(up, independent, memo, entity);
    assert forall|e: EntityId| #[trigger] walk.contains(e) implies !memo.dom().contains(e)
        && exists|n: nat| #[trigger] ancestor(up, entity, n) == Some(e) by {
        lemma_memo_walk_is_new(up, independent, memo, entity, e);
    }
    if !memo.dom().contains(entity) {
        assert(walk[0] == entity);
    }
}

proof fn lemma_memo_walk_is_new(
    up: Map<EntityId, EntityId>,
    independent: Set<EntityId>,
    memo: Map<EntityId, EntityId>,
    entity: EntityId,
    e: EntityId,
)
    requires
        acyclic(up),
        memo_walk(up, independent, memo, entity).contains(e),
    ensures
        !memo.dom().contains(e),
        exists|n: nat| #[trigger] ancestor(up, entity, n) == Some(e),
    decreases depth(up, entity),
{
    let walk = memo_walk(up, independent, memo, entity);
    let k = choose|k: int| 0 <= k < walk.len() && walk[k] == e;
    if k == 0 {
        assert(ancestor(up, entity, 0) == Some(e));
    } else {
        lemma_depth(up, entity);
        let rest = memo_walk(up, independent, memo, up[entity]);
        assert(rest[k - 1] == e);
        lemma_memo_walk_is_new(up, independent, memo, up[entity], e);
        let n = choose|n: nat| #[trigger] ancestor(up, up[entity], n) == Some(e);
        assert(ancestor(up, entity, n + 1) == Some(e));
    }
}

impl LayoutRoots {
    /// The UI parent of an entity is its nearest ancestor that is no ghost, where that is
    /// a node; and it has none otherwise.
    pub proof fn law_ui_parent_is_nearest_node(self, entity: EntityId, found: EntityId)
        requires
            self.wf(),
        ensures
            self.ui_parent(entity) == Some(found) <==> {
                &&& self.nodes@.contains(found)
                &&& !self.ghosts@.contains(found)
                &&& exists|n: nat|
                    n > 0 && #[trigger] ancestor(self.parents@, entity, n) == Some(found) && (
                    forall|m: nat|
                        0 < m < n ==> (#[trigger] ancestor(self.parents@, entity, m) matches Some(a)
                            && self.ghosts@.contains(a)))
            },
    {
        let up = self.parents@;
        law_closest_is_nearest(up, self.ghosts@, entity);
        assert forall|n: nat|
            n > 0 && #[trigger] ancestor(up, entity, n) == Some(found) && !self.ghosts@.contains(
                found,
            ) && (forall|m: nat|
                0 < m < n ==> (#[trigger] ancestor(up, entity, m) matches Some(a)
                    && self.ghosts@.contains(a))) implies closest(up, self.ghosts@, entity)
            == Some(found) by {
            match closest(up, self.ghosts@, entity) {
                Some(other) => {
                    let k = choose|k: nat|
                        k > 0 && #[trigger] ancestor(up, entity, k) == Some(other) && (forall|m: nat|
                            0 < m < k ==> (#[trigger] ancestor(up, entity, m) matches Some(a)
                                && self.ghosts@.contains(a)));
                    if n < k {
                        assert(ancestor(up, entity, n) == Some(found));
                    }
                    if k < n {
                        assert(ancestor(up, entity, k) == Some(other));
                    }
                },
                None => {
                    assert(ancestor(up, entity, n) == Some(found));
                },
            }
        }
    }

    /// The layout root of an entity is the first of itself and its UI ancestors that is
    /// independent or has no UI parent.
    pub proof fn law_root_is_first_root_above(self, entity: EntityId, found: EntityId)
        requires
            self.wf(),
        ensures
            self.root(entity) == found <==> exists|n: nat|
                {
                    &&& #[trigger] ancestor(self.ui_parents(), entity, n) == Some(found)
                    &&& self.independent@.contains(found) || self.ui_parent(found) is None
                    &&& forall|m: nat|
                        m < n ==> (#[trigger] ancestor(self.ui_parents(), entity, m) matches Some(a)
                            && !self.independent@.contains(a) && self.ui_parent(a) is Some)
                },
    {
        self.lemma_ui_parents();
        law_root_ends_the_walk_up(self.ui_parents(), self.independent@, entity, found);
    }

    /// An entity is under a hidden one exactly where its UI parent is hidden, or is itself
    /// under a hidden one.
    pub proof fn law_hidden_is_inherited(self, entity: EntityId)
        ensures
            self.hidden_above(entity) <==> (self.ui_parent(entity) matches Some(parent) && (
            self.hidden@.contains(parent) || self.hidden_above(parent))),
    {
        let up = self.ui_parents();
        if self.hidden_above(entity) {
            let n = choose|n: nat|
                n > 0 && (#[trigger] ancestor(up, entity, n) matches Some(a)
                    && self.hidden@.contains(a));
            assert(up.dom().contains(entity));
            assert(ancestor(up, entity, n) == ancestor(up, up[entity], (n - 1) as nat));
        }
        if up.dom().contains(entity) {
            let p = up[entity];
            assert(ancestor(up, p, 0) == Some(p));
            assert(ancestor(up, entity, 1) == ancestor(up, p, 0));
            if self.hidden_above(p) {
                let n = choose|n: nat|
                    n > 0 && (#[trigger] ancestor(up, p, n) matches Some(a)
                        && self.hidden@.contains(a));
                assert(ancestor(up, entity, n + 1) == ancestor(up, p, n));
            }
        }
    }
}

} // verus!
