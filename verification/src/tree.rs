//! The tree of UI nodes, walked down from a node to its descendants.
use crate::entity::{ChildLists, EntityId, EntityLinks, EntitySet};
use crate::hierarchy::{
    acyclic, ancestor, depth, is_acyclic, lemma_ancestor_next, lemma_depth, lemma_depth_bound,
};
use crate::roots::{is_layout_root, layout_root};
use vstd::prelude::*;

verus! {

/// The UI nodes under each UI node, and the UI node above each.
pub struct UiTree {
    /// The UI children of each entity, in order.
    pub children: ChildLists,
    /// The closest UI node above each entity that has one.
    pub parents: EntityLinks,
    /// The nodes whose UI children changed this frame.
    pub changed: EntitySet,
}

impl UiTree {
    /// The UI children of `entity`, in order.
    pub open spec fn kids(self, entity: EntityId) -> Seq<EntityId> {
        if self.children@.dom().contains(entity) {
            self.children@[entity]
        } else {
            Seq::empty()
        }
    }

    /// Whether the children of each entity have it as their parent, and no entity is
    /// its own ancestor.
    pub open spec fn wf(self) -> bool {
        &&& acyclic(self.parents@)
        &&& self.parents@.dom().finite()
        &&& forall|p: EntityId, i: int|
            0 <= i < self.kids(p).len() ==> {
                &&& self.parents@.dom().contains(#[trigger] self.kids(p)[i])
                &&& self.parents@[self.kids(p)[i]] == p
            }
    }

    /// What shrinks with every step down.
    pub open spec fn height(self, entity: EntityId) -> int {
        self.parents@.dom().len() - depth(self.parents@, entity)
    }

    pub proof fn lemma_height(self, entity: EntityId)
        requires
            self.wf(),
        ensures
            0 <= self.height(entity),
            forall|i: int|
                0 <= i < self.kids(entity).len() ==> 0 <= self.height(
                    #[trigger] self.kids(entity)[i],
                ) < self.height(entity),
    {
        lemma_depth_bound(self.parents@, entity);
        assert forall|i: int| 0 <= i < self.kids(entity).len() implies 0 <= self.height(
            #[trigger] self.kids(entity)[i],
        ) < self.height(entity) by {
            lemma_depth_bound(self.parents@, self.kids(entity)[i]);
            lemma_depth(self.parents@, self.kids(entity)[i]);
        }
    }

    /// `entity` and its descendants, each before those under it, without those in
    /// `skip` and those under them.
    pub open spec fn preorder(self, skip: Set<EntityId>, entity: EntityId) -> Seq<EntityId>
        decreases self.height(entity), self.kids(entity).len() + 1,
        when self.wf()
    {
        seq![entity] + self.preorder_kids(skip, entity, self.kids(entity).len() as int)
    }

    /// The descendants of the first `n` children of `entity`, and these themselves.
    pub open spec fn preorder_kids(
        self,
        skip: Set<EntityId>,
        entity: EntityId,
        n: int,
    ) -> Seq<EntityId>
        decreases self.height(entity), n,
        when self.wf() && 0 <= n <= self.kids(entity).len()
    {
        if n == 0 {
            Seq::empty()
        } else {
            proof {
                self.lemma_height(entity);
            }
            let before = self.preorder_kids(skip, entity, n - 1);
            let child = self.kids(entity)[n - 1];
            if skip.contains(child) {
                before
            } else {
                before + self.preorder(skip, child)
            }
        }
    }

    /// The UI children of `entity`, in order.
    pub fn children_of(&self, entity: EntityId) -> (r: Vec<EntityId>)
        ensures
            r@ == self.kids(entity),
    {
        match self.children.get(entity) {
            Some(list) => list.clone(),
            None => Vec::new(),
        }
    }

    /// Whether the children of each entity have it as their parent, and no entity is
    /// its own ancestor.
    pub fn well_formed(&self) -> (r: bool)
        ensures
            r == self.wf(),
    {
        let keys = self.children.keys();
        for k in 0..keys.len()
            invariant
                keys@.to_set() == self.children@.dom(),
                forall|a: int, i: int|
                    0 <= a < k && 0 <= i < self.kids(keys@[a]).len() ==> {
                        &&& self.parents@.dom().contains(#[trigger] self.kids(keys@[a])[i])
                        &&& self.parents@[self.kids(keys@[a])[i]] == keys@[a]
                    },
        {
            let parent = keys[k];
            let kids = self.children_of(parent);
            for i in 0..kids.len()
                invariant
                    kids@ == self.kids(parent),
                    forall|j: int|
                        0 <= j < i ==> {
                            &&& self.parents@.dom().contains(#[trigger] self.kids(parent)[j])
                            &&& self.parents@[self.kids(parent)[j]] == parent
                        },
            {
                assert(kids@[i as int] == self.kids(parent)[i as int]);
                let linked: bool = match self.parents.get(kids[i]) {
                    Some(above) => above == parent,
                    None => false,
                };
                if !linked {
                    return false;
                }
            }
        }
        let _links: usize = self.parents.len();
        assert forall|p: EntityId, i: int| 0 <= i < self.kids(p).len() implies {
            &&& self.parents@.dom().contains(#[trigger] self.kids(p)[i])
            &&& self.parents@[self.kids(p)[i]] == p
        } by {
            assert(keys@.to_set().contains(p));
            let a = choose|a: int| 0 <= a < keys@.len() && keys@[a] == p;
            assert(self.kids(keys@[a])[i] == self.kids(p)[i]);
        }
        is_acyclic(&self.parents)
    }

    /// Appends `entity` and its descendants to `out`, each before those under it,
    /// without those in `skip` and those under them.
    pub fn walk(&self, skip: &EntitySet, entity: EntityId, out: &mut Vec<EntityId>)
        requires
            self.wf(),
        ensures
            final(out)@ == old(out)@ + self.preorder(skip@, entity),
        decreases self.height(entity),
    {
        let ghost start = out@;
        out.push(entity);
        let kids = self.children_of(entity);
        proof {
            self.lemma_height(entity);
        }
        assert(out@ =~= start + (seq![entity] + self.preorder_kids(skip@, entity, 0)));
        for i in 0..kids.len()
            invariant
                self.wf(),
                kids@ == self.kids(entity),
                out@ == start + (seq![entity] + self.preorder_kids(skip@, entity, i as int)),
                forall|k: int|
                    0 <= k < kids@.len() ==> 0 <= self.height(#[trigger] kids@[k]) < self.height(
                        entity,
                    ),
        {
            let child = kids[i];
            let ghost before = self.preorder_kids(skip@, entity, i as int);
            if !skip.contains(child) {
                self.walk(skip, child, out);
                assert(out@ =~= start + (seq![entity] + (before + self.preorder(skip@, child))));
            }
        }
    }
}

impl UiTree {
    /// A walk takes in, below its first entity, only children of entities that it
    /// takes in, and none that it is to skip: so all of them belong to one layout
    /// root, where the skipped entities are the independent ones.
    pub proof fn law_walk_stays_in_layout_tree(
        self,
        independent: Set<EntityId>,
        entity: EntityId,
        member: EntityId,
    )
        requires
            self.wf(),
            self.preorder(independent, entity).contains(member),
        ensures
            member == entity || (!independent.contains(member) && self.parents@.dom().contains(
                member,
            ) && self.preorder(independent, entity).contains(self.parents@[member]) && self.kids(
                self.parents@[member],
            ).contains(member)),
            layout_root(self.parents@, independent, member) == layout_root(
                self.parents@,
                independent,
                entity,
            ),
        decreases self.height(entity),
    {
        let all = self.preorder(independent, entity);
        assert(all[0] == entity);
        if member != entity {
            let k = choose|k: int| 0 <= k < all.len() && all[k] == member;
            let rest = self.preorder_kids(independent, entity, self.kids(entity).len() as int);
            assert(rest[k - 1] == member);
            let i = self.lemma_kids_member(
                independent,
                entity,
                self.kids(entity).len() as int,
                member,
            );
            let child = self.kids(entity)[i];
            self.lemma_height(entity);
            self.law_walk_stays_in_layout_tree(independent, child, member);
            assert forall|e: EntityId| self.preorder(independent, child).contains(e) implies
                all.contains(e) by {
                self.lemma_kids_contains(
                    independent,
                    entity,
                    self.kids(entity).len() as int,
                    i,
                    e,
                );
                let j = choose|j: int| 0 <= j < rest.len() && rest[j] == e;
                assert(all[j + 1] == e);
            }
        }
    }

    /// A walk takes in every child of an entity that it takes in, but those that it is
    /// to skip.
    pub proof fn law_walk_is_complete(
        self,
        skip: Set<EntityId>,
        entity: EntityId,
        member: EntityId,
        i: int,
    )
        requires
            self.wf(),
            self.preorder(skip, entity).contains(member),
            0 <= i < self.kids(member).len(),
            !skip.contains(self.kids(member)[i]),
        ensures
            self.preorder(skip, entity).contains(self.kids(member)[i]),
        decreases self.height(entity),
    {
        let all = self.preorder(skip, entity);
        let n = self.kids(entity).len() as int;
        let rest = self.preorder_kids(skip, entity, n);
        let found = self.kids(member)[i];
        self.lemma_height(entity);
        let top = if member == entity {
            i
        } else {
            let k = choose|k: int| 0 <= k < all.len() && all[k] == member;
            assert(rest[k - 1] == member);
            self.lemma_kids_member(skip, entity, n, member)
        };
        let child = self.kids(entity)[top];
        if member == entity {
            assert(self.preorder(skip, child)[0] == child);
        } else {
            self.law_walk_is_complete(skip, child, member, i);
        }
        self.lemma_kids_contains(skip, entity, n, top, found);
        let j = choose|j: int| 0 <= j < rest.len() && rest[j] == found;
        assert(all[j + 1] == found);
    }

    /// Where every entity below another is among its children, a walk from a layout
    /// root takes in exactly the entities that belong to it.
    pub proof fn law_walk_covers_layout_tree(
        self,
        independent: Set<EntityId>,
        root: EntityId,
        member: EntityId,
    )
        requires
            self.wf(),
            is_layout_root(self.parents@, independent, root),
            forall|e: EntityId|
                self.parents@.dom().contains(e) ==> #[trigger] self.kids(
                    self.parents@[e],
                ).contains(e),
        ensures
            self.preorder(independent, root).contains(member) <==> layout_root(
                self.parents@,
                independent,
                member,
            ) == root,
        decreases depth(self.parents@, member),
    {
        if self.preorder(independent, root).contains(member) {
            self.law_walk_stays_in_layout_tree(independent, root, member);
        }
        if layout_root(self.parents@, independent, member) == root {
            if is_layout_root(self.parents@, independent, member) {
                assert(self.preorder(independent, root)[0] == root);
            } else {
                lemma_depth(self.parents@, member);
                let p = self.parents@[member];
                self.law_walk_covers_layout_tree(independent, root, p);
                assert(self.kids(p).contains(member));
                let i = choose|i: int| 0 <= i < self.kids(p).len() && self.kids(p)[i] == member;
                self.law_walk_is_complete(independent, root, p, i);
            }
        }
    }

    /// A walk takes in each entity once, where no entity is listed twice among the
    /// children of another.
    pub proof fn law_walk_takes_each_once(self, skip: Set<EntityId>, entity: EntityId)
        requires
            self.wf(),
            forall|p: EntityId| #[trigger] self.kids(p).no_duplicates(),
        ensures
            self.preorder(skip, entity).no_duplicates(),
        decreases self.height(entity), self.kids(entity).len() + 1,
    {
        let n = self.kids(entity).len() as int;
        let rest = self.preorder_kids(skip, entity, n);
        self.lemma_kids_once(skip, entity, n);
        if rest.contains(entity) {
            let i = self.lemma_kids_member(skip, entity, n, entity);
            self.lemma_member_below(skip, self.kids(entity)[i], entity);
            lemma_depth(self.parents@, self.kids(entity)[i]);
        }
        assert forall|a: int, b: int|
            0 <= a < b < self.preorder(skip, entity).len() implies self.preorder(skip, entity)[a]
            != self.preorder(skip, entity)[b] by {
            assert(self.preorder(skip, entity)[b] == rest[b - 1]);
            if a > 0 {
                assert(self.preorder(skip, entity)[a] == rest[a - 1]);
            } else {
                assert(rest.contains(rest[b - 1]));
            }
        }
    }

    proof fn lemma_kids_once(self, skip: Set<EntityId>, entity: EntityId, n: int)
        requires
            self.wf(),
            0 <= n <= self.kids(entity).len(),
            forall|p: EntityId| #[trigger] self.kids(p).no_duplicates(),
        ensures
            self.preorder_kids(skip, entity, n).no_duplicates(),
        decreases self.height(entity), n,
    {
        if n > 0 {
            self.lemma_height(entity);
            self.lemma_kids_once(skip, entity, n - 1);
            let before = self.preorder_kids(skip, entity, n - 1);
            let child = self.kids(entity)[n - 1];
            if !skip.contains(child) {
                self.law_walk_takes_each_once(skip, child);
                let below = self.preorder(skip, child);
                assert forall|a: int, b: int|
                    0 <= a < before.len() && 0 <= b < below.len() implies before[a] != below[b] by {
                    if before[a] == below[b] {
                        let member = below[b];
                        assert(before.contains(member) && below.contains(member));
                        let i = self.lemma_kids_member(skip, entity, n - 1, member);
                        let other = self.kids(entity)[i];
                        self.lemma_member_below(skip, child, member);
                        self.lemma_member_below(skip, other, member);
                        lemma_depth(self.parents@, child);
                        lemma_depth(self.parents@, other);
                        assert(self.kids(entity).no_duplicates());
                        assert(child == other);
                    }
                }
                assert((before + below).no_duplicates());
            }
        }
    }

    /// What a walk takes in has the entity that it starts from as an ancestor.
    proof fn lemma_member_below(self, skip: Set<EntityId>, entity: EntityId, member: EntityId)
        requires
            self.wf(),
            self.preorder(skip, entity).contains(member),
        ensures
            depth(self.parents@, entity) <= depth(self.parents@, member),
            ancestor(
                self.parents@,
                member,
                (depth(self.parents@, member) - depth(self.parents@, entity)) as nat,
            ) == Some(entity),
        decreases self.height(entity),
    {
        let all = self.preorder(skip, entity);
        let n = self.kids(entity).len() as int;
        if member != entity {
            let rest = self.preorder_kids(skip, entity, n);
            let k = choose|k: int| 0 <= k < all.len() && all[k] == member;
            assert(rest[k - 1] == member);
            let i = self.lemma_kids_member(skip, entity, n, member);
            let child = self.kids(entity)[i];
            self.lemma_height(entity);
            self.lemma_member_below(skip, child, member);
            lemma_depth(self.parents@, child);
            lemma_ancestor_next(
                self.parents@,
                member,
                (depth(self.parents@, member) - depth(self.parents@, child)) as nat,
            );
        }
    }

    proof fn lemma_kids_member(
        self,
        skip: Set<EntityId>,
        entity: EntityId,
        n: int,
        member: EntityId,
    ) -> (i: int)
        requires
            self.wf(),
            0 <= n <= self.kids(entity).len(),
            self.preorder_kids(skip, entity, n).contains(member),
        ensures
            0 <= i < n,
            !skip.contains(self.kids(entity)[i]),
            self.preorder(skip, self.kids(entity)[i]).contains(member),
        decreases n,
    {
        let all = self.preorder_kids(skip, entity, n);
        let k = choose|k: int| 0 <= k < all.len() && all[k] == member;
        let before = self.preorder_kids(skip, entity, n - 1);
        let child = self.kids(entity)[n - 1];
        if k < before.len() {
            assert(before[k] == member);
            self.lemma_kids_member(skip, entity, n - 1, member)
        } else {
            assert(self.preorder(skip, child)[k - before.len()] == member);
            n - 1
        }
    }

    proof fn lemma_kids_contains(
        self,
        skip: Set<EntityId>,
        entity: EntityId,
        n: int,
        i: int,
        member: EntityId,
    )
        requires
            self.wf(),
            0 <= i < n <= self.kids(entity).len(),
            !skip.contains(self.kids(entity)[i]),
            self.preorder(skip, self.kids(entity)[i]).contains(member),
        ensures
            self.preorder_kids(skip, entity, n).contains(member),
        decreases n,
    {
        let all = self.preorder_kids(skip, entity, n);
        let before = self.preorder_kids(skip, entity, n - 1);
        if i < n - 1 {
            self.lemma_kids_contains(skip, entity, n - 1, i, member);
            let k = choose|k: int| 0 <= k < before.len() && before[k] == member;
            assert(all[k] == member);
        } else {
            let last = self.preorder(skip, self.kids(entity)[i]);
            let k = choose|k: int| 0 <= k < last.len() && last[k] == member;
            assert(all[before.len() + k] == member);
        }
    }
}

impl UiTree {
    /// The children of an entity are those that it is listed with, one by one, and an
    /// entity that is not listed has none.
    pub proof fn law_children_are_those_listed(self, entity: EntityId)
        ensures
            !self.children@.dom().contains(entity) ==> self.kids(entity).len() == 0,
            self.children@.dom().contains(entity) ==> {
                &&& self.kids(entity).len() == self.children@[entity].len()
                &&& forall|i: int|
                    0 <= i < self.children@[entity].len() ==> #[trigger] self.kids(entity)[i]
                        == self.children@[entity][i]
            },
    {
    }

    /// Where the entities below the `i`-th child of `entity`, and the child itself, start
    /// among those below its first `n` children.
    proof fn lemma_block_of_kid(
        self,
        skip: Set<EntityId>,
        entity: EntityId,
        n: int,
        i: int,
    ) -> (at: int)
        requires
            self.wf(),
            0 <= i < n <= self.kids(entity).len(),
            !skip.contains(self.kids(entity)[i]),
        ensures
            at == self.preorder_kids(skip, entity, i).len(),
            0 <= at,
            at + self.preorder(skip, self.kids(entity)[i]).len() <= self.preorder_kids(
                skip,
                entity,
                n,
            ).len(),
            self.preorder_kids(skip, entity, n).subrange(
                at,
                at + self.preorder(skip, self.kids(entity)[i]).len(),
            ) == self.preorder(skip, self.kids(entity)[i]),
            self.preorder_kids(skip, entity, i + 1).len() == at + self.preorder(
                skip,
                self.kids(entity)[i],
            ).len(),
        decreases n,
    {
        let all = self.preorder_kids(skip, entity, n);
        let below = self.preorder(skip, self.kids(entity)[i]);
        if i == n - 1 {
            let at = self.preorder_kids(skip, entity, i).len() as int;
            assert(all.subrange(at, at + below.len()) =~= below);
            at
        } else {
            let at = self.lemma_block_of_kid(skip, entity, n - 1, i);
            let before = self.preorder_kids(skip, entity, n - 1);
            assert(before.subrange(at, at + below.len()) =~= all.subrange(at, at + below.len()));
            at
        }
    }

    proof fn lemma_kids_grow(self, skip: Set<EntityId>, entity: EntityId, m: int, n: int)
        requires
            self.wf(),
            0 <= m <= n <= self.kids(entity).len(),
        ensures
            self.preorder_kids(skip, entity, m).len() <= self.preorder_kids(skip, entity, n).len(),
        decreases n,
    {
        if m < n {
            self.lemma_kids_grow(skip, entity, m, n - 1);
        }
    }

    /// A walk comes to an entity first, and then to its children in order, with all that
    /// is under each before the next one: of two children that it is not to skip, the part
    /// of the earlier one ends before that of the later one starts.
    pub proof fn law_walk_is_in_order(
        self,
        skip: Set<EntityId>,
        entity: EntityId,
        i: int,
        j: int,
    ) -> (starts: (int, int))
        requires
            self.wf(),
            0 <= i < j < self.kids(entity).len(),
            !skip.contains(self.kids(entity)[i]),
            !skip.contains(self.kids(entity)[j]),
        ensures
            ({
                let all = self.preorder(skip, entity);
                let first = self.preorder(skip, self.kids(entity)[i]);
                let second = self.preorder(skip, self.kids(entity)[j]);
                let (a, b) = starts;
                &&& all[0] == entity
                &&& 0 < a && a + first.len() <= b && b + second.len() <= all.len()
                &&& all.subrange(a, a + first.len()) == first
                &&& all.subrange(b, b + second.len()) == second
            }),
    {
        let n = self.kids(entity).len() as int;
        let all = self.preorder(skip, entity);
        let rest = self.preorder_kids(skip, entity, n);
        let first = self.preorder(skip, self.kids(entity)[i]);
        let second = self.preorder(skip, self.kids(entity)[j]);
        let a = self.lemma_block_of_kid(skip, entity, n, i);
        let b = self.lemma_block_of_kid(skip, entity, n, j);
        self.lemma_kids_grow(skip, entity, i + 1, j);
        assert(all.subrange(a + 1, a + 1 + first.len()) =~= rest.subrange(a, a + first.len()));
        assert(all.subrange(b + 1, b + 1 + second.len()) =~= rest.subrange(b, b + second.len()));
        (a + 1, b + 1)
    }

    /// A walk comes to the entity that it starts from, and is one longer than the walks
    /// from the children that it does not skip, together.
    pub proof fn law_walk_is_as_long_as_its_parts(self, skip: Set<EntityId>, entity: EntityId)
        requires
            self.wf(),
        ensures
            self.preorder(skip, entity)[0] == entity,
            self.preorder(skip, entity).len() == 1 + self.kids(entity).fold_left(
                0int,
                |sum: int, child: EntityId|
                    if skip.contains(child) {
                        sum
                    } else {
                        sum + self.preorder(skip, child).len()
                    },
            ),
    {
        self.lemma_kids_len(skip, entity, self.kids(entity).len() as int);
        assert(self.kids(entity).take(self.kids(entity).len() as int) =~= self.kids(entity));
    }

    proof fn lemma_kids_len(self, skip: Set<EntityId>, entity: EntityId, n: int)
        requires
            self.wf(),
            0 <= n <= self.kids(entity).len(),
        ensures
            self.preorder_kids(skip, entity, n).len() == self.kids(entity).take(n).fold_left(
                0int,
                |sum: int, child: EntityId|
                    if skip.contains(child) {
                        sum
                    } else {
                        sum + self.preorder(skip, child).len()
                    },
            ),
        decreases n,
    {
        if n > 0 {
            self.lemma_kids_len(skip, entity, n - 1);
            assert(self.kids(entity).take(n).drop_last() =~= self.kids(entity).take(n - 1));
        }
    }
}

} // verus!
