//! Chains of ancestors: a hierarchy is a map from each entity to its parent.
use crate::entity::{EntityId, EntityLinks};
use vstd::prelude::*;

verus! {

/// The `n`-th ancestor of `entity`; the entity itself is the zeroth.
pub open spec fn ancestor(up: Map<EntityId, EntityId>, entity: EntityId, n: nat) -> Option<EntityId>
    decreases n,
{
    if n == 0 {
        Some(entity)
    } else if up.dom().contains(entity) {
        ancestor(up, up[entity], (n - 1) as nat)
    } else {
        None
    }
}

/// Whether `entity` has exactly `n` ancestors.
pub open spec fn has_ancestors(up: Map<EntityId, EntityId>, entity: EntityId, n: nat) -> bool {
    ancestor(up, entity, n) is Some && ancestor(up, entity, n + 1) is None
}

/// Whether the chain of ancestors of `entity` ends.
pub open spec fn chain_ends(up: Map<EntityId, EntityId>, entity: EntityId) -> bool {
    exists|n: nat| has_ancestors(up, entity, n)
}

/// Whether every chain of ancestors ends.
pub open spec fn acyclic(up: Map<EntityId, EntityId>) -> bool {
    forall|entity: EntityId| #[trigger] chain_ends(up, entity)
}

/// How many ancestors `entity` has, where its chain of ancestors ends.
pub open spec fn depth(up: Map<EntityId, EntityId>, entity: EntityId) -> nat {
    choose|n: nat| has_ancestors(up, entity, n)
}

pub proof fn lemma_ancestor_some_before(
    up: Map<EntityId, EntityId>,
    entity: EntityId,
    m: nat,
    n: nat,
)
    requires
        m <= n,
        ancestor(up, entity, n) is Some,
    ensures
        ancestor(up, entity, m) is Some,
    decreases n,
{
    if m > 0 {
        lemma_ancestor_some_before(up, up[entity], (m - 1) as nat, (n - 1) as nat);
    }
}

/// The number of ancestors is unique.
proof fn lemma_has_ancestors_unique(
    up: Map<EntityId, EntityId>,
    entity: EntityId,
    m: nat,
    n: nat,
)
    requires
        has_ancestors(up, entity, m),
        has_ancestors(up, entity, n),
    ensures
        m == n,
{
    if m < n {
        lemma_ancestor_some_before(up, entity, m + 1, n);
    }
    if n < m {
        lemma_ancestor_some_before(up, entity, n + 1, m);
    }
}

/// An entity with no parent has no ancestors, and any other has one more than its
/// parent.
pub proof fn lemma_depth(up: Map<EntityId, EntityId>, entity: EntityId)
    requires
        acyclic(up),
    ensures
        has_ancestors(up, entity, depth(up, entity)),
        !up.dom().contains(entity) ==> depth(up, entity) == 0,
        up.dom().contains(entity) ==> depth(up, entity) == depth(up, up[entity]) + 1,
{
    assert(chain_ends(up, entity));
    let n = depth(up, entity);
    assert(has_ancestors(up, entity, n));
    if up.dom().contains(entity) {
        let p = up[entity];
        assert(chain_ends(up, p));
        let m = depth(up, p);
        assert(has_ancestors(up, p, m));
        assert(ancestor(up, entity, m + 1) == ancestor(up, p, m));
        assert(ancestor(up, entity, (m + 1) + 1) == ancestor(up, p, m + 1));
        assert(has_ancestors(up, entity, m + 1));
        lemma_has_ancestors_unique(up, entity, n, m + 1);
    } else if n > 0 {
        assert(ancestor(up, entity, n) is None);
    }
}

/// The ancestors get one less deep with each step up.
pub proof fn lemma_ancestor_depth(up: Map<EntityId, EntityId>, entity: EntityId, n: nat)
    requires
        acyclic(up),
        ancestor(up, entity, n) is Some,
    ensures
        depth(up, entity) == depth(up, ancestor(up, entity, n)->0) + n,
    decreases n,
{
    lemma_depth(up, entity);
    if n > 0 {
        lemma_ancestor_depth(up, up[entity], (n - 1) as nat);
    }
}

/// There are no more ancestors than there are entities with a parent.
pub proof fn lemma_depth_bound(up: Map<EntityId, EntityId>, entity: EntityId)
    requires
        acyclic(up),
        up.dom().finite(),
    ensures
        depth(up, entity) <= up.dom().len(),
{
    let d = depth(up, entity);
    lemma_depth(up, entity);
    let chain = Seq::new(d, |i: int| ancestor(up, entity, i as nat)->0);
    assert forall|i: int| 0 <= i < d implies ancestor(up, entity, i as nat) is Some
        && #[trigger] up.dom().contains(chain[i]) && depth(up, chain[i]) == d - i by {
        lemma_ancestor_some_before(up, entity, i as nat, d);
        lemma_ancestor_depth(up, entity, i as nat);
        lemma_depth(up, chain[i]);
    }
    assert(chain.no_duplicates()) by {
        assert forall|i: int, j: int| 0 <= i < d && 0 <= j < d && i != j implies chain[i]
            != chain[j] by {
            assert(up.dom().contains(chain[i]) && up.dom().contains(chain[j]));
        }
    }
    chain.unique_seq_to_set();
    assert(chain.to_set().subset_of(up.dom()));
    vstd::set_lib::lemma_len_subset(chain.to_set(), up.dom());
}

/// Whether every chain of ancestors ends.
pub fn is_acyclic(links: &EntityLinks) -> (r: bool)
    ensures
        r == acyclic(links@),
{
    let keys = links.keys();
    proof {
        keys@.unique_seq_to_set();
        assert(links@.dom().finite());
    }
    for i in 0..keys.len()
        invariant
            keys@.to_set() == links@.dom(),
            keys@.to_set().len() == keys@.len(),
            links@.dom().finite(),
            forall|k: int| 0 <= k < i ==> #[trigger] chain_ends(links@, keys@[k]),
    {
        let mut current = keys[i];
        let mut steps: usize = 0;
        let mut ended: bool = false;
        while !ended
            invariant
                0 <= i < keys@.len(),
                keys@.to_set() == links@.dom(),
                keys@.to_set().len() == keys@.len(),
                links@.dom().finite(),
                steps <= keys@.len(),
                !ended ==> ancestor(links@, keys@[i as int], steps as nat) == Some(current),
                ended ==> chain_ends(links@, keys@[i as int]),
            decreases keys@.len() - steps, if ended { 0int } else { 1int },
        {
            match links.get(current) {
                Some(next) => {
                    proof {
                        lemma_ancestor_next(links@, keys@[i as int], steps as nat);
                    }
                    if steps == keys.len() {
                        proof {
                            if acyclic(links@) {
                                lemma_depth_bound(links@, keys@[i as int]);
                                lemma_depth(links@, keys@[i as int]);
                                lemma_ancestor_some_before(
                                    links@,
                                    keys@[i as int],
                                    depth(links@, keys@[i as int]) + 1,
                                    (steps + 1) as nat,
                                );
                            }
                        }
                        return false;
                    }
                    current = next;
                    steps = steps + 1;
                },
                None => {
                    proof {
                        lemma_ancestor_next(links@, keys@[i as int], steps as nat);
                        assert(has_ancestors(links@, keys@[i as int], steps as nat));
                    }
                    ended = true;
                },
            }
        }
    }
    assert forall|entity: EntityId| #[trigger] chain_ends(links@, entity) by {
        if links@.dom().contains(entity) {
            assert(keys@.to_set().contains(entity));
            let k = choose|k: int| 0 <= k < keys@.len() && keys@[k] == entity;
            assert(chain_ends(links@, keys@[k]));
        } else {
            assert(has_ancestors(links@, entity, 0));
        }
    }
    true
}

/// The ancestor after the `n`-th is the `n`-th one's parent.
pub proof fn lemma_ancestor_next(up: Map<EntityId, EntityId>, entity: EntityId, n: nat)
    requires
        ancestor(up, entity, n) is Some,
    ensures
        ancestor(up, entity, n + 1) == (if up.dom().contains(ancestor(up, entity, n)->0) {
            Some(up[ancestor(up, entity, n)->0])
        } else {
            None
        }),
    decreases n,
{
    if n > 0 {
        lemma_ancestor_next(up, up[entity], (n - 1) as nat);
    } else {
        assert(ancestor(up, entity, 1) == if up.dom().contains(entity) {
            ancestor(up, up[entity], 0)
        } else {
            None
        });
    }
}

/// The first strict ancestor of `entity` that is no ghost, if there is one.
pub open spec fn closest(
    up: Map<EntityId, EntityId>,
    ghosts: Set<EntityId>,
    entity: EntityId,
) -> Option<EntityId>
    decreases depth(up, entity),
    when acyclic(up)
{
    if !up.dom().contains(entity) {
        None
    } else if ghosts.contains(up[entity]) {
        proof {
            lemma_depth(up, entity);
        }
        closest(up, ghosts, up[entity])
    } else {
        Some(up[entity])
    }
}

/// The closest ancestor that is no ghost is an ancestor with only ghosts below it; and
/// where there is none, every ancestor is a ghost.
pub proof fn law_closest_is_nearest(
    up: Map<EntityId, EntityId>,
    ghosts: Set<EntityId>,
    entity: EntityId,
)
    requires
        acyclic(up),
    ensures
        match closest(up, ghosts, entity) {
            Some(found) => {
                &&& !ghosts.contains(found)
                &&& exists|n: nat|
                    n > 0 && #[trigger] ancestor(up, entity, n) == Some(found) && (forall|m: nat|
                        0 < m < n ==> (#[trigger] ancestor(up, entity, m) matches Some(a)
                            && ghosts.contains(a)))
            },
            None => forall|n: nat|
                n > 0 ==> (#[trigger] ancestor(up, entity, n) matches Some(a) ==> ghosts.contains(
                    a,
                )),
        },
    decreases depth(up, entity),
{
    lemma_depth(up, entity);
    if up.dom().contains(entity) {
        let p = up[entity];
        assert forall|n: nat| n > 0 implies #[trigger] ancestor(up, entity, n) == ancestor(
            up,
            p,
            (n - 1) as nat,
        ) by {}
        assert(ancestor(up, p, 0) == Some(p));
        if ghosts.contains(p) {
            law_closest_is_nearest(up, ghosts, p);
            match closest(up, ghosts, p) {
                Some(found) => {
                    let n = choose|n: nat|
                        n > 0 && #[trigger] ancestor(up, p, n) == Some(found) && (forall|m: nat|
                            0 < m < n ==> (#[trigger] ancestor(up, p, m) matches Some(a)
                                && ghosts.contains(a)));
                    assert(ancestor(up, entity, n + 1) == Some(found));
                    assert forall|m: nat| 0 < m < n + 1 implies (#[trigger] ancestor(
                        up,
                        entity,
                        m,
                    ) matches Some(a) && ghosts.contains(a)) by {
                        assert(ancestor(up, entity, m) == ancestor(up, p, (m - 1) as nat));
                    }
                },
                None => {
                    assert forall|n: nat| n > 0 implies (#[trigger] ancestor(
                        up,
                        entity,
                        n,
                    ) matches Some(a) ==> ghosts.contains(a)) by {
                        assert(ancestor(up, entity, n) == ancestor(up, p, (n - 1) as nat));
                    }
                },
            }
        } else {
            assert(ancestor(up, entity, 1) == Some(p));
        }
    } else {
        assert forall|n: nat| n > 0 implies #[trigger] ancestor(up, entity, n) is None by {}
    }
}

/// The closest ancestor that is no ghost is less deep.
pub proof fn lemma_closest_depth(
    up: Map<EntityId, EntityId>,
    ghosts: Set<EntityId>,
    entity: EntityId,
)
    requires
        acyclic(up),
    ensures
        closest(up, ghosts, entity) matches Some(found) ==> up.dom().contains(entity) && depth(
            up,
            found,
        ) < depth(up, entity),
    decreases depth(up, entity),
{
    lemma_depth(up, entity);
    if up.dom().contains(entity) && ghosts.contains(up[entity]) {
        lemma_closest_depth(up, ghosts, up[entity]);
    }
}

/// A map whose links all lead to entities that are less deep in `up` has no loops, and
/// its entities are no deeper than in `up`.
pub proof fn lemma_acyclic_by_depth(
    up: Map<EntityId, EntityId>,
    other: Map<EntityId, EntityId>,
)
    requires
        acyclic(up),
        forall|e: EntityId| #[trigger]
            other.dom().contains(e) ==> depth(up, other[e]) < depth(up, e),
    ensures
        acyclic(other),
        forall|e: EntityId| #[trigger] depth(other, e) <= depth(up, e),
{
    assert forall|e: EntityId| #[trigger] chain_ends(other, e) by {
        lemma_chain_by_depth(up, other, e);
    }
    assert forall|e: EntityId| #[trigger] depth(other, e) <= depth(up, e) by {
        lemma_depth_by_depth(up, other, e);
    }
}

proof fn lemma_chain_by_depth(
    up: Map<EntityId, EntityId>,
    other: Map<EntityId, EntityId>,
    entity: EntityId,
)
    requires
        acyclic(up),
        forall|e: EntityId| #[trigger]
            other.dom().contains(e) ==> depth(up, other[e]) < depth(up, e),
    ensures
        chain_ends(other, entity),
    decreases depth(up, entity),
{
    if other.dom().contains(entity) {
        let p = other[entity];
        lemma_chain_by_depth(up, other, p);
        let m = choose|n: nat| has_ancestors(other, p, n);
        assert(ancestor(other, entity, m + 1) == ancestor(other, p, m));
        assert(ancestor(other, entity, (m + 1) + 1) == ancestor(other, p, m + 1));
        assert(has_ancestors(other, entity, m + 1));
    } else {
        assert(has_ancestors(other, entity, 0));
    }
}

proof fn lemma_depth_by_depth(
    up: Map<EntityId, EntityId>,
    other: Map<EntityId, EntityId>,
    entity: EntityId,
)
    requires
        acyclic(up),
        acyclic(other),
        forall|e: EntityId| #[trigger]
            other.dom().contains(e) ==> depth(up, other[e]) < depth(up, e),
    ensures
        depth(other, entity) <= depth(up, entity),
    decreases depth(up, entity),
{
    lemma_depth(other, entity);
    if other.dom().contains(entity) {
        lemma_depth_by_depth(up, other, other[entity]);
    }
}

/// The ancestors of an ancestor are ancestors.
proof fn lemma_ancestor_sum(up: Map<EntityId, EntityId>, entity: EntityId, m: nat, n: nat)
    requires
        ancestor(up, entity, m) is Some,
    ensures
        ancestor(up, entity, m + n) == ancestor(up, ancestor(up, entity, m)->0, n),
    decreases m,
{
    if m > 0 {
        lemma_ancestor_sum(up, up[entity], (m - 1) as nat, n);
    }
}

proof fn lemma_endless_chain(up: Map<EntityId, EntityId>, entity: EntityId, n: nat)
    requires
        !chain_ends(up, entity),
    ensures
        ancestor(up, entity, n) is Some,
    decreases n,
{
    if n > 0 {
        lemma_endless_chain(up, entity, (n - 1) as nat);
        assert(!has_ancestors(up, entity, (n - 1) as nat));
    }
}

/// Among finitely many links, every chain of ancestors ends exactly where no entity is its
/// own ancestor.
pub proof fn law_chains_end_without_loops(up: Map<EntityId, EntityId>)
    requires
        up.dom().finite(),
    ensures
        acyclic(up) <==> forall|entity: EntityId, n: nat|
            n > 0 ==> #[trigger] ancestor(up, entity, n) != Some(entity),
{
    if acyclic(up) {
        assert forall|entity: EntityId, n: nat| n > 0 implies #[trigger] ancestor(up, entity, n)
            != Some(entity) by {
            if ancestor(up, entity, n) is Some {
                lemma_ancestor_depth(up, entity, n);
            }
        }
    }
    if forall|entity: EntityId, n: nat|
        n > 0 ==> #[trigger] ancestor(up, entity, n) != Some(entity) {
        assert forall|entity: EntityId| #[trigger] chain_ends(up, entity) by {
            if !chain_ends(up, entity) {
                let len = up.dom().len() + 1;
                let chain = Seq::new(len, |i: int| ancestor(up, entity, i as nat)->0);
                assert forall|i: int| 0 <= i < len implies #[trigger] up.dom().contains(
                    chain[i],
                ) by {
                    lemma_endless_chain(up, entity, i as nat);
                    lemma_endless_chain(up, entity, (i + 1) as nat);
                    lemma_ancestor_next(up, entity, i as nat);
                }
                assert forall|i: int, j: int| 0 <= i < j < len implies chain[i] != chain[j] by {
                    lemma_endless_chain(up, entity, i as nat);
                    lemma_endless_chain(up, entity, j as nat);
                    lemma_ancestor_sum(up, entity, i as nat, (j - i) as nat);
                    assert(ancestor(up, chain[i], (j - i) as nat) == Some(chain[j]));
                }
                assert(chain.no_duplicates());
                chain.unique_seq_to_set();
                assert(chain.to_set().subset_of(up.dom()));
                vstd::set_lib::lemma_len_subset(chain.to_set(), up.dom());
            }
        }
    }
}

/// The depth of an entity is the number of its ancestors: it has one for every step up to
/// its depth, and none beyond.
pub proof fn law_depth_counts_ancestors(up: Map<EntityId, EntityId>, entity: EntityId, n: nat)
    requires
        acyclic(up),
    ensures
        ancestor(up, entity, n) is Some <==> n <= depth(up, entity),
{
    lemma_depth(up, entity);
    if n <= depth(up, entity) {
        lemma_ancestor_some_before(up, entity, n, depth(up, entity));
    } else if ancestor(up, entity, n) is Some {
        lemma_ancestor_some_before(up, entity, depth(up, entity) + 1, n);
    }
}

} // verus!
