//! Where independent layout roots were last placed.
use crate::entity::{EntityId, EntitySet};
use crate::math::{Affine2, Vec2};
use bevy_ecs::entity::{Entity, EntityHashMap};
use vstd::prelude::*;

verus! {

/// What an independent root was last placed against: its parent's global transform,
/// size and scroll position, and whether an ancestor was hidden. A root none of
/// whose own nodes changed is placed again only when one of these did.
#[derive(Clone, Copy, Debug)]
pub struct IndependentPlacement {
    pub parent_transform: Affine2,
    pub parent_size: Vec2,
    pub parent_scroll: Vec2,
    pub hidden: bool,
}

impl IndependentPlacement {
    /// Whether the two are equal, field by field.
    pub open spec fn equals(self, other: IndependentPlacement) -> bool {
        &&& self.parent_transform.equals(other.parent_transform)
        &&& self.parent_size.equals(other.parent_size)
        &&& self.parent_scroll.equals(other.parent_scroll)
        &&& self.hidden == other.hidden
    }
}

impl PartialEq for IndependentPlacement {
    fn eq(&self, other: &IndependentPlacement) -> (r: bool) {
        self.parent_transform == other.parent_transform && self.parent_size == other.parent_size
            && self.parent_scroll == other.parent_scroll && self.hidden == other.hidden
    }
}

impl vstd::std_specs::cmp::PartialEqSpecImpl for IndependentPlacement {
    open spec fn obeys_eq_spec() -> bool {
        true
    }

    open spec fn eq_spec(&self, other: &IndependentPlacement) -> bool {
        self.equals(*other)
    }
}

/// Placements are equal where every number of the parent's transform, size and scroll
/// position is, and both or neither are hidden.
pub proof fn law_placement_equality(a: IndependentPlacement, b: IndependentPlacement)
    ensures
        a.equals(b) <==> {
            &&& a.parent_transform.x_axis.x.equals(b.parent_transform.x_axis.x)
            &&& a.parent_transform.x_axis.y.equals(b.parent_transform.x_axis.y)
            &&& a.parent_transform.y_axis.x.equals(b.parent_transform.y_axis.x)
            &&& a.parent_transform.y_axis.y.equals(b.parent_transform.y_axis.y)
            &&& a.parent_transform.translation.x.equals(b.parent_transform.translation.x)
            &&& a.parent_transform.translation.y.equals(b.parent_transform.translation.y)
            &&& a.parent_size.x.equals(b.parent_size.x)
            &&& a.parent_size.y.equals(b.parent_size.y)
            &&& a.parent_scroll.x.equals(b.parent_scroll.x)
            &&& a.parent_scroll.y.equals(b.parent_scroll.y)
            &&& a.hidden == b.hidden
        },
{
}

/// The last placement of each independent root that was placed.
#[verifier::external_body]
pub struct Placements {
    map: EntityHashMap<IndependentPlacement>,
}

/// The placements that a map holds.
pub uninterp spec fn placement_contents(placements: Placements) -> Map<
    EntityId,
    IndependentPlacement,
>;

impl View for Placements {
    type V = Map<EntityId, IndependentPlacement>;

    open spec fn view(&self) -> Map<EntityId, IndependentPlacement> {
        placement_contents(*self)
    }
}

impl Placements {
    /// `EntityHashMap::new`: an empty map.
    #[verifier::external_body]
    fn raw_new() -> (r: Placements)
        ensures
            placement_contents(r).dom() == Set::<EntityId>::empty(),
    {
        Placements { map: EntityHashMap::new() }
    }

    /// `HashMap::insert`: sets the placement of `entity`.
    #[verifier::external_body]
    fn raw_insert(&mut self, entity: EntityId, placement: IndependentPlacement)
        ensures
            placement_contents(*final(self)) == placement_contents(*old(self)).insert(
                entity,
                placement,
            ),
    {
        self.map.insert(Entity::from_bits(entity.bits()), placement);
    }

    /// `HashMap::get`: the placement of `entity`, if it has one.
    #[verifier::external_body]
    fn raw_get(&self, entity: EntityId) -> (r: Option<IndependentPlacement>)
        ensures
            r == (if placement_contents(*self).dom().contains(entity) {
                Some(placement_contents(*self)[entity])
            } else {
                None
            }),
    {
        self.map.get(&Entity::from_bits(entity.bits())).copied()
    }

    /// `HashMap::retain`, with a test for membership in `kept`: what is left are the
    /// placements of the entities of that set.
    #[verifier::external_body]
    fn raw_retain(&mut self, kept: &EntitySet)
        ensures
            placement_contents(*final(self)) == placement_contents(*old(self)).restrict(kept@),
    {
        self.map.retain(|entity, _| kept.contains_bits(entity.to_bits()));
    }

    /// `HashMap::remove`: forgets the placement of `entity`.
    #[verifier::external_body]
    fn raw_remove(&mut self, entity: EntityId)
        ensures
            placement_contents(*final(self)) == placement_contents(*old(self)).remove(entity),
    {
        self.map.remove(&Entity::from_bits(entity.bits()));
    }

    /// An empty map.
    pub fn new() -> (r: Placements)
        ensures
            r@ == Map::<EntityId, IndependentPlacement>::empty(),
    {
        Self::raw_new()
    }

    /// Sets the placement of `entity`.
    pub fn insert(&mut self, entity: EntityId, placement: IndependentPlacement)
        ensures
            final(self)@ == old(self)@.insert(entity, placement),
    {
        self.raw_insert(entity, placement)
    }

    /// The placement of `entity`, if it has one.
    pub fn get(&self, entity: EntityId) -> (r: Option<IndependentPlacement>)
        ensures
            r == (if self@.dom().contains(entity) {
                Some(self@[entity])
            } else {
                None
            }),
    {
        self.raw_get(entity)
    }

    /// Forgets the placements of the entities of `list`.
    pub fn remove_all(&mut self, list: &Vec<EntityId>)
        ensures
            final(self)@ == old(self)@.remove_keys(list@.to_set()),
    {
        let ghost start = self@;
        assert(start =~= start.remove_keys(list@.take(0).to_set()));
        for i in 0..list.len()
            invariant
                self@ == start.remove_keys(list@.take(i as int).to_set()),
        {
            self.raw_remove(list[i]);
            proof {
                let seen = list@.take(i as int);
                let next = list@.take(i + 1);
                assert(next =~= seen.push(list@[i as int]));
                assert forall|e: EntityId|
                    next.contains(e) <==> seen.contains(e) || e == list@[i as int] by {
                    if seen.contains(e) {
                        let k = choose|k: int| 0 <= k < seen.len() && seen[k] == e;
                        assert(next[k] == e);
                    }
                    assert(next[i as int] == list@[i as int]);
                }
                assert(self@ =~= start.remove_keys(next.to_set()));
            }
        }
        assert(list@.take(list@.len() as int) =~= list@);
    }

    /// Keeps the placements of the entities of `kept` only.
    pub fn retain(&mut self, kept: &EntitySet)
        ensures
            final(self)@ == old(self)@.restrict(kept@),
    {
        self.raw_retain(kept)
    }
}

} // verus!
