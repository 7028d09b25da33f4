//! Entities, and the sets and maps of entities that the layout works on.
//!
//! The sets and maps are those of `bevy_ecs`; each struct here holds one of them,
//! and its private methods say what the calls into it do.
use bevy_ecs::entity::{Entity, EntityHashMap, EntityHashSet};
use vstd::prelude::*;

verus! {

/// The identity of an entity: the bits of a `bevy_ecs` `Entity`.
#[derive(Clone, Copy, PartialEq, Eq, Structural, Debug)]
pub struct EntityId {
    bits: u64,
}

/// Whether `bits` are the bits of an entity: its index, the low half, is not zero.
pub open spec fn entity_bits(bits: u64) -> bool {
    bits % 0x1_0000_0000 != 0
}

/// `Entity::try_from_bits`: it gives an entity exactly for the bits whose low half
/// is not zero.
#[verifier::external_body]
fn is_entity(bits: u64) -> (r: bool)
    ensures
        r == entity_bits(bits),
{
    Entity::try_from_bits(bits).is_some()
}

impl EntityId {
    #[verifier::type_invariant]
    spec fn inv(self) -> bool {
        entity_bits(self.bits)
    }

    /// The bits of the entity.
    pub closed spec fn spec_bits(self) -> u64 {
        self.bits
    }

    /// The entity with the given bits, if there is one.
    pub fn try_from_bits(bits: u64) -> (r: Option<EntityId>)
        ensures
            entity_bits(bits) ==> r is Some && r->0.spec_bits() == bits,
            !entity_bits(bits) ==> r is None,
    {
        if is_entity(bits) {
            Some(EntityId { bits })
        } else {
            None
        }
    }

    /// The bits of the entity.
    pub fn bits(self) -> (r: u64)
        ensures
            r == self.spec_bits(),
            entity_bits(r),
    {
        proof {
            use_type_invariant(&self);
        }
        self.bits
    }
}

/// Two entities with the same bits are the same entity.
pub proof fn lemma_bits_identify(a: EntityId, b: EntityId)
    requires
        a.spec_bits() == b.spec_bits(),
    ensures
        a == b,
{
}

/// A set of entities.
#[verifier::external_body]
pub struct EntitySet {
    set: EntityHashSet,
}

/// The entities that a set holds.
pub uninterp spec fn set_contents(set: EntitySet) -> Set<EntityId>;

impl View for EntitySet {
    type V = Set<EntityId>;

    open spec fn view(&self) -> Set<EntityId> {
        set_contents(*self)
    }
}

impl EntitySet {
    /// `EntityHashSet::new`: an empty set.
    #[verifier::external_body]
    fn raw_new() -> (r: EntitySet)
        ensures
            set_contents(r) == Set::<EntityId>::empty(),
    {
        EntitySet { set: EntityHashSet::new() }
    }

    /// `HashSet::insert`: adds the entity, and says whether it is new.
    #[verifier::external_body]
    fn raw_insert(&mut self, entity: EntityId) -> (r: bool)
        ensures
            set_contents(*final(self)) == set_contents(*old(self)).insert(entity),
            r == !set_contents(*old(self)).contains(entity),
    {
        self.set.insert(Entity::from_bits(entity.bits))
    }

    /// `HashSet::contains`.
    #[verifier::external_body]
    fn raw_contains(&self, entity: EntityId) -> (r: bool)
        ensures
            r == set_contents(*self).contains(entity),
    {
        self.set.contains(&Entity::from_bits(entity.bits))
    }

    /// `EntityHashSet::iter`: every entity of the set once, in an order that is left
    /// open.
    #[verifier::external_body]
    fn raw_elements(&self) -> (r: Vec<EntityId>)
        ensures
            r@.no_duplicates(),
            r@.to_set() == set_contents(*self),
    {
        self.set.iter().map(|entity| EntityId { bits: entity.to_bits() }).collect()
    }

    /// An empty set.
    pub fn new() -> (r: EntitySet)
        ensures
            r@ == Set::<EntityId>::empty(),
    {
        Self::raw_new()
    }

    /// The set of the entities that `entities` lists.
    pub fn from_list(entities: &Vec<EntityId>) -> (r: EntitySet)
        ensures
            r@ == entities@.to_set(),
    {
        let mut r = Self::raw_new();
        for i in 0..entities.len()
            invariant
                forall|e: EntityId|
                    r@.contains(e) <==> exists|k: int| 0 <= k < i && entities@[k] == e,
        {
            let ghost before = r@;
            r.raw_insert(entities[i]);
            assert forall|e: EntityId| r@.contains(e) implies exists|k: int|
                0 <= k < i + 1 && entities@[k] == e by {
                if e == entities@[i as int] {
                } else {
                    assert(before.contains(e));
                }
            }
        }
        assert(r@ =~= entities@.to_set());
        r
    }

    /// Adds an entity, and says whether it is new.
    pub fn insert(&mut self, entity: EntityId) -> (r: bool)
        ensures
            final(self)@ == old(self)@.insert(entity),
            r == !old(self)@.contains(entity),
    {
        self.raw_insert(entity)
    }

    /// Whether the set holds the entity.
    pub fn contains(&self, entity: EntityId) -> (r: bool)
        ensures
            r == self@.contains(entity),
    {
        self.raw_contains(entity)
    }

    /// Whether the set holds the entity with the given bits.
    pub fn contains_bits(&self, bits: u64) -> (r: bool)
        ensures
            r == (entity_bits(bits) && exists|e: EntityId|
                e.spec_bits() == bits && self@.contains(e)),
    {
        match EntityId::try_from_bits(bits) {
            Some(entity) => {
                let r = self.contains(entity);
                assert forall|e: EntityId| e.spec_bits() == bits && self@.contains(e) implies r by {
                    lemma_bits_identify(e, entity);
                }
                r
            },
            None => false,
        }
    }

    /// The entities of the set, each once.
    pub fn elements(&self) -> (r: Vec<EntityId>)
        ensures
            r@.no_duplicates(),
            r@.to_set() == self@,
    {
        self.raw_elements()
    }
}

/// Whether `entities` are `n` in number.
pub open spec fn has_size(entities: Set<EntityId>, n: nat) -> bool {
    entities.finite() && entities.len() == n
}

/// A map from entities to entities.
#[verifier::external_body]
pub struct EntityLinks {
    map: EntityHashMap<Entity>,
}

/// The links that a map holds.
pub uninterp spec fn link_contents(links: EntityLinks) -> Map<EntityId, EntityId>;

impl View for EntityLinks {
    type V = Map<EntityId, EntityId>;

    open spec fn view(&self) -> Map<EntityId, EntityId> {
        link_contents(*self)
    }
}

impl EntityLinks {
    /// `EntityHashMap::new`: an empty map.
    #[verifier::external_body]
    fn raw_new() -> (r: EntityLinks)
        ensures
            link_contents(r).dom() == Set::<EntityId>::empty(),
    {
        EntityLinks { map: EntityHashMap::new() }
    }

    /// `HashMap::insert`: sets the link from `entity`.
    #[verifier::external_body]
    fn raw_insert(&mut self, entity: EntityId, target: EntityId)
        ensures
            link_contents(*final(self)) == link_contents(*old(self)).insert(entity, target),
    {
        self.map.insert(Entity::from_bits(entity.bits), Entity::from_bits(target.bits));
    }

    /// `HashMap::get`: the link from `entity`, if there is one.
    #[verifier::external_body]
    fn raw_get(&self, entity: EntityId) -> (r: Option<EntityId>)
        ensures
            r == (if link_contents(*self).dom().contains(entity) {
                Some(link_contents(*self)[entity])
            } else {
                None
            }),
    {
        self.map.get(&Entity::from_bits(entity.bits)).map(|e| EntityId { bits: e.to_bits() })
    }

    /// `EntityHashMap::keys`: every linked entity once, in an order that is left open.
    #[verifier::external_body]
    fn raw_keys(&self) -> (r: Vec<EntityId>)
        ensures
            r@.no_duplicates(),
            r@.to_set() == link_contents(*self).dom(),
    {
        self.map.keys().map(|entity| EntityId { bits: entity.to_bits() }).collect()
    }

    /// `HashMap::len`: how many links the map holds.
    #[verifier::external_body]
    fn raw_len(&self) -> (r: usize)
        ensures
            has_size(link_contents(*self).dom(), r as nat),
    {
        self.map.len()
    }

    /// An empty map.
    pub fn new() -> (r: EntityLinks)
        ensures
            r@ == Map::<EntityId, EntityId>::empty(),
    {
        Self::raw_new()
    }

    /// Sets the link from `entity`.
    pub fn insert(&mut self, entity: EntityId, target: EntityId)
        ensures
            final(self)@ == old(self)@.insert(entity, target),
    {
        self.raw_insert(entity, target)
    }

    /// The link from `entity`, if there is one.
    pub fn get(&self, entity: EntityId) -> (r: Option<EntityId>)
        ensures
            r == (if self@.dom().contains(entity) {
                Some(self@[entity])
            } else {
                None
            }),
    {
        self.raw_get(entity)
    }

    /// How many links the map holds.
    pub fn len(&self) -> (r: usize)
        ensures
            self@.dom().finite(),
            r == self@.dom().len(),
    {
        self.raw_len()
    }

    /// The linked entities, each once.
    pub fn keys(&self) -> (r: Vec<EntityId>)
        ensures
            r@.no_duplicates(),
            r@.to_set() == self@.dom(),
    {
        self.raw_keys()
    }
}

/// A map from entities to lists of entities.
#[verifier::external_body]
pub struct ChildLists {
    map: EntityHashMap<Vec<EntityId>>,
}

/// The lists that a map holds.
pub uninterp spec fn list_contents(lists: ChildLists) -> Map<EntityId, Seq<EntityId>>;

impl View for ChildLists {
    type V = Map<EntityId, Seq<EntityId>>;

    open spec fn view(&self) -> Map<EntityId, Seq<EntityId>> {
        list_contents(*self)
    }
}

impl ChildLists {
    /// `EntityHashMap::new`: an empty map.
    #[verifier::external_body]
    fn raw_new() -> (r: ChildLists)
        ensures
            list_contents(r).dom() == Set::<EntityId>::empty(),
    {
        ChildLists { map: EntityHashMap::new() }
    }

    /// `HashMap::insert`: sets the list of `entity`.
    #[verifier::external_body]
    fn raw_insert(&mut self, entity: EntityId, list: Vec<EntityId>)
        ensures
            list_contents(*final(self)) == list_contents(*old(self)).insert(entity, list@),
    {
        self.map.insert(Entity::from_bits(entity.bits), list);
    }

    /// `HashMap::get`: the list of `entity`, if it has one.
    #[verifier::external_body]
    fn raw_get(&self, entity: EntityId) -> (r: Option<&Vec<EntityId>>)
        ensures
            r is Some <==> list_contents(*self).dom().contains(entity),
            r matches Some(list) ==> list@ == list_contents(*self)[entity],
    {
        self.map.get(&Entity::from_bits(entity.bits))
    }

    /// `EntityHashMap::keys`: every entity with a list once, in an order that is left
    /// open.
    #[verifier::external_body]
    fn raw_keys(&self) -> (r: Vec<EntityId>)
        ensures
            r@.no_duplicates(),
            r@.to_set() == list_contents(*self).dom(),
    {
        self.map.keys().map(|entity| EntityId { bits: entity.to_bits() }).collect()
    }

    /// An empty map.
    pub fn new() -> (r: ChildLists)
        ensures
            r@ == Map::<EntityId, Seq<EntityId>>::empty(),
    {
        Self::raw_new()
    }

    /// Sets the list of `entity`.
    pub fn insert(&mut self, entity: EntityId, list: Vec<EntityId>)
        ensures
            final(self)@ == old(self)@.insert(entity, list@),
    {
        self.raw_insert(entity, list)
    }

    /// The entities with a list, each once.
    pub fn keys(&self) -> (r: Vec<EntityId>)
        ensures
            r@.no_duplicates(),
            r@.to_set() == self@.dom(),
    {
        self.raw_keys()
    }

    /// The list of `entity`, if it has one.
    pub fn get(&self, entity: EntityId) -> (r: Option<&Vec<EntityId>>)
        ensures
            r is Some <==> self@.dom().contains(entity),
            r matches Some(list) ==> list@ == self@[entity],
    {
        self.raw_get(entity)
    }
}

} // verus!
