//! The cascades of directional lights: for every light, one for each slice of each view.
use crate::cascade::{
    calculate_cascade, calculate_static_cascade, is_cascade, is_rebuilt, is_static_cascade,
    law_reused_within_coverage, Cascade, Slice, StaticCascade,
};
use crate::entity::EntityId;
use crate::math::Mat4;
use crate::scalar::{law_negated_is_opposite, Scalar};
use crate::shadow_config::{CascadeShadowConfig, SliceBounds};
use bevy_ecs::entity::{Entity, EntityHashMap};
use vstd::prelude::*;

verus! {

/// A map from views to their cascades.
#[verifier::external_body]
pub struct CascadeMap {
    map: EntityHashMap<Vec<Cascade>>,
}

/// The cascades that a map holds.
pub uninterp spec fn cascade_contents(cascades: CascadeMap) -> Map<EntityId, Seq<Cascade>>;

impl View for CascadeMap {
    type V = Map<EntityId, Seq<Cascade>>;

    open spec fn view(&self) -> Map<EntityId, Seq<Cascade>> {
        cascade_contents(*self)
    }
}

impl CascadeMap {
    /// `EntityHashMap::new`: an empty map.
    #[verifier::external_body]
    fn raw_new() -> (r: CascadeMap)
        ensures
            cascade_contents(r).dom() == Set::<EntityId>::empty(),
    {
        CascadeMap { map: EntityHashMap::new() }
    }

    /// `HashMap::clear`: removes everything.
    #[verifier::external_body]
    fn raw_clear(&mut self)
        ensures
            cascade_contents(*final(self)).dom() == Set::<EntityId>::empty(),
    {
        self.map.clear();
    }

    /// `HashMap::insert`: sets the cascades of `view`.
    #[verifier::external_body]
    fn raw_insert(&mut self, view: EntityId, cascades: Vec<Cascade>)
        ensures
            cascade_contents(*final(self)) == cascade_contents(*old(self)).insert(view, cascades@),
    {
        self.map.insert(Entity::from_bits(view.bits()), cascades);
    }

    /// `HashMap::get`: the cascades of `view`, if it has any.
    #[verifier::external_body]
    fn raw_get(&self, view: EntityId) -> (r: Option<&Vec<Cascade>>)
        ensures
            r is Some <==> cascade_contents(*self).dom().contains(view),
            r matches Some(list) ==> list@ == cascade_contents(*self)[view],
    {
        self.map.get(&Entity::from_bits(view.bits()))
    }

    /// An empty map.
    pub fn new() -> (r: CascadeMap)
        ensures
            r@ == Map::<EntityId, Seq<Cascade>>::empty(),
    {
        Self::raw_new()
    }

    /// Removes everything.
    pub fn clear(&mut self)
        ensures
            final(self)@ == Map::<EntityId, Seq<Cascade>>::empty(),
    {
        self.raw_clear()
    }

    /// Sets the cascades of `view`.
    pub fn insert(&mut self, view: EntityId, cascades: Vec<Cascade>)
        ensures
            final(self)@ == old(self)@.insert(view, cascades@),
    {
        self.raw_insert(view, cascades)
    }

    /// The cascades of `view`, if it has any.
    pub fn get(&self, view: EntityId) -> (r: Option<&Vec<Cascade>>)
        ensures
            r is Some <==> self@.dom().contains(view),
            r matches Some(list) ==> list@ == self@[view],
    {
        self.raw_get(view)
    }
}

/// A map from views to their static cascades.
#[verifier::external_body]
pub struct StaticCascadeMap {
    map: EntityHashMap<Vec<StaticCascade>>,
}

/// The static cascades that a map holds.
pub uninterp spec fn static_contents(cascades: StaticCascadeMap) -> Map<
    EntityId,
    Seq<StaticCascade>,
>;

impl View for StaticCascadeMap {
    type V = Map<EntityId, Seq<StaticCascade>>;

    open spec fn view(&self) -> Map<EntityId, Seq<StaticCascade>> {
        static_contents(*self)
    }
}

impl StaticCascadeMap {
    /// `EntityHashMap::new`: an empty map.
    #[verifier::external_body]
    fn raw_new() -> (r: StaticCascadeMap)
        ensures
            static_contents(r).dom() == Set::<EntityId>::empty(),
    {
        StaticCascadeMap { map: EntityHashMap::new() }
    }

    /// `HashMap::insert`: sets the static cascades of `view`.
    #[verifier::external_body]
    fn raw_insert(&mut self, view: EntityId, cascades: Vec<StaticCascade>)
        ensures
            static_contents(*final(self)) == static_contents(*old(self)).insert(view, cascades@),
    {
        self.map.insert(Entity::from_bits(view.bits()), cascades);
    }

    /// `HashMap::get`: the static cascades of `view`, if it has any.
    #[verifier::external_body]
    fn raw_get(&self, view: EntityId) -> (r: Option<&Vec<StaticCascade>>)
        ensures
            r is Some <==> static_contents(*self).dom().contains(view),
            r matches Some(list) ==> list@ == static_contents(*self)[view],
    {
        self.map.get(&Entity::from_bits(view.bits()))
    }

    /// An empty map.
    pub fn new() -> (r: StaticCascadeMap)
        ensures
            r@ == Map::<EntityId, Seq<StaticCascade>>::empty(),
    {
        Self::raw_new()
    }

    /// Sets the static cascades of `view`.
    pub fn insert(&mut self, view: EntityId, cascades: Vec<StaticCascade>)
        ensures
            final(self)@ == old(self)@.insert(view, cascades@),
    {
        self.raw_insert(view, cascades)
    }

    /// The static cascades of `view`, if it has any.
    pub fn get(&self, view: EntityId) -> (r: Option<&Vec<StaticCascade>>)
        ensures
            r is Some <==> self@.dom().contains(view),
            r matches Some(list) ==> list@ == self@[view],
    {
        self.raw_get(view)
    }

    /// Empties the map, and gives back what it held.
    pub fn take(&mut self) -> (r: StaticCascadeMap)
        ensures
            r@ == old(self)@,
            final(self)@ == Map::<EntityId, Seq<StaticCascade>>::empty(),
    {
        let mut r = StaticCascadeMap::new();
        core::mem::swap(&mut r, self);
        r
    }
}

/// A directional light's per-view list of [`Cascade`]s.
pub struct Cascades {
    /// Map from a view to the configuration of each of its [`Cascade`]s.
    pub cascades: CascadeMap,
}

impl Default for Cascades {
    /// No cascades.
    fn default() -> (r: Cascades)
        ensures
            r.cascades@ == Map::<EntityId, Seq<Cascade>>::empty(),
    {
        Cascades { cascades: CascadeMap::new() }
    }
}

/// A directional light's per-view list of retained [`StaticCascade`]s, persisted across
/// frames (unlike [`Cascades`], which is cleared and rebuilt every frame).
pub struct StaticCascades {
    /// Map from a view to the retained static cascade of each of its cascades.
    pub cascades: StaticCascadeMap,
}

impl Default for StaticCascades {
    /// No static cascades.
    fn default() -> (r: StaticCascades)
        ensures
            r.cascades@ == Map::<EntityId, Seq<StaticCascade>>::empty(),
    {
        StaticCascades { cascades: StaticCascadeMap::new() }
    }
}

/// A camera that shadows may be drawn for.
#[derive(Clone, Copy, Debug)]
pub struct ViewRow {
    pub entity: EntityId,
    /// Whether the camera is active.
    pub active: bool,
}

/// A directional light.
pub struct LightRow {
    /// Whether it casts shadows.
    pub shadow_maps_enabled: bool,
    /// Its rotation.
    pub world_from_light: Mat4,
    pub config: CascadeShadowConfig,
    pub cascades: Cascades,
    pub static_cascades: StaticCascades,
}

/// The arithmetic that cascades are built with.
pub struct CascadeMath<M, O, L, P> {
    /// The measures of a slice, for the index of a light, the index of a view, and the
    /// distances along the axis that the camera looks against.
    pub measure: M,
    /// Draws a bound in by an overlap proportion.
    pub overlapped: O,
    /// Whether two light bases have the same direction.
    pub same_light: L,
    /// Multiplies matrices.
    pub product: P,
}

impl<
    M: Fn(usize, usize, Scalar, Scalar) -> Slice,
    O: Fn(Scalar, Scalar) -> Scalar,
    L: Fn(Mat4, Mat4) -> bool,
    P: Fn(Mat4, Mat4) -> Mat4,
> CascadeMath<M, O, L, P> {
    /// Whether everything can be computed for one view of one light.
    pub open spec fn computes_for(self, light: usize, view: usize) -> bool {
        &&& forall|a: Scalar, b: Scalar| call_requires(self.measure, (light, view, a, b))
        &&& forall|a: Scalar, b: Scalar| call_requires(self.overlapped, (a, b))
        &&& forall|a: Mat4, b: Mat4| call_requires(self.same_light, (a, b))
        &&& forall|a: Mat4, b: Mat4| call_requires(self.product, (a, b))
    }

    /// Whether everything can be computed for so many lights and views.
    pub open spec fn computes(self, lights: nat, views: nat) -> bool {
        forall|l: usize, v: usize| l < lights && v < views ==> #[trigger] self.computes_for(l, v)
    }

    /// Whether `cascade` and `retained` are what the `i`-th slice of a view has, where
    /// `previous` are the static cascades that the view had.
    pub open spec fn slice_built(
        self,
        light: usize,
        view: usize,
        config: CascadeShadowConfig,
        world_from_light: Mat4,
        previous: Option<Seq<StaticCascade>>,
        i: int,
        cascade: Cascade,
        retained: StaticCascade,
    ) -> bool {
        exists|near: Scalar, slice: Slice|
            {
                &&& config.is_near(self.overlapped, i, near)
                &&& #[trigger] call_ensures(
                    self.measure,
                    (light, view, near.negated(), config.bounds@[i].negated()),
                    slice,
                )
                &&& is_cascade(slice.dynamic, world_from_light, self.product, cascade)
                &&& is_static_cascade(
                    slice,
                    world_from_light,
                    previous_at(previous, i),
                    self.same_light,
                    self.product,
                    retained,
                )
            }
    }

    /// Whether `cascades` and `retained` are what a view has, one of each for each slice.
    pub open spec fn view_built(
        self,
        light: usize,
        view: usize,
        config: CascadeShadowConfig,
        world_from_light: Mat4,
        previous: Option<Seq<StaticCascade>>,
        cascades: Seq<Cascade>,
        retained: Seq<StaticCascade>,
    ) -> bool {
        &&& cascades.len() == config.bounds@.len()
        &&& retained.len() == config.bounds@.len()
        &&& forall|i: int|
            0 <= i < cascades.len() ==> self.slice_built(
                light,
                view,
                config,
                world_from_light,
                previous,
                i,
                #[trigger] cascades[i],
                retained[i],
            )
    }

    /// The cascades of one view, dynamic and retained.
    fn build_view(
        &self,
        light: usize,
        view: usize,
        config: &CascadeShadowConfig,
        world_from_light: Mat4,
        previous: Option<&Vec<StaticCascade>>,
    ) -> (r: (Vec<Cascade>, Vec<StaticCascade>))
        requires
            self.computes_for(light, view),
        ensures
            self.view_built(
                light,
                view,
                *config,
                world_from_light,
                list_view(previous),
                r.0@,
                r.1@,
            ),
    {
        let bounds = config.slices(&self.overlapped);
        let mut cascades: Vec<Cascade> = Vec::new();
        let mut retained: Vec<StaticCascade> = Vec::new();
        for i in 0..bounds.len()
            invariant
                self.computes_for(light, view),
                bounds@.len() == config.bounds@.len(),
                forall|k: int|
                    0 <= k < bounds@.len() ==> (#[trigger] bounds@[k]).far == config.bounds@[k]
                        && config.is_near(self.overlapped, k, bounds@[k].near),
                cascades@.len() == i,
                retained@.len() == i,
                forall|k: int|
                    0 <= k < i ==> self.slice_built(
                        light,
                        view,
                        *config,
                        world_from_light,
                        list_view(previous),
                        k,
                        #[trigger] cascades@[k],
                        retained@[k],
                    ),
        {
            let SliceBounds { near, far } = bounds[i];
            let slice = (self.measure)(light, view, near.negate(), far.negate());
            let last = match previous {
                Some(list) => if i < list.len() {
                    Some(list[i])
                } else {
                    None
                },
                None => None,
            };
            assert(last == previous_at(list_view(previous), i as int));
            let fixed = calculate_static_cascade(
                slice,
                world_from_light,
                last,
                &self.same_light,
                &self.product,
            );
            let cascade = calculate_cascade(slice.dynamic, world_from_light, &self.product);
            assert(bounds@[i as int].far == far);
            assert(self.slice_built(
                light,
                view,
                *config,
                world_from_light,
                list_view(previous),
                i as int,
                cascade,
                fixed,
            ));
            retained.push(fixed);
            cascades.push(cascade);
        }
        (cascades, retained)
    }
}

/// The views that are active.
pub open spec fn active_views(views: Seq<ViewRow>) -> Set<EntityId> {
    Set::new(
        |e: EntityId|
            exists|k: int| 0 <= k < views.len() && (#[trigger] views[k]).active && views[k].entity
                == e,
    )
}

/// Whether the `k`-th view is active, and none after it is the same.
pub open spec fn last_active(views: Seq<ViewRow>, k: int) -> bool {
    &&& 0 <= k < views.len()
    &&& views[k].active
    &&& forall|j: int|
        k < j < views.len() && (#[trigger] views[j]).active ==> views[j].entity != views[k].entity
}

/// The static cascades that a view had.
pub open spec fn previous_of(
    previous: Map<EntityId, Seq<StaticCascade>>,
    view: EntityId,
) -> Option<Seq<StaticCascade>> {
    if previous.dom().contains(view) {
        Some(previous[view])
    } else {
        None
    }
}

impl<
    M: Fn(usize, usize, Scalar, Scalar) -> Slice,
    O: Fn(Scalar, Scalar) -> Scalar,
    L: Fn(Mat4, Mat4) -> bool,
    P: Fn(Mat4, Mat4) -> Mat4,
> CascadeMath<M, O, L, P> {
    /// Whether `cascades` and `retained` are what a light has for `views`, where
    /// `previous` are the static cascades that it had: the active views have what was
    /// built for them, and no others have any.
    pub open spec fn views_built(
        self,
        light: usize,
        views: Seq<ViewRow>,
        config: CascadeShadowConfig,
        world_from_light: Mat4,
        previous: Map<EntityId, Seq<StaticCascade>>,
        cascades: Map<EntityId, Seq<Cascade>>,
        retained: Map<EntityId, Seq<StaticCascade>>,
    ) -> bool {
        &&& cascades.dom() == active_views(views)
        &&& retained.dom() == active_views(views)
        &&& forall|k: usize| #[trigger]
            last_active(views, k as int) ==> self.view_built(
                light,
                k,
                config,
                world_from_light,
                previous_of(previous, views[k as int].entity),
                cascades[views[k as int].entity],
                retained[views[k as int].entity],
            )
    }

    /// Whether `after` is the light `before` with its cascades built. A light that casts
    /// no shadows keeps what it has.
    pub open spec fn light_built(
        self,
        light: usize,
        views: Seq<ViewRow>,
        before: LightRow,
        after: LightRow,
    ) -> bool {
        &&& after.shadow_maps_enabled == before.shadow_maps_enabled
        &&& after.world_from_light == before.world_from_light
        &&& after.config == before.config
        &&& if before.shadow_maps_enabled {
            self.views_built(
                light,
                views,
                before.config,
                before.world_from_light,
                before.static_cascades.cascades@,
                after.cascades.cascades@,
                after.static_cascades.cascades@,
            )
        } else {
            after == before
        }
    }

    /// Builds the cascades of one light.
    fn build_light(&self, light: usize, views: &Vec<ViewRow>, row: &mut LightRow)
        requires
            forall|v: usize| v < views@.len() ==> #[trigger] self.computes_for(light, v),
        ensures
            self.light_built(light, views@, *old(row), *final(row)),
    {
        if !row.shadow_maps_enabled {
            return;
        }
        row.cascades.cascades.clear();
        let previous = row.static_cascades.cascades.take();
        assert(active_views(views@.take(0)) =~= Set::<EntityId>::empty());
        for v in 0..views.len()
            invariant
                forall|k: usize| k < views@.len() ==> #[trigger] self.computes_for(light, k),
                row.shadow_maps_enabled == old(row).shadow_maps_enabled,
                row.config == old(row).config,
                row.world_from_light == old(row).world_from_light,
                previous@ == old(row).static_cascades.cascades@,
                self.views_built(
                    light,
                    views@.take(v as int),
                    row.config,
                    row.world_from_light,
                    previous@,
                    row.cascades.cascades@,
                    row.static_cascades.cascades@,
                ),
        {
            let view = views[v];
            let ghost seen = views@.take(v as int);
            let ghost next = views@.take(v + 1);
            let ghost cascades = row.cascades.cascades@;
            let ghost retained = row.static_cascades.cascades@;
            proof {
                lemma_active_step(views@, v as int);
            }
            if view.active {
                let last = previous.get(view.entity);
                assert(list_view(last) == previous_of(previous@, view.entity));
                let (built, fixed) = self.build_view(
                    light,
                    v,
                    &row.config,
                    row.world_from_light,
                    last,
                );
                row.cascades.cascades.insert(view.entity, built);
                row.static_cascades.cascades.insert(view.entity, fixed);
            }
            assert forall|k: usize| #[trigger] last_active(next, k as int) implies self.view_built(
                light,
                k,
                row.config,
                row.world_from_light,
                previous_of(previous@, next[k as int].entity),
                row.cascades.cascades@[next[k as int].entity],
                row.static_cascades.cascades@[next[k as int].entity],
            ) by {
                if k < v {
                    assert(next[k as int] == seen[k as int]);
                    assert forall|j: int| k < j < seen.len() && (#[trigger] seen[j]).active implies
                        seen[j].entity != seen[k as int].entity by {
                        assert(next[j] == seen[j]);
                    }
                    assert(last_active(seen, k as int));
                    assert(next[v as int] == view);
                }
            }
        }
        assert(views@.take(views@.len() as int) =~= views@);
    }
}

proof fn lemma_active_step(views: Seq<ViewRow>, n: int)
    requires
        0 <= n < views.len(),
    ensures
        active_views(views.take(n + 1)) == (if views[n].active {
            active_views(views.take(n)).insert(views[n].entity)
        } else {
            active_views(views.take(n))
        }),
{
    let seen = views.take(n);
    let next = views.take(n + 1);
    assert forall|e: EntityId| active_views(next).contains(e) <==> (active_views(seen).contains(e)
        || (views[n].active && views[n].entity == e)) by {
        if active_views(seen).contains(e) {
            let k = choose|k: int|
                0 <= k < seen.len() && (#[trigger] seen[k]).active && seen[k].entity == e;
            assert(next[k] == seen[k]);
        }
        if active_views(next).contains(e) {
            let k = choose|k: int|
                0 <= k < next.len() && (#[trigger] next[k]).active && next[k].entity == e;
            if k < n {
                assert(seen[k] == next[k]);
            }
        }
        assert(next[n] == views[n]);
    }
    assert(active_views(next) =~= (if views[n].active {
        active_views(seen).insert(views[n].entity)
    } else {
        active_views(seen)
    }));
}

/// Sets up [`Cascades`] for all shadow mapped directional lights.
///
/// For every light that casts shadows, every active view gets a cascade and a retained
/// static cascade for each slice; the static ones are reused where they still fit. Views
/// that vanished drop out.
pub fn build_directional_light_cascades<
    M: Fn(usize, usize, Scalar, Scalar) -> Slice,
    O: Fn(Scalar, Scalar) -> Scalar,
    L: Fn(Mat4, Mat4) -> bool,
    P: Fn(Mat4, Mat4) -> Mat4,
>(views: &Vec<ViewRow>, lights: &mut Vec<LightRow>, math: &CascadeMath<M, O, L, P>)
    requires
        math.computes(old(lights)@.len(), views@.len()),
    ensures
        final(lights)@.len() == old(lights)@.len(),
        forall|i: usize|
            i < final(lights)@.len() ==> math.light_built(
                i,
                views@,
                old(lights)@[i as int],
                #[trigger] final(lights)@[i as int],
            ),
{
    let ghost before = lights@;
    let count: usize = lights.len();
    for i in 0..count
        invariant
            math.computes(before.len(), views@.len()),
            before == old(lights)@,
            lights@.len() == before.len(),
            count == before.len(),
            forall|k: usize|
                k < i ==> math.light_built(
                    k,
                    views@,
                    before[k as int],
                    #[trigger] lights@[k as int],
                ),
            forall|k: int| i <= k < lights@.len() ==> lights@[k] == before[k],
    {
        math.build_light(i, views, &mut lights[i]);
    }
}

proof fn lemma_last_active_exists(views: Seq<ViewRow>, k: int) -> (last: int)
    requires
        0 <= k < views.len(),
        views[k].active,
    ensures
        last_active(views, last),
        views[last].entity == views[k].entity,
    decreases views.len() - k,
{
    if exists|j: int|
        k < j < views.len() && (#[trigger] views[j]).active && views[j].entity == views[k].entity {
        let j = choose|j: int|
            k < j < views.len() && (#[trigger] views[j]).active && views[j].entity
                == views[k].entity;
        lemma_last_active_exists(views, j)
    } else {
        k
    }
}

/// After the cascades of a light that casts shadows are built, the active views have as
/// many dynamic and static cascades as there are bounds, and the views that vanished, or
/// are not active, have none.
pub proof fn law_active_views_have_cascades<
    M: Fn(usize, usize, Scalar, Scalar) -> Slice,
    O: Fn(Scalar, Scalar) -> Scalar,
    L: Fn(Mat4, Mat4) -> bool,
    P: Fn(Mat4, Mat4) -> Mat4,
>(
    math: CascadeMath<M, O, L, P>,
    light: usize,
    views: Seq<ViewRow>,
    before: LightRow,
    after: LightRow,
    view: EntityId,
)
    requires
        views.len() <= usize::MAX,
        before.shadow_maps_enabled,
        math.light_built(light, views, before, after),
    ensures
        after.cascades.cascades@.dom().contains(view) <==> active_views(views).contains(view),
        after.static_cascades.cascades@.dom().contains(view) <==> active_views(views).contains(
            view,
        ),
        active_views(views).contains(view) ==> {
            &&& after.cascades.cascades@[view].len() == before.config.bounds@.len()
            &&& after.static_cascades.cascades@[view].len() == before.config.bounds@.len()
        },
{
    if active_views(views).contains(view) {
        let k = choose|k: int|
            0 <= k < views.len() && (#[trigger] views[k]).active && views[k].entity == view;
        let last = lemma_last_active_exists(views, k);
        assert(last_active(views, (last as usize) as int));
    }
}

/// A light that casts shadows has cascades, dynamic and static, for exactly the views that
/// are active, and one that casts none keeps what it has; and nothing else of it changes.
pub proof fn law_lights_have_cascades_for_active_views<
    M: Fn(usize, usize, Scalar, Scalar) -> Slice,
    O: Fn(Scalar, Scalar) -> Scalar,
    L: Fn(Mat4, Mat4) -> bool,
    P: Fn(Mat4, Mat4) -> Mat4,
>(
    math: CascadeMath<M, O, L, P>,
    light: usize,
    views: Seq<ViewRow>,
    before: LightRow,
    after: LightRow,
    view: EntityId,
)
    requires
        math.light_built(light, views, before, after),
    ensures
        after.shadow_maps_enabled == before.shadow_maps_enabled,
        after.world_from_light == before.world_from_light,
        after.config == before.config,
        before.shadow_maps_enabled ==> {
            let active = exists|k: int|
                0 <= k < views.len() && (#[trigger] views[k]).active && views[k].entity == view;
            &&& after.cascades.cascades@.dom().contains(view) == active
            &&& after.static_cascades.cascades@.dom().contains(view) == active
        },
        !before.shadow_maps_enabled ==> {
            &&& after.cascades.cascades@ == before.cascades.cascades@
            &&& after.static_cascades.cascades@ == before.static_cascades.cascades@
        },
{
}

/// Each slice of an active view is measured between its near and its far bound, seen
/// against the axis that the camera looks along: the near bound is the minimum distance
/// for the first slice, and the far bound of the slice before, drawn in by the overlap,
/// for the others. The cascade of the slice is that of the measures, and the static one is
/// kept or built from what the slice had.
pub proof fn law_each_slice_has_its_cascade<
    M: Fn(usize, usize, Scalar, Scalar) -> Slice,
    O: Fn(Scalar, Scalar) -> Scalar,
    L: Fn(Mat4, Mat4) -> bool,
    P: Fn(Mat4, Mat4) -> Mat4,
>(
    math: CascadeMath<M, O, L, P>,
    light: usize,
    views: Seq<ViewRow>,
    before: LightRow,
    after: LightRow,
    k: usize,
    i: int,
)
    requires
        math.light_built(light, views, before, after),
        before.shadow_maps_enabled,
        k < views.len(),
        views[k as int].active,
        forall|j: int|
            k < j < views.len() && (#[trigger] views[j]).active ==> views[j].entity
                != views[k as int].entity,
        0 <= i < before.config.bounds@.len(),
    ensures
        ({
            let view = views[k as int].entity;
            let old = before.static_cascades.cascades@;
            let had = if old.dom().contains(view) && i < old[view].len() {
                Some(old[view][i])
            } else {
                None
            };
            let cascades = after.cascades.cascades@[view];
            let retained = after.static_cascades.cascades@[view];
            &&& cascades.len() == before.config.bounds@.len()
            &&& retained.len() == before.config.bounds@.len()
            &&& exists|near: Scalar, a: Scalar, b: Scalar, slice: Slice|
                {
                    &&& i == 0 ==> near == before.config.minimum_distance
                    &&& i > 0 ==> #[trigger] call_ensures(
                        math.overlapped,
                        (before.config.overlap_proportion, before.config.bounds@[i - 1]),
                        near,
                    )
                    &&& a.negated() == near
                    &&& b.negated() == before.config.bounds@[i]
                    &&& a.units() == -near.units()
                    &&& b.units() == -before.config.bounds@[i].units()
                    &&& #[trigger] call_ensures(math.measure, (light, k, a, b), slice)
                    &&& is_cascade(
                        slice.dynamic,
                        before.world_from_light,
                        math.product,
                        cascades[i],
                    )
                    &&& is_static_cascade(
                        slice,
                        before.world_from_light,
                        had,
                        math.same_light,
                        math.product,
                        retained[i],
                    )
                }
        }),
{
    let view = views[k as int].entity;
    let old = before.static_cascades.cascades@;
    assert(last_active(views, k as int));
    let cascades = after.cascades.cascades@[view];
    let retained = after.static_cascades.cascades@[view];
    let previous = previous_of(old, view);
    assert(math.slice_built(
        light,
        k,
        before.config,
        before.world_from_light,
        previous,
        i,
        cascades[i],
        retained[i],
    ));
    let (near, slice) = choose|near: Scalar, slice: Slice|
        {
            &&& before.config.is_near(math.overlapped, i, near)
            &&& #[trigger] call_ensures(
                math.measure,
                (light, k, near.negated(), before.config.bounds@[i].negated()),
                slice,
            )
            &&& is_cascade(slice.dynamic, before.world_from_light, math.product, cascades[i])
            &&& is_static_cascade(
                slice,
                before.world_from_light,
                previous_at(previous, i),
                math.same_light,
                math.product,
                retained[i],
            )
        };
    law_negated_is_opposite(near);
    law_negated_is_opposite(before.config.bounds@[i]);
    let a = near.negated();
    let b = before.config.bounds@[i].negated();
    let same = call_ensures(
        math.overlapped,
        (before.config.overlap_proportion, before.config.bounds@[i - 1]),
        near,
    );
    assert(i > 0 ==> same);
    assert(call_ensures(math.measure, (light, k, a, b), slice));
}

/// Whether every measure that a slice of a view can have is covered by the static
/// cascade that the view has for it.
pub open spec fn stays_covered<
    M: Fn(usize, usize, Scalar, Scalar) -> Slice,
    O: Fn(Scalar, Scalar) -> Scalar,
    L: Fn(Mat4, Mat4) -> bool,
    P: Fn(Mat4, Mat4) -> Mat4,
>(
    math: CascadeMath<M, O, L, P>,
    light: usize,
    k: usize,
    config: CascadeShadowConfig,
    retained: Seq<StaticCascade>,
) -> bool {
    &&& retained.len() == config.bounds@.len()
    &&& forall|i: int, near: Scalar, slice: Slice|
        0 <= i < retained.len() && config.is_near(math.overlapped, i, near)
            && #[trigger] call_ensures(
            math.measure,
            (light, k, near.negated(), config.bounds@[i].negated()),
            slice,
        ) ==> (#[trigger] retained[i]).holds(slice.coverage)
}

/// While a view stays inside the coverage of its static cascades and the light keeps its
/// direction, they are kept, and nothing is baked again.
pub proof fn law_still_view_bakes_nothing<
    M: Fn(usize, usize, Scalar, Scalar) -> Slice,
    O: Fn(Scalar, Scalar) -> Scalar,
    L: Fn(Mat4, Mat4) -> bool,
    P: Fn(Mat4, Mat4) -> Mat4,
>(
    math: CascadeMath<M, O, L, P>,
    light: usize,
    views: Seq<ViewRow>,
    before: LightRow,
    after: LightRow,
    k: usize,
)
    requires
        before.shadow_maps_enabled,
        math.light_built(light, views, before, after),
        last_active(views, k as int),
        before.static_cascades.cascades@.dom().contains(views[k as int].entity),
        stays_covered(
            math,
            light,
            k,
            before.config,
            before.static_cascades.cascades@[views[k as int].entity],
        ),
        forall|i: int, same: bool|
            0 <= i < before.static_cascades.cascades@[views[k as int].entity].len()
                && #[trigger] call_ensures(
                math.same_light,
                (
                    before.static_cascades.cascades@[views[k as int].entity][i].world_from_light,
                    before.world_from_light,
                ),
                same,
            ) ==> same,
    ensures
        ({
            let view = views[k as int].entity;
            after.static_cascades.cascades@[view]
                == before.static_cascades.cascades@[view].map_values(
                |cascade: StaticCascade| cascade.reused(),
            )
        }),
{
    let view = views[k as int].entity;
    let old_list = before.static_cascades.cascades@[view];
    let new_list = after.static_cascades.cascades@[view];
    let cascades = after.cascades.cascades@[view];
    assert forall|i: int| 0 <= i < new_list.len() implies new_list[i] == old_list[i].reused() by {
        assert(math.slice_built(
            light,
            k,
            before.config,
            before.world_from_light,
            Some(old_list),
            i,
            cascades[i],
            new_list[i],
        ));
        let (near, slice) = choose|near: Scalar, slice: Slice|
            {
                &&& before.config.is_near(math.overlapped, i, near)
                &&& #[trigger] call_ensures(
                    math.measure,
                    (light, k, near.negated(), before.config.bounds@[i].negated()),
                    slice,
                )
                &&& is_cascade(slice.dynamic, before.world_from_light, math.product, cascades[i])
                &&& is_static_cascade(
                    slice,
                    before.world_from_light,
                    previous_at(Some(old_list), i),
                    math.same_light,
                    math.product,
                    new_list[i],
                )
            };
        assert(old_list[i].holds(slice.coverage));
        law_reused_within_coverage(
            slice,
            before.world_from_light,
            old_list[i],
            math.same_light,
            math.product,
            new_list[i],
        );
    }
    assert(new_list =~= old_list.map_values(|cascade: StaticCascade| cascade.reused()));
}

impl<
    M: Fn(usize, usize, Scalar, Scalar) -> Slice,
    O: Fn(Scalar, Scalar) -> Scalar,
    L: Fn(Mat4, Mat4) -> bool,
    P: Fn(Mat4, Mat4) -> Mat4,
> CascadeMath<M, O, L, P> {
    /// Whether the same arguments always give the same result.
    pub open spec fn functional(self) -> bool {
        &&& forall|l: usize, v: usize, a: Scalar, b: Scalar, r: Slice, s: Slice|
            #![trigger
                call_ensures(self.measure, (l, v, a, b), r),
                call_ensures(self.measure, (l, v, a, b), s)
            ]
            call_ensures(self.measure, (l, v, a, b), r) && call_ensures(
                self.measure,
                (l, v, a, b),
                s,
            ) ==> r == s
        &&& forall|a: Scalar, b: Scalar, r: Scalar, s: Scalar|
            #![trigger
                call_ensures(self.overlapped, (a, b), r),
                call_ensures(self.overlapped, (a, b), s)
            ]
            call_ensures(self.overlapped, (a, b), r) && call_ensures(self.overlapped, (a, b), s)
                ==> r == s
        &&& forall|a: Mat4, b: Mat4, r: bool, s: bool|
            #![trigger
                call_ensures(self.same_light, (a, b), r),
                call_ensures(self.same_light, (a, b), s)
            ]
            call_ensures(self.same_light, (a, b), r) && call_ensures(self.same_light, (a, b), s)
                ==> r == s
        &&& forall|a: Mat4, b: Mat4, r: Mat4, s: Mat4|
            #![trigger
                call_ensures(self.product, (a, b), r),
                call_ensures(self.product, (a, b), s)
            ]
            call_ensures(self.product, (a, b), r) && call_ensures(self.product, (a, b), s) ==> r
                == s
    }

    proof fn lemma_slices_agree(
        self,
        light: usize,
        view: usize,
        config: CascadeShadowConfig,
        other: CascadeShadowConfig,
        world_from_light: Mat4,
        previous: Option<Seq<StaticCascade>>,
        later: Option<Seq<StaticCascade>>,
        i: int,
        first: (Cascade, StaticCascade),
        second: (Cascade, StaticCascade),
    ) -> (slice: Slice)
        requires
            self.functional(),
            same_config(config, other),
            0 <= i,
            self.slice_built(
                light,
                view,
                config,
                world_from_light,
                previous,
                i,
                first.0,
                first.1,
            ),
            self.slice_built(light, view, other, world_from_light, later, i, second.0, second.1),
        ensures
            first.0 == second.0,
            exists|near: Scalar|
                {
                    &&& config.is_near(self.overlapped, i, near)
                    &&& #[trigger] call_ensures(
                        self.measure,
                        (light, view, near.negated(), config.bounds@[i].negated()),
                        slice,
                    )
                },
            is_static_cascade(
                slice,
                world_from_light,
                previous_at(previous, i),
                self.same_light,
                self.product,
                first.1,
            ),
            is_static_cascade(
                slice,
                world_from_light,
                previous_at(later, i),
                self.same_light,
                self.product,
                second.1,
            ),
    {
        let (near, slice) = choose|near: Scalar, slice: Slice|
            {
                &&& config.is_near(self.overlapped, i, near)
                &&& #[trigger] call_ensures(
                    self.measure,
                    (light, view, near.negated(), config.bounds@[i].negated()),
                    slice,
                )
                &&& is_cascade(slice.dynamic, world_from_light, self.product, first.0)
                &&& is_static_cascade(
                    slice,
                    world_from_light,
                    previous_at(previous, i),
                    self.same_light,
                    self.product,
                    first.1,
                )
            };
        let (near2, slice2) = choose|near: Scalar, slice: Slice|
            {
                &&& other.is_near(self.overlapped, i, near)
                &&& #[trigger] call_ensures(
                    self.measure,
                    (light, view, near.negated(), other.bounds@[i].negated()),
                    slice,
                )
                &&& is_cascade(slice.dynamic, world_from_light, self.product, second.0)
                &&& is_static_cascade(
                    slice,
                    world_from_light,
                    previous_at(later, i),
                    self.same_light,
                    self.product,
                    second.1,
                )
            };
        assert(near == near2);
        assert(slice == slice2);
        assert(first.0.clip_from_world == second.0.clip_from_world);
        slice
    }
}

/// Whether two configurations say the same.
pub open spec fn same_config(a: CascadeShadowConfig, b: CascadeShadowConfig) -> bool {
    &&& a.bounds@ == b.bounds@
    &&& a.overlap_proportion == b.overlap_proportion
    &&& a.minimum_distance == b.minimum_distance
}

/// Two lights that are turned the same way, with the same configuration and the same
/// static cascades before, have the same cascades after: nothing else of a light matters.
pub proof fn law_equal_lights_have_equal_cascades<
    M: Fn(usize, usize, Scalar, Scalar) -> Slice,
    O: Fn(Scalar, Scalar) -> Scalar,
    L: Fn(Mat4, Mat4) -> bool,
    P: Fn(Mat4, Mat4) -> Mat4,
>(
    math: CascadeMath<M, O, L, P>,
    light: usize,
    views: Seq<ViewRow>,
    before: (LightRow, LightRow),
    after: (LightRow, LightRow),
)
    requires
        views.len() <= usize::MAX,
        math.functional(),
        before.0.shadow_maps_enabled && before.1.shadow_maps_enabled,
        before.0.world_from_light == before.1.world_from_light,
        same_config(before.0.config, before.1.config),
        before.0.static_cascades.cascades@ == before.1.static_cascades.cascades@,
        math.light_built(light, views, before.0, after.0),
        math.light_built(light, views, before.1, after.1),
    ensures
        after.0.cascades.cascades@ == after.1.cascades.cascades@,
        after.0.static_cascades.cascades@ == after.1.static_cascades.cascades@,
{
    let old = before.0.static_cascades.cascades@;
    let c0 = after.0.cascades.cascades@;
    let c1 = after.1.cascades.cascades@;
    let s0 = after.0.static_cascades.cascades@;
    let s1 = after.1.static_cascades.cascades@;
    assert forall|view: EntityId| active_views(views).contains(view) implies c0[view]
        == #[trigger] c1[view] && s0[view] == s1[view] by {
        let k = choose|k: int|
            0 <= k < views.len() && (#[trigger] views[k]).active && views[k].entity == view;
        let last = lemma_last_active_exists(views, k) as usize;
        assert(last_active(views, last as int));
        assert forall|i: int| 0 <= i < c0[view].len() implies c0[view][i] == c1[view][i]
            && s0[view][i] == #[trigger] s1[view][i] by {
            let first = (c0[view][i], s0[view][i]);
            let second = (c1[view][i], s1[view][i]);
            let slice = math.lemma_slices_agree(
                light,
                last,
                before.0.config,
                before.1.config,
                before.0.world_from_light,
                previous_of(old, view),
                previous_of(old, view),
                i,
                first,
                second,
            );
            lemma_static_agrees(
                math,
                slice,
                before.0.world_from_light,
                previous_at(previous_of(old, view), i),
                s0[view][i],
                s1[view][i],
            );
        }
        assert(c0[view] =~= c1[view]) by {
            assert forall|i: int| 0 <= i < c0[view].len() implies c0[view][i] == c1[view][i] by {
                assert(s0[view][i] == s1[view][i]);
            }
        }
        assert(s0[view] =~= s1[view]);
    }
    assert(c0 =~= c1);
    assert forall|view: EntityId| active_views(views).contains(view) implies s0[view]
        == #[trigger] s1[view] by {
        assert(c0[view] == c1[view]);
    }
    assert(s0 =~= s1);
}

proof fn lemma_static_agrees<
    M: Fn(usize, usize, Scalar, Scalar) -> Slice,
    O: Fn(Scalar, Scalar) -> Scalar,
    L: Fn(Mat4, Mat4) -> bool,
    P: Fn(Mat4, Mat4) -> Mat4,
>(
    math: CascadeMath<M, O, L, P>,
    slice: Slice,
    world_from_light: Mat4,
    previous: Option<StaticCascade>,
    a: StaticCascade,
    b: StaticCascade,
)
    requires
        math.functional(),
        is_static_cascade(slice, world_from_light, previous, math.same_light, math.product, a),
        is_static_cascade(slice, world_from_light, previous, math.same_light, math.product, b),
    ensures
        a == b,
{
    if is_rebuilt(slice, world_from_light, math.product, a) && is_rebuilt(
        slice,
        world_from_light,
        math.product,
        b,
    ) {
        assert(a.clip_from_world == b.clip_from_world);
    }
}

/// Where the cascades of a light are built twice with nothing changed in between, the
/// second time leaves the cascades as they are, and has nothing to bake. What is built
/// with a margin has to cover what it is built for, and a light basis has to count as the
/// same as itself.
pub proof fn law_second_build_bakes_nothing<
    M: Fn(usize, usize, Scalar, Scalar) -> Slice,
    O: Fn(Scalar, Scalar) -> Scalar,
    L: Fn(Mat4, Mat4) -> bool,
    P: Fn(Mat4, Mat4) -> Mat4,
>(
    math: CascadeMath<M, O, L, P>,
    light: usize,
    views: Seq<ViewRow>,
    before: LightRow,
    first: LightRow,
    second: LightRow,
)
    requires
        views.len() <= usize::MAX,
        math.functional(),
        before.shadow_maps_enabled,
        math.light_built(light, views, before, first),
        math.light_built(light, views, first, second),
        forall|l: usize, v: usize, a: Scalar, b: Scalar, r: Slice| #[trigger]
            call_ensures(math.measure, (l, v, a, b), r) ==> r.is_covered(),
        forall|same: bool|
            call_ensures(
                math.same_light,
                (before.world_from_light, before.world_from_light),
                same,
            ) ==> same,
    ensures
        second.cascades.cascades@ == first.cascades.cascades@,
        second.static_cascades.cascades@ == first.static_cascades.cascades@.map_values(
            |list: Seq<StaticCascade>| list.map_values(|cascade: StaticCascade| cascade.reused()),
        ),
{
    let old = before.static_cascades.cascades@;
    let mid = first.static_cascades.cascades@;
    let c0 = first.cascades.cascades@;
    let c1 = second.cascades.cascades@;
    let s1 = second.static_cascades.cascades@;
    let world = before.world_from_light;
    let again = |list: Seq<StaticCascade>|
        list.map_values(|cascade: StaticCascade| cascade.reused());
    assert forall|view: EntityId| active_views(views).contains(view) implies c0[view]
        == #[trigger] c1[view] && s1[view] == again(mid[view]) by {
        let k = choose|k: int|
            0 <= k < views.len() && (#[trigger] views[k]).active && views[k].entity == view;
        let last = lemma_last_active_exists(views, k) as usize;
        assert(last_active(views, last as int));
        assert forall|i: int| 0 <= i < c0[view].len() implies c0[view][i] == c1[view][i]
            && #[trigger] s1[view][i] == mid[view][i].reused() by {
            let slice = math.lemma_slices_agree(
                light,
                last,
                before.config,
                first.config,
                world,
                previous_of(old, view),
                previous_of(mid, view),
                i,
                (c0[view][i], mid[view][i]),
                (c1[view][i], s1[view][i]),
            );
            assert(slice.is_covered());
            let built = mid[view][i];
            assert(previous_at(previous_of(mid, view), i) == Some(built));
            lemma_built_is_kept(
                math,
                slice,
                world,
                previous_at(previous_of(old, view), i),
                built,
            );
            law_reused_within_coverage(
                slice,
                world,
                built,
                math.same_light,
                math.product,
                s1[view][i],
            );
        }
        assert(c0[view] =~= c1[view]) by {
            assert forall|i: int| 0 <= i < c0[view].len() implies c0[view][i] == c1[view][i] by {
                assert(s1[view][i] == mid[view][i].reused());
            }
        }
        assert(s1[view] =~= again(mid[view]));
    }
    assert(c0 =~= c1);
    assert forall|view: EntityId| active_views(views).contains(view) implies #[trigger] s1[view]
        == again(mid[view]) by {
        assert(c0[view] == c1[view]);
    }
    assert(s1 =~= mid.map_values(again));
}

/// What was built or kept for a slice still covers it, and is for the same light.
proof fn lemma_built_is_kept<
    M: Fn(usize, usize, Scalar, Scalar) -> Slice,
    O: Fn(Scalar, Scalar) -> Scalar,
    L: Fn(Mat4, Mat4) -> bool,
    P: Fn(Mat4, Mat4) -> Mat4,
>(
    math: CascadeMath<M, O, L, P>,
    slice: Slice,
    world: Mat4,
    previous: Option<StaticCascade>,
    built: StaticCascade,
)
    requires
        math.functional(),
        slice.is_covered(),
        is_static_cascade(slice, world, previous, math.same_light, math.product, built),
        forall|same: bool| call_ensures(math.same_light, (world, world), same) ==> same,
    ensures
        built.holds(slice.coverage),
        forall|same: bool|
            call_ensures(math.same_light, (built.world_from_light, world), same) ==> same,
{
    if !is_rebuilt(slice, world, math.product, built) {
        let prev = previous->0;
        assert(call_ensures(math.same_light, (prev.world_from_light, world), true));
        assert forall|same: bool|
            call_ensures(math.same_light, (built.world_from_light, world), same) implies same by {
            assert(call_ensures(math.same_light, (prev.world_from_light, world), true));
        }
    }
}

/// The static cascade that a slice had.
pub open spec fn previous_at(
    previous: Option<Seq<StaticCascade>>,
    i: int,
) -> Option<StaticCascade> {
    match previous {
        Some(list) => if i < list.len() {
            Some(list[i])
        } else {
            None
        },
        None => None,
    }
}

/// The model of a list that may be there.
pub open spec fn list_view(list: Option<&Vec<StaticCascade>>) -> Option<Seq<StaticCascade>> {
    match list {
        Some(l) => Some(l@),
        None => None,
    }
}

} // verus!
