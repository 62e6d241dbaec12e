use vstd::prelude::*;
use vstd::string::*;
use std::sync::Arc;
use crate::cache::{FragmentCache, FragmentView};
use crate::fragment::{copy_entity, entity_view, Component, ComponentView, Fragment, LoadError, LoadErrorView};
use crate::identity::{derive_uid, MultiEntityUID};
use crate::url::{resolve_ref, resolve_reference};

verus! {

/// Whether the IEEE-754 single-precision number with bit pattern `b` is finite:
/// its exponent field is not all ones.
pub open spec fn finite_bits(b: u32) -> bool {
    (b >> 23u32) & 0xffu32 != 0xffu32
}

pub fn is_finite_bits(b: u32) -> (r: bool)
    ensures
        r == finite_bits(b),
{
    (b >> 23u32) & 0xffu32 != 0xffu32
}

/// A rigid transform; each number is the bit pattern of an `f32`.
#[derive(Clone, Copy, Debug)]
pub struct Transform {
    pub position: [u32; 3],
    pub rotation: [u32; 4],
    pub scale: [u32; 3],
}

impl Transform {
    pub open spec fn is_finite(&self) -> bool {
        &&& forall|i: int| 0 <= i < 3 ==> finite_bits(#[trigger] self.position@[i])
        &&& forall|i: int| 0 <= i < 4 ==> finite_bits(#[trigger] self.rotation@[i])
        &&& forall|i: int| 0 <= i < 3 ==> finite_bits(#[trigger] self.scale@[i])
    }

    pub fn check_finite(&self) -> (r: bool)
        ensures
            r == self.is_finite(),
    {
        let r = is_finite_bits(self.position[0]) && is_finite_bits(self.position[1])
            && is_finite_bits(self.position[2]) && is_finite_bits(self.rotation[0])
            && is_finite_bits(self.rotation[1]) && is_finite_bits(self.rotation[2])
            && is_finite_bits(self.rotation[3]) && is_finite_bits(self.scale[0])
            && is_finite_bits(self.scale[1]) && is_finite_bits(self.scale[2]);
        proof {
            if !r {
                assert(!self.is_finite());
            }
        }
        r
    }
}

/// Why a spawn did not happen.
#[derive(Debug)]
pub enum SpawnError {
    /// A position, rotation or scale number is NaN or infinite.
    NonFinite,
    /// The object URL cannot be made absolute.
    InvalidUrl { url: String },
    /// The object at this URL is not in the cache.
    NotPreloaded { url: String },
    /// Loading the object failed.
    Load(LoadError),
    /// The world's owner stopped before the spawn could run.
    Cancelled,
}

pub ghost enum SpawnErrorView {
    NonFinite,
    InvalidUrl(Seq<char>),
    NotPreloaded(Seq<char>),
    Load(LoadErrorView),
    Cancelled,
}

impl View for SpawnError {
    type V = SpawnErrorView;

    open spec fn view(&self) -> SpawnErrorView {
        match self {
            SpawnError::NonFinite => SpawnErrorView::NonFinite,
            SpawnError::InvalidUrl { url } => SpawnErrorView::InvalidUrl(url@),
            SpawnError::NotPreloaded { url } => SpawnErrorView::NotPreloaded(url@),
            SpawnError::Load(e) => SpawnErrorView::Load(e@),
            SpawnError::Cancelled => SpawnErrorView::Cancelled,
        }
    }
}

/// The parameters of one spawn: the identity namespace of the group and the
/// transform of its base entity.
pub struct SpawnConfig {
    entity_uids: MultiEntityUID,
    transform: Transform,
}

impl SpawnConfig {
    pub closed spec fn namespace(&self) -> Seq<char> {
        self.entity_uids.namespace()
    }

    pub closed spec fn spec_transform(&self) -> Transform {
        self.transform
    }

    pub open spec fn wf(&self) -> bool {
        self.spec_transform().is_finite()
    }

    /// A configuration; rejected when any number of the transform is not finite.
    pub fn new(entity_uids: MultiEntityUID, position: [u32; 3], rotation: [u32; 4], scale: [u32; 3]) -> (r: Result<Self, SpawnError>)
        ensures
            ({
                let t = Transform { position, rotation, scale };
                match r {
                    Ok(c) => t.is_finite() && c.namespace() == entity_uids.namespace()
                        && c.spec_transform() == t,
                    Err(e) => !t.is_finite() && e@ == SpawnErrorView::NonFinite,
                }
            }),
    {
        let transform = Transform { position, rotation, scale };
        if transform.check_finite() {
            Ok(SpawnConfig { entity_uids, transform })
        } else {
            Err(SpawnError::NonFinite)
        }
    }

    pub fn transform(&self) -> (r: Transform)
        ensures
            r == self.spec_transform(),
    {
        self.transform
    }
}

/// What the world knows of one entity.
pub ghost struct EntityRecord {
    pub components: Seq<ComponentView>,
    pub uid: Option<Seq<char>>,
    pub transform: Option<Transform>,
}

pub struct WorldEntity {
    components: Vec<Component>,
    uid: Option<String>,
    transform: Option<Transform>,
}

pub open spec fn uid_view(u: Option<String>) -> Option<Seq<char>> {
    match u {
        Some(s) => Some(s@),
        None => None,
    }
}

impl View for WorldEntity {
    type V = EntityRecord;

    closed spec fn view(&self) -> EntityRecord {
        EntityRecord {
            components: entity_view(self.components@),
            uid: uid_view(self.uid),
            transform: self.transform,
        }
    }
}

/// The live world: entities addressed by their position, which never changes.
pub struct World {
    entities: Vec<WorldEntity>,
}

impl View for World {
    type V = Seq<EntityRecord>;

    closed spec fn view(&self) -> Seq<EntityRecord> {
        self.entities@.map_values(|e: WorldEntity| e@)
    }
}

/// `e` without its components of kind `k`.
pub open spec fn without_kind(e: Seq<ComponentView>, k: u32) -> Seq<ComponentView>
    decreases e.len(),
{
    if e.len() == 0 {
        e
    } else if e.last().0 == k {
        without_kind(e.drop_last(), k)
    } else {
        without_kind(e.drop_last(), k).push(e.last())
    }
}

/// `e` with component `c` set: a component of the same kind is replaced.
pub open spec fn set_component(e: Seq<ComponentView>, c: ComponentView) -> Seq<ComponentView> {
    without_kind(e, c.0).push(c)
}

/// `e` with each component of `cs` set, in order.
pub open spec fn merge_components(e: Seq<ComponentView>, cs: Seq<ComponentView>) -> Seq<ComponentView>
    decreases cs.len(),
{
    if cs.len() == 0 {
        e
    } else {
        set_component(merge_components(e, cs.drop_last()), cs.last())
    }
}

proof fn lemma_without_kind_keeps(e: Seq<ComponentView>, k: u32, x: ComponentView)
    requires
        e.contains(x),
        x.0 != k,
    ensures
        without_kind(e, k).contains(x),
    decreases e.len(),
{
    let d = e.drop_last();
    if e.last() == x {
        let p = without_kind(d, k);
        assert(p.push(x)[p.len() as int] == x);
    } else {
        let i = choose|i: int| 0 <= i < e.len() && e[i] == x;
        assert(d[i] == x);
        lemma_without_kind_keeps(d, k, x);
        let p = without_kind(d, k);
        let j = choose|j: int| 0 <= j < p.len() && p[j] == x;
        if e.last().0 != k {
            assert(p.push(e.last())[j] == x);
        }
    }
}

/// The component `cs[j]` is the last of its kind in `cs`.
pub open spec fn last_of_kind(cs: Seq<ComponentView>, j: int) -> bool {
    forall|k: int| j < k < cs.len() ==> cs[k].0 != cs[j].0
}

/// `cs` sets no component of kind `k`.
pub open spec fn sets_no_kind(cs: Seq<ComponentView>, k: u32) -> bool {
    forall|i: int| 0 <= i < cs.len() ==> cs[i].0 != k
}

/// What setting `cs` on components `before` must leave in `after`: every component
/// of `cs` that no later one replaces, and every component of `before` of a kind that
/// `cs` does not set.
pub open spec fn merged_onto(before: Seq<ComponentView>, after: Seq<ComponentView>, cs: Seq<ComponentView>) -> bool {
    &&& forall|j: int| 0 <= j < cs.len() && last_of_kind(cs, j) ==> after.contains(#[trigger] cs[j])
    &&& forall|x: ComponentView| before.contains(x) && sets_no_kind(cs, x.0) ==> #[trigger] after.contains(x)
}

pub proof fn lemma_merge_components(e: Seq<ComponentView>, cs: Seq<ComponentView>)
    ensures
        merged_onto(e, merge_components(e, cs), cs),
    decreases cs.len(),
{
    if cs.len() > 0 {
        let d = cs.drop_last();
        let c = cs.last();
        let m1 = merge_components(e, d);
        lemma_merge_components(e, d);
        let p = without_kind(m1, c.0);
        let m = p.push(c);
        assert(m == merge_components(e, cs));
        assert(m[p.len() as int] == c);
        assert forall|j: int| 0 <= j < cs.len() && last_of_kind(cs, j) implies m.contains(#[trigger] cs[j]) by {
            if j < cs.len() - 1 {
                assert(cs[j] == d[j]);
                assert(last_of_kind(d, j));
                assert(cs[cs.len() - 1].0 != cs[j].0);
                lemma_without_kind_keeps(m1, c.0, cs[j]);
                let i = choose|i: int| 0 <= i < p.len() && p[i] == cs[j];
                assert(m[i] == cs[j]);
            }
        }
        assert forall|x: ComponentView| e.contains(x) && sets_no_kind(cs, x.0) implies #[trigger] m.contains(x) by {
            assert(cs[cs.len() - 1].0 != x.0);
            assert(sets_no_kind(d, x.0)) by {
                assert forall|i: int| 0 <= i < d.len() implies d[i].0 != x.0 by {
                    assert(d[i] == cs[i]);
                }
            }
            lemma_without_kind_keeps(m1, c.0, x);
            let i = choose|i: int| 0 <= i < p.len() && p[i] == x;
            assert(m[i] == x);
        }
    } else {
        assert(merge_components(e, cs) == e);
    }
}

fn remove_kind(e: Vec<Component>, k: u32) -> (r: Vec<Component>)
    ensures
        entity_view(r@) == without_kind(entity_view(e@), k),
{
    let ghost ev = entity_view(e@);
    let mut out: Vec<Component> = Vec::new();
    let mut i: usize = 0;
    assert(ev.subrange(0, 0) =~= seq![]);
    assert(entity_view(out@) =~= seq![]);
    while i < e.len()
        invariant
            i <= e@.len(),
            ev == entity_view(e@),
            entity_view(out@) == without_kind(ev.subrange(0, i as int), k),
        decreases e@.len() - i,
    {
        assert(ev.subrange(0, i + 1).drop_last() =~= ev.subrange(0, i as int));
        if e[i].kind != k {
            let ghost prev = entity_view(out@);
            out.push(e[i].copy());
            assert(entity_view(out@) =~= prev.push(ev[i as int]));
        }
        i = i + 1;
    }
    assert(ev.subrange(0, ev.len() as int) =~= ev);
    out
}

/// Sets each component of `cs` on `e`, in order.
pub fn merge_into_components(e: Vec<Component>, cs: &Vec<Component>) -> (r: Vec<Component>)
    ensures
        entity_view(r@) == merge_components(entity_view(e@), entity_view(cs@)),
{
    let ghost e0 = entity_view(e@);
    let ghost cv = entity_view(cs@);
    let mut cur = e;
    let mut i: usize = 0;
    assert(cv.subrange(0, 0) =~= seq![]);
    while i < cs.len()
        invariant
            i <= cs@.len(),
            cv == entity_view(cs@),
            entity_view(cur@) == merge_components(e0, cv.subrange(0, i as int)),
        decreases cs@.len() - i,
    {
        assert(cv.subrange(0, i + 1).drop_last() =~= cv.subrange(0, i as int));
        let c = cs[i].copy();
        let mut next = remove_kind(cur, c.kind);
        let ghost prev = entity_view(next@);
        next.push(c);
        assert(entity_view(next@) =~= prev.push(c@));
        cur = next;
        i = i + 1;
    }
    assert(cv.subrange(0, cv.len() as int) =~= cv);
    cur
}

/// The record of entity `i` of a fragment spliced under namespace `ns` with
/// transform `t`.
pub open spec fn spliced_record(f: FragmentView, ns: Seq<char>, t: Transform, i: int) -> EntityRecord {
    EntityRecord {
        components: f[i],
        uid: Some(derive_uid(ns, i as nat)),
        transform: if i == 0 { Some(t) } else { None },
    }
}

/// The world after fragment `f` is spliced into `w`: its entities appended in order.
pub open spec fn splice_spec(w: Seq<EntityRecord>, f: FragmentView, ns: Seq<char>, t: Transform) -> Seq<EntityRecord> {
    w + Seq::new(f.len(), |i: int| spliced_record(f, ns, t, i))
}

/// The handles of the entities that a splice of `n` entities into `w` creates.
pub open spec fn splice_ids(w: Seq<EntityRecord>, n: nat) -> Seq<usize> {
    Seq::new(n, |i: int| (w.len() + i) as usize)
}

impl World {
    pub fn new() -> (r: Self)
        ensures
            r@.len() == 0,
    {
        World { entities: Vec::new() }
    }

    pub fn len(&self) -> (r: usize)
        ensures
            r == self@.len(),
    {
        self.entities.len()
    }

    /// Adds an entity with the given components and no identity or transform.
    pub fn spawn_entity(&mut self, components: Vec<Component>) -> (r: usize)
        ensures
            r == old(self)@.len(),
            final(self)@ == old(self)@.push(EntityRecord { components: entity_view(components@), uid: None, transform: None }),
    {
        let r = self.entities.len();
        self.entities.push(WorldEntity { components, uid: None, transform: None });
        assert(self@ =~= old(self)@.push(EntityRecord { components: entity_view(components@), uid: None, transform: None }));
        r
    }

    /// Sets each component of `cs` on entity `id`; its identity and transform stay.
    pub fn add_components(&mut self, id: usize, cs: &Vec<Component>)
        requires
            id < old(self)@.len(),
        ensures
            final(self)@ == old(self)@.update(
                id as int,
                EntityRecord {
                    components: merge_components(old(self)@[id as int].components, entity_view(cs@)),
                    ..old(self)@[id as int]
                },
            ),
    {
        let ghost before = self@;
        let mut tmp: Vec<Component> = Vec::new();
        std::mem::swap(&mut tmp, &mut self.entities[id].components);
        let merged = merge_into_components(tmp, cs);
        self.entities[id].components = merged;
        assert(self@ =~= before.update(
            id as int,
            EntityRecord {
                components: merge_components(before[id as int].components, entity_view(cs@)),
                ..before[id as int]
            },
        ));
    }

    pub fn components(&self, id: usize) -> (r: &Vec<Component>)
        requires
            id < self@.len(),
        ensures
            entity_view(r@) == self@[id as int].components,
    {
        &self.entities[id].components
    }

    pub fn uid(&self, id: usize) -> (r: Option<&str>)
        requires
            id < self@.len(),
        ensures
            match r {
                Some(s) => self@[id as int].uid == Some(s@),
                None => self@[id as int].uid is None,
            },
    {
        match &self.entities[id].uid {
            Some(s) => Some(s.as_str()),
            None => None,
        }
    }

    pub fn transform(&self, id: usize) -> (r: Option<Transform>)
        requires
            id < self@.len(),
        ensures
            r == self@[id as int].transform,
    {
        self.entities[id].transform
    }
}

/// A splice adds no non-finite transform to the world: the only transform it sets
/// is that of a configuration, and `SpawnConfig::new` rejects non-finite ones.
pub proof fn lemma_spliced_transforms_finite(w: Seq<EntityRecord>, f: FragmentView, c: SpawnConfig)
    requires
        c.wf(),
    ensures
        forall|i: int|
            w.len() <= i < w.len() + f.len() && (#[trigger] splice_spec(w, f, c.namespace(), c.spec_transform())[i]).transform is Some
                ==> splice_spec(w, f, c.namespace(), c.spec_transform())[i].transform->Some_0.is_finite(),
{
}

/// Inserts every entity of `object` into `world`, in order: entity `i` gets the
/// identity `derive_uid(namespace, i)`, and the first one the configured transform.
pub fn spawn(world: &mut World, object: &Fragment, config: &SpawnConfig) -> (r: Vec<usize>)
    requires
        config.wf(),
    ensures
        final(world)@ == splice_spec(old(world)@, object@, config.namespace(), config.spec_transform()),
        r@ == splice_ids(old(world)@, object@.len()),
        forall|i: int| 0 <= i < r@.len() ==> r@[i] as int == old(world)@.len() + i,
{
    let start = world.entities.len();
    let mut ids: Vec<usize> = Vec::new();
    let mut i: usize = 0;
    let ghost w0 = world@;
    let ghost f = object@;
    let ghost ns = config.namespace();
    let ghost t = config.spec_transform();
    while i < object.len()
        invariant
            w0 == old(world)@,
            f == object@,
            ns == config.namespace(),
            t == config.spec_transform(),
            start == w0.len(),
            i <= f.len(),
            world@ =~= splice_spec(w0, f.subrange(0, i as int), ns, t),
            ids@ =~= splice_ids(w0, i as nat),
            forall|j: int| 0 <= j < ids@.len() ==> ids@[j] as int == w0.len() + j,
        decreases f.len() - i,
    {
        let components = copy_entity(object.entity(i));
        let uid = config.entity_uids.get_uid(i);
        let transform = if i == 0 { Some(config.transform) } else { None };
        let id = world.entities.len();
        let ghost prev = world@;
        let e = WorldEntity { components, uid: Some(uid), transform };
        assert(e@ == spliced_record(f.subrange(0, i + 1), ns, t, i as int));
        world.entities.push(e);
        assert(world@ =~= prev.push(e@));
        ids.push(id);
        i = i + 1;
        assert(splice_spec(w0, f.subrange(0, i as int), ns, t) =~= splice_spec(w0, f.subrange(0, i - 1), ns, t).push(e@));
    }
    assert(f.subrange(0, f.len() as int) =~= f);
    ids
}

/// The absolute URL of an object: `object_url` read relative to the server's base URL.
pub fn resolve_object_url(server_base: &str, object_url: &str) -> (r: Result<String, SpawnError>)
    ensures
        match resolve_ref(object_url@, server_base@) {
            Some(u) => r matches Ok(s) && s@ == u,
            None => r matches Err(e) && e@ == SpawnErrorView::InvalidUrl(object_url@),
        },
{
    match resolve_reference(object_url, server_base) {
        Some(u) => Ok(u),
        None => Err(SpawnError::InvalidUrl { url: String::from_str(object_url) }),
    }
}

/// Spawns the object at `object_url` from the cache alone: it must already have been
/// loaded. On any error the world is left as it was.
pub fn spawn_preloaded_by_url(
    world: &mut World,
    cache: &FragmentCache,
    server_base: &str,
    object_url: &str,
    config: &SpawnConfig,
) -> (r: Result<Vec<usize>, SpawnError>)
    requires
        cache.wf(),
        config.wf(),
    ensures
        match resolve_ref(object_url@, server_base@) {
            None => {
                &&& final(world)@ == old(world)@
                &&& r matches Err(e) && e@ == SpawnErrorView::InvalidUrl(object_url@)
            },
            Some(u) => if cache@.contains_key(u) && cache@[u] is Ready {
                let f = cache@[u]->Ready_0;
                &&& final(world)@ == splice_spec(old(world)@, f, config.namespace(), config.spec_transform())
                &&& r matches Ok(ids) && ids@ == splice_ids(old(world)@, f.len())
            } else {
                &&& final(world)@ == old(world)@
                &&& r matches Err(e) && e@ == SpawnErrorView::NotPreloaded(object_url@)
            },
        },
{
    let url = match resolve_object_url(server_base, object_url) {
        Ok(u) => u,
        Err(e) => return Err(e),
    };
    match cache.peek(url.as_str()) {
        Some(f) => Ok(spawn(world, &*f, config)),
        None => Err(SpawnError::NotPreloaded { url: String::from_str(object_url) }),
    }
}

/// Spawns an object once its load has ended: a loaded fragment is spliced into the
/// world, a failed load leaves the world as it was and is handed back.
pub fn spawn_loaded(
    world: &mut World,
    loaded: &Result<Arc<Fragment>, LoadError>,
    config: &SpawnConfig,
) -> (r: Result<Vec<usize>, SpawnError>)
    requires
        config.wf(),
    ensures
        match loaded {
            Ok(f) => {
                &&& final(world)@ == splice_spec(old(world)@, (**f)@, config.namespace(), config.spec_transform())
                &&& r matches Ok(ids) && ids@ == splice_ids(old(world)@, (**f)@.len())
            },
            Err(e) => {
                &&& final(world)@ == old(world)@
                &&& r matches Err(x) && x@ == SpawnErrorView::Load(e@)
            },
        },
{
    match loaded {
        Ok(f) => Ok(spawn(world, &**f, config)),
        Err(e) => Err(SpawnError::Load(e.copy())),
    }
}

} // verus!
