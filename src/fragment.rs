use vstd::prelude::*;
use vstd::string::*;
use crate::url::{is_absolute, resolve_ref, resolve_reference};

verus! {

/// Component kind of a model definition reference.
pub const MODEL_DEF_KIND: u32 = 1;

/// Component kind of a collider definition reference.
pub const COLLIDER_KIND: u32 = 2;

/// Component kind of a decal definition reference.
pub const DECAL_KIND: u32 = 3;

/// One component of an entity: its kind and its serialized value.
#[derive(Debug)]
pub struct Component {
    pub kind: u32,
    pub value: String,
}

pub type ComponentView = (u32, Seq<char>);

impl View for Component {
    type V = ComponentView;

    open spec fn view(&self) -> ComponentView {
        (self.kind, self.value@)
    }
}

pub open spec fn entity_view(e: Seq<Component>) -> Seq<ComponentView> {
    e.map_values(|c: Component| c@)
}

pub open spec fn entities_view(f: Seq<Vec<Component>>) -> Seq<Seq<ComponentView>> {
    f.map_values(|e: Vec<Component>| entity_view(e@))
}

impl Component {
    pub fn new(kind: u32, value: String) -> (r: Self)
        ensures
            r.kind == kind,
            r.value == value,
    {
        Component { kind, value }
    }

    pub fn copy(&self) -> (r: Self)
        ensures
            r@ == self@,
    {
        Component { kind: self.kind, value: self.value.clone() }
    }
}

pub fn copy_entity(e: &Vec<Component>) -> (r: Vec<Component>)
    ensures
        entity_view(r@) == entity_view(e@),
{
    let mut out: Vec<Component> = Vec::new();
    let mut i: usize = 0;
    while i < e.len()
        invariant
            i <= e@.len(),
            out@.len() == i,
            forall|j: int| 0 <= j < i ==> (#[trigger] out@[j])@ == e@[j]@,
        decreases e@.len() - i,
    {
        out.push(e[i].copy());
        i = i + 1;
    }
    assert(entity_view(out@) =~= entity_view(e@));
    out
}

/// A loaded scene fragment: an ordered, non-empty list of entities, each a list of
/// components, whose references of the kinds it was loaded with are absolute. Once
/// built it is only read.
pub struct Fragment {
    entities: Vec<Vec<Component>>,
    kinds: Ghost<Seq<u32>>,
}

impl View for Fragment {
    type V = Seq<Seq<ComponentView>>;

    closed spec fn view(&self) -> Seq<Seq<ComponentView>> {
        entities_view(self.entities@)
    }
}

impl Fragment {
    #[verifier::type_invariant]
    pub open spec fn inv(&self) -> bool {
        self.wf()
    }

    /// The reference kinds of the registry the fragment was loaded with.
    pub closed spec fn kinds(&self) -> Seq<u32> {
        self.kinds@
    }

    /// Holds of every fragment: none is built but by a successful load.
    pub open spec fn wf(&self) -> bool {
        self@.len() > 0 && references_absolute(self@, self.kinds())
    }

    pub fn len(&self) -> (r: usize)
        ensures
            r == self@.len(),
            self.wf(),
    {
        proof {
            use_type_invariant(self);
        }
        self.entities.len()
    }

    pub fn entity(&self, i: usize) -> (r: &Vec<Component>)
        requires
            i < self@.len(),
        ensures
            entity_view(r@) == self@[i as int],
    {
        &self.entities[i]
    }
}

/// The set of component kinds whose values are URLs relative to the fragment.
pub struct ResolverRegistry {
    kinds: Vec<u32>,
}

impl View for ResolverRegistry {
    type V = Seq<u32>;

    closed spec fn view(&self) -> Seq<u32> {
        self.kinds@
    }
}

impl ResolverRegistry {
    /// A registry that knows no kind.
    pub fn new() -> (r: Self)
        ensures
            r@.len() == 0,
    {
        ResolverRegistry { kinds: Vec::new() }
    }

    /// A registry for model, collider and decal references.
    pub fn standard() -> (r: Self)
        ensures
            forall|k: u32| r@.contains(k) <==> (k == MODEL_DEF_KIND || k == COLLIDER_KIND || k
                == DECAL_KIND),
    {
        let mut r = Self::new();
        r.kinds.push(MODEL_DEF_KIND);
        r.kinds.push(COLLIDER_KIND);
        r.kinds.push(DECAL_KIND);
        assert(r@[0] == MODEL_DEF_KIND && r@[1] == COLLIDER_KIND && r@[2] == DECAL_KIND);
        r
    }

    pub fn is_registered(&self, kind: u32) -> (r: bool)
        ensures
            r == self@.contains(kind),
    {
        let mut i: usize = 0;
        while i < self.kinds.len()
            invariant
                i <= self@.len(),
                forall|j: int| 0 <= j < i ==> self@[j] != kind,
            decreases self@.len() - i,
        {
            if self.kinds[i] == kind {
                return true;
            }
            i = i + 1;
        }
        false
    }

    /// Adds a kind; values of that kind are resolved from then on.
    pub fn register(&mut self, kind: u32)
        ensures
            forall|k: u32| final(self)@.contains(k) <==> (old(self)@.contains(k) || k == kind),
    {
        if !self.is_registered(kind) {
            self.kinds.push(kind);
            assert(self@.last() == kind);
            assert forall|k: u32| old(self)@.contains(k) implies self@.contains(k) by {
                let j = choose|j: int| 0 <= j < old(self)@.len() && old(self)@[j] == k;
                assert(self@[j] == k);
            }
        }
    }
}

/// A component after resolution: a registered kind gets its URL made absolute
/// against `base`; other kinds stay as they are.
pub open spec fn resolve_component(c: ComponentView, kinds: Seq<u32>, base: Seq<char>) -> Option<
    ComponentView,
> {
    if kinds.contains(c.0) {
        match resolve_ref(c.1, base) {
            Some(u) => Some((c.0, u)),
            None => None,
        }
    } else {
        Some(c)
    }
}

/// An entity after resolution, or the kind of its first component that cannot be
/// resolved.
pub open spec fn resolve_entity(e: Seq<ComponentView>, kinds: Seq<u32>, base: Seq<char>) -> Result<
    Seq<ComponentView>,
    u32,
>
    decreases e.len(),
{
    if e.len() == 0 {
        Ok(seq![])
    } else {
        match resolve_entity(e.drop_last(), kinds, base) {
            Err(k) => Err(k),
            Ok(p) => match resolve_component(e.last(), kinds, base) {
                Some(c) => Ok(p.push(c)),
                None => Err(e.last().0),
            },
        }
    }
}

/// All entities after resolution, or the kind of the first reference, in entity
/// order, that cannot be resolved.
pub open spec fn resolve_entities(
    f: Seq<Seq<ComponentView>>,
    kinds: Seq<u32>,
    base: Seq<char>,
) -> Result<Seq<Seq<ComponentView>>, u32>
    decreases f.len(),
{
    if f.len() == 0 {
        Ok(seq![])
    } else {
        match resolve_entities(f.drop_last(), kinds, base) {
            Err(k) => Err(k),
            Ok(p) => match resolve_entity(f.last(), kinds, base) {
                Ok(e) => Ok(p.push(e)),
                Err(k) => Err(k),
            },
        }
    }
}

proof fn lemma_entity_err_extends(e: Seq<ComponentView>, kinds: Seq<u32>, base: Seq<char>, i: int, n: int, k: u32)
    requires
        0 <= i <= n <= e.len(),
        resolve_entity(e.subrange(0, i), kinds, base) == Err::<Seq<ComponentView>, u32>(k),
    ensures
        resolve_entity(e.subrange(0, n), kinds, base) == Err::<Seq<ComponentView>, u32>(k),
    decreases n - i,
{
    if n > i {
        lemma_entity_err_extends(e, kinds, base, i, n - 1, k);
        assert(e.subrange(0, n).drop_last() =~= e.subrange(0, n - 1));
    }
}

proof fn lemma_entities_err_extends(f: Seq<Seq<ComponentView>>, kinds: Seq<u32>, base: Seq<char>, i: int, n: int, k: u32)
    requires
        0 <= i <= n <= f.len(),
        resolve_entities(f.subrange(0, i), kinds, base) == Err::<Seq<Seq<ComponentView>>, u32>(k),
    ensures
        resolve_entities(f.subrange(0, n), kinds, base) == Err::<Seq<Seq<ComponentView>>, u32>(k),
    decreases n - i,
{
    if n > i {
        lemma_entities_err_extends(f, kinds, base, i, n - 1, k);
        assert(f.subrange(0, n).drop_last() =~= f.subrange(0, n - 1));
    }
}

/// A fragment whose references are all absolute already comes out of resolution as
/// it went in, whatever the base URL.
pub proof fn lemma_absolute_references_unchanged(
    f: Seq<Seq<ComponentView>>,
    kinds: Seq<u32>,
    base: Seq<char>,
)
    requires
        forall|i: int, j: int|
            0 <= i < f.len() && 0 <= j < f[i].len() && kinds.contains(#[trigger] f[i][j].0)
                ==> is_absolute(f[i][j].1),
    ensures
        resolve_entities(f, kinds, base) == Ok::<Seq<Seq<ComponentView>>, u32>(f),
    decreases f.len(),
{
    if f.len() > 0 {
        let g = f.drop_last();
        assert forall|i: int, j: int|
            0 <= i < g.len() && 0 <= j < g[i].len() && kinds.contains(#[trigger] g[i][j].0)
                implies is_absolute(g[i][j].1) by {
            assert(g[i] == f[i]);
        }
        lemma_absolute_references_unchanged(g, kinds, base);
        assert(f.last() =~= f.last().subrange(0, f.last().len() as int));
        lemma_absolute_entity_unchanged(f.last(), kinds, base, f);
        assert(g.push(f.last()) =~= f);
    } else {
        assert(f =~= seq![]);
    }
}

proof fn lemma_absolute_entity_unchanged(
    e: Seq<ComponentView>,
    kinds: Seq<u32>,
    base: Seq<char>,
    f: Seq<Seq<ComponentView>>,
)
    requires
        f.len() > 0,
        e.len() <= f.last().len(),
        e =~= f.last().subrange(0, e.len() as int),
        forall|i: int, j: int|
            0 <= i < f.len() && 0 <= j < f[i].len() && kinds.contains(#[trigger] f[i][j].0)
                ==> is_absolute(f[i][j].1),
    ensures
        resolve_entity(e, kinds, base) == Ok::<Seq<ComponentView>, u32>(e),
    decreases e.len(),
{
    if e.len() > 0 {
        let d = e.drop_last();
        assert(d =~= f.last().subrange(0, d.len() as int));
        lemma_absolute_entity_unchanged(d, kinds, base, f);
        let j = e.len() - 1;
        let i = f.len() - 1;
        assert(e.last() == f[i][j]);
        assert(kinds.contains(f[i][j].0) ==> is_absolute(f[i][j].1));
        assert(resolve_component(e.last(), kinds, base) == Some(e.last()));
        assert(d.push(e.last()) =~= e);
    } else {
        assert(e =~= seq![]);
    }
}

/// Every registered reference of `f` is an absolute URL.
pub open spec fn references_absolute(f: Seq<Seq<ComponentView>>, kinds: Seq<u32>) -> bool {
    forall|i: int, j: int|
        0 <= i < f.len() && 0 <= j < f[i].len() && kinds.contains(#[trigger] f[i][j].0)
            ==> is_absolute(f[i][j].1)
}

proof fn lemma_resolved_entity(e: Seq<ComponentView>, kinds: Seq<u32>, base: Seq<char>)
    ensures
        resolve_entity(e, kinds, base) matches Ok(g) ==> g.len() == e.len() && forall|j: int|
            0 <= j < g.len() && kinds.contains(#[trigger] g[j].0) ==> is_absolute(g[j].1),
    decreases e.len(),
{
    if e.len() > 0 {
        lemma_resolved_entity(e.drop_last(), kinds, base);
        crate::url::lemma_resolved_is_absolute(e.last().1, base);
    }
}

proof fn lemma_resolved_entities(f: Seq<Seq<ComponentView>>, kinds: Seq<u32>, base: Seq<char>)
    ensures
        resolve_entities(f, kinds, base) matches Ok(g) ==> g.len() == f.len() && references_absolute(g, kinds),
    decreases f.len(),
{
    if f.len() > 0 {
        lemma_resolved_entities(f.drop_last(), kinds, base);
        lemma_resolved_entity(f.last(), kinds, base);
        if let Ok(g) = resolve_entities(f, kinds, base) {
            let p = resolve_entities(f.drop_last(), kinds, base)->Ok_0;
            let e = resolve_entity(f.last(), kinds, base)->Ok_0;
            assert(g == p.push(e));
            assert forall|i: int, j: int|
                0 <= i < g.len() && 0 <= j < g[i].len() && kinds.contains(#[trigger] g[i][j].0)
                    implies is_absolute(g[i][j].1) by {
                if i < p.len() {
                    assert(g[i] == p[i]);
                } else {
                    assert(g[i] == e);
                }
            }
        }
    }
}

/// A fragment that loads is never empty, and all its registered references are
/// absolute URLs.
pub proof fn lemma_loaded_fragment_wf(
    url: Seq<char>,
    decoded: Option<Seq<Seq<ComponentView>>>,
    kinds: Seq<u32>,
)
    ensures
        load_spec(url, decoded, kinds) matches Ok(g) ==> g.len() > 0 && references_absolute(g, kinds),
{
    if let Some(f) = decoded {
        lemma_resolved_entities(f, kinds, url);
    }
}

fn resolve_one(c: &Component, reg: &ResolverRegistry, base: &str) -> (r: Option<Component>)
    ensures
        match r {
            Some(x) => resolve_component(c@, reg@, base@) == Some(x@),
            None => resolve_component(c@, reg@, base@) is None,
        },
{
    if reg.is_registered(c.kind) {
        match resolve_reference(c.value.as_str(), base) {
            Some(u) => Some(Component { kind: c.kind, value: u }),
            None => None,
        }
    } else {
        Some(c.copy())
    }
}

fn resolve_entity_exec(e: &Vec<Component>, reg: &ResolverRegistry, base: &str) -> (r: Result<
    Vec<Component>,
    u32,
>)
    ensures
        match r {
            Ok(x) => resolve_entity(entity_view(e@), reg@, base@) == Ok::<Seq<ComponentView>, u32>(entity_view(x@)),
            Err(k) => resolve_entity(entity_view(e@), reg@, base@) == Err::<Seq<ComponentView>, u32>(k),
        },
{
    let ghost ev = entity_view(e@);
    let mut out: Vec<Component> = Vec::new();
    let mut i: usize = 0;
    assert(ev.subrange(0, 0) =~= seq![]);
    assert(entity_view(out@) =~= seq![]);
    while i < e.len()
        invariant
            i <= e@.len(),
            ev == entity_view(e@),
            resolve_entity(ev.subrange(0, i as int), reg@, base@) == Ok::<Seq<ComponentView>, u32>(entity_view(out@)),
        decreases e@.len() - i,
    {
        assert(ev.subrange(0, i + 1).drop_last() =~= ev.subrange(0, i as int));
        match resolve_one(&e[i], reg, base) {
            Some(c) => {
                let ghost prev = entity_view(out@);
                out.push(c);
                assert(entity_view(out@) =~= prev.push(c@));
            },
            None => {
                proof {
                    lemma_entity_err_extends(ev, reg@, base@, i + 1, ev.len() as int, e@[i as int].kind);
                    assert(ev.subrange(0, ev.len() as int) =~= ev);
                }
                return Err(e[i].kind);
            },
        }
        i = i + 1;
    }
    assert(ev.subrange(0, ev.len() as int) =~= ev);
    Ok(out)
}

fn resolve_all(f: &Vec<Vec<Component>>, reg: &ResolverRegistry, base: &str) -> (r: Result<
    Vec<Vec<Component>>,
    u32,
>)
    ensures
        match r {
            Ok(x) => resolve_entities(entities_view(f@), reg@, base@) == Ok::<Seq<Seq<ComponentView>>, u32>(entities_view(x@)),
            Err(k) => resolve_entities(entities_view(f@), reg@, base@) == Err::<Seq<Seq<ComponentView>>, u32>(k),
        },
{
    let ghost fv = entities_view(f@);
    let mut out: Vec<Vec<Component>> = Vec::new();
    let mut i: usize = 0;
    assert(fv.subrange(0, 0) =~= seq![]);
    assert(entities_view(out@) =~= seq![]);
    while i < f.len()
        invariant
            i <= f@.len(),
            fv == entities_view(f@),
            resolve_entities(fv.subrange(0, i as int), reg@, base@) == Ok::<Seq<Seq<ComponentView>>, u32>(entities_view(out@)),
        decreases f@.len() - i,
    {
        assert(fv.subrange(0, i + 1).drop_last() =~= fv.subrange(0, i as int));
        match resolve_entity_exec(&f[i], reg, base) {
            Ok(e) => {
                let ghost prev = entities_view(out@);
                out.push(e);
                assert(entities_view(out@) =~= prev.push(entity_view(e@)));
            },
            Err(k) => {
                proof {
                    lemma_entities_err_extends(fv, reg@, base@, i + 1, fv.len() as int, k);
                    assert(fv.subrange(0, fv.len() as int) =~= fv);
                }
                return Err(k);
            },
        }
        i = i + 1;
    }
    assert(fv.subrange(0, fv.len() as int) =~= fv);
    Ok(out)
}

/// Why a fragment could not be loaded.
#[derive(Debug)]
pub enum LoadError {
    /// The bytes could not be fetched; the message comes from the fetch layer.
    Fetch { message: String },
    /// The bytes at `url` are not a well-formed fragment.
    Decode { url: String },
    /// The fragment holds no entity.
    EmptyFragment,
    /// A reference of component kind `kind` could not be made absolute.
    UnresolvedReference { kind: u32 },
    /// The load was abandoned before it ended.
    Cancelled,
}

pub enum LoadErrorView {
    Fetch(Seq<char>),
    Decode(Seq<char>),
    EmptyFragment,
    UnresolvedReference(u32),
    Cancelled,
}

impl View for LoadError {
    type V = LoadErrorView;

    open spec fn view(&self) -> LoadErrorView {
        match self {
            LoadError::Fetch { message } => LoadErrorView::Fetch(message@),
            LoadError::Decode { url } => LoadErrorView::Decode(url@),
            LoadError::EmptyFragment => LoadErrorView::EmptyFragment,
            LoadError::UnresolvedReference { kind } => LoadErrorView::UnresolvedReference(*kind),
            LoadError::Cancelled => LoadErrorView::Cancelled,
        }
    }
}

impl LoadError {
    pub fn copy(&self) -> (r: Self)
        ensures
            r@ == self@,
    {
        match self {
            LoadError::Fetch { message } => LoadError::Fetch { message: message.clone() },
            LoadError::Decode { url } => LoadError::Decode { url: url.clone() },
            LoadError::EmptyFragment => LoadError::EmptyFragment,
            LoadError::UnresolvedReference { kind } => LoadError::UnresolvedReference { kind: *kind },
            LoadError::Cancelled => LoadError::Cancelled,
        }
    }
}

/// What loading the fragment at `url` gives, once its bytes have been decoded into
/// `decoded` (`None`: not a well-formed fragment).
pub open spec fn load_spec(
    url: Seq<char>,
    decoded: Option<Seq<Seq<ComponentView>>>,
    kinds: Seq<u32>,
) -> Result<Seq<Seq<ComponentView>>, LoadErrorView> {
    match decoded {
        None => Err(LoadErrorView::Decode(url)),
        Some(f) => if f.len() == 0 {
            Err(LoadErrorView::EmptyFragment)
        } else {
            match resolve_entities(f, kinds, url) {
                Ok(g) => Ok(g),
                Err(k) => Err(LoadErrorView::UnresolvedReference(k)),
            }
        },
    }
}

pub open spec fn load_result_view(r: Result<Fragment, LoadError>) -> Result<
    Seq<Seq<ComponentView>>,
    LoadErrorView,
> {
    match r {
        Ok(f) => Ok(f@),
        Err(e) => Err(e@),
    }
}

/// Finishes a load from the decoded entities: rejects an empty fragment and resolves
/// every registered reference against `url`.
pub fn load_decoded(
    url: &str,
    decoded: Option<Vec<Vec<Component>>>,
    reg: &ResolverRegistry,
) -> (r: Result<Fragment, LoadError>)
    ensures
        load_result_view(r) == load_spec(
            url@,
            match decoded {
                Some(d) => Some(entities_view(d@)),
                None => None,
            },
            reg@,
        ),
        r matches Ok(f) ==> f.kinds() == reg@,
{
    match decoded {
        None => Err(LoadError::Decode { url: String::from_str(url) }),
        Some(d) => {
            if d.len() == 0 {
                Err(LoadError::EmptyFragment)
            } else {
                match resolve_all(&d, reg, url) {
                    Ok(entities) => {
                        proof {
                            lemma_resolved_entities(entities_view(d@), reg@, url@);
                        }
                        Ok(Fragment { entities, kinds: Ghost(reg@) })
                    },
                    Err(kind) => Err(LoadError::UnresolvedReference { kind }),
                }
            }
        },
    }
}

#[verifier::external_type_specification]
#[verifier::external_body]
pub struct ExJsonError(serde_json::Error);

/// The entities that serde_json reads from `b` as an array of entities, each an array
/// of `[kind, value]` pairs; `None` where `b` is not such a document.
pub uninterp spec fn json_entities(b: Seq<u8>) -> Option<Seq<Seq<ComponentView>>>;

/// Relies on serde_json::from_slice into `Vec<Vec<(u32, String)>>`: the result is a
/// function of the bytes alone.
#[verifier::external_body]
fn decode_entities(b: &[u8]) -> (r: Result<Vec<Vec<Component>>, serde_json::Error>)
    ensures
        match r {
            Ok(v) => json_entities(b@) == Some(entities_view(v@)),
            Err(_) => json_entities(b@) is None,
        },
{
    serde_json::from_slice::<Vec<Vec<(u32, String)>>>(b).map(
        |v| v.into_iter().map(|e| e.into_iter().map(|(kind, value)| Component { kind, value }).collect()).collect(),
    )
}

/// Loads the fragment at `url` from its fetched bytes.
pub fn load_from_bytes(url: &str, bytes: &[u8], reg: &ResolverRegistry) -> (r: Result<
    Fragment,
    LoadError,
>)
    ensures
        load_result_view(r) == load_spec(url@, json_entities(bytes@), reg@),
{
    let decoded = match decode_entities(bytes) {
        Ok(v) => Some(v),
        Err(_) => None,
    };
    load_decoded(url, decoded, reg)
}

} // verus!
