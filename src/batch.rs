use vstd::prelude::*;
use vstd::string::*;
use crate::fragment::{entity_view, ComponentView, Fragment};
use crate::url::same_text;
use crate::world::{lemma_merge_components, merge_components, merged_onto, sets_no_kind, EntityRecord, World};

verus! {

/// The path under which an object's fragment is stored.
pub open spec fn fragment_suffix() -> Seq<char> {
    "/objects/main.json"@
}

pub open spec fn ends_with(s: Seq<char>, suffix: Seq<char>) -> bool {
    s.len() >= suffix.len() && s.subrange(s.len() - suffix.len(), s.len() as int) == suffix
}

/// A requested URL as a fragment URL: a bare object URL gets the fragment path.
pub open spec fn normalize(u: Seq<char>) -> Seq<char> {
    if ends_with(u, fragment_suffix()) {
        u
    } else {
        u + fragment_suffix()
    }
}

pub fn normalize_object_url(url: &str) -> (r: String)
    ensures
        r@ == normalize(url@),
{
    let suffix = "/objects/main.json";
    proof {
        reveal_strlit("/objects/main.json");
    }
    let n = url.unicode_len();
    let m = suffix.unicode_len();
    if n >= m && same_text(url.substring_char(n - m, n), suffix) {
        String::from_str(url)
    } else {
        let mut r = String::from_str(url);
        r.append(suffix);
        r
    }
}

/// An entity that asks to become the object at `url`.
pub struct ObjectRequest {
    pub entity: usize,
    pub url: String,
}

/// The requesters, in order, of the entities among `reqs` whose normalized URL is `u`.
pub open spec fn ids_for(reqs: Seq<ObjectRequest>, u: Seq<char>) -> Seq<usize>
    decreases reqs.len(),
{
    if reqs.len() == 0 {
        seq![]
    } else {
        let p = ids_for(reqs.drop_last(), u);
        if normalize(reqs.last().url@) == u {
            p.push(reqs.last().entity)
        } else {
            p
        }
    }
}

pub open spec fn has_url(v: Seq<String>, u: Seq<char>) -> bool {
    exists|a: int| 0 <= a < v.len() && v[a]@ == u
}

pub open spec fn has_group(g: Seq<UrlGroup>, u: Seq<char>) -> bool {
    exists|a: int| 0 <= a < g.len() && g[a].url@ == u
}

proof fn lemma_ids_for_nonempty(reqs: Seq<ObjectRequest>, k: int, u: Seq<char>)
    requires
        0 <= k < reqs.len(),
        normalize(reqs[k].url@) == u,
    ensures
        ids_for(reqs, u).len() > 0,
    decreases reqs.len(),
{
    if k < reqs.len() - 1 {
        lemma_ids_for_nonempty(reqs.drop_last(), k, u);
    }
}

/// The requesters of one fragment URL.
pub struct UrlGroup {
    pub url: String,
    pub ids: Vec<usize>,
}

fn contains_text(v: &Vec<String>, s: &str) -> (r: bool)
    ensures
        r == exists|i: int| 0 <= i < v@.len() && v@[i]@ == s@,
{
    let mut i: usize = 0;
    while i < v.len()
        invariant
            i <= v@.len(),
            forall|j: int| 0 <= j < i ==> v@[j]@ != s@,
        decreases v@.len() - i,
    {
        if same_text(v[i].as_str(), s) {
            return true;
        }
        i = i + 1;
    }
    false
}

fn collect_ids(reqs: &Vec<ObjectRequest>, norms: &Vec<String>, u: &str) -> (r: Vec<usize>)
    requires
        norms@.len() == reqs@.len(),
        forall|k: int| 0 <= k < reqs@.len() ==> (#[trigger] norms@[k])@ == normalize(reqs@[k].url@),
    ensures
        r@ == ids_for(reqs@, u@),
{
    let mut ids: Vec<usize> = Vec::new();
    let mut k: usize = 0;
    while k < reqs.len()
        invariant
            k <= reqs@.len(),
            norms@.len() == reqs@.len(),
            forall|k: int| 0 <= k < reqs@.len() ==> (#[trigger] norms@[k])@ == normalize(reqs@[k].url@),
            ids@ == ids_for(reqs@.subrange(0, k as int), u@),
        decreases reqs@.len() - k,
    {
        assert(reqs@.subrange(0, k + 1).drop_last() =~= reqs@.subrange(0, k as int));
        if same_text(norms[k].as_str(), u) {
            ids.push(reqs[k].entity);
        }
        k = k + 1;
    }
    assert(reqs@.subrange(0, reqs@.len() as int) =~= reqs@);
    ids
}

/// The normalized URL of each request, and the distinct ones among them.
fn distinct_urls(reqs: &Vec<ObjectRequest>) -> (r: (Vec<String>, Vec<String>))
    ensures
        r.0@.len() == reqs@.len(),
        forall|j: int| 0 <= j < reqs@.len() ==> (#[trigger] r.0@[j])@ == normalize(reqs@[j].url@),
        forall|a: int, b: int| 0 <= a < r.1@.len() && 0 <= b < r.1@.len() && a != b ==> r.1@[a]@ != r.1@[b]@,
        forall|j: int| 0 <= j < reqs@.len() ==> has_url(r.1@, (#[trigger] r.0@[j])@),
        forall|a: int| 0 <= a < r.1@.len() ==> has_url(r.0@, (#[trigger] r.1@[a])@),
{
    let mut norms: Vec<String> = Vec::new();
    let mut urls: Vec<String> = Vec::new();
    let ghost mut at: Seq<int> = seq![];
    let ghost mut src: Seq<int> = seq![];
    let mut k: usize = 0;
    while k < reqs.len()
        invariant
            k <= reqs@.len(),
            norms@.len() == k,
            at.len() == k,
            src.len() == urls@.len(),
            forall|j: int| 0 <= j < k ==> (#[trigger] norms@[j])@ == normalize(reqs@[j].url@),
            forall|a: int, b: int| 0 <= a < urls@.len() && 0 <= b < urls@.len() && a != b ==> urls@[a]@ != urls@[b]@,
            forall|j: int| 0 <= j < k ==> 0 <= #[trigger] at[j] < urls@.len() && urls@[at[j]]@ == norms@[j]@,
            forall|a: int| 0 <= a < urls@.len() ==> 0 <= #[trigger] src[a] < k && norms@[src[a]]@ == urls@[a]@,
        decreases reqs@.len() - k,
    {
        let n = normalize_object_url(reqs[k].url.as_str());
        let ghost prev = urls@;
        let found = contains_text(&urls, n.as_str());
        if !found {
            urls.push(String::from_str(n.as_str()));
            proof {
                src = src.push(k as int);
                at = at.push(prev.len() as int);
            }
        } else {
            proof {
                let a = choose|a: int| 0 <= a < prev.len() && prev[a]@ == n@;
                at = at.push(a);
            }
        }
        norms.push(n);
        k = k + 1;
    }
    let r = (norms, urls);
    assert forall|j: int| 0 <= j < reqs@.len() implies has_url(r.1@, (#[trigger] r.0@[j])@) by {
        assert(0 <= at[j] < r.1@.len());
        assert(r.1@[at[j]]@ == r.0@[j]@);
    }
    assert forall|a: int| 0 <= a < r.1@.len() implies has_url(r.0@, (#[trigger] r.1@[a])@) by {
        assert(0 <= src[a] < k);
        assert(r.0@[src[a]]@ == r.1@[a]@);
    }
    r
}

/// Groups requests by normalized URL: one group per distinct URL, holding its
/// requesters in order, so that each URL is fetched once.
#[verifier::rlimit(50)]
pub fn group_requests(reqs: &Vec<ObjectRequest>) -> (r: Vec<UrlGroup>)
    ensures
        forall|a: int, b: int| 0 <= a < r@.len() && 0 <= b < r@.len() && a != b ==> r@[a].url@ != r@[b].url@,
        forall|k: int| 0 <= k < reqs@.len() ==> has_group(r@, normalize(#[trigger] reqs@[k].url@)),
        forall|a: int| 0 <= a < r@.len() ==> (#[trigger] r@[a]).ids@ == ids_for(reqs@, r@[a].url@),
        forall|a: int| 0 <= a < r@.len() ==> ids_for(reqs@, (#[trigger] r@[a]).url@).len() > 0,
{
    let (norms, urls) = distinct_urls(reqs);
    let mut groups: Vec<UrlGroup> = Vec::new();
    let mut a: usize = 0;
    while a < urls.len()
        invariant
            a <= urls@.len(),
            norms@.len() == reqs@.len(),
            forall|j: int| 0 <= j < reqs@.len() ==> (#[trigger] norms@[j])@ == normalize(reqs@[j].url@),
            groups@.len() == a,
            forall|b: int| 0 <= b < a ==> (#[trigger] groups@[b]).url@ == urls@[b]@,
            forall|b: int| 0 <= b < a ==> (#[trigger] groups@[b]).ids@ == ids_for(reqs@, urls@[b]@),
        decreases urls@.len() - a,
    {
        let ids = collect_ids(reqs, &norms, urls[a].as_str());
        groups.push(UrlGroup { url: String::from_str(urls[a].as_str()), ids });
        a = a + 1;
    }
    assert forall|k: int| 0 <= k < reqs@.len() implies has_group(groups@, normalize(#[trigger] reqs@[k].url@)) by {
        assert(norms@[k]@ == normalize(reqs@[k].url@));
        assert(has_url(urls@, norms@[k]@));
        let a = choose|a: int| 0 <= a < urls@.len() && urls@[a]@ == norms@[k]@;
        assert(groups@[a].url@ == urls@[a]@);
    }
    assert forall|a: int| 0 <= a < groups@.len() implies ids_for(reqs@, (#[trigger] groups@[a]).url@).len() > 0 by {
        assert(groups@[a].url@ == urls@[a]@);
        assert(has_url(norms@, urls@[a]@));
        let k = choose|k: int| 0 <= k < norms@.len() && norms@[k]@ == urls@[a]@;
        assert(norms@[k]@ == normalize(reqs@[k].url@));
        lemma_ids_for_nonempty(reqs@, k, urls@[a]@);
    }
    assert forall|a: int, b: int| 0 <= a < groups@.len() && 0 <= b < groups@.len() && a != b implies groups@[a].url@ != groups@[b].url@ by {
        assert(groups@[a].url@ == urls@[a]@);
        assert(groups@[b].url@ == urls@[b]@);
    }
    groups
}

/// The world after the components `cs` are set on each entity of `ids` that exists.
pub open spec fn merge_into(w: Seq<EntityRecord>, ids: Seq<usize>, cs: Seq<ComponentView>) -> Seq<EntityRecord>
    decreases ids.len(),
{
    if ids.len() == 0 {
        w
    } else {
        let w1 = merge_into(w, ids.drop_last(), cs);
        let id = ids.last() as int;
        if id < w1.len() {
            w1.update(id, EntityRecord { components: merge_components(w1[id].components, cs), ..w1[id] })
        } else {
            w1
        }
    }
}

proof fn lemma_merge_into_len(w: Seq<EntityRecord>, ids: Seq<usize>, cs: Seq<ComponentView>)
    ensures
        merge_into(w, ids, cs).len() == w.len(),
    decreases ids.len(),
{
    if ids.len() > 0 {
        lemma_merge_into_len(w, ids.drop_last(), cs);
    }
}

/// Every requester that exists ends up with the components of the object's entity
/// (each that no later one of its kind replaces) besides those of its own of other
/// kinds, and keeps its identity and transform; no entity is added, and an entity
/// that did not ask is left as it was.
pub proof fn lemma_merge_into_requesters(w: Seq<EntityRecord>, ids: Seq<usize>, cs: Seq<ComponentView>)
    requires
        w.len() <= usize::MAX,
    ensures
        merge_into(w, ids, cs).len() == w.len(),
        forall|id: int|
            0 <= id < w.len() ==> {
                let r = #[trigger] merge_into(w, ids, cs)[id];
                if ids.contains(id as usize) {
                    &&& merged_onto(w[id].components, r.components, cs)
                    &&& r.uid == w[id].uid
                    &&& r.transform == w[id].transform
                } else {
                    r == w[id]
                }
            },
    decreases ids.len(),
{
    lemma_merge_into_len(w, ids, cs);
    if ids.len() > 0 {
        let d = ids.drop_last();
        let t = ids.last();
        let w1 = merge_into(w, d, cs);
        lemma_merge_into_requesters(w, d, cs);
        lemma_merge_into_len(w, d, cs);
        assert forall|id: int| 0 <= id < w.len() implies {
            let r = #[trigger] merge_into(w, ids, cs)[id];
            if ids.contains(id as usize) {
                &&& merged_onto(w[id].components, r.components, cs)
                &&& r.uid == w[id].uid
                &&& r.transform == w[id].transform
            } else {
                r == w[id]
            }
        } by {
            let r = merge_into(w, ids, cs)[id];
            let r1 = w1[id];
            assert(ids.contains(id as usize) <==> (d.contains(id as usize) || t == id as usize)) by {
                if ids.contains(id as usize) {
                    let i = choose|i: int| 0 <= i < ids.len() && ids[i] == id as usize;
                    if i < d.len() {
                        assert(d[i] == ids[i]);
                    }
                }
                if d.contains(id as usize) {
                    let i = choose|i: int| 0 <= i < d.len() && d[i] == id as usize;
                    assert(ids[i] == d[i]);
                }
                assert(ids[ids.len() - 1] == t);
            }
            let m = merge_into(w, ids, cs);
            assert(m == if (t as int) < w1.len() {
                w1.update(t as int, EntityRecord { components: merge_components(w1[t as int].components, cs), ..w1[t as int] })
            } else {
                w1
            });
            if t as int == id {
                lemma_merge_components(r1.components, cs);
                let after = merge_components(r1.components, cs);
                assert(r.components == after);
                assert(r.uid == r1.uid && r.transform == r1.transform);
                if d.contains(id as usize) {
                    assert(merged_onto(w[id].components, r1.components, cs));
                    assert(r1.uid == w[id].uid && r1.transform == w[id].transform);
                } else {
                    assert(r1 == w[id]);
                }
                assert forall|x: ComponentView| w[id].components.contains(x) && sets_no_kind(cs, x.0) implies #[trigger] after.contains(x) by {
                    assert(r1.components.contains(x));
                }
                assert(merged_onto(w[id].components, r.components, cs));
            } else {
                assert(r == r1);
            }
        }
    }
}

/// Makes each requester the object: the components of the fragment's first entity
/// are set on it, and no entity is created. Only the first entity of a fragment is
/// used this way; the result says whether the fragment had more.
pub fn merge_object(world: &mut World, ids: &Vec<usize>, object: &Fragment) -> (r: bool)
    ensures
        r == (object@.len() > 1),
        object@.len() == 0 ==> final(world)@ == old(world)@,
        object@.len() > 0 ==> final(world)@ == merge_into(old(world)@, ids@, object@[0]),
{
    if object.len() == 0 {
        return false;
    }
    let base = object.entity(0);
    let ghost w0 = world@;
    let ghost cs = object@[0];
    let mut i: usize = 0;
    assert(ids@.subrange(0, 0) =~= seq![]);
    while i < ids.len()
        invariant
            i <= ids@.len(),
            w0 == old(world)@,
            cs == entity_view(base@),
            world@ == merge_into(w0, ids@.subrange(0, i as int), cs),
        decreases ids@.len() - i,
    {
        assert(ids@.subrange(0, i + 1).drop_last() =~= ids@.subrange(0, i as int));
        proof {
            lemma_merge_into_len(w0, ids@.subrange(0, i as int), cs);
        }
        if ids[i] < world.len() {
            world.add_components(ids[i], base);
        }
        i = i + 1;
    }
    assert(ids@.subrange(0, ids@.len() as int) =~= ids@);
    object.len() > 1
}

} // verus!
