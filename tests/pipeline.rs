use std::sync::Arc;

use kiwi_object::batch::{group_requests, merge_object, normalize_object_url, ObjectRequest};
use kiwi_object::cache::{FragmentCache, Request};
use kiwi_object::fragment::{
    load_decoded, load_from_bytes, Component, Fragment, LoadError, ResolverRegistry, COLLIDER_KIND, DECAL_KIND,
    MODEL_DEF_KIND,
};
use kiwi_object::identity::MultiEntityUID;
use kiwi_object::pipeline::{on_fetched, prefetch, ObjectFromUrl};
use kiwi_object::url::{is_absolute_url, resolve_reference};
use kiwi_object::world::{resolve_object_url, spawn, spawn_loaded, spawn_preloaded_by_url, SpawnConfig, SpawnError, World};

const MAIN: &str = "http://h/objects/main.json";

fn bits3(a: f32, b: f32, c: f32) -> [u32; 3] {
    [a.to_bits(), b.to_bits(), c.to_bits()]
}

fn identity_rotation() -> [u32; 4] {
    [0f32.to_bits(), 0f32.to_bits(), 0f32.to_bits(), 1f32.to_bits()]
}

fn config(ns: &str) -> SpawnConfig {
    SpawnConfig::new(
        MultiEntityUID::from_namespace(ns.to_string()),
        bits3(1.0, 2.0, 3.0),
        identity_rotation(),
        bits3(1.0, 1.0, 1.0),
    )
    .unwrap()
}

fn two_entity_json() -> Vec<u8> {
    br#"[[[1, "models/tree.json"], [9, "oak"]], [[2, "/colliders/box.json"]]]"#.to_vec()
}

fn loaded(url: &str, bytes: &[u8]) -> Arc<Fragment> {
    Arc::new(load_from_bytes(url, bytes, &ResolverRegistry::standard()).unwrap())
}

fn comp(f: &Fragment, e: usize, c: usize) -> (u32, String) {
    let x = &f.entity(e)[c];
    (x.kind, x.value.clone())
}

#[test]
fn spawn_two_entities_named_by_group() {
    let mut cache = FragmentCache::new();
    assert!(matches!(cache.request(MAIN, 1), Request::Fetch));
    let (result, waiters) = on_fetched(&mut cache, &ObjectFromUrl(MAIN.to_string()), Ok(two_entity_json()), &ResolverRegistry::standard());
    assert!(result.is_ok());
    assert_eq!(waiters, vec![1]);

    let mut world = World::new();
    let cfg = config("grp");
    let ids = spawn_preloaded_by_url(&mut world, &cache, "http://h", MAIN, &cfg).unwrap();
    assert_eq!(ids, vec![0, 1]);
    assert_eq!(world.len(), 2);
    assert_eq!(world.uid(0), Some("grp_0"));
    assert_eq!(world.uid(1), Some("grp_1"));
    let t = world.transform(0).unwrap();
    assert_eq!(t.position, bits3(1.0, 2.0, 3.0));
    assert_eq!(t.rotation, identity_rotation());
    assert_eq!(t.scale, bits3(1.0, 1.0, 1.0));
    assert!(world.transform(1).is_none());
    let c0 = world.components(0);
    assert_eq!(c0[0].value, "http://h/objects/models/tree.json");
    assert_eq!(c0[1].value, "oak");
    assert_eq!(world.components(1)[0].value, "http://h/colliders/box.json");
}

#[test]
fn batch_requesters_share_one_fetch() {
    let mut world = World::new();
    let a = world.spawn_entity(vec![Component::new(50, "http://h/obj".to_string())]);
    let b = world.spawn_entity(vec![Component::new(50, "http://h/obj".to_string())]);
    let reqs = vec![
        ObjectRequest { entity: a, url: "http://h/obj".to_string() },
        ObjectRequest { entity: b, url: "http://h/obj".to_string() },
    ];
    let groups = group_requests(&reqs);
    assert_eq!(groups.len(), 1);
    assert_eq!(groups[0].url, "http://h/obj/objects/main.json");
    assert_eq!(groups[0].ids, vec![a, b]);

    let mut cache = FragmentCache::new();
    let mut fetches = 0;
    for g in &groups {
        if let Request::Fetch = cache.request(&g.url, 7) {
            fetches += 1;
        }
    }
    assert_eq!(fetches, 1);
    let bytes = br#"[[[1, "m.json"], [4, "red"]]]"#.to_vec();
    let (result, _) = on_fetched(&mut cache, &ObjectFromUrl(groups[0].url.clone()), Ok(bytes), &ResolverRegistry::standard());
    let frag = result.unwrap();
    let more = merge_object(&mut world, &groups[0].ids, &frag);
    assert!(!more);
    assert_eq!(world.len(), 2);
    for id in [a, b] {
        let cs = world.components(id);
        assert_eq!(cs.len(), 3);
        assert_eq!(cs[0].kind, 50);
        assert_eq!(cs[1].kind, 1);
        assert_eq!(cs[1].value, "http://h/obj/objects/m.json");
        assert_eq!(cs[2].value, "red");
    }
}

#[test]
fn preloaded_spawn_on_cold_cache_fails() {
    let cache = FragmentCache::new();
    let mut world = World::new();
    world.spawn_entity(vec![Component::new(3, "x".to_string())]);
    let r = spawn_preloaded_by_url(&mut world, &cache, "http://h", "http://h/never/objects/main.json", &config("g"));
    match r {
        Err(SpawnError::NotPreloaded { url }) => assert_eq!(url, "http://h/never/objects/main.json"),
        other => panic!("unexpected {:?}", other.err()),
    }
    assert_eq!(world.len(), 1);
    assert_eq!(world.uid(0), None);
}

#[test]
fn preloaded_spawn_while_pending_fails() {
    let mut cache = FragmentCache::new();
    cache.request(MAIN, 1);
    let mut world = World::new();
    let r = spawn_preloaded_by_url(&mut world, &cache, "http://h", "objects/main.json", &config("g"));
    assert!(matches!(r, Err(SpawnError::NotPreloaded { .. })));
    assert_eq!(world.len(), 0);
}

#[test]
fn preloaded_spawn_with_relative_base_is_invalid() {
    let cache = FragmentCache::new();
    let mut world = World::new();
    let r = spawn_preloaded_by_url(&mut world, &cache, "not-a-url", "objects/main.json", &config("g"));
    assert!(matches!(r, Err(SpawnError::InvalidUrl { .. })));
}

#[test]
fn concurrent_requests_single_fetch() {
    let mut cache = FragmentCache::new();
    assert!(matches!(cache.request(MAIN, 10), Request::Fetch));
    assert!(matches!(cache.request(MAIN, 11), Request::Wait));
    assert!(matches!(cache.request(MAIN, 12), Request::Wait));
    assert!(cache.peek(MAIN).is_none());
    let (result, waiters) = on_fetched(&mut cache, &ObjectFromUrl(MAIN.to_string()), Ok(two_entity_json()), &ResolverRegistry::standard());
    assert_eq!(waiters, vec![10, 11, 12]);
    let first = result.unwrap();
    match cache.request(MAIN, 13) {
        Request::Ready(f) => assert!(Arc::ptr_eq(&f, &first)),
        _ => panic!("expected a cached fragment"),
    }
    let peeked = cache.peek(MAIN).unwrap();
    assert!(Arc::ptr_eq(&peeked, &first));
}

#[test]
fn absolute_references_unchanged() {
    let bytes = br#"[[[1, "http://cdn/models/a.json"], [3, "https://cdn/decals/d.json"]]]"#;
    let f = loaded(MAIN, bytes);
    assert_eq!(comp(&f, 0, 0), (1, "http://cdn/models/a.json".to_string()));
    assert_eq!(comp(&f, 0, 1), (3, "https://cdn/decals/d.json".to_string()));
}

#[test]
fn unresolved_reference_not_cached() {
    let mut cache = FragmentCache::new();
    let url = "http://h/bad/objects/main.json";
    assert!(matches!(cache.request(url, 1), Request::Fetch));
    let bytes = br#"[[[9, "keep"], [2, ""]]]"#.to_vec();
    let (result, waiters) = on_fetched(&mut cache, &ObjectFromUrl(url.to_string()), Ok(bytes), &ResolverRegistry::standard());
    assert!(matches!(result, Err(LoadError::UnresolvedReference { kind: 2 })));
    assert_eq!(waiters, vec![1]);
    assert!(cache.peek(url).is_none());
    assert!(matches!(cache.request(url, 2), Request::Fetch));
}

#[test]
fn fetch_failure_not_cached() {
    let mut cache = FragmentCache::new();
    cache.request(MAIN, 1);
    cache.request(MAIN, 2);
    let (result, waiters) = on_fetched(&mut cache, &ObjectFromUrl(MAIN.to_string()), Err("timed out".to_string()), &ResolverRegistry::standard());
    match result {
        Err(LoadError::Fetch { message }) => assert_eq!(message, "timed out"),
        other => panic!("unexpected {:?}", other.err()),
    }
    assert_eq!(waiters, vec![1, 2]);
    assert!(matches!(cache.request(MAIN, 3), Request::Fetch));
}

#[test]
fn non_finite_config_rejected() {
    let uids = || MultiEntityUID::from_namespace("g".to_string());
    let ok = bits3(0.0, 0.0, 0.0);
    let r = SpawnConfig::new(uids(), bits3(f32::NAN, 0.0, 0.0), identity_rotation(), bits3(1.0, 1.0, 1.0));
    assert!(matches!(r, Err(SpawnError::NonFinite)));
    let r = SpawnConfig::new(uids(), ok, [0, 0, f32::INFINITY.to_bits(), 0], bits3(1.0, 1.0, 1.0));
    assert!(matches!(r, Err(SpawnError::NonFinite)));
    let r = SpawnConfig::new(uids(), ok, identity_rotation(), bits3(1.0, f32::NEG_INFINITY, 1.0));
    assert!(matches!(r, Err(SpawnError::NonFinite)));
    let r = SpawnConfig::new(uids(), bits3(f32::MAX, -0.0, 1e-40), identity_rotation(), ok);
    assert!(r.is_ok());
}

#[test]
fn identity_derivation_deterministic() {
    let g = MultiEntityUID::from_namespace("grp".to_string());
    assert_eq!(g.get_uid(0), "grp_0");
    assert_eq!(g.get_uid(0), g.get_uid(0));
    assert_eq!(g.get_uid(12), "grp_12");
    assert_ne!(g.get_uid(1), g.get_uid(10));
    assert_eq!(g.get_uid(usize::MAX), format!("grp_{}", usize::MAX));
}

#[test]
fn fresh_namespace_is_not_empty() {
    let g = MultiEntityUID::new();
    assert!(!g.as_str().is_empty());
    assert!(g.get_uid(3).ends_with("_3"));
}

#[test]
fn decode_error_names_url() {
    let r = load_from_bytes(MAIN, b"{not json", &ResolverRegistry::standard());
    match r {
        Err(LoadError::Decode { url }) => assert_eq!(url, MAIN),
        other => panic!("unexpected {:?}", other.err()),
    }
}

#[test]
fn empty_fragment_rejected() {
    let r = load_from_bytes(MAIN, b"[]", &ResolverRegistry::standard());
    assert!(matches!(r, Err(LoadError::EmptyFragment)));
    let r = load_decoded(MAIN, Some(vec![]), &ResolverRegistry::standard());
    assert!(matches!(r, Err(LoadError::EmptyFragment)));
}

#[test]
fn decoded_fragment_resolves_registered_kinds_only() {
    let mut reg = ResolverRegistry::new();
    reg.register(DECAL_KIND);
    reg.register(DECAL_KIND);
    assert!(reg.is_registered(DECAL_KIND));
    assert!(!reg.is_registered(MODEL_DEF_KIND));
    let decoded = vec![vec![Component::new(MODEL_DEF_KIND, "m.json".to_string()), Component::new(DECAL_KIND, "d.json".to_string())]];
    let f = load_decoded("http://h/a/b.json", Some(decoded), &reg).unwrap();
    assert_eq!(comp(&f, 0, 0), (MODEL_DEF_KIND, "m.json".to_string()));
    assert_eq!(comp(&f, 0, 1), (DECAL_KIND, "http://h/a/d.json".to_string()));
    assert!(matches!(load_decoded(MAIN, None, &reg), Err(LoadError::Decode { .. })));
}

#[test]
fn standard_registry_kinds() {
    let reg = ResolverRegistry::standard();
    assert!(reg.is_registered(MODEL_DEF_KIND));
    assert!(reg.is_registered(COLLIDER_KIND));
    assert!(reg.is_registered(DECAL_KIND));
    assert!(!reg.is_registered(0));
}

#[test]
fn reference_resolution() {
    assert_eq!(resolve_reference("a/b.json", "http://h/x/y.json").unwrap(), "http://h/x/a/b.json");
    assert_eq!(resolve_reference("/a.json", "http://h/x/y.json").unwrap(), "http://h/a.json");
    assert_eq!(resolve_reference("a.json", "http://h").unwrap(), "http://h/a.json");
    assert_eq!(resolve_reference("/a.json", "http://h").unwrap(), "http://h/a.json");
    assert_eq!(resolve_reference("ftp://o/a", "http://h/x").unwrap(), "ftp://o/a");
    assert!(resolve_reference("a.json", "relative/base").is_none());
    assert!(resolve_reference("", "http://h/x").is_none());
    assert!(is_absolute_url("http://h"));
    assert!(!is_absolute_url("://h"));
    assert_eq!(resolve_object_url("http://h", "objects/main.json").unwrap(), "http://h/objects/main.json");
}

#[test]
fn normalize_adds_fragment_path() {
    assert_eq!(normalize_object_url("http://h/obj"), "http://h/obj/objects/main.json");
    assert_eq!(normalize_object_url(MAIN), MAIN);
    assert_eq!(normalize_object_url(""), "/objects/main.json");
}

#[test]
fn grouping_keeps_distinct_urls_apart() {
    let reqs = vec![
        ObjectRequest { entity: 4, url: "http://h/a".to_string() },
        ObjectRequest { entity: 5, url: "http://h/b/objects/main.json".to_string() },
        ObjectRequest { entity: 6, url: "http://h/a/objects/main.json".to_string() },
        ObjectRequest { entity: 7, url: "http://h/b".to_string() },
    ];
    let groups = group_requests(&reqs);
    assert_eq!(groups.len(), 2);
    assert_eq!(groups[0].url, "http://h/a/objects/main.json");
    assert_eq!(groups[0].ids, vec![4, 6]);
    assert_eq!(groups[1].url, "http://h/b/objects/main.json");
    assert_eq!(groups[1].ids, vec![5, 7]);
    assert!(group_requests(&vec![]).is_empty());
}

#[test]
fn merge_uses_first_entity_and_replaces_kind() {
    let mut world = World::new();
    let id = world.spawn_entity(vec![Component::new(4, "blue".to_string()), Component::new(8, "k".to_string())]);
    let frag = loaded(MAIN, &two_entity_json());
    let more = merge_object(&mut world, &vec![id, 99], &frag);
    assert!(more);
    let cs = world.components(id);
    assert_eq!(cs.len(), 4);
    assert_eq!((cs[0].kind, cs[0].value.as_str()), (4, "blue"));
    assert_eq!((cs[1].kind, cs[1].value.as_str()), (8, "k"));
    assert_eq!(cs[2].kind, 1);
    assert_eq!((cs[3].kind, cs[3].value.as_str()), (9, "oak"));
    world.add_components(id, &vec![Component::new(4, "green".to_string())]);
    let cs = world.components(id);
    assert_eq!(cs.len(), 4);
    assert_eq!((cs[3].kind, cs[3].value.as_str()), (4, "green"));
}

#[test]
fn spawn_loaded_appends_after_existing_entities() {
    let mut world = World::new();
    world.spawn_entity(vec![]);
    let frag = loaded(MAIN, &two_entity_json());
    let ids = spawn_loaded(&mut world, &Ok(frag.clone()), &config("z")).unwrap();
    assert_eq!(ids, vec![1, 2]);
    assert_eq!(world.uid(2), Some("z_1"));
    let ids = spawn(&mut world, &frag, &config("w"));
    assert_eq!(ids, vec![3, 4]);
    let err = spawn_loaded(&mut world, &Err(LoadError::EmptyFragment), &config("q"));
    assert!(matches!(err, Err(SpawnError::Load(LoadError::EmptyFragment))));
    assert_eq!(world.len(), 5);
}

#[test]
fn prefetch_resolves_against_base() {
    let mut cache = FragmentCache::new();
    let (url, req) = prefetch(&mut cache, "http://h", "/o/objects/main.json", 1).unwrap();
    assert_eq!(url, "http://h/o/objects/main.json");
    assert!(matches!(req, Request::Fetch));
    let (_, req) = prefetch(&mut cache, "http://h", "http://h/o/objects/main.json", 2).unwrap();
    assert!(matches!(req, Request::Wait));
    assert!(prefetch(&mut cache, "base", "rel", 3).is_none());
}

#[test]
fn object_key_load_decodes_and_resolves() {
    let key = ObjectFromUrl("http://h/x/objects/main.json".to_string());
    let f = key.load(Ok(br#"[[[3, "d.json"]], [[1, "/m.json"]]]"#.to_vec()), &ResolverRegistry::standard()).unwrap();
    assert_eq!(f.len(), 2);
    assert_eq!(comp(&f, 0, 0), (3, "http://h/x/objects/d.json".to_string()));
    assert_eq!(comp(&f, 1, 0), (1, "http://h/m.json".to_string()));
    let e = key.load(Err("offline".to_string()), &ResolverRegistry::standard());
    assert!(matches!(e, Err(LoadError::Fetch { .. })));
}

#[test]
fn dot_segments_and_reference_forms() {
    assert_eq!(resolve_reference("../a.json", MAIN).unwrap(), "http://h/a.json");
    assert_eq!(resolve_reference("./a.json", MAIN).unwrap(), "http://h/objects/a.json");
    assert_eq!(resolve_reference("../../../a.json", MAIN).unwrap(), "http://h/a.json");
    assert_eq!(resolve_reference("./../b/c.json", "http://h/x/y/z.json").unwrap(), "http://h/x/b/c.json");
    assert_eq!(resolve_reference("#f", "http://h/x?q#old").unwrap(), "http://h/x?q#f");
    assert_eq!(resolve_reference("?q2", "http://h/x?q#old").unwrap(), "http://h/x?q2");
    assert_eq!(resolve_reference("//cdn/a.json", MAIN).unwrap(), "http://cdn/a.json");
    assert!(!is_absolute_url("a/b://c"));
    assert!(!is_absolute_url("1http://x"));
    assert!(is_absolute_url("svn+ssh://x"));
    assert!(resolve_reference("a.json", "a/b://c/d").is_none());
}

#[test]
fn clock_namespace_is_exact() {
    let g = MultiEntityUID::namespace_from_clock(12, 5);
    assert_eq!(g.as_str(), "obj12x5");
    assert_eq!(g.get_uid(1), "obj12x5_1");
    assert!(MultiEntityUID::new().as_str().starts_with("obj"));
}

#[test]
fn object_key_get_is_single_flight() {
    let mut cache = FragmentCache::new();
    let key = ObjectFromUrl(MAIN.to_string());
    assert!(matches!(key.get(&mut cache, 1), Request::Fetch));
    assert!(matches!(key.get(&mut cache, 2), Request::Wait));
    let (_, waiters) = on_fetched(&mut cache, &key, Ok(two_entity_json()), &ResolverRegistry::standard());
    assert_eq!(waiters, vec![1, 2]);
    assert!(matches!(key.get(&mut cache, 3), Request::Ready(_)));
}

#[test]
fn dot_segments_anywhere_and_base_query() {
    assert_eq!(resolve_reference("a/../b.json", "http://h/x/y.json").unwrap(), "http://h/x/b.json");
    assert_eq!(resolve_reference("/a/./b/../c.json", "http://h/x/y.json").unwrap(), "http://h/a/c.json");
    assert_eq!(resolve_reference("c.json", "http://h/x/y.json?p=a/b").unwrap(), "http://h/x/c.json");
    assert_eq!(resolve_reference("a/..", "http://h/x/y.json").unwrap(), "http://h/x/");
    assert_eq!(resolve_reference("b.json?v=1#top", "http://h/x/y.json").unwrap(), "http://h/x/b.json?v=1#top");
    assert_eq!(resolve_reference("../b.json", "http://h").unwrap(), "http://h/b.json");
}

#[test]
fn merge_reaches_every_requester() {
    let mut world = World::new();
    let a = world.spawn_entity(vec![Component::new(7, "mine".to_string())]);
    let other = world.spawn_entity(vec![Component::new(7, "untouched".to_string())]);
    let b = world.spawn_entity(vec![]);
    let frag = loaded(MAIN, br#"[[[9, "x"], [4, "y"], [9, "z"]]]"#);
    merge_object(&mut world, &vec![a, b, a], &frag);
    for id in [a, b] {
        let cs: Vec<(u32, String)> = world.components(id).iter().map(|c| (c.kind, c.value.clone())).collect();
        assert!(cs.contains(&(9, "z".to_string())));
        assert!(cs.contains(&(4, "y".to_string())));
        assert!(!cs.contains(&(9, "x".to_string())));
    }
    assert_eq!(world.components(a)[0].value, "mine");
    assert_eq!(world.components(other).len(), 1);
    assert_eq!(world.components(other)[0].value, "untouched");
}
