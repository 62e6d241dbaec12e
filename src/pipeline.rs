use vstd::prelude::*;
use std::sync::Arc;
use crate::cache::{complete_spec, lemma_failure_not_cached, lemma_single_flight, request_all, request_spec, request_view, FragmentCache, Request, RequestView, SlotView};
use crate::fragment::{json_entities, load_from_bytes, load_result_view, load_spec, LoadError, LoadErrorView, ResolverRegistry, Fragment, ComponentView};
use crate::url::{resolve_ref, resolve_reference};

verus! {

pub open spec fn shared_result_view(r: Result<Arc<Fragment>, LoadError>) -> Result<Seq<Seq<ComponentView>>, LoadErrorView> {
    match r {
        Ok(f) => Ok((*f)@),
        Err(e) => Err(e@),
    }
}

/// What the fetch of `url` yields once it ends with `fetched` (`Err`: the fetch
/// layer's message).
pub open spec fn fetched_spec(url: Seq<char>, fetched: Result<Seq<u8>, Seq<char>>, kinds: Seq<u32>) -> Result<Seq<Seq<ComponentView>>, LoadErrorView> {
    match fetched {
        Err(m) => Err(LoadErrorView::Fetch(m)),
        Ok(b) => load_spec(url, json_entities(b), kinds),
    }
}

/// The cache key of the object whose fragment is stored at an absolute URL.
pub struct ObjectFromUrl(pub String);

impl ObjectFromUrl {
    /// Asks the cache for the key's fragment on behalf of `waiter`: only the first
    /// asker while nothing is cached or under way is told to fetch.
    pub fn get(&self, cache: &mut FragmentCache, waiter: u64) -> (r: Request)
        requires
            old(cache).wf(),
        ensures
            final(cache).wf(),
            (final(cache)@, request_view(r)) == request_spec(old(cache)@, self.0@, waiter),
            r matches Request::Ready(f) ==> (*f).wf(),
    {
        cache.request(self.0.as_str(), waiter)
    }

    /// The fragment, from what the fetch of the key's URL yielded: decoded, checked to
    /// be non-empty, and with every registered reference made absolute against the URL.
    pub fn load(&self, fetched: Result<Vec<u8>, String>, reg: &ResolverRegistry) -> (r: Result<Fragment, LoadError>)
        ensures
            load_result_view(r) == fetched_spec(
                self.0@,
                match fetched {
                    Ok(b) => Ok(b@),
                    Err(m) => Err(m@),
                },
                reg@,
            ),
    {
        match fetched {
            Err(message) => Err(LoadError::Fetch { message }),
            Ok(bytes) => load_from_bytes(self.0.as_str(), bytes.as_slice(), reg),
        }
    }
}

/// Ends the fetch of the key's URL: loads the fragment from what was fetched, records the
/// outcome in the cache and returns it with the waiters to notify, in order.
pub fn on_fetched(
    cache: &mut FragmentCache,
    key: &ObjectFromUrl,
    fetched: Result<Vec<u8>, String>,
    reg: &ResolverRegistry,
) -> (r: (Result<Arc<Fragment>, LoadError>, Vec<u64>))
    requires
        old(cache).wf(),
    ensures
        final(cache).wf(),
        shared_result_view(r.0) == fetched_spec(
            key.0@,
            match fetched {
                Ok(b) => Ok(b@),
                Err(m) => Err(m@),
            },
            reg@,
        ),
        (final(cache)@, r.1@) == complete_spec(
            old(cache)@,
            key.0@,
            match r.0 {
                Ok(f) => Some((*f)@),
                Err(_) => None,
            },
        ),
{
    let result = match key.load(fetched, reg) {
        Ok(f) => Ok(Arc::new(f)),
        Err(e) => Err(e),
    };
    let waiters = cache.complete(key.0.as_str(), &result);
    (result, waiters)
}

/// Any number of `get`s of one URL that nothing is cached or under way for share one
/// fetch, asked of the first; `on_fetched` then notifies every one of them, in order,
/// of the one outcome of the load. A fragment stays cached, and later `get`s receive
/// it without a fetch; a failure leaves nothing, and the next `get` fetches again.
pub proof fn lemma_load_single_flight(
    m: Map<Seq<char>, SlotView>,
    url: Seq<char>,
    waiters: Seq<u64>,
    fetched: Result<Seq<u8>, Seq<char>>,
    kinds: Seq<u32>,
    later: u64,
)
    requires
        !m.contains_key(url),
        waiters.len() > 0,
    ensures
        ({
            let (m1, rs) = request_all(m, url, waiters);
            let outcome = fetched_spec(url, fetched, kinds);
            let (m2, notified) = complete_spec(m1, url, match outcome {
                Ok(f) => Some(f),
                Err(_) => None,
            });
            &&& rs.len() == waiters.len()
            &&& rs[0] == RequestView::Fetch
            &&& forall|i: int| 0 < i < rs.len() ==> rs[i] == RequestView::Wait
            &&& notified == waiters
            &&& match outcome {
                Ok(f) => request_spec(m2, url, later) == (m2, RequestView::Ready(f)),
                Err(_) => request_spec(m2, url, later).1 == RequestView::Fetch,
            }
        }),
{
    match fetched_spec(url, fetched, kinds) {
        Ok(f) => lemma_single_flight(m, url, waiters, f, later),
        Err(_) => {
            lemma_single_flight(m, url, waiters, seq![], later);
            let (m1, _) = request_all(m, url, waiters);
            lemma_failure_not_cached(m1, url, later);
        },
    }
}

/// Warms the cache for `url`, read relative to the server's base URL, on behalf of
/// `waiter`. `None` when the URL cannot be made absolute; the cache is then untouched.
pub fn prefetch(cache: &mut FragmentCache, server_base: &str, url: &str, waiter: u64) -> (r: Option<(String, Request)>)
    requires
        old(cache).wf(),
    ensures
        final(cache).wf(),
        match resolve_ref(url@, server_base@) {
            None => r is None && final(cache)@ == old(cache)@,
            Some(u) => r matches Some(p) && p.0@ == u
                && (final(cache)@, request_view(p.1)) == request_spec(old(cache)@, u, waiter),
        },
{
    match resolve_reference(url, server_base) {
        None => None,
        Some(u) => {
            let req = cache.request(u.as_str(), waiter);
            Some((u, req))
        },
    }
}

} // verus!
