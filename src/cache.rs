use vstd::prelude::*;
use vstd::string::*;
use std::sync::Arc;
use crate::fragment::{ComponentView, Fragment, LoadError};
use crate::url::same_text;

verus! {

pub type FragmentView = Seq<Seq<ComponentView>>;

/// What the cache holds for one URL.
pub ghost enum SlotView {
    /// A fetch is under way; these waiters, in registration order, want its result.
    Pending(Seq<u64>),
    /// The fragment was loaded.
    Ready(FragmentView),
}

/// What a request for a URL tells its caller to do.
pub ghost enum RequestView {
    Fetch,
    Wait,
    Ready(FragmentView),
}

/// The cache after `waiter` asks for `url`, and what the waiter is told.
pub open spec fn request_spec(m: Map<Seq<char>, SlotView>, url: Seq<char>, waiter: u64) -> (
    Map<Seq<char>, SlotView>,
    RequestView,
) {
    if !m.contains_key(url) {
        (m.insert(url, SlotView::Pending(seq![waiter])), RequestView::Fetch)
    } else {
        match m[url] {
            SlotView::Pending(ws) => (m.insert(url, SlotView::Pending(ws.push(waiter))), RequestView::Wait),
            SlotView::Ready(f) => (m, RequestView::Ready(f)),
        }
    }
}

/// The cache after the fetch of `url` ended with `result` (`None`: it failed), and the
/// waiters to notify, in registration order.
pub open spec fn complete_spec(
    m: Map<Seq<char>, SlotView>,
    url: Seq<char>,
    result: Option<FragmentView>,
) -> (Map<Seq<char>, SlotView>, Seq<u64>) {
    if m.contains_key(url) && m[url] is Pending {
        let ws = m[url]->Pending_0;
        match result {
            Some(f) => (m.insert(url, SlotView::Ready(f)), ws),
            None => (m.remove(url), ws),
        }
    } else {
        (m, seq![])
    }
}

/// Applies the requests of `waiters`, in order, all for `url`.
pub open spec fn request_all(m: Map<Seq<char>, SlotView>, url: Seq<char>, waiters: Seq<u64>) -> (
    Map<Seq<char>, SlotView>,
    Seq<RequestView>,
)
    decreases waiters.len(),
{
    if waiters.len() == 0 {
        (m, seq![])
    } else {
        let (m1, rs) = request_all(m, url, waiters.drop_last());
        let (m2, r) = request_spec(m1, url, waiters.last());
        (m2, rs.push(r))
    }
}

/// Any number of requests for a URL that is not cached lead to exactly one fetch,
/// asked of the first requester; when it succeeds every requester is notified, in
/// order, and the fragment is cached, so that later requests get that same fragment
/// and fetch nothing.
pub proof fn lemma_single_flight(
    m: Map<Seq<char>, SlotView>,
    url: Seq<char>,
    waiters: Seq<u64>,
    f: FragmentView,
    later: u64,
)
    requires
        !m.contains_key(url),
        waiters.len() > 0,
    ensures
        ({
            let (m1, rs) = request_all(m, url, waiters);
            let (m2, notified) = complete_spec(m1, url, Some(f));
            &&& rs.len() == waiters.len()
            &&& rs[0] == RequestView::Fetch
            &&& forall|i: int| 0 < i < rs.len() ==> rs[i] == RequestView::Wait
            &&& notified == waiters
            &&& m2 == m.insert(url, SlotView::Ready(f))
            &&& request_spec(m2, url, later) == (m2, RequestView::Ready(f))
        }),
{
    lemma_request_all(m, url, waiters);
}

proof fn lemma_request_all(m: Map<Seq<char>, SlotView>, url: Seq<char>, waiters: Seq<u64>)
    requires
        !m.contains_key(url),
        waiters.len() > 0,
    ensures
        ({
            let (m1, rs) = request_all(m, url, waiters);
            &&& rs.len() == waiters.len()
            &&& rs[0] == RequestView::Fetch
            &&& forall|i: int| 0 < i < rs.len() ==> rs[i] == RequestView::Wait
            &&& m1 == m.insert(url, SlotView::Pending(waiters))
        }),
    decreases waiters.len(),
{
    if waiters.len() == 1 {
        assert(waiters.drop_last() =~= seq![]);
        assert(seq![waiters.last()] =~= waiters);
    } else {
        let d = waiters.drop_last();
        lemma_request_all(m, url, d);
        let (m1, rs) = request_all(m, url, d);
        assert(m1[url] == SlotView::Pending(d));
        assert(d.push(waiters.last()) =~= waiters);
        assert(m1.insert(url, SlotView::Pending(waiters)) =~= m.insert(url, SlotView::Pending(waiters)));
    }
}

/// A fetch that failed leaves nothing for its URL in the cache, so the next request
/// for it starts a new fetch rather than getting a stored failure.
pub proof fn lemma_failure_not_cached(m: Map<Seq<char>, SlotView>, url: Seq<char>, waiter: u64)
    requires
        m.contains_key(url),
        m[url] is Pending,
    ensures
        ({
            let (m1, _) = complete_spec(m, url, None);
            &&& !m1.contains_key(url)
            &&& request_spec(m1, url, waiter).1 == RequestView::Fetch
        }),
{
}

/// What the cache holds for one URL.
enum SlotState {
    Pending(Vec<u64>),
    Ready(Arc<Fragment>),
}

struct Slot {
    url: String,
    state: SlotState,
}

spec fn state_view(s: SlotState) -> SlotView {
    match s {
        SlotState::Pending(ws) => SlotView::Pending(ws@),
        SlotState::Ready(f) => SlotView::Ready((*f)@),
    }
}

spec fn unique_urls(s: Seq<Slot>) -> bool {
    forall|i: int, j: int| 0 <= i < s.len() && 0 <= j < s.len() && i != j ==> s[i].url@ != s[j].url@
}

spec fn slots_view(s: Seq<Slot>) -> Map<Seq<char>, SlotView> {
    Map::new(
        |u: Seq<char>| exists|i: int| 0 <= i < s.len() && s[i].url@ == u,
        |u: Seq<char>| state_view(s[choose|i: int| 0 <= i < s.len() && s[i].url@ == u].state),
    )
}

proof fn lemma_slot_at(s: Seq<Slot>, i: int)
    requires
        unique_urls(s),
        0 <= i < s.len(),
    ensures
        slots_view(s).contains_key(s[i].url@),
        slots_view(s)[s[i].url@] == state_view(s[i].state),
{
    let u = s[i].url@;
    assert(exists|j: int| 0 <= j < s.len() && s[j].url@ == u);
    let j = choose|j: int| 0 <= j < s.len() && s[j].url@ == u;
    assert(j == i);
}

proof fn lemma_slot_absent(s: Seq<Slot>, u: Seq<char>)
    requires
        forall|i: int| 0 <= i < s.len() ==> s[i].url@ != u,
    ensures
        !slots_view(s).contains_key(u),
{
}

/// Two slot lists with unique URLs whose lookups agree on every URL have one view.
proof fn lemma_view_eq(s: Seq<Slot>, m: Map<Seq<char>, SlotView>)
    requires
        unique_urls(s),
        forall|i: int| 0 <= i < s.len() ==> m.contains_key(#[trigger] s[i].url@) && m[s[i].url@] == state_view(s[i].state),
        forall|u: Seq<char>| m.contains_key(u) ==> exists|i: int| 0 <= i < s.len() && s[i].url@ == u,
    ensures
        slots_view(s) == m,
{
    assert forall|u: Seq<char>| #[trigger] slots_view(s).contains_key(u) <==> m.contains_key(u) by {
        if slots_view(s).contains_key(u) {
            let i = choose|i: int| 0 <= i < s.len() && s[i].url@ == u;
            assert(m.contains_key(s[i].url@));
        }
    }
    assert forall|u: Seq<char>| #[trigger] slots_view(s).contains_key(u) implies slots_view(s)[u] == m[u] by {
        let i = choose|i: int| 0 <= i < s.len() && s[i].url@ == u;
        lemma_slot_at(s, i);
    }
    assert(slots_view(s) =~= m);
}

proof fn lemma_push(s: Seq<Slot>, x: Slot)
    requires
        unique_urls(s),
        forall|i: int| 0 <= i < s.len() ==> s[i].url@ != x.url@,
    ensures
        unique_urls(s.push(x)),
        slots_view(s.push(x)) == slots_view(s).insert(x.url@, state_view(x.state)),
{
    let s2 = s.push(x);
    let m = slots_view(s).insert(x.url@, state_view(x.state));
    assert forall|i: int| 0 <= i < s2.len() implies m.contains_key(#[trigger] s2[i].url@) && m[s2[i].url@] == state_view(s2[i].state) by {
        if i < s.len() {
            lemma_slot_at(s, i);
        }
    }
    assert forall|u: Seq<char>| m.contains_key(u) implies exists|i: int| 0 <= i < s2.len() && s2[i].url@ == u by {
        if u == x.url@ {
            assert(s2[s.len() as int].url@ == u);
        } else {
            let k = choose|k: int| 0 <= k < s.len() && s[k].url@ == u;
            assert(s2[k].url@ == u);
        }
    }
    lemma_view_eq(s2, m);
}

proof fn lemma_swap_out(s: Seq<Slot>, i: int)
    requires
        unique_urls(s),
        0 <= i < s.len(),
    ensures
        unique_urls(s.update(i, s.last()).drop_last()),
        slots_view(s.update(i, s.last()).drop_last()) == slots_view(s).remove(s[i].url@),
        forall|j: int| 0 <= j < s.len() - 1 ==> (#[trigger] s.update(i, s.last()).drop_last()[j]).url@ != s[i].url@,
{
    let s2 = s.update(i, s.last()).drop_last();
    let last = s.len() - 1;
    let m = slots_view(s).remove(s[i].url@);
    assert forall|j: int| 0 <= j < s2.len() implies s2[j] == s[if j == i { last } else { j }] by {}
    assert forall|a: int, b: int| 0 <= a < s2.len() && 0 <= b < s2.len() && a != b implies s2[a].url@ != s2[b].url@ by {
        assert(s2[a] == s[if a == i { last } else { a }]);
        assert(s2[b] == s[if b == i { last } else { b }]);
    }
    assert forall|j: int| 0 <= j < s2.len() implies m.contains_key(#[trigger] s2[j].url@) && m[s2[j].url@] == state_view(s2[j].state) by {
        let k = if j == i { last } else { j };
        assert(s2[j] == s[k]);
        lemma_slot_at(s, k);
    }
    assert forall|u: Seq<char>| m.contains_key(u) implies exists|j: int| 0 <= j < s2.len() && s2[j].url@ == u by {
        let k = choose|k: int| 0 <= k < s.len() && s[k].url@ == u;
        if k == last {
            assert(s2[i].url@ == u);
        } else {
            assert(s2[k].url@ == u);
        }
    }
    lemma_view_eq(s2, m);
    assert forall|j: int| 0 <= j < s.len() - 1 implies (#[trigger] s2[j]).url@ != s[i].url@ by {
        assert(s2[j] == s[if j == i { last } else { j }]);
    }
}

/// Relies on Arc::clone: another pointer to the same fragment.
#[verifier::external_body]
fn share(f: &Arc<Fragment>) -> (r: Arc<Fragment>)
    ensures
        *r == **f,
{
    Arc::clone(f)
}

/// What a requester is told to do.
pub enum Request {
    /// Nothing is cached or under way: start the fetch, then call `complete`.
    Fetch,
    /// A fetch is under way; the requester is notified when it completes.
    Wait,
    /// The fragment is cached.
    Ready(Arc<Fragment>),
}

pub open spec fn request_view(r: Request) -> RequestView {
    match r {
        Request::Fetch => RequestView::Fetch,
        Request::Wait => RequestView::Wait,
        Request::Ready(f) => RequestView::Ready((*f)@),
    }
}

/// A single-flight cache of fragments keyed by URL: at most one fetch per URL is
/// under way, and those who ask meanwhile wait for it.
pub struct FragmentCache {
    slots: Vec<Slot>,
}

impl View for FragmentCache {
    type V = Map<Seq<char>, SlotView>;

    closed spec fn view(&self) -> Map<Seq<char>, SlotView> {
        slots_view(self.slots@)
    }
}

impl FragmentCache {
    pub closed spec fn wf(&self) -> bool {
        unique_urls(self.slots@)
    }

    pub fn new() -> (r: Self)
        ensures
            r.wf(),
            r@ == Map::<Seq<char>, SlotView>::empty(),
    {
        let r = FragmentCache { slots: Vec::new() };
        assert(r@ =~= Map::<Seq<char>, SlotView>::empty());
        r
    }

    fn find(&self, url: &str) -> (r: Option<usize>)
        ensures
            match r {
                Some(i) => i < self.slots@.len() && self.slots@[i as int].url@ == url@,
                None => forall|i: int| 0 <= i < self.slots@.len() ==> self.slots@[i].url@ != url@,
            },
    {
        let mut i: usize = 0;
        while i < self.slots.len()
            invariant
                i <= self.slots@.len(),
                forall|j: int| 0 <= j < i ==> self.slots@[j].url@ != url@,
            decreases self.slots@.len() - i,
        {
            if same_text(self.slots[i].url.as_str(), url) {
                return Some(i);
            }
            i = i + 1;
        }
        None
    }

    /// Registers `waiter` as wanting the fragment of `url`.
    pub fn request(&mut self, url: &str, waiter: u64) -> (r: Request)
        requires
            old(self).wf(),
        ensures
            final(self).wf(),
            (final(self)@, request_view(r)) == request_spec(old(self)@, url@, waiter),
            r matches Request::Ready(f) ==> (*f).wf(),
    {
        match self.find(url) {
            None => {
                proof {
                    lemma_slot_absent(self.slots@, url@);
                }
                let mut ws: Vec<u64> = Vec::new();
                ws.push(waiter);
                let slot = Slot { url: String::from_str(url), state: SlotState::Pending(ws) };
                proof {
                    lemma_push(self.slots@, slot);
                    assert(ws@ =~= seq![waiter]);
                }
                self.slots.push(slot);
                Request::Fetch
            },
            Some(i) => {
                proof {
                    lemma_slot_at(self.slots@, i as int);
                }
                if let SlotState::Ready(f) = &self.slots[i].state {
                    proof {
                        use_type_invariant(&**f);
                    }
                    return Request::Ready(share(f));
                }
                proof {
                    lemma_swap_out(self.slots@, i as int);
                }
                let ghost before = self@;
                let slot = self.slots.swap_remove(i);
                if let SlotState::Pending(mut ws) = slot.state {
                    ws.push(waiter);
                    let slot2 = Slot { url: slot.url, state: SlotState::Pending(ws) };
                    proof {
                        lemma_push(self.slots@, slot2);
                    }
                    self.slots.push(slot2);
                    assert(self@ =~= before.insert(url@, SlotView::Pending(ws@)));
                }
                Request::Wait
            },
        }
    }

    /// Ends the fetch of `url` with `result`: a fragment is cached, a failure leaves
    /// nothing behind. Returns the waiters to notify, in registration order.
    pub fn complete(&mut self, url: &str, result: &Result<Arc<Fragment>, LoadError>) -> (r: Vec<u64>)
        requires
            old(self).wf(),
        ensures
            final(self).wf(),
            (final(self)@, r@) == complete_spec(
                old(self)@,
                url@,
                match result {
                    Ok(f) => Some((*f)@),
                    Err(_) => None,
                },
            ),
    {
        match self.find(url) {
            None => {
                proof {
                    lemma_slot_absent(self.slots@, url@);
                }
                Vec::new()
            },
            Some(i) => {
                proof {
                    lemma_slot_at(self.slots@, i as int);
                }
                if let SlotState::Ready(_) = &self.slots[i].state {
                    return Vec::new();
                }
                proof {
                    lemma_swap_out(self.slots@, i as int);
                }
                let ghost before = self@;
                let slot = self.slots.swap_remove(i);
                match slot.state {
                    SlotState::Pending(ws) => {
                        if let Ok(f) = result {
                            let slot2 = Slot { url: slot.url, state: SlotState::Ready(share(f)) };
                            proof {
                                lemma_push(self.slots@, slot2);
                            }
                            self.slots.push(slot2);
                            assert(self@ =~= before.insert(url@, SlotView::Ready((**f)@)));
                        }
                        ws
                    },
                    SlotState::Ready(_) => Vec::new(),
                }
            },
        }
    }

    /// The cached fragment of `url`, if it was loaded; waits for nothing.
    pub fn peek(&self, url: &str) -> (r: Option<Arc<Fragment>>)
        requires
            self.wf(),
        ensures
            match r {
                Some(f) => self@.contains_key(url@) && self@[url@] == SlotView::Ready((*f)@) && (*f).wf(),
                None => !self@.contains_key(url@) || self@[url@] is Pending,
            },
    {
        match self.find(url) {
            None => {
                proof {
                    lemma_slot_absent(self.slots@, url@);
                }
                None
            },
            Some(i) => {
                proof {
                    lemma_slot_at(self.slots@, i as int);
                }
                match &self.slots[i].state {
                    SlotState::Ready(f) => {
                        proof {
                            use_type_invariant(&**f);
                        }
                        Some(share(f))
                    },
                    SlotState::Pending(_) => None,
                }
            },
        }
    }
}

} // verus!
