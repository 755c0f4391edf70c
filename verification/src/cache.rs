//! TTL response cache: a key-value store kept in lockstep with a delay
//! queue that schedules each entry's eviction. Every cached entry has
//! exactly one pending eviction holding its key and its expiry instant,
//! and the other way round; both structures share one capacity.

use vstd::prelude::*;
use vstd::string::StringExecFns;
use vstd::string::StringSliceAdditionalSpecFns;

use crate::blocking_delay_queue::BlockingDelayQueue;
use crate::blocking_delay_queue::DelayItem;
use crate::blocking_delay_queue::sorted_by_ready;
use crate::http_utils::HeaderMap;
use crate::http_utils::Headers;
use crate::http_utils::cc_values;
use crate::http_utils::spec_max_age;

verus! {

broadcast use vstd::seq_lib::group_to_multiset_ensures;

/// How long a cache write may wait for room in the eviction queue.
pub const INSERT_TIMEOUT_MILLIS: u64 = 1;

/// A response held by the cache: status, headers, body, and the instant at
/// which it goes stale. Immutable once constructed.
pub struct CachedResponse {
    pub status_code: u16,
    pub headers: HeaderMap,
    pub body: Vec<u8>,
    pub ttl: u64,
}

/// The mathematical content of a `CachedResponse`.
pub struct CachedResponseView {
    pub status_code: u16,
    pub headers: Seq<(String, String)>,
    pub body: Seq<u8>,
    pub ttl: u64,
}

impl View for CachedResponse {
    type V = CachedResponseView;

    open spec fn view(&self) -> CachedResponseView {
        CachedResponseView {
            status_code: self.status_code,
            headers: self.headers@,
            body: self.body@,
            ttl: self.ttl,
        }
    }
}

impl CachedResponse {
    /// Stale once its expiry instant lies in the past.
    pub open spec fn spec_expired(&self, now: u64) -> bool {
        self.ttl < now
    }

    pub fn expired(&self, now: u64) -> (r: bool)
        ensures
            r == self.spec_expired(now),
    {
        self.ttl < now
    }
}

impl Clone for CachedResponse {
    fn clone(&self) -> (r: Self)
        ensures
            r@ == self@,
            r.status_code == self.status_code,
            r.ttl == self.ttl,
    {
        let mut headers: Vec<(String, String)> = Vec::new();
        let mut i: usize = 0;
        while i < self.headers.entries.len()
            invariant
                i <= self.headers.entries@.len(),
                headers@.len() == i,
                forall|j: int| 0 <= j < i ==> headers@[j] == self.headers.entries@[j],
            decreases self.headers.entries@.len() - i,
        {
            let e = &self.headers.entries[i];
            headers.push((e.0.clone(), e.1.clone()));
            i = i + 1;
        }
        let mut body: Vec<u8> = Vec::new();
        let mut k: usize = 0;
        while k < self.body.len()
            invariant
                k <= self.body@.len(),
                body@.len() == k,
                forall|j: int| 0 <= j < k ==> body@[j] == self.body@[j],
            decreases self.body@.len() - k,
        {
            body.push(self.body[k]);
            k = k + 1;
        }
        let r = CachedResponse {
            status_code: self.status_code,
            headers: HeaderMap { entries: headers },
            body,
            ttl: self.ttl,
        };
        proof {
            assert(r.headers@ =~= self.headers@);
            assert(r.body@ =~= self.body@);
        }
        r
    }
}

/// The eviction schedule as (expiry, key) pairs.
pub open spec fn queue_pairs(q: Seq<DelayItem<String>>) -> Seq<(u64, String)> {
    q.map_values(|it: DelayItem<String>| (it.delay, it.data))
}

/// The stored entries as (expiry, key) pairs.
pub open spec fn entry_pairs(es: Seq<(String, CachedResponse)>) -> Seq<(u64, String)> {
    es.map_values(|e: (String, CachedResponse)| (e.1.ttl, e.0))
}

/// What a cache read returns: the response stored under the key, or
/// nothing when the key is absent.
pub open spec fn cache_get_post(
    es: Seq<(String, CachedResponse)>,
    k: Seq<char>,
    r: Option<CachedResponse>,
) -> bool {
    match r {
        Some(v) => exists|i: int|
            0 <= i < es.len() && (#[trigger] es[i]).0@ == k && v@ == es[i].1@,
        None => forall|i: int| 0 <= i < es.len() ==> (#[trigger] es[i]).0@ != k,
    }
}

/// The response cache: entries plus their eviction schedule, in lockstep,
/// bounded by one shared capacity.
pub struct ResponseCache {
    entries: Vec<(String, CachedResponse)>,
    expire_q: BlockingDelayQueue<String>,
    capacity: usize,
}

impl View for ResponseCache {
    type V = Seq<(String, CachedResponse)>;

    closed spec fn view(&self) -> Seq<(String, CachedResponse)> {
        self.entries@
    }
}

/// The first entry holding the key, scanned in storage order.
fn find_key(entries: &Vec<(String, CachedResponse)>, k: &String) -> (r: Option<usize>)
    ensures
        match r {
            Some(i) => i < entries@.len() && entries@[i as int].0@ == k@ && (forall|j: int|
                0 <= j < i ==> (#[trigger] entries@[j]).0@ != k@),
            None => forall|i: int| 0 <= i < entries@.len() ==> (#[trigger] entries@[i]).0@ != k@,
        },
{
    let mut i: usize = 0;
    while i < entries.len()
        invariant
            i <= entries@.len(),
            forall|j: int| 0 <= j < i ==> (#[trigger] entries@[j]).0@ != k@,
        decreases entries@.len() - i,
    {
        if entries[i].0 == *k {
            return Some(i);
        }
        i = i + 1;
    }
    None
}

impl ResponseCache {
    pub closed spec fn spec_capacity(&self) -> usize {
        self.capacity
    }

    /// Well-formed: entries within capacity, one entry per key, and the
    /// eviction schedule holding exactly the entries' (expiry, key) pairs.
    pub closed spec fn wf(&self) -> bool {
        &&& self.expire_q.wf()
        &&& self.expire_q.spec_capacity() == self.capacity
        &&& 1 <= self.capacity
        &&& self.entries@.len() <= self.capacity
        &&& (forall|i: int, j: int|
            0 <= i < j < self.entries@.len() ==> (#[trigger] self.entries@[i]).0@ != (
            #[trigger] self.entries@[j]).0@)
        &&& queue_pairs(self.expire_q@).to_multiset() == entry_pairs(self.entries@).to_multiset()
    }

    pub fn with_capacity(capacity: usize) -> (r: Self)
        requires
            1 <= capacity,
        ensures
            r.wf(),
            r@ == Seq::<(String, CachedResponse)>::empty(),
            r.spec_capacity() == capacity,
    {
        let r = ResponseCache {
            entries: Vec::new(),
            expire_q: BlockingDelayQueue::new(capacity),
            capacity,
        };
        proof {
            assert(queue_pairs(r.expire_q@) =~= Seq::<(u64, String)>::empty());
            assert(entry_pairs(r.entries@) =~= Seq::<(u64, String)>::empty());
        }
        r
    }

    /// A cache of the given capacity.
    pub fn new(capacity: usize) -> (r: Self)
        requires
            1 <= capacity,
        ensures
            r.wf(),
            r@ == Seq::<(String, CachedResponse)>::empty(),
            r.spec_capacity() == capacity,
    {
        Self::with_capacity(capacity)
    }

    /// How many entries the cache holds.
    pub fn len(&self) -> (r: usize)
        ensures
            r == self@.len(),
    {
        self.entries.len()
    }

    /// Store a response under a fresh key: refused at once when the cache
    /// is at capacity or the key is already cached (the old entry and its
    /// pending eviction then stay as they are); otherwise the entry and
    /// its eviction, scheduled at `ttl`, appear together.
    pub fn put(&mut self, k: String, v: CachedResponse, ttl: u64) -> (r: bool)
        requires
            old(self).wf(),
            v.ttl == ttl,
        ensures
            final(self).wf(),
            final(self).spec_capacity() == old(self).spec_capacity(),
            r == (old(self)@.len() < old(self).spec_capacity() && (forall|i: int|
                0 <= i < old(self)@.len() ==> (#[trigger] old(self)@[i]).0@ != k@)),
            r ==> final(self)@ == old(self)@.push((k, v)),
            !r ==> *final(self) == *old(self),
            final(self)@ == put_step(old(self)@, old(self).spec_capacity(), (k, v)),
    {
        if self.entries.len() >= self.capacity {
            return false;
        }
        match find_key(&self.entries, &k) {
            Some(_) => {
                return false;
            },
            None => {},
        }
        let ghost q0 = self.expire_q@;
        let ghost es0 = self.entries@;
        proof {
            assert(queue_pairs(q0).to_multiset().len() == queue_pairs(q0).len());
            assert(entry_pairs(es0).to_multiset().len() == entry_pairs(es0).len());
            assert(q0.len() == es0.len());
        }
        let kq = k.clone();
        let ok = self.expire_q.offer(kq, ttl, INSERT_TIMEOUT_MILLIS);
        proof {
            assert(ok);
        }
        proof {
            let p = choose|p: int|
                0 <= p <= q0.len() && self.expire_q@ == q0.insert(p, DelayItem { data: k, delay: ttl });
            assert(queue_pairs(self.expire_q@) =~= queue_pairs(q0).insert(p, (ttl, k)));
            assert(queue_pairs(q0).insert(p, (ttl, k)).to_multiset() == queue_pairs(
                q0,
            ).to_multiset().insert((ttl, k)));
        }
        self.entries.push((k, v));
        proof {
            assert(entry_pairs(self.entries@) =~= entry_pairs(es0).push((ttl, k)));
            assert(entry_pairs(es0).push((ttl, k)).to_multiset() == entry_pairs(
                es0,
            ).to_multiset().insert((ttl, k)));
            assert forall|i: int, j: int|
                0 <= i < j < self.entries@.len() implies (#[trigger] self.entries@[i]).0@ != (
            #[trigger] self.entries@[j]).0@ by {
                if j < es0.len() {
                    assert(es0[i].0@ != es0[j].0@);
                } else {
                    assert(es0[i].0@ != k@);
                }
            }
        }
        true
    }

    /// The response stored under the key, as an equal copy; absence says
    /// nothing about freshness, which the caller checks on the value.
    pub fn get(&self, k: &str) -> (r: Option<CachedResponse>)
        ensures
            cache_get_post(self@, k@, r),
    {
        let ks = k.to_owned();
        match find_key(&self.entries, &ks) {
            Some(i) => {
                let v = self.entries[i].1.clone();
                Some(v)
            },
            None => None,
        }
    }

    /// Remove the entry whose eviction is scheduled next, waiting out its
    /// expiry instant first: an entry with the least expiry leaves the
    /// store together with its schedule slot.
    pub fn expire_head(&mut self)
        requires
            old(self).wf(),
            old(self)@.len() > 0,
        ensures
            final(self).wf(),
            final(self).spec_capacity() == old(self).spec_capacity(),
            exists|i: int|
                0 <= i < old(self)@.len() && final(self)@ == old(self)@.remove(i) && (forall|
                    j: int,
                |
                    0 <= j < old(self)@.len() ==> (#[trigger] old(self)@[j]).1.ttl >= old(
                    self,
                )@[i].1.ttl),
    {
        let ghost q0 = self.expire_q@;
        let ghost es0 = self.entries@;
        proof {
            assert(queue_pairs(q0).to_multiset().len() == queue_pairs(q0).len());
            assert(entry_pairs(es0).to_multiset().len() == entry_pairs(es0).len());
            lemma_head_in_entries(q0, es0);
            lemma_head_is_min(q0, es0);
        }
        let ghost d = q0.last().delay;
        let ghost j = choose|j: int|
            0 <= j < es0.len() && (#[trigger] es0[j]).0 == q0.last().data && es0[j].1.ttl
                == q0.last().delay;
        let k = self.expire_q.take();
        let idx = match find_key(&self.entries, &k) {
            Some(i) => i,
            None => {
                proof {
                    assert(es0[j].0@ == k@);
                    assert(false);
                }
                0
            },
        };
        proof {
            assert(es0[idx as int].0@ == k@);
            assert(es0[j].0@ == k@);
            if (idx as int) < j {
                assert(es0[idx as int].0@ != es0[j].0@);
            } else if j < idx as int {
                assert(es0[j].0@ != es0[idx as int].0@);
            }
            assert(idx as int == j);
        }
        self.entries.remove(idx);
        proof {
            let qp0 = queue_pairs(q0);
            assert(queue_pairs(self.expire_q@) =~= qp0.remove(qp0.len() - 1));
            assert(qp0[qp0.len() - 1] == (d, q0.last().data));
            assert(qp0.remove(qp0.len() - 1).to_multiset() == qp0.to_multiset().remove(
                (d, q0.last().data),
            ));
            let ep0 = entry_pairs(es0);
            assert(entry_pairs(self.entries@) =~= ep0.remove(j));
            assert(ep0[j] == (d, q0.last().data));
            assert(ep0.remove(j).to_multiset() == ep0.to_multiset().remove((d, q0.last().data)));
            assert forall|p: int, q: int|
                0 <= p < q < self.entries@.len() implies (#[trigger] self.entries@[p]).0@ != (
            #[trigger] self.entries@[q]).0@ by {
                let p0: int = if p < j {
                    p
                } else {
                    p + 1
                };
                let q0i: int = if q < j {
                    q
                } else {
                    q + 1
                };
                assert(self.entries@[p] == es0[p0]);
                assert(self.entries@[q] == es0[q0i]);
                assert(es0[p0].0@ != es0[q0i].0@);
            }
            assert(final(self)@ == old(self)@.remove(j));
        }
    }

    /// Whether some stored entry is already stale at `now`: exactly when
    /// the eviction schedule's head is due.
    fn due_head(&self, now: u64) -> (r: bool)
        requires
            self.wf(),
        ensures
            r == exists|i: int| 0 <= i < self@.len() && (#[trigger] self@[i]).1.ttl <= now,
    {
        let r = self.expire_q.peek_due(now);
        proof {
            let q0 = self.expire_q@;
            let es0 = self.entries@;
            assert(queue_pairs(q0).to_multiset().len() == queue_pairs(q0).len());
            assert(entry_pairs(es0).to_multiset().len() == entry_pairs(es0).len());
            assert(q0.len() == es0.len());
            if q0.len() > 0 {
                lemma_head_in_entries(q0, es0);
                lemma_head_is_min(q0, es0);
                if q0.last().delay <= now {
                    let j = choose|j: int|
                        0 <= j < es0.len() && (#[trigger] es0[j]).0 == q0.last().data
                            && es0[j].1.ttl == q0.last().delay;
                    assert(0 <= j < self@.len() && self@[j].1.ttl <= now);
                } else {
                    assert forall|i: int| 0 <= i < self@.len() implies (#[trigger] self@[i]).1.ttl
                        > now by {
                        assert(q0.last().delay <= es0[i].1.ttl);
                    }
                }
            } else {
                assert(self@.len() == 0);
            }
        }
        r
    }

    /// Evict every entry whose expiry instant has passed: afterwards the
    /// store holds exactly the entries that are still fresh at `now`, in
    /// their old order.
    pub fn expire(&mut self, now: u64)
        requires
            old(self).wf(),
        ensures
            final(self).wf(),
            final(self).spec_capacity() == old(self).spec_capacity(),
            final(self)@ == fresh_only(old(self)@, now),
    {
        while self.due_head(now)
            invariant
                self.wf(),
                self.spec_capacity() == old(self).spec_capacity(),
                fresh_only(self@, now) == fresh_only(old(self)@, now),
            decreases self@.len(),
        {
            let ghost pre = self@;
            proof {
                let di = choose|i: int| 0 <= i < pre.len() && (#[trigger] pre[i]).1.ttl <= now;
                assert(pre.len() > 0);
            }
            self.expire_head();
            proof {
                let ri = choose|ri: int|
                    0 <= ri < pre.len() && self@ == pre.remove(ri) && (forall|j: int|
                        0 <= j < pre.len() ==> (#[trigger] pre[j]).1.ttl >= pre[ri].1.ttl);
                let di = choose|i: int| 0 <= i < pre.len() && (#[trigger] pre[i]).1.ttl <= now;
                assert(pre[ri].1.ttl <= pre[di].1.ttl);
                lemma_fresh_only_remove(pre, now, ri);
            }
        }
        proof {
            lemma_fresh_only_all_fresh(self@, now);
        }
    }

    /// The cache key of a request: its path, joined with `?` and the query
    /// when one is present.
    pub fn build_cache_key(path: &str, query: &str) -> (r: String)
        ensures
            r@ == spec_cache_key(path@, query@),
    {
        let mut s = path.to_owned();
        if !query.is_empty() {
            s.append("?");
            s.append(query);
        }
        s
    }

    /// Store an upstream response if its status and cache directives
    /// allow: status 200 with `Cache-Control: public, max-age=N` caches
    /// the response for N seconds from `now`; anything else writes
    /// nothing. Strictly best effort: a full cache or an already-cached
    /// key refuses the write and leaves the store as it was.
    pub fn store(
        &mut self,
        cache_key: &str,
        status_code: u16,
        headers: HeaderMap,
        body: Vec<u8>,
        now: u64,
    ) -> (r: bool)
        requires
            old(self).wf(),
        ensures
            final(self).wf(),
            final(self).spec_capacity() == old(self).spec_capacity(),
            r == (status_code == 200 && spec_max_age(cc_values(headers@)) is Some
                && old(self)@.len() < old(self).spec_capacity() && (forall|i: int|
                0 <= i < old(self)@.len() ==> (#[trigger] old(self)@[i]).0@ != cache_key@)),
            r ==> final(self)@.len() == old(self)@.len() + 1
                && final(self)@ == old(self)@.push(final(self)@.last())
                && final(self)@.last().0@ == cache_key@
                && final(self)@.last().1 == (CachedResponse {
                    status_code,
                    headers,
                    body,
                    ttl: spec_ttl(now, spec_max_age(cc_values(headers@))->Some_0),
                }),
            !r ==> *final(self) == *old(self),
    {
        if status_code != 200 {
            return false;
        }
        let age = match headers.max_age() {
            Some(a) => a,
            None => {
                return false;
            },
        };
        let ttl = match age.checked_mul(1000) {
            Some(ms) => match now.checked_add(ms) {
                Some(t) => t,
                None => u64::MAX,
            },
            None => u64::MAX,
        };
        proof {
            assert(ttl == spec_ttl(now, age));
        }
        let v = CachedResponse { status_code, headers, body, ttl };
        self.put(cache_key.to_owned(), v, ttl)
    }
}

/// The lifetime of a fresh cache entry: `now` plus the granted seconds,
/// capped at the largest representable instant.
pub open spec fn spec_ttl(now: u64, age_secs: u64) -> u64 {
    if now + age_secs * 1000 > u64::MAX {
        u64::MAX
    } else {
        (now + age_secs * 1000) as u64
    }
}

/// The cache key a request maps to.
pub open spec fn spec_cache_key(path: Seq<char>, query: Seq<char>) -> Seq<char> {
    if query.len() == 0 {
        path
    } else {
        path + "?"@ + query
    }
}

/// What one write does to the stored entries: a fresh key within capacity
/// joins them; anything else changes nothing.
pub open spec fn put_step(
    es: Seq<(String, CachedResponse)>,
    cap: usize,
    e: (String, CachedResponse),
) -> Seq<(String, CachedResponse)> {
    if es.len() < cap && (forall|i: int| 0 <= i < es.len() ==> (#[trigger] es[i]).0@ != e.0@) {
        es.push(e)
    } else {
        es
    }
}

/// A run of writes, first to last.
pub open spec fn put_all(
    es: Seq<(String, CachedResponse)>,
    cap: usize,
    items: Seq<(String, CachedResponse)>,
) -> Seq<(String, CachedResponse)>
    decreases items.len(),
{
    if items.len() == 0 {
        es
    } else {
        put_all(put_step(es, cap, items.first()), cap, items.drop_first())
    }
}

/// Law: writing any number of distinctly-keyed entries into a cache of
/// capacity C fills it to at most C, and to exactly C when enough writes
/// are offered: each write past C changes nothing. With every success
/// adding exactly one entry, exactly C of C+k offered writes succeed.
pub proof fn lemma_put_fill(
    es: Seq<(String, CachedResponse)>,
    cap: usize,
    items: Seq<(String, CachedResponse)>,
)
    requires
        es.len() <= cap,
        forall|i: int, j: int|
            0 <= i < j < items.len() ==> (#[trigger] items[i]).0@ != (#[trigger] items[j]).0@,
        forall|i: int, j: int|
            0 <= i < items.len() && 0 <= j < es.len() ==> (#[trigger] items[i]).0@ != (
            #[trigger] es[j]).0@,
    ensures
        put_all(es, cap, items).len() == if es.len() + items.len() <= cap {
            es.len() + items.len()
        } else {
            cap as nat
        },
    decreases items.len(),
{
    if items.len() > 0 {
        let next = put_step(es, cap, items.first());
        assert(forall|i: int|
            0 <= i < items.drop_first().len() ==> #[trigger] items.drop_first()[i] == items[i + 1]);
        if es.len() < cap {
            assert(next == es.push(items.first()));
            assert(forall|j: int|
                0 <= j < next.len() ==> (#[trigger] next[j]).0@ == if j < es.len() {
                    es[j].0@
                } else {
                    items.first().0@
                });
            lemma_put_fill(next, cap, items.drop_first());
        } else {
            assert(next == es);
            lemma_put_fill(next, cap, items.drop_first());
        }
    }
}

/// Law: right after a successful write of a response that expires in the
/// future, a read of the same key yields that response, not yet stale.
pub proof fn lemma_put_then_get(
    es: Seq<(String, CachedResponse)>,
    k: String,
    v: CachedResponse,
    now: u64,
    r: Option<CachedResponse>,
)
    requires
        forall|i: int| 0 <= i < es.len() ==> (#[trigger] es[i]).0@ != k@,
        v.ttl > now,
        cache_get_post(es.push((k, v)), k@, r),
    ensures
        r is Some,
        r->Some_0@ == v@,
        !r->Some_0.spec_expired(now),
{
    let es2 = es.push((k, v));
    assert(es2[es.len() as int] == (k, v));
    match r {
        Some(got) => {
            let i = choose|i: int|
                0 <= i < es2.len() && (#[trigger] es2[i]).0@ == k@ && got@ == es2[i].1@;
            assert(i == es.len());
            assert(got.ttl == v.ttl);
        },
        None => {
            assert(es2[es.len() as int].0@ == k@);
            assert(false);
        },
    }
}

/// Law: once every entry under a key has gone stale and a sweep has run,
/// a read of that key finds nothing.
pub proof fn lemma_expired_swept(
    es: Seq<(String, CachedResponse)>,
    k: Seq<char>,
    now: u64,
    r: Option<CachedResponse>,
)
    requires
        forall|i: int| 0 <= i < es.len() && (#[trigger] es[i]).0@ == k ==> es[i].1.ttl <= now,
        cache_get_post(fresh_only(es, now), k, r),
    ensures
        r is None,
{
    match r {
        Some(_) => {
            let kept = fresh_only(es, now);
            let i = choose|i: int| 0 <= i < kept.len() && (#[trigger] kept[i]).0@ == k;
            lemma_expire_subset(es, now, i);
            let j = choose|j: int| 0 <= j < es.len() && (#[trigger] es[j]) == kept[i];
            lemma_expire_leaves_fresh(es, now);
            assert(kept[i].1.ttl > now);
            assert(es[j].1.ttl <= now);
            assert(false);
        },
        None => {},
    }
}

/// Law: a well-formed cache holds at most one entry per key.
pub proof fn lemma_cache_keys_unique(c: &ResponseCache)
    requires
        c.wf(),
    ensures
        forall|i: int, j: int|
            0 <= i < j < c@.len() ==> (#[trigger] c@[i]).0@ != (#[trigger] c@[j]).0@,
{
}

/// Every stored entry expires no earlier than the eviction schedule's
/// head: the head's delay is the least expiry among the entries.
proof fn lemma_head_is_min(q: Seq<DelayItem<String>>, es: Seq<(String, CachedResponse)>)
    requires
        sorted_by_ready(q),
        q.len() > 0,
        queue_pairs(q).to_multiset() == entry_pairs(es).to_multiset(),
    ensures
        forall|j: int| 0 <= j < es.len() ==> q.last().delay <= (#[trigger] es[j]).1.ttl,
{
    assert forall|j: int| 0 <= j < es.len() implies q.last().delay <= (#[trigger] es[j]).1.ttl by {
        let pair = entry_pairs(es)[j];
        assert(entry_pairs(es).contains(pair));
        assert(entry_pairs(es).to_multiset().count(pair) > 0);
        assert(queue_pairs(q).to_multiset().count(pair) > 0);
        assert(queue_pairs(q).contains(pair));
        let qi = choose|qi: int| 0 <= qi < queue_pairs(q).len() && queue_pairs(q)[qi] == pair;
        assert(q[qi].delay == pair.0);
        assert(q.last().delay <= q[qi].delay);
    }
}

/// The schedule's head names a stored entry that expires at its delay.
proof fn lemma_head_in_entries(q: Seq<DelayItem<String>>, es: Seq<(String, CachedResponse)>)
    requires
        q.len() > 0,
        queue_pairs(q).to_multiset() == entry_pairs(es).to_multiset(),
    ensures
        exists|j: int|
            0 <= j < es.len() && (#[trigger] es[j]).0 == q.last().data && es[j].1.ttl
                == q.last().delay,
{
    let pair = queue_pairs(q)[q.len() - 1];
    assert(pair == (q.last().delay, q.last().data));
    assert(queue_pairs(q).contains(pair));
    assert(queue_pairs(q).to_multiset().count(pair) > 0);
    assert(entry_pairs(es).to_multiset().count(pair) > 0);
    assert(entry_pairs(es).contains(pair));
    let j = choose|j: int| 0 <= j < entry_pairs(es).len() && entry_pairs(es)[j] == pair;
    assert(es[j].0 == pair.1 && es[j].1.ttl == pair.0);
}

/// The entries still fresh at `now`, in storage order: what a complete
/// eviction sweep leaves behind.
pub open spec fn fresh_only(es: Seq<(String, CachedResponse)>, now: u64) -> Seq<
    (String, CachedResponse),
>
    decreases es.len(),
{
    if es.len() == 0 {
        es
    } else {
        let rest = fresh_only(es.drop_first(), now);
        if es.first().1.ttl > now {
            seq![es.first()] + rest
        } else {
            rest
        }
    }
}

/// Removing one stale entry does not change what a sweep leaves.
proof fn lemma_fresh_only_remove(es: Seq<(String, CachedResponse)>, now: u64, i: int)
    requires
        0 <= i < es.len(),
        es[i].1.ttl <= now,
    ensures
        fresh_only(es.remove(i), now) == fresh_only(es, now),
    decreases es.len(),
{
    if i == 0 {
        assert(es.remove(0) =~= es.drop_first());
    } else {
        assert(es.remove(i).first() == es.first());
        assert(es.remove(i).drop_first() =~= es.drop_first().remove(i - 1));
        assert(es.drop_first()[i - 1] == es[i]);
        lemma_fresh_only_remove(es.drop_first(), now, i - 1);
    }
}

/// A store with no stale entry is left whole by a sweep.
proof fn lemma_fresh_only_all_fresh(es: Seq<(String, CachedResponse)>, now: u64)
    requires
        forall|i: int| 0 <= i < es.len() ==> (#[trigger] es[i]).1.ttl > now,
    ensures
        fresh_only(es, now) == es,
    decreases es.len(),
{
    if es.len() > 0 {
        assert(es.first().1.ttl > now);
        lemma_fresh_only_all_fresh(es.drop_first(), now);
        assert(seq![es.first()] + es.drop_first() =~= es);
    }
}

/// Law: a sweep leaves no stale entry behind.
pub proof fn lemma_expire_leaves_fresh(es: Seq<(String, CachedResponse)>, now: u64)
    ensures
        forall|i: int|
            0 <= i < fresh_only(es, now).len() ==> (#[trigger] fresh_only(es, now)[i]).1.ttl > now,
    decreases es.len(),
{
    if es.len() > 0 {
        lemma_expire_leaves_fresh(es.drop_first(), now);
        let rest = fresh_only(es.drop_first(), now);
        if es.first().1.ttl > now {
            assert forall|i: int|
                0 <= i < fresh_only(es, now).len() implies (#[trigger] fresh_only(es, now)[i]).1.ttl
                > now by {
                if i == 0 {
                    assert(fresh_only(es, now)[0] == es.first());
                } else {
                    assert(fresh_only(es, now)[i] == rest[i - 1]);
                }
            }
        }
    }
}

/// Law: a sweep keeps every entry that is still fresh at `now`.
pub proof fn lemma_expire_keeps_fresh(es: Seq<(String, CachedResponse)>, now: u64, j: int)
    requires
        0 <= j < es.len(),
        es[j].1.ttl > now,
    ensures
        exists|i: int|
            0 <= i < fresh_only(es, now).len() && (#[trigger] fresh_only(es, now)[i]) == es[j],
    decreases es.len(),
{
    let rest = fresh_only(es.drop_first(), now);
    if j == 0 {
        assert(fresh_only(es, now)[0] == es[0]);
    } else {
        assert(es.drop_first()[j - 1] == es[j]);
        lemma_expire_keeps_fresh(es.drop_first(), now, j - 1);
        let i0 = choose|i0: int| 0 <= i0 < rest.len() && (#[trigger] rest[i0]) == es[j];
        if es.first().1.ttl > now {
            assert(fresh_only(es, now)[i0 + 1] == rest[i0]);
        } else {
            assert(fresh_only(es, now)[i0] == rest[i0]);
        }
    }
}

/// Law: a sweep invents nothing: every kept entry was stored before it.
pub proof fn lemma_expire_subset(es: Seq<(String, CachedResponse)>, now: u64, i: int)
    requires
        0 <= i < fresh_only(es, now).len(),
    ensures
        exists|j: int| 0 <= j < es.len() && (#[trigger] es[j]) == fresh_only(es, now)[i],
    decreases es.len(),
{
    let rest = fresh_only(es.drop_first(), now);
    if es.first().1.ttl > now && i == 0 {
        assert(fresh_only(es, now)[0] == es[0]);
    } else {
        let i0: int = if es.first().1.ttl > now { i - 1 } else { i };
        assert(fresh_only(es, now)[i] == rest[i0]);
        lemma_expire_subset(es.drop_first(), now, i0);
        let j0 = choose|j0: int| 0 <= j0 < es.drop_first().len() && (#[trigger] es.drop_first()[j0]) == rest[i0];
        assert(es[j0 + 1] == es.drop_first()[j0]);
    }
}


} // verus!
