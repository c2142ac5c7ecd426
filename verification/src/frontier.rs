//! The frontier: the set of URLs scheduled for future fetching, grouped
//! into one priority queue per host, gated by a per-host politeness
//! delay, deduplicated by a seen-set, and capped in total size.
//!
//! Time is passed in by the caller as monotonic milliseconds, so every
//! scheduling decision is a function of the frontier state and the
//! clock reading alone.

use vstd::prelude::*;
use vstd::hash_set::StringHashSet;
use vstd::multiset::Multiset;

use priority_queue::PriorityQueue;
use crate::models::Scope;
use crate::strutil::chars_of;
use crate::strutil::contains_chars;
use crate::strutil::occurs;
use crate::strutil::str_eq;
use crate::urls::UrlParts;

verus! {

broadcast use vstd::multiset::group_multiset_axioms;

/// Additions beyond this cap are silently dropped.
pub const MAX_QUEUE_SIZE: usize = 1000000;

/// The politeness delay between two fetches from one host, in
/// milliseconds.
pub const POLITENESS_DELAY_MS: u64 = 1000;

#[verifier::external_type_specification]
#[verifier::external_body]
#[verifier::reject_recursive_types(I)]
#[verifier::reject_recursive_types(P)]
#[verifier::reject_recursive_types(H)]
pub struct ExPriorityQueue<I, P, H>(PriorityQueue<I, P, H>);

/// What a host's priority queue holds: the multiset of queued
/// (URL, priority) pairs.
pub uninterp spec fn pq_contents(q: PriorityQueue<String, i32>) -> Multiset<(Seq<char>, i32)>;

/// Relies on priority_queue::PriorityQueue::new: a fresh queue is empty.
#[verifier::external_body]
fn pq_new() -> (q: PriorityQueue<String, i32>)
    ensures
        pq_contents(q) == Multiset::<(Seq<char>, i32)>::empty(),
{
    PriorityQueue::new()
}

/// Relies on priority_queue::PriorityQueue::push: when the item is not
/// yet in the queue it is inserted with the given priority.
#[verifier::external_body]
fn pq_push(q: &mut PriorityQueue<String, i32>, item: String, prio: i32)
    requires
        forall|p: i32| !pq_contents(*old(q)).contains((item@, p)),
    ensures
        pq_contents(*final(q)) == pq_contents(*old(q)).insert((item@, prio)),
{
    q.push(item, prio);
}

/// Relies on priority_queue::PriorityQueue::pop: removes and returns a
/// pair with the greatest priority, or nothing when the queue is empty.
#[verifier::external_body]
fn pq_pop(q: &mut PriorityQueue<String, i32>) -> (r: Option<(String, i32)>)
    ensures
        match r {
            None => pq_contents(*old(q)).len() == 0 && pq_contents(*final(q)) == pq_contents(
                *old(q),
            ),
            Some(ip) => pq_contents(*old(q)).contains((ip.0@, ip.1)) && pq_contents(*final(q))
                == pq_contents(*old(q)).remove((ip.0@, ip.1)) && forall|e: (Seq<char>, i32)|
                pq_contents(*old(q)).contains(e) ==> e.1 <= ip.1,
        },
{
    q.pop()
}

/// Relies on priority_queue::PriorityQueue::peek: the greatest priority
/// in the queue, or nothing when the queue is empty.
#[verifier::external_body]
fn pq_peek_prio(q: &PriorityQueue<String, i32>) -> (r: Option<i32>)
    ensures
        match r {
            None => pq_contents(*q).len() == 0,
            Some(p) => (exists|e: (Seq<char>, i32)| pq_contents(*q).contains(e) && e.1 == p)
                && forall|e: (Seq<char>, i32)| pq_contents(*q).contains(e) ==> e.1 <= p,
        },
{
    q.peek().map(|ip| *ip.1)
}

/// Relies on priority_queue::PriorityQueue::iter: yields every queued
/// pair exactly once, in arbitrary order.
#[verifier::external_body]
fn pq_items(q: &PriorityQueue<String, i32>) -> (r: Vec<(String, i32)>)
    ensures
        r@.map_values(|e: (String, i32)| (e.0@, e.1)).to_multiset() == pq_contents(*q),
{
    q.iter().map(|ip| (ip.0.clone(), *ip.1)).collect()
}

/// One host's queue and its politeness gate: no pop before
/// `next_allowed_at_ms` on the caller's monotonic clock.
pub struct HostQueue {
    pub host: String,
    pub queue: PriorityQueue<String, i32>,
    pub next_allowed_at_ms: u64,
}

/// Total number of queued URLs over a sequence of host queues.
pub open spec fn total_of(hs: Seq<HostQueue>) -> int
    decreases hs.len(),
{
    if hs.len() == 0 {
        0
    } else {
        total_of(hs.drop_last()) + pq_contents(hs.last().queue).len()
    }
}

proof fn lemma_total_nonneg(hs: Seq<HostQueue>)
    ensures
        total_of(hs) >= 0,
    decreases hs.len(),
{
    if hs.len() > 0 {
        lemma_total_nonneg(hs.drop_last());
    }
}

proof fn lemma_total_update(hs: Seq<HostQueue>, i: int, hq: HostQueue)
    requires
        0 <= i < hs.len(),
    ensures
        total_of(hs.update(i, hq)) == total_of(hs) - pq_contents(hs[i].queue).len()
            + pq_contents(hq.queue).len(),
    decreases hs.len(),
{
    if i == hs.len() - 1 {
        assert(hs.update(i, hq).drop_last() =~= hs.drop_last());
        assert(hs.update(i, hq).last() == hq);
    } else {
        lemma_total_update(hs.drop_last(), i, hq);
        assert(hs.update(i, hq).drop_last() =~= hs.drop_last().update(i, hq));
        assert(hs.update(i, hq).last() == hs.last());
    }
}

proof fn lemma_total_push(hs: Seq<HostQueue>, hq: HostQueue)
    ensures
        total_of(hs.push(hq)) == total_of(hs) + pq_contents(hq.queue).len(),
{
    assert(hs.push(hq).drop_last() =~= hs);
    assert(hs.push(hq).last() == hq);
}

proof fn lemma_total_part(hs: Seq<HostQueue>, i: int)
    requires
        0 <= i < hs.len(),
    ensures
        total_of(hs) >= pq_contents(hs[i].queue).len(),
    decreases hs.len(),
{
    lemma_total_nonneg(hs.drop_last());
    if i < hs.len() - 1 {
        lemma_total_part(hs.drop_last(), i);
        assert(pq_contents(hs.drop_last()[i].queue).len() == pq_contents(hs[i].queue).len());
    }
}

/// The priority given to a URL on admission: internal URLs first, then
/// sitemap finds, then short paths.
pub open spec fn spec_priority(
    pattern: Seq<char>,
    host: Seq<char>,
    path_len: int,
    is_sitemap: bool,
) -> int {
    (if occurs(pattern, host) {
        5int
    } else {
        0int
    }) + (if is_sitemap {
        3int
    } else {
        0int
    }) + (if path_len < 20 {
        1int
    } else {
        0int
    })
}

/// Computes the admission priority from the already-decided facts.
pub fn calculate_priority(
    url: &UrlParts,
    scope: &Scope,
    is_internal: bool,
    is_sitemap: bool,
) -> (r: i32)
    requires
        is_internal == occurs(scope.pattern@, url.host@),
    ensures
        r == spec_priority(scope.pattern@, url.host@, url.path@.len() as int, is_sitemap),
        0 <= r <= 9,
{
    let mut priority: i32 = 0;
    if is_internal {
        priority = priority + 5;
    }
    if is_sitemap {
        priority = priority + 3;
    }
    let path_chars = chars_of(url.path.as_str());
    if path_chars.len() < 20 {
        priority = priority + 1;
    }
    priority
}

/// The priority, per-host, politeness-aware URL queue.
pub struct Frontier {
    pub hosts: Vec<HostQueue>,
    pub seen: StringHashSet,
    pub seen_list: Vec<String>,
    pub size: usize,
}

impl Frontier {
    /// Some host entry carries the name `h`.
    pub open spec fn has_host(self, h: Seq<char>) -> bool {
        exists|i: int| 0 <= i < self.hosts@.len() && self.hosts@[i].host@ == h
    }

    /// The index of the host entry named `h` (unique under `inv`).
    pub open spec fn host_index(self, h: Seq<char>) -> int {
        choose|i: int| 0 <= i < self.hosts@.len() && self.hosts@[i].host@ == h
    }

    /// The queue contents for host `h`; empty when the host is unknown.
    pub open spec fn queue_of(self, h: Seq<char>) -> Multiset<(Seq<char>, i32)> {
        if self.has_host(h) {
            pq_contents(self.hosts@[self.host_index(h)].queue)
        } else {
            Multiset::<(Seq<char>, i32)>::empty()
        }
    }

    /// When host `h` may next be popped; an unknown host is eligible at
    /// once.
    pub open spec fn next_allowed_of(self, h: Seq<char>) -> int {
        if self.has_host(h) {
            self.hosts@[self.host_index(h)].next_allowed_at_ms as int
        } else {
            0
        }
    }

    /// Host entry `i` is past its politeness gate and has work.
    pub open spec fn eligible_nonempty_at(self, i: int, now: int) -> bool {
        self.hosts@[i].next_allowed_at_ms <= now && pq_contents(self.hosts@[i].queue).len() > 0
    }

    /// The frontier's well-formedness: the size matches the queues, host
    /// names are unique, queued URLs are in the seen-set, priorities lie
    /// in the admission range, and no URL is queued twice anywhere.
    pub open spec fn inv(self) -> bool {
        &&& self.size == total_of(self.hosts@)
        &&& forall|i: int, j: int|
            #![trigger self.hosts@[i].host@, self.hosts@[j].host@]
            0 <= i < j < self.hosts@.len() ==> self.hosts@[i].host@ != self.hosts@[j].host@
        &&& forall|i: int, e: (Seq<char>, i32)|
            0 <= i < self.hosts@.len() && #[trigger] pq_contents(self.hosts@[i].queue).contains(
                e,
            ) ==> self.seen@.contains(e.0) && 0 <= e.1 <= 9
        &&& self.size <= MAX_QUEUE_SIZE
        &&& forall|i: int, e1: (Seq<char>, i32), e2: (Seq<char>, i32)|
            0 <= i < self.hosts@.len() && #[trigger] pq_contents(self.hosts@[i].queue).contains(
                e1,
            ) && #[trigger] pq_contents(self.hosts@[i].queue).contains(e2) && e1.0 == e2.0
                ==> e1 == e2
        &&& forall|i: int, e: (Seq<char>, i32)|
            0 <= i < self.hosts@.len() ==> #[trigger] pq_contents(self.hosts@[i].queue).count(e)
                <= 1
        &&& self.seen_list@.map_values(|s: String| s@).to_set() == self.seen@
        &&& forall|a: int, b: int|
            #![trigger self.seen_list@[a]@, self.seen_list@[b]@]
            0 <= a < b < self.seen_list@.len() ==> self.seen_list@[a]@ != self.seen_list@[b]@
    }

    proof fn lemma_host_index_is(self, j: int)
        requires
            forall|i1: int, i2: int|
                #![trigger self.hosts@[i1].host@, self.hosts@[i2].host@]
                0 <= i1 < i2 < self.hosts@.len() ==> self.hosts@[i1].host@
                    != self.hosts@[i2].host@,
            0 <= j < self.hosts@.len(),
        ensures
            self.has_host(self.hosts@[j].host@),
            self.host_index(self.hosts@[j].host@) == j,
    {
        let h = self.hosts@[j].host@;
        assert(self.has_host(h));
        let i = self.host_index(h);
        if i != j {
            if i < j {
                assert(self.hosts@[i].host@ != self.hosts@[j].host@);
            } else {
                assert(self.hosts@[j].host@ != self.hosts@[i].host@);
            }
        }
    }

    pub fn new() -> (r: Frontier)
        ensures
            r.inv(),
            r.size == 0,
            r.hosts@.len() == 0,
            r.seen_list@.len() == 0,
            r.seen@ == Set::<Seq<char>>::empty(),
            forall|h: Seq<char>| r.queue_of(h) == Multiset::<(Seq<char>, i32)>::empty(),
            forall|h: Seq<char>| r.next_allowed_of(h) == 0,
    {
        let f = Frontier {
            hosts: Vec::new(),
            seen: StringHashSet::new(),
            seen_list: Vec::new(),
            size: 0,
        };
        proof {
            assert(f.seen_list@.map_values(|s: String| s@).to_set() =~= f.seen@);
            assert(forall|h: Seq<char>| !f.has_host(h));
        }
        f
    }

    pub fn has_capacity(&self) -> (r: bool)
        ensures
            r == (self.size < MAX_QUEUE_SIZE),
    {
        self.size < MAX_QUEUE_SIZE
    }

    pub fn size(&self) -> (r: usize)
        ensures
            r == self.size,
    {
        self.size
    }

    pub fn is_empty(&self) -> (r: bool)
        ensures
            r == (self.size == 0),
    {
        self.size == 0
    }

    /// Admits `url` unless it was ever admitted before or the frontier
    /// is full; a repeated or over-capacity add is a silent no-op.
    pub fn add_url(&mut self, url: &UrlParts, scope: &Scope, is_sitemap: bool)
        requires
            old(self).inv(),
        ensures
            final(self).inv(),
            old(self).seen@.contains(url.serialized@) || old(self).size >= MAX_QUEUE_SIZE
                ==> *final(self) == *old(self),
            !old(self).seen@.contains(url.serialized@) && old(self).size < MAX_QUEUE_SIZE ==> {
                &&& final(self).seen@ == old(self).seen@.insert(url.serialized@)
                &&& final(self).size == old(self).size + 1
                &&& final(self).queue_of(url.host@) == old(self).queue_of(url.host@).insert(
                    (
                        url.serialized@,
                        spec_priority(
                            scope.pattern@,
                            url.host@,
                            url.path@.len() as int,
                            is_sitemap,
                        ) as i32,
                    ),
                )
                &&& forall|h: Seq<char>|
                    h != url.host@ ==> final(self).queue_of(h) == old(self).queue_of(h)
                &&& forall|h: Seq<char>|
                    final(self).next_allowed_of(h) == old(self).next_allowed_of(h)
            },
            final(self).seen@.contains(url.serialized@) || old(self).size >= MAX_QUEUE_SIZE,
    {
        if self.seen.contains(url.serialized.as_str()) {
            return ;
        }
        if self.size >= MAX_QUEUE_SIZE {
            return ;
        }
        let host_chars = chars_of(url.host.as_str());
        let pattern_chars = chars_of(scope.pattern.as_str());
        let is_internal = contains_chars(&pattern_chars, &host_chars);
        let priority = calculate_priority(url, scope, is_internal, is_sitemap);

        let ghost old_self = *self;

        // find or create the host entry, and push into its queue
        let mut j: usize = 0;
        let mut found: bool = false;
        while j < self.hosts.len() && !found
            invariant
                j <= self.hosts@.len(),
                *self == old_self,
                found ==> j < self.hosts@.len() && self.hosts@[j as int].host@ == url.host@,
                !found ==> forall|k: int| 0 <= k < j ==> self.hosts@[k].host@ != url.host@,
            decreases self.hosts@.len() - j + (if found {
                0int
            } else {
                1int
            }),
        {
            if str_eq(self.hosts[j].host.as_str(), url.host.as_str()) {
                found = true;
            } else {
                j = j + 1;
            }
        }
        if found {
            proof {
                old_self.lemma_host_index_is(j as int);
            }
            let mut hq = self.hosts.remove(j);
            proof {
                assert(forall|p: i32|
                    !pq_contents(hq.queue).contains((url.serialized@, p))) by {
                    assert(forall|p: i32|
                        pq_contents(old_self.hosts@[j as int].queue).contains(
                            (url.serialized@, p),
                        ) ==> old_self.seen@.contains(url.serialized@));
                }
            }
            pq_push(&mut hq.queue, String::from_str(url.serialized.as_str()), priority);
            self.hosts.insert(j, hq);
            proof {
                assert(self.hosts@ =~= old_self.hosts@.update(j as int, self.hosts@[j as int]));
                lemma_total_update(old_self.hosts@, j as int, self.hosts@[j as int]);
            }
        } else {
            let mut hq = HostQueue {
                host: String::from_str(url.host.as_str()),
                queue: pq_new(),
                next_allowed_at_ms: 0,
            };
            pq_push(&mut hq.queue, String::from_str(url.serialized.as_str()), priority);
            self.hosts.push(hq);
            proof {
                lemma_total_push(old_self.hosts@, self.hosts@.last());
            }
        }
        self.seen.insert(String::from_str(url.serialized.as_str()));
        self.seen_list.push(String::from_str(url.serialized.as_str()));
        self.size = self.size + 1;

        proof {
            let j2: int = if found {
                j as int
            } else {
                old_self.hosts@.len() as int
            };
            let newpair = (url.serialized@, priority);
            assert(self.hosts@.len() == old_self.hosts@.len() + (if found {
                0int
            } else {
                1int
            }));
            assert(forall|k: int|
                0 <= k < self.hosts@.len() && k != j2 ==> self.hosts@[k]
                    == old_self.hosts@[k]);
            assert(self.hosts@[j2].host@ == url.host@);
            let oldq: Multiset<(Seq<char>, i32)> = if found {
                pq_contents(old_self.hosts@[j2].queue)
            } else {
                Multiset::<(Seq<char>, i32)>::empty()
            };
            assert(pq_contents(self.hosts@[j2].queue) == oldq.insert(newpair));
            assert(oldq == old_self.queue_of(url.host@)) by {
                if found {
                    old_self.lemma_host_index_is(j2);
                } else {
                    if old_self.has_host(url.host@) {
                        let k = old_self.host_index(url.host@);
                        assert(old_self.hosts@[k].host@ == url.host@);
                    }
                }
            }
            assert(forall|p: i32| !oldq.contains((url.serialized@, p)));

            // size bookkeeping
            if found {
                assert(self.size == total_of(self.hosts@));
            } else {
                assert(self.size == total_of(self.hosts@));
            }

            // seen-list bookkeeping
            assert(self.seen_list@.map_values(|s: String| s@).to_set() =~= self.seen@) by {
                assert(self.seen_list@.map_values(|s: String| s@) =~= old_self.seen_list@
                    .map_values(|s: String| s@).push(url.serialized@));
                assert(old_self.seen_list@.map_values(|s: String| s@).push(
                    url.serialized@,
                ).to_set() =~= old_self.seen_list@.map_values(|s: String| s@).to_set().insert(
                    url.serialized@,
                )) by {
                    broadcast use vstd::seq_lib::group_seq_properties;
                }
            }
            assert(forall|a: int, b: int|
                #![trigger self.seen_list@[a]@, self.seen_list@[b]@]
                0 <= a < b < self.seen_list@.len() ==> self.seen_list@[a]@
                    != self.seen_list@[b]@) by {
                assert forall|a: int| 0 <= a < old_self.seen_list@.len() implies old_self
                    .seen@.contains(#[trigger] old_self.seen_list@[a]@) by {
                    broadcast use vstd::set::group_set_axioms;
                    let mapped = old_self.seen_list@.map_values(|s: String| s@);
                    assert(mapped[a] == old_self.seen_list@[a]@);
                    assert(mapped.contains(mapped[a]));
                    assert(mapped.to_set().contains(mapped[a]));
                }
            }

            // host-name distinctness of the new state
            assert(forall|i1: int, i2: int|
                #![trigger self.hosts@[i1].host@, self.hosts@[i2].host@]
                0 <= i1 < i2 < self.hosts@.len() ==> self.hosts@[i1].host@
                    != self.hosts@[i2].host@) by {
                if found {
                    assert(forall|k: int|
                        0 <= k < self.hosts@.len() ==> self.hosts@[k].host@
                            == old_self.hosts@[k].host@);
                } else {
                    assert(forall|k: int|
                        0 <= k < j2 ==> self.hosts@[k].host@ != url.host@);
                }
            }
            self.lemma_host_index_is(j2);

            // queued URLs are seen, in range, and unique
            assert forall|i2: int, e: (Seq<char>, i32)|
                0 <= i2 < self.hosts@.len() && #[trigger] pq_contents(
                    self.hosts@[i2].queue,
                ).contains(e) implies self.seen@.contains(e.0) && 0 <= e.1 <= 9 by {
                if i2 == j2 {
                    if e != newpair {
                        assert(oldq.contains(e));
                    }
                } else {
                    assert(self.hosts@[i2] == old_self.hosts@[i2]);
                }
            }
            assert forall|i1: int, e1: (Seq<char>, i32), e2: (Seq<char>, i32)|
                0 <= i1 < self.hosts@.len() && #[trigger] pq_contents(
                    self.hosts@[i1].queue,
                ).contains(e1) && #[trigger] pq_contents(self.hosts@[i1].queue).contains(e2)
                    && e1.0 == e2.0 implies e1 == e2 by {
                if i1 == j2 {
                    if e1 != newpair {
                        assert(oldq.contains(e1));
                        assert(old_self.seen@.contains(e1.0));
                    }
                    if e2 != newpair {
                        assert(oldq.contains(e2));
                        assert(old_self.seen@.contains(e2.0));
                    }
                    if e1 == newpair && e2 != newpair {
                        assert(false);
                    } else if e2 == newpair && e1 != newpair {
                        assert(false);
                    }
                } else {
                    assert(self.hosts@[i1] == old_self.hosts@[i1]);
                }
            }
            assert forall|i2: int, e: (Seq<char>, i32)|
                0 <= i2 < self.hosts@.len() implies #[trigger] pq_contents(
                    self.hosts@[i2].queue,
                ).count(e) <= 1 by {
                if i2 == j2 {
                    if e == newpair {
                        assert(oldq.count(e) == 0) by {
                            if oldq.count(e) > 0 {
                                assert(oldq.contains(e));
                            }
                        }
                    } else {
                        if found {
                            assert(oldq.count(e) <= 1);
                        }
                    }
                } else {
                    assert(self.hosts@[i2] == old_self.hosts@[i2]);
                }
            }

            // the stated frame and effect on the per-host views
            assert((*self).queue_of(url.host@) == old_self.queue_of(url.host@).insert(
                newpair,
            )) by {
                assert((*self).host_index(url.host@) == j2);
            }
            assert forall|h: Seq<char>| h != url.host@ implies (*self).queue_of(h)
                == old_self.queue_of(h) by {
                if (*self).has_host(h) {
                    let i2 = (*self).host_index(h);
                    assert(0 <= i2 < self.hosts@.len() && self.hosts@[i2].host@ == h);
                    assert(i2 != j2);
                    assert(old_self.hosts@[i2].host@ == h);
                    assert(old_self.has_host(h));
                    old_self.lemma_host_index_is(i2);
                } else {
                    if old_self.has_host(h) {
                        let i2 = old_self.host_index(h);
                        assert(old_self.hosts@[i2].host@ == h);
                        assert(self.hosts@[i2].host@ == h);
                        assert(false);
                    }
                }
            }
            assert forall|h: Seq<char>| true implies (*self).next_allowed_of(h)
                == old_self.next_allowed_of(h) by {
                if h == url.host@ {
                    if old_self.has_host(h) {
                        old_self.lemma_host_index_is(old_self.host_index(h));
                        assert((*self).host_index(h) == j2);
                        assert(self.hosts@[j2].next_allowed_at_ms == old_self.hosts@[
                            j2
                        ].next_allowed_at_ms);
                    } else {
                        assert(!found);
                        assert(self.hosts@[j2].next_allowed_at_ms == 0);
                    }
                } else {
                    if (*self).has_host(h) {
                        let i2 = (*self).host_index(h);
                        assert(i2 != j2);
                        assert(old_self.hosts@[i2].host@ == h);
                        old_self.lemma_host_index_is(i2);
                    } else {
                        if old_self.has_host(h) {
                            let i2 = old_self.host_index(h);
                            assert(self.hosts@[i2].host@ == h);
                            assert(false);
                        }
                    }
                }
            }
        }
    }

    /// What a successful pop did, naming the host index `i` and the
    /// priority `p`: host `i` was eligible and held `u` with priority
    /// `p`, no eligible host held anything of greater priority, `u`
    /// left that queue, and that host's gate moved to `now + delay`.
    pub open spec fn popped_from(
        pre: Frontier,
        post: Frontier,
        u: Seq<char>,
        now_ms: u64,
        i: int,
        p: i32,
    ) -> bool {
        &&& 0 <= i < pre.hosts@.len()
        &&& pre.hosts@[i].next_allowed_at_ms <= now_ms
        &&& pq_contents(pre.hosts@[i].queue).contains((u, p))
        &&& forall|j: int, e: (Seq<char>, i32)|
            0 <= j < pre.hosts@.len() && pre.hosts@[j].next_allowed_at_ms <= now_ms
                && #[trigger] pq_contents(pre.hosts@[j].queue).contains(e) ==> e.1 <= p
        &&& post.hosts@ == pre.hosts@.update(i, post.hosts@[i])
        &&& post.hosts@[i].host == pre.hosts@[i].host
        &&& post.hosts@[i].next_allowed_at_ms == now_ms + POLITENESS_DELAY_MS
        &&& pq_contents(post.hosts@[i].queue) == pq_contents(pre.hosts@[i].queue).remove(
            (u, p),
        )
        &&& post.size + 1 == pre.size
    }

    /// What a successful pop did: some eligible host held `u`, and the
    /// rest of `popped_from` holds of it.
    pub open spec fn popped_ok(pre: Frontier, post: Frontier, u: Seq<char>, now_ms: u64) -> bool {
        exists|i: int, p: i32| #[trigger] Self::popped_from(pre, post, u, now_ms, i, p)
    }

    /// Pops the URL with the greatest priority among all hosts whose
    /// politeness gate has passed at `now_ms`, and closes that host's
    /// gate for the politeness delay. Returns nothing exactly when no
    /// host is both eligible and non-empty.
    pub fn get_next_url(&mut self, now_ms: u64) -> (r: Option<String>)
        requires
            old(self).inv(),
            now_ms + POLITENESS_DELAY_MS <= u64::MAX,
        ensures
            final(self).inv(),
            final(self).seen@ == old(self).seen@,
            match r {
                None => *final(self) == *old(self) && forall|i: int|
                    0 <= i < old(self).hosts@.len() ==> !old(self).eligible_nonempty_at(
                        i,
                        now_ms as int,
                    ),
                Some(u) => Self::popped_ok(*old(self), *final(self), u@, now_ms),
            },
    {
        let ghost old_self = *self;
        let mut best: usize = 0;
        let mut best_prio: i32 = 0;
        let mut have_best: bool = false;
        let ghost mut wit: (Seq<char>, i32) = (Seq::<char>::empty(), 0i32);
        let mut i: usize = 0;
        while i < self.hosts.len()
            invariant
                *self == old_self,
                i <= self.hosts@.len(),
                have_best ==> best < i && self.hosts@[best as int].next_allowed_at_ms <= now_ms
                    && pq_contents(self.hosts@[best as int].queue).contains(wit) && wit.1
                    == best_prio,
                have_best ==> forall|j: int, e: (Seq<char>, i32)|
                    0 <= j < i && self.hosts@[j].next_allowed_at_ms <= now_ms
                        && #[trigger] pq_contents(self.hosts@[j].queue).contains(e) ==> e.1
                        <= best_prio,
                !have_best ==> forall|j: int|
                    0 <= j < i ==> !self.eligible_nonempty_at(j, now_ms as int),
            decreases self.hosts@.len() - i,
        {
            let ghost prev_prio = best_prio;
            let ghost prev_have = have_best;
            if self.hosts[i].next_allowed_at_ms <= now_ms {
                match pq_peek_prio(&self.hosts[i].queue) {
                    Some(p) => {
                        if !have_best || p > best_prio {
                            best = i;
                            best_prio = p;
                            have_best = true;
                            proof {
                                wit = choose|e: (Seq<char>, i32)|
                                    pq_contents(self.hosts@[i as int].queue).contains(e) && e.1
                                        == p;
                                assert(pq_contents(self.hosts@[i as int].queue).contains(wit)
                                    && wit.1 == p);
                                assert forall|j: int, e: (Seq<char>, i32)|
                                    0 <= j < i + 1 && self.hosts@[j].next_allowed_at_ms
                                        <= now_ms && #[trigger] pq_contents(
                                        self.hosts@[j].queue,
                                    ).contains(e) implies e.1 <= p by {
                                    if j < i {
                                        if prev_have {
                                            assert(e.1 <= prev_prio);
                                        } else {
                                            assert(!self.eligible_nonempty_at(
                                                j,
                                                now_ms as int,
                                            ));
                                            assert(pq_contents(
                                                self.hosts@[j].queue,
                                            ).count(e) >= 1);
                                            assert(false);
                                        }
                                    }
                                }
                            }
                        } else {
                            proof {
                                assert forall|j: int, e: (Seq<char>, i32)|
                                    0 <= j < i + 1 && self.hosts@[j].next_allowed_at_ms
                                        <= now_ms && #[trigger] pq_contents(
                                        self.hosts@[j].queue,
                                    ).contains(e) implies e.1 <= best_prio by {
                                    if j == i {
                                        assert(e.1 <= p);
                                    }
                                }
                            }
                        }
                    },
                    None => {
                        proof {
                            assert(pq_contents(self.hosts@[i as int].queue).len() == 0);
                            assert(!self.eligible_nonempty_at(i as int, now_ms as int));
                        }
                    },
                }
            } else {
                proof {
                    assert(!self.eligible_nonempty_at(i as int, now_ms as int));
                }
            }
            i = i + 1;
        }
        if !have_best {
            return None;
        }
        let mut hq = self.hosts.remove(best);
        let popped = pq_pop(&mut hq.queue);
        hq.next_allowed_at_ms = now_ms + POLITENESS_DELAY_MS;
        self.hosts.insert(best, hq);
        proof {
            assert(self.hosts@ =~= old_self.hosts@.update(
                best as int,
                self.hosts@[best as int],
            ));
            lemma_total_update(old_self.hosts@, best as int, self.hosts@[best as int]);
            lemma_total_part(old_self.hosts@, best as int);
            lemma_total_nonneg(old_self.hosts@);
        }
        match popped {
            Some(ip) => {
                self.size = self.size - 1;
                proof {
                    let b = best as int;
                    let oldq = pq_contents(old_self.hosts@[b].queue);
                    assert(oldq.contains((ip.0@, ip.1)));
                    assert(wit.1 <= ip.1);
                    // every eligible element anywhere is at most the popped priority
                    assert(forall|j: int, e: (Seq<char>, i32)|
                        0 <= j < old_self.hosts@.len() && old_self.hosts@[
                            j
                        ].next_allowed_at_ms <= now_ms && #[trigger] pq_contents(
                            old_self.hosts@[j].queue,
                        ).contains(e) ==> e.1 <= ip.1);

                    // the invariant of the new state
                    assert(self.size == total_of(self.hosts@));
                    assert(forall|k: int|
                        0 <= k < self.hosts@.len() && k != b ==> self.hosts@[k]
                            == old_self.hosts@[k]);
                    assert(self.hosts@[b].host@ == old_self.hosts@[b].host@);
                    assert(forall|i1: int, i2: int|
                        #![trigger self.hosts@[i1].host@, self.hosts@[i2].host@]
                        0 <= i1 < i2 < self.hosts@.len() ==> self.hosts@[i1].host@
                            != self.hosts@[i2].host@) by {
                        assert(forall|k: int|
                            0 <= k < self.hosts@.len() ==> self.hosts@[k].host@
                                == old_self.hosts@[k].host@);
                    }
                    assert forall|i2: int, e: (Seq<char>, i32)|
                        0 <= i2 < self.hosts@.len() && #[trigger] pq_contents(
                            self.hosts@[i2].queue,
                        ).contains(e) implies self.seen@.contains(e.0) && 0 <= e.1 <= 9 by {
                        if i2 == b {
                            assert(oldq.contains(e));
                        } else {
                            assert(self.hosts@[i2] == old_self.hosts@[i2]);
                        }
                    }
                    assert forall|i1: int, e1: (Seq<char>, i32), e2: (Seq<char>, i32)|
                        0 <= i1 < self.hosts@.len() && #[trigger] pq_contents(
                            self.hosts@[i1].queue,
                        ).contains(e1) && #[trigger] pq_contents(
                            self.hosts@[i1].queue,
                        ).contains(e2) && e1.0 == e2.0 implies e1 == e2 by {
                        if i1 == b {
                            assert(oldq.contains(e1));
                            assert(oldq.contains(e2));
                        } else {
                            assert(self.hosts@[i1] == old_self.hosts@[i1]);
                        }
                    }
                    assert forall|i2: int, e: (Seq<char>, i32)|
                        0 <= i2 < self.hosts@.len() implies #[trigger] pq_contents(
                            self.hosts@[i2].queue,
                        ).count(e) <= 1 by {
                        if i2 == b {
                            assert(pq_contents(self.hosts@[b].queue).count(e) <= oldq.count(
                                e,
                            ));
                        } else {
                            assert(self.hosts@[i2] == old_self.hosts@[i2]);
                        }
                    }

                    // the witness for the stated existential
                    assert(self.hosts@ == old_self.hosts@.update(b, self.hosts@[b]));
                    assert(self.hosts@[b].host == old_self.hosts@[b].host);
                    assert(self.hosts@[b].next_allowed_at_ms == now_ms + POLITENESS_DELAY_MS);
                    assert(pq_contents(self.hosts@[b].queue) == oldq.remove((ip.0@, ip.1)));
                    assert(self.size + 1 == old_self.size);
                    assert(Self::popped_from(old_self, *self, ip.0@, now_ms, b, ip.1));
                    assert(Self::popped_ok(old_self, *self, ip.0@, now_ms));
                }
                Some(ip.0)
            },
            None => {
                // unreachable: the chosen queue held a witness element
                proof {
                    assert(pq_contents(old_self.hosts@[best as int].queue).contains(wit));
                    assert(pq_contents(old_self.hosts@[best as int].queue).count(wit) >= 1);
                    assert(false);
                }
                None
            },
        }
    }
}


/// One host's queue as persisted: the host name and every queued
/// (URL, priority) pair.
pub struct HostSnapshot {
    pub host: String,
    pub entries: Vec<(String, i32)>,
}

/// A persistable image of the frontier: the seen-set and the queue
/// contents per host. Politeness gates are not persisted; after a load
/// every host starts eligible.
pub struct FrontierSnapshot {
    pub seen: Vec<String>,
    pub hosts: Vec<HostSnapshot>,
}

/// The multiset of (URL, priority) pairs an entry list denotes.
pub open spec fn entries_ms(entries: Seq<(String, i32)>) -> Multiset<(Seq<char>, i32)> {
    entries.map_values(|e: (String, i32)| (e.0@, e.1)).to_multiset()
}

/// The seen-set a snapshot denotes.
pub open spec fn snap_seen_set(s: FrontierSnapshot) -> Set<Seq<char>> {
    s.seen@.map_values(|x: String| x@).to_set()
}

/// Total number of entries over the snapshot's hosts.
pub open spec fn snap_total(hs: Seq<HostSnapshot>) -> int
    decreases hs.len(),
{
    if hs.len() == 0 {
        0
    } else {
        snap_total(hs.drop_last()) + hs.last().entries@.len()
    }
}

proof fn lemma_snap_total_push(hs: Seq<HostSnapshot>, h: HostSnapshot)
    ensures
        snap_total(hs.push(h)) == snap_total(hs) + h.entries@.len(),
{
    assert(hs.push(h).drop_last() =~= hs);
    assert(hs.push(h).last() == h);
}

proof fn lemma_snap_total_nonneg(hs: Seq<HostSnapshot>)
    ensures
        snap_total(hs) >= 0,
    decreases hs.len(),
{
    if hs.len() > 0 {
        lemma_snap_total_nonneg(hs.drop_last());
    }
}

proof fn lemma_snap_total_prefix(hs: Seq<HostSnapshot>, i: int)
    requires
        0 <= i <= hs.len(),
    ensures
        snap_total(hs) >= snap_total(hs.take(i)) + (if i < hs.len() {
            hs[i].entries@.len() as int
        } else {
            0
        }),
    decreases hs.len() - i,
{
    if i == hs.len() {
        assert(hs.take(i) =~= hs);
    } else if i == hs.len() - 1 {
        assert(hs.take(i) =~= hs.drop_last());
    } else {
        lemma_snap_total_prefix(hs.drop_last(), i);
        assert(hs.drop_last().take(i) =~= hs.take(i));
    }
}

/// The snapshot mirrors the frontier: same hosts in the same order with
/// the same queue contents, and the same seen-set.
pub open spec fn snapshot_matches(f: Frontier, s: FrontierSnapshot) -> bool {
    &&& s.hosts@.len() == f.hosts@.len()
    &&& forall|i: int|
        0 <= i < s.hosts@.len() ==> (#[trigger] s.hosts@[i].host@) == f.hosts@[i].host@
    &&& forall|i: int|
        0 <= i < s.hosts@.len() ==> entries_ms(#[trigger] s.hosts@[i].entries@) == pq_contents(
            f.hosts@[i].queue,
        )
    &&& snap_seen_set(s) == f.seen@
}

/// A snapshot that a well-formed frontier can be rebuilt from: host
/// names are unique, every entry's priority lies in the admission range,
/// every queued URL is in the seen-set and queued at most once per host,
/// and the total is within the capacity cap.
pub open spec fn snapshot_wf(s: FrontierSnapshot) -> bool {
    &&& forall|i: int, j: int|
        #![trigger s.hosts@[i].host@, s.hosts@[j].host@]
        0 <= i < j < s.hosts@.len() ==> s.hosts@[i].host@ != s.hosts@[j].host@
    &&& forall|i: int, k: int|
        #![trigger s.hosts@[i].entries@[k]]
        0 <= i < s.hosts@.len() && 0 <= k < s.hosts@[i].entries@.len() ==> 0 <= s.hosts@[
            i
        ].entries@[k].1 <= 9 && snap_seen_set(s).contains(s.hosts@[i].entries@[k].0@)
    &&& forall|i: int, k1: int, k2: int|
        #![trigger s.hosts@[i].entries@[k1], s.hosts@[i].entries@[k2]]
        0 <= i < s.hosts@.len() && 0 <= k1 < k2 < s.hosts@[i].entries@.len() ==> s.hosts@[
            i
        ].entries@[k1].0@ != s.hosts@[i].entries@[k2].0@
    &&& snap_total(s.hosts@) <= MAX_QUEUE_SIZE
}

impl Frontier {
    /// The persistable image of this frontier.
    pub fn snapshot(&self) -> (r: FrontierSnapshot)
        requires
            self.inv(),
        ensures
            snapshot_matches(*self, r),
            snapshot_wf(r),
    {
        let mut seen: Vec<String> = Vec::new();
        let mut i: usize = 0;
        while i < self.seen_list.len()
            invariant
                i <= self.seen_list@.len(),
                seen@.len() == i,
                forall|a: int| 0 <= a < i ==> (#[trigger] seen@[a]@) == self.seen_list@[a]@,
            decreases self.seen_list@.len() - i,
        {
            seen.push(String::from_str(self.seen_list[i].as_str()));
            i = i + 1;
        }
        let mut hosts: Vec<HostSnapshot> = Vec::new();
        let mut j: usize = 0;
        while j < self.hosts.len()
            invariant
                self.inv(),
                j <= self.hosts@.len(),
                hosts@.len() == j,
                forall|a: int| 0 <= a < j ==> (#[trigger] hosts@[a].host@) == self.hosts@[
                    a
                ].host@,
                forall|a: int|
                    0 <= a < j ==> entries_ms(#[trigger] hosts@[a].entries@) == pq_contents(
                        self.hosts@[a].queue,
                    ),
            decreases self.hosts@.len() - j,
        {
            let entries = pq_items(&self.hosts[j].queue);
            let ghost ev = entries@;
            let ghost pre_hosts = hosts@;
            hosts.push(
                HostSnapshot { host: String::from_str(self.hosts[j].host.as_str()), entries },
            );
            proof {
                assert(hosts@[j as int].entries@ == ev);
                assert(entries_ms(ev) == pq_contents(self.hosts@[j as int].queue));
                assert forall|a: int| 0 <= a < j + 1 implies entries_ms(
                    #[trigger] hosts@[a].entries@,
                ) == pq_contents(self.hosts@[a].queue) by {
                    if a < j {
                        assert(hosts@[a] == pre_hosts[a]);
                        assert(entries_ms(pre_hosts[a].entries@) == pq_contents(
                            self.hosts@[a].queue,
                        ));
                    }
                }
                assert forall|a: int| 0 <= a < j + 1 implies (#[trigger] hosts@[a].host@)
                    == self.hosts@[a].host@ by {
                    if a < j {
                        assert(hosts@[a] == pre_hosts[a]);
                    }
                }
            }
            j = j + 1;
        }
        let r = FrontierSnapshot { seen, hosts };
        proof {
            // the seen list carries over element for element
            assert(r.seen@.map_values(|x: String| x@) =~= self.seen_list@.map_values(
                |x: String| x@,
            ));
            assert(snap_seen_set(r) == self.seen@);

            // well-formedness of the snapshot
            broadcast use vstd::seq_lib::group_to_multiset_ensures;

            assert forall|i1: int, k: int|
                0 <= i1 < r.hosts@.len() && 0 <= k < r.hosts@[i1].entries@.len() implies 0 <= (
                #[trigger] r.hosts@[i1].entries@[k]).1 <= 9 && snap_seen_set(r).contains(
                r.hosts@[i1].entries@[k].0@,
            ) by {
                let mapped = r.hosts@[i1].entries@.map_values(|e: (String, i32)| (e.0@, e.1));
                assert(mapped[k] == (r.hosts@[i1].entries@[k].0@, r.hosts@[i1].entries@[k].1));
                assert(mapped.contains(mapped[k]));
                assert(mapped.to_multiset().contains(mapped[k]));
                assert(pq_contents(self.hosts@[i1].queue).contains(mapped[k]));
            }
            assert forall|i1: int, k1: int, k2: int|
                0 <= i1 < r.hosts@.len() && 0 <= k1 < k2 < r.hosts@[i1].entries@.len() implies (
                #[trigger] r.hosts@[i1].entries@[k1]).0@ != (#[trigger] r.hosts@[
                i1
            ].entries@[k2]).0@ by {
                let mapped = r.hosts@[i1].entries@.map_values(|e: (String, i32)| (e.0@, e.1));
                assert(mapped[k1] == (r.hosts@[i1].entries@[k1].0@, r.hosts@[i1].entries@[
                    k1
                ].1));
                assert(mapped[k2] == (r.hosts@[i1].entries@[k2].0@, r.hosts@[i1].entries@[
                    k2
                ].1));
                assert(mapped.contains(mapped[k1]));
                assert(mapped.contains(mapped[k2]));
                assert(mapped.to_multiset().contains(mapped[k1]));
                assert(mapped.to_multiset().contains(mapped[k2]));
                assert(pq_contents(self.hosts@[i1].queue).contains(mapped[k1]));
                assert(pq_contents(self.hosts@[i1].queue).contains(mapped[k2]));
                if mapped[k1].0 == mapped[k2].0 {
                    assert(mapped[k1] == mapped[k2]);
                    assert(forall|x: (Seq<char>, i32)|
                        mapped.to_multiset().contains(x) ==> mapped.to_multiset().count(x)
                            == 1) by {
                        assert(forall|x: (Seq<char>, i32)|
                            #[trigger] mapped.to_multiset().count(x) <= 1);
                    }
                    mapped.lemma_multiset_has_no_duplicates_conv();
                    assert(false);
                }
            }
            assert(snap_total(r.hosts@) <= MAX_QUEUE_SIZE) by {
                lemma_snap_total_eq_total(r.hosts@, self.hosts@);
            }
        }
        r
    }

    /// Rebuilds a frontier from a snapshot, validating it; a snapshot
    /// taken from a well-formed frontier always loads.
    pub fn from_snapshot(snap: &FrontierSnapshot) -> (r: Option<Frontier>)
        ensures
            match r {
                Some(f) => f.inv() && snapshot_matches(f, *snap) && forall|h: Seq<char>|
                    f.next_allowed_of(h) == 0,
                None => !snapshot_wf(*snap),
            },
    {
        let mut seen = StringHashSet::new();
        let mut seen_list: Vec<String> = Vec::new();
        let mut i: usize = 0;
        while i < snap.seen.len()
            invariant
                i <= snap.seen@.len(),
                seen@ == snap.seen@.map_values(|x: String| x@).take(i as int).to_set(),
                seen_list@.map_values(|x: String| x@).to_set() == seen@,
                forall|a: int, b: int|
                    #![trigger seen_list@[a]@, seen_list@[b]@]
                    0 <= a < b < seen_list@.len() ==> seen_list@[a]@ != seen_list@[b]@,
            decreases snap.seen@.len() - i,
        {
            let u = String::from_str(snap.seen[i].as_str());
            let ghost pre_seen = seen@;
            let ghost pre_list = seen_list@;
            let is_new = seen.insert(u);
            if is_new {
                seen_list.push(String::from_str(snap.seen[i].as_str()));
            }
            proof {
                broadcast use vstd::set::group_set_axioms;

                let mapped = snap.seen@.map_values(|x: String| x@);
                assert(mapped.take(i + 1) =~= mapped.take(i as int).push(mapped[i as int]));
                assert(mapped.take(i + 1).to_set() =~= mapped.take(i as int).to_set().insert(
                    mapped[i as int],
                )) by {
                    broadcast use vstd::seq_lib::group_seq_properties;
                }
                if is_new {
                    assert(seen_list@.map_values(|x: String| x@) =~= pre_list.map_values(
                        |x: String| x@,
                    ).push(snap.seen@[i as int]@));
                    assert(seen_list@.map_values(|x: String| x@).to_set() =~= pre_list
                        .map_values(|x: String| x@).to_set().insert(snap.seen@[i as int]@)) by {
                        broadcast use vstd::seq_lib::group_seq_properties;
                    }
                    assert forall|a: int| 0 <= a < pre_list.len() implies pre_seen.contains(
                        #[trigger] pre_list[a]@,
                    ) by {
                        let m2 = pre_list.map_values(|x: String| x@);
                        assert(m2[a] == pre_list[a]@);
                        assert(m2.contains(m2[a]));
                        assert(m2.to_set().contains(m2[a]));
                    }
                } else {
                    assert(seen@ =~= pre_seen.insert(snap.seen@[i as int]@));
                    assert(seen_list@.map_values(|x: String| x@).to_set() =~= seen@);
                }
            }
            i = i + 1;
        }
        proof {
            assert(snap.seen@.map_values(|x: String| x@).take(snap.seen@.len() as int)
                =~= snap.seen@.map_values(|x: String| x@));
            assert(seen@ == snap_seen_set(*snap));
        }

        let mut hosts: Vec<HostQueue> = Vec::new();
        let mut size: usize = 0;
        let mut hi: usize = 0;
        while hi < snap.hosts.len()
            invariant
                hi <= snap.hosts@.len(),
                seen@ == snap_seen_set(*snap),
                seen_list@.map_values(|x: String| x@).to_set() == seen@,
                forall|a: int, b: int|
                    #![trigger seen_list@[a]@, seen_list@[b]@]
                    0 <= a < b < seen_list@.len() ==> seen_list@[a]@ != seen_list@[b]@,
                hosts@.len() == hi,
                size == snap_total(snap.hosts@.take(hi as int)),
                size <= MAX_QUEUE_SIZE,
                forall|a: int| 0 <= a < hi ==> (#[trigger] hosts@[a].host@) == snap.hosts@[
                    a
                ].host@,
                forall|a: int|
                    0 <= a < hi ==> pq_contents(#[trigger] hosts@[a].queue) == entries_ms(
                        snap.hosts@[a].entries@,
                    ),
                forall|a: int| 0 <= a < hi ==> (#[trigger] hosts@[a].next_allowed_at_ms) == 0,
                forall|a: int, b: int|
                    #![trigger hosts@[a].host@, hosts@[b].host@]
                    0 <= a < b < hi ==> hosts@[a].host@ != hosts@[b].host@,
                forall|a: int, e: (Seq<char>, i32)|
                    0 <= a < hi && #[trigger] pq_contents(hosts@[a].queue).contains(e)
                        ==> seen@.contains(e.0) && 0 <= e.1 <= 9,
                forall|a: int, e1: (Seq<char>, i32), e2: (Seq<char>, i32)|
                    0 <= a < hi && #[trigger] pq_contents(hosts@[a].queue).contains(e1)
                        && #[trigger] pq_contents(hosts@[a].queue).contains(e2) && e1.0 == e2.0
                        ==> e1 == e2,
                forall|a: int, e: (Seq<char>, i32)|
                    0 <= a < hi ==> #[trigger] pq_contents(hosts@[a].queue).count(e) <= 1,
            decreases snap.hosts@.len() - hi,
        {
            // reject a repeated host name
            let mut j: usize = 0;
            while j < hi
                invariant
                    hi < snap.hosts@.len(),
                    j <= hi,
                    hosts@.len() == hi,
                    forall|a: int| 0 <= a < hi ==> (#[trigger] hosts@[a].host@) == snap.hosts@[
                        a
                    ].host@,
                    forall|a: int| 0 <= a < j ==> (#[trigger] snap.hosts@[a].host@)
                        != snap.hosts@[hi as int].host@,
                decreases hi - j,
            {
                if str_eq(hosts[j].host.as_str(), snap.hosts[hi].host.as_str()) {
                    proof {
                        assert(snap.hosts@[j as int].host@ == snap.hosts@[hi as int].host@);
                        assert(!snapshot_wf(*snap));
                    }
                    return None;
                }
                j = j + 1;
            }
            // build this host's queue
            let hsnap_len = snap.hosts[hi].entries.len();
            let mut q = pq_new();
            proof {
                broadcast use vstd::seq_lib::group_to_multiset_ensures;

                let ent0 = snap.hosts@[hi as int].entries@.take(0);
                assert(ent0 =~= Seq::<(String, i32)>::empty());
                let mapped0 = ent0.map_values(|e: (String, i32)| (e.0@, e.1));
                assert(mapped0 =~= Seq::<(Seq<char>, i32)>::empty());
                assert(mapped0.to_multiset().len() == 0);
                assert(entries_ms(ent0) =~= Multiset::<(Seq<char>, i32)>::empty());
            }
            let mut k: usize = 0;
            while k < hsnap_len
                invariant
                    hi < snap.hosts@.len(),
                    hsnap_len == snap.hosts@[hi as int].entries@.len(),
                    k <= hsnap_len,
                    seen@ == snap_seen_set(*snap),
                    size == snap_total(snap.hosts@.take(hi as int)) + k,
                    size <= MAX_QUEUE_SIZE,
                    pq_contents(q) == entries_ms(snap.hosts@[hi as int].entries@.take(
                        k as int,
                    )),
                    forall|e: (Seq<char>, i32)|
                        #[trigger] pq_contents(q).contains(e) ==> seen@.contains(e.0) && 0
                            <= e.1 <= 9,
                    forall|e: (Seq<char>, i32)|
                        #[trigger] pq_contents(q).contains(e) ==> exists|k2: int|
                            0 <= k2 < k && (snap.hosts@[hi as int].entries@[k2].0@, snap.hosts@[
                                hi as int
                            ].entries@[k2].1) == e,
                    forall|e1: (Seq<char>, i32), e2: (Seq<char>, i32)|
                        #[trigger] pq_contents(q).contains(e1) && #[trigger] pq_contents(
                            q,
                        ).contains(e2) && e1.0 == e2.0 ==> e1 == e2,
                    forall|e: (Seq<char>, i32)| #[trigger] pq_contents(q).count(e) <= 1,
                decreases hsnap_len - k,
            {
                let u = String::from_str(snap.hosts[hi].entries[k].0.as_str());
                let p = snap.hosts[hi].entries[k].1;
                if p < 0 || p > 9 {
                    proof {
                        assert(!snapshot_wf(*snap));
                    }
                    return None;
                }
                if !seen.contains(u.as_str()) {
                    proof {
                        assert(!snapshot_wf(*snap));
                    }
                    return None;
                }
                // reject a URL repeated within this host
                let mut k2: usize = 0;
                while k2 < k
                    invariant
                        hi < snap.hosts@.len(),
                        k < snap.hosts@[hi as int].entries@.len(),
                        k2 <= k,
                        u@ == snap.hosts@[hi as int].entries@[k as int].0@,
                        forall|a: int|
                            0 <= a < k2 ==> (#[trigger] snap.hosts@[hi as int].entries@[a].0@)
                                != u@,
                    decreases k - k2,
                {
                    if str_eq(snap.hosts[hi].entries[k2].0.as_str(), u.as_str()) {
                        proof {
                            assert(snap.hosts@[hi as int].entries@[k2 as int].0@ == snap
                                .hosts@[hi as int].entries@[k as int].0@);
                            assert(!snapshot_wf(*snap));
                        }
                        return None;
                    }
                    k2 = k2 + 1;
                }
                if size >= MAX_QUEUE_SIZE {
                    proof {
                        lemma_snap_total_prefix(snap.hosts@, hi as int);
                        lemma_snap_total_nonneg(snap.hosts@.take(hi as int));
                        assert(snap_total(snap.hosts@) > MAX_QUEUE_SIZE) by {
                            assert(snap_total(snap.hosts@) >= snap_total(snap.hosts@.take(
                                hi as int,
                            )) + snap.hosts@[hi as int].entries@.len());
                        }
                        assert(!snapshot_wf(*snap));
                    }
                    return None;
                }
                let ghost pre_q = pq_contents(q);
                proof {
                    assert(forall|pp: i32| !pre_q.contains((u@, pp))) by {
                        assert forall|pp: i32| pre_q.contains((u@, pp)) implies false by {
                            let kk = choose|kk: int|
                                0 <= kk < k && (snap.hosts@[hi as int].entries@[kk].0@,
                                snap.hosts@[hi as int].entries@[kk].1) == (u@, pp);
                            assert(snap.hosts@[hi as int].entries@[kk].0@ == u@);
                        }
                    }
                }
                let ghost up: (Seq<char>, i32) = (u@, p);
                pq_push(&mut q, u, p);
                size = size + 1;
                k = k + 1;
                proof {
                    broadcast use vstd::seq_lib::group_to_multiset_ensures;

                    let ent = snap.hosts@[hi as int].entries@;
                    assert(ent.take(k as int) =~= ent.take(k - 1).push(ent[k - 1]));
                    assert(ent.take(k - 1).map_values(|e: (String, i32)| (e.0@, e.1)).push(
                        (ent[k - 1].0@, ent[k - 1].1),
                    ) =~= ent.take(k as int).map_values(|e: (String, i32)| (e.0@, e.1)));
                    assert(pq_contents(q) == entries_ms(ent.take(k as int)));
                    assert(pq_contents(q) == pre_q.insert(up));
                    assert(seen@.contains(up.0) && 0 <= up.1 <= 9);
                    assert forall|e: (Seq<char>, i32)| #[trigger] pq_contents(q).contains(
                        e,
                    ) implies seen@.contains(e.0) && 0 <= e.1 <= 9 by {
                        if e != up {
                            assert(pre_q.contains(e));
                        }
                    }
                    assert forall|e: (Seq<char>, i32)| #[trigger] pq_contents(q).contains(
                        e,
                    ) implies exists|kk: int|
                        0 <= kk < k && (ent[kk].0@, ent[kk].1) == e by {
                        if e == up {
                            assert((ent[k - 1].0@, ent[k - 1].1) == e);
                        } else {
                            assert(pre_q.contains(e));
                            let kk = choose|kk: int|
                                0 <= kk < k - 1 && (ent[kk].0@, ent[kk].1) == e;
                            assert(0 <= kk < k && (ent[kk].0@, ent[kk].1) == e);
                        }
                    }
                    assert forall|e1: (Seq<char>, i32), e2: (Seq<char>, i32)| #[trigger]
                        pq_contents(q).contains(e1) && #[trigger] pq_contents(q).contains(e2)
                        && e1.0 == e2.0 implies e1 == e2 by {
                        if e1 == up && e2 != up {
                            assert(pre_q.contains(e2));
                            let kk = choose|kk: int|
                                0 <= kk < k - 1 && (ent[kk].0@, ent[kk].1) == e2;
                            assert(ent[kk].0@ == u@);
                            assert(false);
                        } else if e2 == up && e1 != up {
                            assert(pre_q.contains(e1));
                            let kk = choose|kk: int|
                                0 <= kk < k - 1 && (ent[kk].0@, ent[kk].1) == e1;
                            assert(ent[kk].0@ == u@);
                            assert(false);
                        } else if e1 != up && e2 != up {
                            assert(pre_q.contains(e1));
                            assert(pre_q.contains(e2));
                        }
                    }
                    assert forall|e: (Seq<char>, i32)| true implies #[trigger] pq_contents(
                        q,
                    ).count(e) <= 1 by {
                        if e == up {
                            assert(pre_q.count(e) == 0) by {
                                if pre_q.count(e) > 0 {
                                    assert(pre_q.contains(e));
                                }
                            }
                        }
                    }
                }
            }
            proof {
                assert(snap.hosts@[hi as int].entries@.take(
                    snap.hosts@[hi as int].entries@.len() as int,
                ) =~= snap.hosts@[hi as int].entries@);
            }
            hosts.push(
                HostQueue {
                    host: String::from_str(snap.hosts[hi].host.as_str()),
                    queue: q,
                    next_allowed_at_ms: 0,
                },
            );
            proof {
                assert(snap.hosts@.take(hi + 1) =~= snap.hosts@.take(hi as int).push(
                    snap.hosts@[hi as int],
                ));
                lemma_snap_total_push(snap.hosts@.take(hi as int), snap.hosts@[hi as int]);
            }
            hi = hi + 1;
        }
        proof {
            assert(snap.hosts@.take(snap.hosts@.len() as int) =~= snap.hosts@);
        }
        let f = Frontier { hosts, seen, seen_list, size };
        proof {
            assert(f.size == total_of(f.hosts@)) by {
                lemma_total_eq_snap(f.hosts@, snap.hosts@);
            }
            assert forall|h: Seq<char>| true implies f.next_allowed_of(h) == 0 by {
                if f.has_host(h) {
                    let ix = f.host_index(h);
                    assert(f.hosts@[ix].next_allowed_at_ms == 0);
                }
            }
        }
        Some(f)
    }
}

/// Matching snapshots of equal per-host contents carry the same totals.
proof fn lemma_snap_total_eq_total(ss: Seq<HostSnapshot>, hs: Seq<HostQueue>)
    requires
        ss.len() == hs.len(),
        forall|i: int|
            0 <= i < ss.len() ==> entries_ms(#[trigger] ss[i].entries@) == pq_contents(
                hs[i].queue,
            ),
    ensures
        snap_total(ss) == total_of(hs),
    decreases ss.len(),
{
    broadcast use vstd::seq_lib::group_to_multiset_ensures;

    if ss.len() > 0 {
        assert forall|i: int| 0 <= i < ss.len() - 1 implies entries_ms(
            #[trigger] ss.drop_last()[i].entries@,
        ) == pq_contents(hs.drop_last()[i].queue) by {
            assert(ss.drop_last()[i] == ss[i]);
            assert(hs.drop_last()[i] == hs[i]);
            assert(entries_ms(ss[i].entries@) == pq_contents(hs[i].queue));
        }
        lemma_snap_total_eq_total(ss.drop_last(), hs.drop_last());
        let mapped = ss.last().entries@.map_values(|e: (String, i32)| (e.0@, e.1));
        assert(mapped.to_multiset().len() == mapped.len());
        assert(ss[ss.len() - 1] == ss.last());
        assert(hs[hs.len() - 1] == hs.last());
    }
}

/// A frontier rebuilt to match a snapshot's per-host contents carries
/// the snapshot's total.
proof fn lemma_total_eq_snap(hs: Seq<HostQueue>, ss: Seq<HostSnapshot>)
    requires
        ss.len() == hs.len(),
        forall|i: int|
            0 <= i < hs.len() ==> pq_contents(#[trigger] hs[i].queue) == entries_ms(
                ss[i].entries@,
            ),
    ensures
        total_of(hs) == snap_total(ss),
    decreases ss.len(),
{
    assert(forall|i: int|
        0 <= i < ss.len() ==> entries_ms(#[trigger] ss[i].entries@) == pq_contents(
            hs[i].queue,
        ));
    lemma_snap_total_eq_total(ss, hs);
}

/// Saving and loading reproduces the frontier: any two well-formed
/// frontiers matching the same snapshot carry the same seen-set, the
/// same size, and the same multiset of queued URLs with priorities for
/// every host.
pub proof fn lemma_snapshot_roundtrip(f1: Frontier, s: FrontierSnapshot, f2: Frontier)
    requires
        f1.inv(),
        snapshot_matches(f1, s),
        f2.inv(),
        snapshot_matches(f2, s),
    ensures
        f2.seen@ == f1.seen@,
        f2.size == f1.size,
        forall|h: Seq<char>| f2.queue_of(h) == f1.queue_of(h),
{
    assert(f2.size == f1.size) by {
        lemma_snap_total_eq_total(s.hosts@, f1.hosts@);
        lemma_snap_total_eq_total(s.hosts@, f2.hosts@);
    }
    assert forall|h: Seq<char>| true implies f2.queue_of(h) == f1.queue_of(h) by {
        if f1.has_host(h) {
            let i1 = f1.host_index(h);
            assert(0 <= i1 < f1.hosts@.len() && f1.hosts@[i1].host@ == h);
            assert(s.hosts@[i1].host@ == f1.hosts@[i1].host@);
            assert(s.hosts@[i1].host@ == f2.hosts@[i1].host@);
            assert(f2.hosts@[i1].host@ == h);
            assert(f2.has_host(h));
            f2.lemma_host_index_is(i1);
            assert(pq_contents(f1.hosts@[i1].queue) == entries_ms(s.hosts@[i1].entries@));
            assert(pq_contents(f2.hosts@[i1].queue) == entries_ms(s.hosts@[i1].entries@));
        } else {
            if f2.has_host(h) {
                let i2 = f2.host_index(h);
                assert(0 <= i2 < f2.hosts@.len() && f2.hosts@[i2].host@ == h);
                assert(s.hosts@[i2].host@ == f2.hosts@[i2].host@);
                assert(s.hosts@[i2].host@ == f1.hosts@[i2].host@);
                assert(f1.hosts@[i2].host@ == h);
                assert(false);
            }
        }
    }
}

/// Per-host politeness: when a pop takes `u1` from host `i` at `t1`,
/// and a later pop takes `u2` from the same host at `t2`, and host
/// `i`'s gate did not retreat in between (additions and pops of other
/// hosts never move it), then at least the politeness delay elapsed
/// between the two pops.
pub proof fn lemma_politeness_gap(
    pre1: Frontier,
    post1: Frontier,
    u1: Seq<char>,
    t1: u64,
    p1: i32,
    pre2: Frontier,
    post2: Frontier,
    u2: Seq<char>,
    t2: u64,
    p2: i32,
    i: int,
)
    requires
        Frontier::popped_from(pre1, post1, u1, t1, i, p1),
        Frontier::popped_from(pre2, post2, u2, t2, i, p2),
        pre2.hosts@[i].next_allowed_at_ms >= post1.hosts@[i].next_allowed_at_ms,
    ensures
        t2 >= t1 + POLITENESS_DELAY_MS,
{
}

/// The frontier's size always equals the number of queued URLs over
/// all host queues.
pub proof fn lemma_size_is_total(f: Frontier)
    requires
        f.inv(),
    ensures
        f.size == total_of(f.hosts@),
        f.size <= MAX_QUEUE_SIZE,
{
}

} // verus!
