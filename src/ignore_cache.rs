//! A bounded cache of "is this path ignored by version control?" verdicts.
//!
//! Entries live in insertion order, oldest first. A query first evicts for
//! capacity, then evicts entries that have outlived the maximum age, and only
//! consults the oracle when the path is no longer cached.

use std::collections::VecDeque;
use vstd::prelude::*;

verus! {

broadcast use vstd::std_specs::vecdeque::group_vec_dequeue_axioms;

/// One cached verdict as the contracts see it: path, ignored, insertion time.
pub type EntryView = (Seq<char>, bool, u64);

/// An entry is stale once its age has reached the maximum age.
pub open spec fn is_stale(e: EntryView, max_age: u64, now: u64) -> bool {
    e.2 + max_age <= now
}

/// Evicting for capacity keeps the newest `max_size - 1` entries, so that a
/// new one still fits.
pub open spec fn evict_for_capacity(es: Seq<EntryView>, max_size: nat) -> Seq<EntryView> {
    if es.len() < max_size {
        es
    } else if max_size == 0 {
        Seq::empty()
    } else {
        es.subrange(es.len() - (max_size - 1), es.len() as int)
    }
}

/// Drops stale entries from the front until the oldest one left is fresh.
pub open spec fn evict_stale(es: Seq<EntryView>, max_age: u64, now: u64) -> Seq<EntryView>
    decreases es.len(),
{
    if es.len() > 0 && is_stale(es[0], max_age, now) {
        evict_stale(es.drop_first(), max_age, now)
    } else {
        es
    }
}

/// The cache's clock never runs backwards: a time earlier than the newest
/// insertion is taken as that insertion's time.
pub open spec fn effective_now(es: Seq<EntryView>, now: u64) -> u64 {
    if es.len() > 0 && now < es.last().2 {
        es.last().2
    } else {
        now
    }
}

/// The entries left after both kinds of eviction.
pub open spec fn prune(es: Seq<EntryView>, max_size: nat, max_age: u64, now: u64) -> Seq<
    EntryView,
> {
    evict_stale(evict_for_capacity(es, max_size), max_age, effective_now(es, now))
}

pub open spec fn holds_path(es: Seq<EntryView>, path: Seq<char>) -> bool {
    exists|i: int| 0 <= i < es.len() && #[trigger] es[i].0 == path
}

/// The cached verdict for `path`, if any.
pub open spec fn lookup(es: Seq<EntryView>, path: Seq<char>) -> Option<bool> {
    if holds_path(es, path) {
        Some(es[choose|i: int| 0 <= i < es.len() && #[trigger] es[i].0 == path].1)
    } else {
        None
    }
}

/// The entries after a query for `path` at `now`, where `verdict` is the
/// oracle's answer in case the path was not cached.
pub open spec fn after_query(
    es: Seq<EntryView>,
    max_size: nat,
    max_age: u64,
    path: Seq<char>,
    now: u64,
    verdict: bool,
) -> Seq<EntryView> {
    let kept = prune(es, max_size, max_age, now);
    if holds_path(kept, path) || max_size == 0 {
        kept
    } else {
        kept.push((path, verdict, effective_now(es, now)))
    }
}

pub open spec fn paths_unique(es: Seq<EntryView>) -> bool {
    forall|i: int, j: int| 0 <= i < j < es.len() ==> es[i].0 != es[j].0
}

pub open spec fn in_time_order(es: Seq<EntryView>) -> bool {
    forall|i: int, j: int| 0 <= i <= j < es.len() ==> es[i].2 <= es[j].2
}

/// A query as the laws see it: the path, the time, and the oracle's answer
/// should it be asked.
pub type Query = (Seq<char>, u64, bool);

/// The entries after a run of queries, the first applied first.
pub open spec fn after_queries(es: Seq<EntryView>, max_size: nat, max_age: u64, qs: Seq<Query>) -> Seq<
    EntryView,
>
    decreases qs.len(),
{
    if qs.len() == 0 {
        es
    } else {
        let q = qs.last();
        after_query(after_queries(es, max_size, max_age, qs.drop_last()), max_size, max_age, q.0, q.1, q.2)
    }
}

/// A query for `path` at `now` is answered from the cache, without the oracle.
pub open spec fn is_hit(es: Seq<EntryView>, max_size: nat, max_age: u64, path: Seq<char>, now: u64) -> bool {
    holds_path(prune(es, max_size, max_age, now), path)
}

pub open spec fn distinct_paths(qs: Seq<Query>) -> bool {
    forall|a: int, b: int| 0 <= a < b < qs.len() ==> qs[a].0 != qs[b].0
}

/// A cached verdict.
pub struct CacheEntry {
    pub path: String,
    pub ignored: bool,
    pub inserted_at: u64,
}

impl View for CacheEntry {
    type V = EntryView;

    open spec fn view(&self) -> EntryView {
        (self.path@, self.ignored, self.inserted_at)
    }
}

/// Path to verdict cache, bounded in size and in the age of its entries.
pub struct IgnoreCache {
    max_age: u64,
    max_size: usize,
    entries: VecDeque<CacheEntry>,
}

impl IgnoreCache {
    /// The entries, oldest first.
    pub closed spec fn entries(&self) -> Seq<EntryView> {
        self.entries@.map_values(|e: CacheEntry| e@)
    }

    pub closed spec fn max_age(&self) -> u64 {
        self.max_age
    }

    pub closed spec fn max_size(&self) -> nat {
        self.max_size as nat
    }

    /// At most `max_size` entries, one per path, in order of insertion time.
    pub open spec fn wf(&self) -> bool {
        &&& self.entries().len() <= self.max_size()
        &&& paths_unique(self.entries())
        &&& in_time_order(self.entries())
    }

    pub fn new(max_age: u64, max_size: usize) -> (r: Self)
        ensures
            r.wf(),
            r.entries() == Seq::<EntryView>::empty(),
            r.max_age() == max_age,
            r.max_size() == max_size,
    {
        let r = IgnoreCache { max_age, max_size, entries: VecDeque::new() };
        proof {
            assert(r.entries() =~= Seq::<EntryView>::empty());
        }
        r
    }

    /// Whether `path` is ignored, asking `oracle` only when no fresh verdict
    /// for it is cached; a new verdict is remembered as of `now`.
    pub fn is_ignored<F: FnOnce(&String) -> bool>(&mut self, path: &String, now: u64, oracle: F) -> (r: bool)
        requires
            old(self).wf(),
            oracle.requires((path,)),
        ensures
            final(self).wf(),
            final(self).max_age() == old(self).max_age(),
            final(self).max_size() == old(self).max_size(),
            match lookup(prune(old(self).entries(), old(self).max_size(), old(self).max_age(), now), path@) {
                Some(b) => r == b,
                None => oracle.ensures((path,), r),
            },
            final(self).entries() == after_query(
                old(self).entries(),
                old(self).max_size(),
                old(self).max_age(),
                path@,
                now,
                r,
            ),
    {
        let ghost es = self.entries();
        let len = self.entries.len();
        let t = if len > 0 && now < self.entries[len - 1].inserted_at {
            self.entries[len - 1].inserted_at
        } else {
            now
        };
        assert(t == effective_now(es, now));
        while self.entries.len() >= self.max_size && self.entries.len() > 0
            invariant
                self.max_age == old(self).max_age,
                self.max_size == old(self).max_size,
                es == old(self).entries(),
                self.entries().len() <= es.len(),
                self.entries() == es.subrange(es.len() - self.entries().len(), es.len() as int),
                self.entries().len() == es.len() || self.entries().len() + 1 >= self.max_size,
            decreases self.entries@.len(),
        {
            let ghost before = self.entries();
            self.entries.pop_front();
            assert(self.entries() =~= before.subrange(1, before.len() as int));
            assert(self.entries() =~= es.subrange(es.len() - self.entries().len(), es.len() as int));
        }
        assert(self.entries() =~= evict_for_capacity(es, self.max_size as nat));
        let ghost capped = self.entries();
        loop
            invariant
                self.max_age == old(self).max_age,
                self.max_size == old(self).max_size,
                es == old(self).entries(),
                t == effective_now(es, now),
                capped == evict_for_capacity(es, self.max_size as nat),
                evict_stale(self.entries(), self.max_age, t) == evict_stale(capped, self.max_age, t),
                self.entries().len() <= capped.len(),
                self.entries() == capped.subrange(capped.len() - self.entries().len(), capped.len() as int),
            ensures
                self.max_age == old(self).max_age,
                self.max_size == old(self).max_size,
                es == old(self).entries(),
                capped == evict_for_capacity(es, self.max_size as nat),
                evict_stale(capped, self.max_age, t) == self.entries(),
                self.entries().len() <= capped.len(),
                self.entries() == capped.subrange(capped.len() - self.entries().len(), capped.len() as int),
            decreases self.entries@.len(),
        {
            let ghost before = self.entries();
            if self.entries.len() == 0 {
                assert(evict_stale(before, self.max_age, t) == before);
                break;
            }
            let front = &self.entries[0];
            assert(before[0] == front@);
            if t < front.inserted_at || t - front.inserted_at < self.max_age {
                assert(evict_stale(before, self.max_age, t) == before);
                break;
            }
            self.entries.pop_front();
            assert(self.entries() =~= before.drop_first());
            assert(self.entries() =~= capped.subrange(capped.len() - self.entries().len(), capped.len() as int));
        }
        let ghost kept = self.entries();
        assert(kept == prune(es, self.max_size as nat, self.max_age, now));
        proof {
            assert forall|i: int, j: int| 0 <= i < j < kept.len() implies kept[i].0 != kept[j].0 by {
                let k = es.len() - kept.len();
                assert(kept[i] == es[i + k]);
                assert(kept[j] == es[j + k]);
            }
            assert forall|i: int, j: int| 0 <= i <= j < kept.len() implies kept[i].2 <= kept[j].2 by {
                let k = es.len() - kept.len();
                assert(kept[i] == es[i + k]);
                assert(kept[j] == es[j + k]);
            }
        }
        let mut i: usize = 0;
        while i < self.entries.len()
            invariant
                self.entries() == kept,
                kept == prune(es, self.max_size as nat, self.max_age, now),
                es == old(self).entries(),
                t == effective_now(es, now),
                kept.len() <= self.max_size,
                paths_unique(kept),
                in_time_order(kept),
                self.max_age == old(self).max_age,
                self.max_size == old(self).max_size,
                i <= kept.len(),
                forall|j: int| 0 <= j < i ==> kept[j].0 != path@,
            decreases kept.len() - i,
        {
            if self.entries[i].path.eq(path) {
                let b = self.entries[i].ignored;
                proof {
                    assert(kept[i as int] == self.entries@[i as int]@);
                    assert(kept[i as int].0 == path@);
                    let c = choose|c: int| 0 <= c < kept.len() && #[trigger] kept[c].0 == path@;
                    assert(c == i);
                }
                return b;
            }
            i = i + 1;
        }
        assert(!holds_path(kept, path@));
        let r = oracle(path);
        if self.max_size > 0 {
            self.entries.push_back(CacheEntry { path: path.clone(), ignored: r, inserted_at: t });
            proof {
                let n = self.entries();
                assert(n =~= kept.push((path@, r, t)));
                if kept.len() > 0 {
                    assert(kept.last() == es.last());
                }
            }
        }
        r
    }

    /// Whether a change to `path` should count: the negation of `is_ignored`.
    pub fn is_actionable<F: FnOnce(&String) -> bool>(&mut self, path: &String, now: u64, oracle: F) -> (r: bool)
        requires
            old(self).wf(),
            oracle.requires((path,)),
        ensures
            final(self).wf(),
            final(self).max_age() == old(self).max_age(),
            final(self).max_size() == old(self).max_size(),
            match lookup(prune(old(self).entries(), old(self).max_size(), old(self).max_age(), now), path@) {
                Some(b) => r == !b,
                None => oracle.ensures((path,), !r),
            },
            final(self).entries() == after_query(
                old(self).entries(),
                old(self).max_size(),
                old(self).max_age(),
                path@,
                now,
                !r,
            ),
    {
        !self.is_ignored(path, now, oracle)
    }
}

proof fn lemma_evict_stale_suffix(es: Seq<EntryView>, max_age: u64, now: u64)
    ensures
        evict_stale(es, max_age, now).len() <= es.len(),
        evict_stale(es, max_age, now) == es.subrange(
            es.len() - evict_stale(es, max_age, now).len(),
            es.len() as int,
        ),
    decreases es.len(),
{
    if es.len() > 0 && is_stale(es[0], max_age, now) {
        lemma_evict_stale_suffix(es.drop_first(), max_age, now);
        let r = evict_stale(es, max_age, now);
        assert(r =~= es.subrange(es.len() - r.len(), es.len() as int));
    } else {
        assert(es =~= es.subrange(0, es.len() as int));
    }
}

/// Pruning keeps the newest entries, fewer than `max_size` of them.
proof fn lemma_prune_suffix(es: Seq<EntryView>, max_size: nat, max_age: u64, now: u64)
    ensures
        prune(es, max_size, max_age, now).len() <= es.len(),
        prune(es, max_size, max_age, now) == es.subrange(
            es.len() - prune(es, max_size, max_age, now).len(),
            es.len() as int,
        ),
        max_size > 0 ==> prune(es, max_size, max_age, now).len() < max_size,
        max_size == 0 ==> prune(es, max_size, max_age, now).len() == 0,
{
    let capped = evict_for_capacity(es, max_size);
    assert(es =~= es.subrange(0, es.len() as int));
    lemma_evict_stale_suffix(capped, max_age, effective_now(es, now));
    let p = prune(es, max_size, max_age, now);
    assert(p =~= es.subrange(es.len() - p.len(), es.len() as int));
}

proof fn lemma_stale_dropped(es: Seq<EntryView>, max_age: u64, now: u64, j: int)
    requires
        in_time_order(es),
        0 <= j < es.len(),
        is_stale(es[j], max_age, now),
    ensures
        evict_stale(es, max_age, now).len() < es.len() - j,
    decreases j,
{
    assert(es[0].2 <= es[j].2);
    lemma_evict_stale_suffix(es.drop_first(), max_age, now);
    if j > 0 {
        lemma_stale_dropped(es.drop_first(), max_age, now, j - 1);
    }
}

/// An entry whose age has reached the maximum age is not answered from the
/// cache: the next query for its path asks the oracle again.
pub proof fn lemma_stale_entry_is_recomputed(cache: IgnoreCache, i: int, now: u64)
    requires
        cache.wf(),
        0 <= i < cache.entries().len(),
        cache.entries()[i].2 + cache.max_age() <= now,
    ensures
        !is_hit(cache.entries(), cache.max_size(), cache.max_age(), cache.entries()[i].0, now),
        lookup(prune(cache.entries(), cache.max_size(), cache.max_age(), now), cache.entries()[i].0)
            is None,
{
    let es = cache.entries();
    let a = cache.max_age();
    let t = effective_now(es, now);
    let capped = evict_for_capacity(es, cache.max_size());
    let off = es.len() - capped.len();
    assert(capped =~= es.subrange(off, es.len() as int));
    let p = prune(es, cache.max_size(), a, now);
    lemma_evict_stale_suffix(capped, a, t);
    // the first index of `es` that survives pruning
    let first = es.len() - p.len();
    if i >= off {
        assert(in_time_order(capped)) by {
            assert forall|x: int, y: int| 0 <= x <= y < capped.len() implies capped[x].2
                <= capped[y].2 by {
                assert(capped[x] == es[x + off]);
                assert(capped[y] == es[y + off]);
            }
        }
        assert(capped[i - off] == es[i]);
        lemma_stale_dropped(capped, a, t, i - off);
    }
    assert(first > i);
    assert forall|m: int| 0 <= m < p.len() implies #[trigger] p[m].0 != es[i].0 by {
        assert(p[m] == es[first + m]);
    }
}

proof fn lemma_distinct_step(r: Seq<EntryView>, max_size: nat, max_age: u64, qs: Seq<Query>, i: int)
    requires
        max_size >= 1,
        0 <= i < qs.len(),
        distinct_paths(qs),
        r.len() <= i,
        r.len() <= max_size,
        forall|m: int| 0 <= m < r.len() ==> #[trigger] r[m].0 == qs[i - r.len() + m].0,
    ensures
        ({
            let r2 = after_query(r, max_size, max_age, qs[i].0, qs[i].1, qs[i].2);
            &&& r2.len() <= i + 1
            &&& r2.len() <= max_size
            &&& forall|m: int| 0 <= m < r2.len() ==> #[trigger] r2[m].0 == qs[i + 1 - r2.len() + m].0
        }),
{
    let p = prune(r, max_size, max_age, qs[i].1);
    lemma_prune_suffix(r, max_size, max_age, qs[i].1);
    assert forall|m: int| 0 <= m < p.len() implies #[trigger] p[m].0 == qs[i - p.len() + m].0 by {
        assert(p[m] == r[r.len() - p.len() + m]);
    }
    assert(!holds_path(p, qs[i].0)) by {
        assert forall|m: int| 0 <= m < p.len() implies #[trigger] p[m].0 != qs[i].0 by {
            assert(p[m].0 == qs[i - p.len() + m].0);
        }
    }
    let r2 = after_query(r, max_size, max_age, qs[i].0, qs[i].1, qs[i].2);
    assert forall|m: int| 0 <= m < r2.len() implies #[trigger] r2[m].0 == qs[i + 1 - r2.len() + m].0 by {
        if m < p.len() {
            assert(r2[m] == p[m]);
        }
    }
}

proof fn lemma_distinct_run(max_size: nat, max_age: u64, qs: Seq<Query>, i: int)
    requires
        max_size >= 1,
        0 <= i <= qs.len(),
        distinct_paths(qs),
    ensures
        ({
            let r = after_queries(Seq::empty(), max_size, max_age, qs.take(i));
            &&& r.len() <= i
            &&& r.len() <= max_size
            &&& forall|m: int| 0 <= m < r.len() ==> #[trigger] r[m].0 == qs[i - r.len() + m].0
        }),
    decreases i,
{
    if i > 0 {
        lemma_distinct_run(max_size, max_age, qs, i - 1);
        assert(qs.take(i).drop_last() =~= qs.take(i - 1));
        let r = after_queries(Seq::empty(), max_size, max_age, qs.take(i - 1));
        lemma_distinct_step(r, max_size, max_age, qs, i - 1);
    }
}

/// With room for `max_size` entries, querying `max_size + 1` distinct paths
/// evicts the first of them, and the next query for it asks the oracle again.
pub proof fn lemma_capacity_evicts_oldest(max_size: nat, max_age: u64, qs: Seq<Query>, now: u64)
    requires
        max_size >= 1,
        qs.len() == max_size + 1,
        distinct_paths(qs),
    ensures
        !holds_path(after_queries(Seq::empty(), max_size, max_age, qs), qs[0].0),
        !is_hit(after_queries(Seq::empty(), max_size, max_age, qs), max_size, max_age, qs[0].0, now),
{
    let n = qs.len() as int;
    lemma_distinct_run(max_size, max_age, qs, n);
    assert(qs.take(n) =~= qs);
    let r = after_queries(Seq::empty(), max_size, max_age, qs);
    assert forall|m: int| 0 <= m < r.len() implies #[trigger] r[m].0 != qs[0].0 by {
        assert(r[m].0 == qs[n - r.len() + m].0);
    }
    let p = prune(r, max_size, max_age, now);
    lemma_prune_suffix(r, max_size, max_age, now);
    assert forall|m: int| 0 <= m < p.len() implies #[trigger] p[m].0 != qs[0].0 by {
        assert(p[m] == r[r.len() - p.len() + m]);
    }
}

proof fn lemma_repeat_run(max_size: nat, max_age: u64, qs: Seq<Query>, i: int)
    requires
        max_size >= 2,
        1 <= i <= qs.len(),
        forall|j: int| 0 <= j < qs.len() ==> #[trigger] qs[j].0 == qs[0].0,
        forall|j: int| 0 <= j < qs.len() ==> qs[0].1 <= #[trigger] qs[j].1 < qs[0].1 + max_age,
    ensures
        after_queries(Seq::empty(), max_size, max_age, qs.take(i)) == seq![(qs[0].0, qs[0].2, qs[0].1)],
    decreases i,
{
    let e = (qs[0].0, qs[0].2, qs[0].1);
    if i == 1 {
        assert(qs.take(1).drop_last() =~= Seq::<Query>::empty());
        let es = Seq::<EntryView>::empty();
        assert(after_queries(es, max_size, max_age, qs.take(1).drop_last()) == es);
        assert(prune(es, max_size, max_age, qs[0].1) =~= es);
        assert(!holds_path(es, qs[0].0));
        assert(qs.take(1).last() == qs[0]);
        assert(seq![e] =~= es.push(e));
    } else {
        lemma_repeat_run(max_size, max_age, qs, i - 1);
        assert(qs.take(i).drop_last() =~= qs.take(i - 1));
        let es = seq![e];
        let now = qs[i - 1].1;
        assert(effective_now(es, now) == now);
        assert(evict_for_capacity(es, max_size) == es);
        assert(!is_stale(es[0], max_age, now));
        assert(prune(es, max_size, max_age, now) == es);
        assert(es[0].0 == qs[i - 1].0);
        assert(holds_path(es, qs[i - 1].0));
        assert(qs.take(i).last() == qs[i - 1]);
    }
}

/// Repeated queries for one path, within the maximum age of the first, ask
/// the oracle once: every later query is answered from the cache with the
/// first answer. (A cache of size one evicts the path before each repeat.)
pub proof fn lemma_repeated_queries_hit(max_size: nat, max_age: u64, qs: Seq<Query>)
    requires
        max_size >= 2,
        qs.len() >= 1,
        forall|j: int| 0 <= j < qs.len() ==> #[trigger] qs[j].0 == qs[0].0,
        forall|j: int| 0 <= j < qs.len() ==> qs[0].1 <= #[trigger] qs[j].1 < qs[0].1 + max_age,
    ensures
        !is_hit(Seq::empty(), max_size, max_age, qs[0].0, qs[0].1),
        forall|j: int|
            1 <= j < qs.len() ==> lookup(
                prune(after_queries(Seq::empty(), max_size, max_age, qs.take(j)), max_size, max_age, qs[j].1),
                qs[j].0,
            ) == Some(qs[0].2),
{
    let e = (qs[0].0, qs[0].2, qs[0].1);
    assert(prune(Seq::<EntryView>::empty(), max_size, max_age, qs[0].1) =~= Seq::<EntryView>::empty());
    assert forall|j: int| 1 <= j < qs.len() implies lookup(
        prune(after_queries(Seq::empty(), max_size, max_age, qs.take(j)), max_size, max_age, qs[j].1),
        qs[j].0,
    ) == Some(qs[0].2) by {
        lemma_repeat_run(max_size, max_age, qs, j);
        let es = seq![e];
        let now = qs[j].1;
        assert(effective_now(es, now) == now);
        assert(!is_stale(es[0], max_age, now));
        assert(prune(es, max_size, max_age, now) == es);
        assert(es[0].0 == qs[j].0);
        assert(holds_path(es, qs[j].0));
    }
}

} // verus!
