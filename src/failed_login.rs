//! Brute-force detection: failed attempts counted per origin in coarse time buckets.
use vstd::prelude::*;
use crate::time::unix_now_secs;

verus! {

/// The attempts of one origin: pairs of bucket key and count.
pub struct OriginBuckets {
    pub origin: u128,
    pub buckets: Vec<(u64, usize)>,
}

/// Attempts per origin and bucket, for one bucket width.
pub struct BucketTable {
    pub entries: Vec<OriginBuckets>,
}

/// A bucket `key` lies within `w` buckets of the current bucket `now`.
pub open spec fn in_window(key: u64, now: u64, w: u64) -> bool {
    (if now >= key {
        now - key
    } else {
        0
    }) < w
}

pub open spec fn bucket_weight(b: (u64, usize), now: u64, w: u64) -> int {
    if in_window(b.0, now, w) {
        b.1 as int
    } else {
        0
    }
}

/// The attempts in buckets of `b` within the window.
pub open spec fn bucket_sum(b: Seq<(u64, usize)>, now: u64, w: u64) -> int
    decreases b.len(),
{
    if b.len() == 0 {
        0
    } else {
        bucket_sum(b.drop_last(), now, w) + bucket_weight(b.last(), now, w)
    }
}

pub open spec fn origin_weight(e: OriginBuckets, o: u128, now: u64, w: u64) -> int {
    if e.origin == o {
        bucket_sum(e.buckets@, now, w)
    } else {
        0
    }
}

/// The attempts of origin `o` within the window of `w` buckets up to bucket `now`.
pub open spec fn window_total(t: Seq<OriginBuckets>, o: u128, now: u64, w: u64) -> int
    decreases t.len(),
{
    if t.len() == 0 {
        0
    } else {
        window_total(t.drop_last(), o, now, w) + origin_weight(t.last(), o, now, w)
    }
}

/// How a total moves when one attempt is counted (`hit`) or not: counts stop at the
/// largest `usize`.
pub open spec fn counted(before: int, after: int, hit: bool) -> bool {
    if hit {
        after == before + 1 || (before >= usize::MAX && after == before)
    } else {
        after == before
    }
}

/// Every bucket of `t` lies within the window.
pub open spec fn all_in_window(t: Seq<OriginBuckets>, now: u64, w: u64) -> bool {
    forall|i: int, j: int|
        0 <= i < t.len() && 0 <= j < t[i].buckets@.len() ==> in_window(
            #[trigger] t[i].buckets@[j].0,
            now,
            w,
        )
}

/// A table as pairs of origin and its buckets.
pub open spec fn table_view(t: Seq<OriginBuckets>) -> Seq<(u128, Seq<(u64, usize)>)> {
    t.map_values(|e: OriginBuckets| (e.origin, e.buckets@))
}

/// An origin's buckets: at least one, distinct keys, each count at least 1.
pub open spec fn buckets_wf(b: Seq<(u64, usize)>) -> bool {
    &&& b.len() > 0
    &&& forall|a: int, c: int|
        0 <= a < b.len() && 0 <= c < b.len() && a != c ==> #[trigger] b[a].0 != #[trigger] b[c].0
    &&& forall|a: int| 0 <= a < b.len() ==> #[trigger] b[a].1 >= 1
}

/// A table: distinct origins, each with well-formed buckets.
pub open spec fn table_wf(t: Seq<(u128, Seq<(u64, usize)>)>) -> bool {
    &&& forall|i: int, j: int|
        0 <= i < t.len() && 0 <= j < t.len() && i != j ==> #[trigger] t[i].0 != #[trigger] t[j].0
    &&& forall|i: int| 0 <= i < t.len() ==> buckets_wf(#[trigger] t[i].1)
}

/// `c` plus one, stopping at the largest `usize`.
pub open spec fn sat_inc(c: usize) -> usize {
    if c < usize::MAX {
        (c + 1) as usize
    } else {
        c
    }
}

/// `b` with one more attempt in bucket `key`: the bucket's count goes up by one, or the
/// bucket is added with a count of 1.
pub open spec fn bumped(b: Seq<(u64, usize)>, key: u64) -> Seq<(u64, usize)> {
    if exists|j: int| 0 <= j < b.len() && b[j].0 == key {
        let j = choose|j: int| 0 <= j < b.len() && b[j].0 == key;
        b.update(j, (key, sat_inc(b[j].1)))
    } else {
        b.push((key, 1usize))
    }
}

/// `t` with one more attempt of origin `o` in bucket `key`; an origin not yet in `t` is
/// added with that one bucket. Every other origin and bucket stays as it was.
pub open spec fn recorded(t: Seq<(u128, Seq<(u64, usize)>)>, o: u128, key: u64) -> Seq<
    (u128, Seq<(u64, usize)>),
> {
    if exists|i: int| 0 <= i < t.len() && t[i].0 == o {
        let i = choose|i: int| 0 <= i < t.len() && t[i].0 == o;
        t.update(i, (o, bumped(t[i].1, key)))
    } else {
        t.push((o, seq![(key, 1usize)]))
    }
}

/// The buckets of `b` within `w` buckets up to `now`, in their order.
pub open spec fn keep_in_window(b: Seq<(u64, usize)>, now: u64, w: u64) -> Seq<(u64, usize)>
    decreases b.len(),
{
    if b.len() == 0 {
        Seq::empty()
    } else {
        let r = keep_in_window(b.drop_last(), now, w);
        if in_window(b.last().0, now, w) {
            r.push(b.last())
        } else {
            r
        }
    }
}

/// `t` with the buckets outside `w` buckets up to `now` dropped, and the origins left
/// without buckets dropped too.
pub open spec fn pruned(t: Seq<(u128, Seq<(u64, usize)>)>, now: u64, w: u64) -> Seq<
    (u128, Seq<(u64, usize)>),
>
    decreases t.len(),
{
    if t.len() == 0 {
        Seq::empty()
    } else {
        let r = pruned(t.drop_last(), now, w);
        let k = keep_in_window(t.last().1, now, w);
        if k.len() > 0 {
            r.push((t.last().0, k))
        } else {
            r
        }
    }
}

proof fn lemma_table_view_index(t: Seq<OriginBuckets>)
    ensures
        table_view(t).len() == t.len(),
        forall|i: int| 0 <= i < t.len() ==> #[trigger] table_view(t)[i] == (t[i].origin, t[i].buckets@),
{
}

proof fn lemma_keep_subset(b: Seq<(u64, usize)>, now: u64, w: u64)
    ensures
        forall|x: (u64, usize)| #[trigger] keep_in_window(b, now, w).contains(x) ==> b.contains(x),
        forall|x: (u64, usize)| keep_in_window(b, now, w).contains(x) ==> in_window(x.0, now, w),
    decreases b.len(),
{
    if b.len() > 0 {
        lemma_keep_subset(b.drop_last(), now, w);
        let r = keep_in_window(b.drop_last(), now, w);
        assert forall|x: (u64, usize)| #[trigger] keep_in_window(b, now, w).contains(x) implies b.contains(x) && in_window(x.0, now, w) by {
            if r.contains(x) {
                let k = choose|k: int| 0 <= k < r.len() && r[k] == x;
                assert(b.drop_last().contains(x));
                let k2 = choose|k2: int| 0 <= k2 < b.drop_last().len() && b.drop_last()[k2] == x;
                assert(b[k2] == x);
            } else {
                assert(x == b.last());
                assert(b[b.len() - 1] == x);
            }
        }
    }
}

proof fn lemma_keep_wf(b: Seq<(u64, usize)>, now: u64, w: u64)
    requires
        forall|a: int, c: int|
            0 <= a < b.len() && 0 <= c < b.len() && a != c ==> #[trigger] b[a].0 != #[trigger] b[c].0,
        forall|a: int| 0 <= a < b.len() ==> #[trigger] b[a].1 >= 1,
    ensures
        ({
            let k = keep_in_window(b, now, w);
            &&& forall|a: int, c: int|
                0 <= a < k.len() && 0 <= c < k.len() && a != c ==> #[trigger] k[a].0 != #[trigger] k[c].0
            &&& forall|a: int| 0 <= a < k.len() ==> #[trigger] k[a].1 >= 1
        }),
    decreases b.len(),
{
    if b.len() > 0 {
        let d = b.drop_last();
        assert forall|a: int, c: int|
            0 <= a < d.len() && 0 <= c < d.len() && a != c implies #[trigger] d[a].0 != #[trigger] d[c].0 by {
            assert(d[a] == b[a] && d[c] == b[c]);
        }
        assert forall|a: int| 0 <= a < d.len() implies #[trigger] d[a].1 >= 1 by {
            assert(d[a] == b[a]);
        }
        lemma_keep_wf(d, now, w);
        lemma_keep_subset(d, now, w);
        let r = keep_in_window(d, now, w);
        if in_window(b.last().0, now, w) {
            let k = r.push(b.last());
            assert forall|a: int| 0 <= a < r.len() implies #[trigger] r[a].0 != b.last().0 by {
                assert(r.contains(r[a]));
                assert(d.contains(r[a]));
                let m = choose|m: int| 0 <= m < d.len() && d[m] == r[a];
                assert(b[m] == r[a]);
                assert(b[b.len() - 1] == b.last());
            }
            assert forall|a: int, c: int|
                0 <= a < k.len() && 0 <= c < k.len() && a != c implies #[trigger] k[a].0 != #[trigger] k[c].0 by {
                if a < r.len() && c < r.len() {
                    assert(k[a] == r[a] && k[c] == r[c]);
                } else if a < r.len() {
                    assert(k[a] == r[a]);
                } else {
                    assert(k[c] == r[c]);
                }
            }
            assert forall|a: int| 0 <= a < k.len() implies #[trigger] k[a].1 >= 1 by {
                if a < r.len() {
                    assert(k[a] == r[a]);
                } else {
                    assert(b[b.len() - 1] == b.last());
                }
            }
        }
    }
}

proof fn lemma_pruned_wf(t: Seq<(u128, Seq<(u64, usize)>)>, now: u64, w: u64)
    requires
        table_wf(t),
    ensures
        table_wf(pruned(t, now, w)),
        forall|x: (u128, Seq<(u64, usize)>)| #[trigger] pruned(t, now, w).contains(x) ==> exists|i: int|
            0 <= i < t.len() && t[i].0 == x.0,
    decreases t.len(),
{
    if t.len() > 0 {
        let d = t.drop_last();
        assert forall|i: int, j: int|
            0 <= i < d.len() && 0 <= j < d.len() && i != j implies #[trigger] d[i].0 != #[trigger] d[j].0 by {
            assert(d[i] == t[i] && d[j] == t[j]);
        }
        assert forall|i: int| 0 <= i < d.len() implies buckets_wf(#[trigger] d[i].1) by {
            assert(d[i] == t[i]);
        }
        lemma_pruned_wf(d, now, w);
        let r = pruned(d, now, w);
        let last = t[t.len() - 1];
        assert(last == t.last());
        assert(buckets_wf(last.1));
        lemma_keep_wf(last.1, now, w);
        let k = keep_in_window(last.1, now, w);
        if k.len() > 0 {
            let p = r.push((last.0, k));
            assert forall|a: int| 0 <= a < r.len() implies #[trigger] r[a].0 != last.0 by {
                assert(r.contains(r[a]));
                let m = choose|m: int| 0 <= m < d.len() && d[m].0 == r[a].0;
                assert(t[m] == d[m]);
            }
            assert forall|i: int, j: int|
                0 <= i < p.len() && 0 <= j < p.len() && i != j implies #[trigger] p[i].0 != #[trigger] p[j].0 by {
                if i < r.len() && j < r.len() {
                    assert(p[i] == r[i] && p[j] == r[j]);
                } else if i < r.len() {
                    assert(p[i] == r[i]);
                } else {
                    assert(p[j] == r[j]);
                }
            }
            assert forall|i: int| 0 <= i < p.len() implies buckets_wf(#[trigger] p[i].1) by {
                if i < r.len() {
                    assert(p[i] == r[i]);
                }
            }
            assert forall|x: (u128, Seq<(u64, usize)>)| #[trigger] p.contains(x) implies exists|i: int|
                0 <= i < t.len() && t[i].0 == x.0 by {
                let m = choose|m: int| 0 <= m < p.len() && p[m] == x;
                if m < r.len() {
                    assert(r.contains(x));
                    let q = choose|q: int| 0 <= q < d.len() && d[q].0 == x.0;
                    assert(t[q] == d[q]);
                } else {
                    assert(t[t.len() - 1].0 == x.0);
                }
            }
        } else {
            assert forall|x: (u128, Seq<(u64, usize)>)| #[trigger] r.contains(x) implies exists|i: int|
                0 <= i < t.len() && t[i].0 == x.0 by {
                let q = choose|q: int| 0 <= q < d.len() && d[q].0 == x.0;
                assert(t[q] == d[q]);
            }
        }
    }
}

proof fn lemma_bucket_sum_nonneg(b: Seq<(u64, usize)>, now: u64, w: u64)
    ensures
        bucket_sum(b, now, w) >= 0,
    decreases b.len(),
{
    if b.len() > 0 {
        lemma_bucket_sum_nonneg(b.drop_last(), now, w);
    }
}

proof fn lemma_bucket_sum_update(b: Seq<(u64, usize)>, j: int, x: (u64, usize), now: u64, w: u64)
    requires
        0 <= j < b.len(),
    ensures
        bucket_sum(b.update(j, x), now, w) == bucket_sum(b, now, w) - bucket_weight(b[j], now, w)
            + bucket_weight(x, now, w),
    decreases b.len(),
{
    if j == b.len() - 1 {
        assert(b.update(j, x).drop_last() =~= b.drop_last());
    } else {
        assert(b.update(j, x).drop_last() =~= b.drop_last().update(j, x));
        lemma_bucket_sum_update(b.drop_last(), j, x, now, w);
    }
}

proof fn lemma_bucket_sum_push(b: Seq<(u64, usize)>, x: (u64, usize), now: u64, w: u64)
    ensures
        bucket_sum(b.push(x), now, w) == bucket_sum(b, now, w) + bucket_weight(x, now, w),
{
    assert(b.push(x).drop_last() =~= b);
}

proof fn lemma_total_update(t: Seq<OriginBuckets>, i: int, x: OriginBuckets, o: u128, now: u64, w: u64)
    requires
        0 <= i < t.len(),
    ensures
        window_total(t.update(i, x), o, now, w) == window_total(t, o, now, w) - origin_weight(
            t[i],
            o,
            now,
            w,
        ) + origin_weight(x, o, now, w),
    decreases t.len(),
{
    if i == t.len() - 1 {
        assert(t.update(i, x).drop_last() =~= t.drop_last());
    } else {
        assert(t.update(i, x).drop_last() =~= t.drop_last().update(i, x));
        lemma_total_update(t.drop_last(), i, x, o, now, w);
    }
}

proof fn lemma_total_push(t: Seq<OriginBuckets>, x: OriginBuckets, o: u128, now: u64, w: u64)
    ensures
        window_total(t.push(x), o, now, w) == window_total(t, o, now, w) + origin_weight(
            x,
            o,
            now,
            w,
        ),
{
    assert(t.push(x).drop_last() =~= t);
}

proof fn lemma_bucket_sum_single(b: Seq<(u64, usize)>, j: int, now: u64, w: u64)
    requires
        0 <= j < b.len(),
    ensures
        bucket_sum(b, now, w) >= bucket_weight(b[j], now, w),
    decreases b.len(),
{
    lemma_bucket_sum_nonneg(b.drop_last(), now, w);
    if j < b.len() - 1 {
        lemma_bucket_sum_single(b.drop_last(), j, now, w);
    }
}

proof fn lemma_total_nonneg(t: Seq<OriginBuckets>, o: u128, now: u64, w: u64)
    ensures
        window_total(t, o, now, w) >= 0,
    decreases t.len(),
{
    if t.len() > 0 {
        lemma_total_nonneg(t.drop_last(), o, now, w);
        lemma_bucket_sum_nonneg(t.last().buckets@, now, w);
    }
}

proof fn lemma_total_single(t: Seq<OriginBuckets>, i: int, o: u128, now: u64, w: u64)
    requires
        0 <= i < t.len(),
    ensures
        window_total(t, o, now, w) >= origin_weight(t[i], o, now, w),
    decreases t.len(),
{
    lemma_total_nonneg(t.drop_last(), o, now, w);
    lemma_bucket_sum_nonneg(t.last().buckets@, now, w);
    if i < t.len() - 1 {
        lemma_total_single(t.drop_last(), i, o, now, w);
    }
}

impl BucketTable {
    pub fn new() -> (r: BucketTable)
        ensures
            r.entries@.len() == 0,
            forall|o: u128, now: u64, w: u64| window_total(r.entries@, o, now, w) == 0,
    {
        BucketTable { entries: Vec::new() }
    }

    /// Counts one attempt of `origin` in bucket `key`.
    pub fn record(&mut self, origin: u128, key: u64)
        requires
            table_wf(table_view(old(self).entries@)),
        ensures
            table_wf(table_view(final(self).entries@)),
            table_view(final(self).entries@) == recorded(table_view(old(self).entries@), origin, key),
            forall|o: u128, w: u64|
                #![trigger window_total(final(self).entries@, o, key, w)]
                counted(
                    window_total(old(self).entries@, o, key, w),
                    window_total(final(self).entries@, o, key, w),
                    o == origin && w > 0,
                ),
    {
        let ghost t = self.entries@;
        let ghost tv = table_view(t);
        proof {
            lemma_table_view_index(t);
        }
        let mut i: usize = 0;
        while i < self.entries.len() && self.entries[i].origin != origin
            invariant
                i <= self.entries.len(),
                self.entries@ == t,
                tv == table_view(t),
                tv.len() == t.len(),
                forall|k: int| 0 <= k < t.len() ==> #[trigger] tv[k] == (t[k].origin, t[k].buckets@),
                forall|k: int| 0 <= k < i ==> (#[trigger] tv[k]).0 != origin,
            decreases self.entries.len() - i,
        {
            assert(tv[i as int] == (t[i as int].origin, t[i as int].buckets@));
            i = i + 1;
        }
        if i == self.entries.len() {
            let mut buckets: Vec<(u64, usize)> = Vec::new();
            buckets.push((key, 1));
            let e = OriginBuckets { origin, buckets };
            self.entries.push(e);
            proof {
                assert forall|o: u128, w: u64|
                    #![trigger window_total(self.entries@, o, key, w)]
                    counted(
                        window_total(t, o, key, w),
                        window_total(self.entries@, o, key, w),
                        o == origin && w > 0,
                    ) by {
                    lemma_total_push(t, e, o, key, w);
                    assert(e.buckets@ =~= seq![(key, 1usize)]);
                    assert(e.buckets@.drop_last() =~= Seq::<(u64, usize)>::empty());
                    assert(bucket_sum(Seq::<(u64, usize)>::empty(), key, w) == 0);
                    assert(bucket_sum(e.buckets@, key, w) == bucket_weight((key, 1usize), key, w));
                }
                let nv = tv.push((origin, seq![(key, 1usize)]));
                assert(e.buckets@ =~= seq![(key, 1usize)]);
                assert(table_view(self.entries@) =~= nv);
                assert(!exists|k: int| 0 <= k < tv.len() && tv[k].0 == origin);
                assert(buckets_wf(seq![(key, 1usize)]));
                assert forall|a: int, c: int|
                    0 <= a < nv.len() && 0 <= c < nv.len() && a != c implies #[trigger] nv[a].0 != #[trigger] nv[c].0 by {
                    if a < tv.len() && c < tv.len() {
                        assert(nv[a] == tv[a] && nv[c] == tv[c]);
                    } else if a < tv.len() {
                        assert(nv[a] == tv[a]);
                    } else {
                        assert(nv[c] == tv[c]);
                    }
                }
                assert forall|a: int| 0 <= a < nv.len() implies buckets_wf(#[trigger] nv[a].1) by {
                    if a < tv.len() {
                        assert(nv[a] == tv[a]);
                    }
                }
            }
        } else {
            let mut e = self.entries.remove(i);
            let ghost old_e = e;
            let ghost b = e.buckets@;
            assert(tv[i as int] == (t[i as int].origin, t[i as int].buckets@));
            assert(tv[i as int] == (origin, b));
            assert(buckets_wf(tv[i as int].1));
            let mut j: usize = 0;
            while j < e.buckets.len() && e.buckets[j].0 != key
                invariant
                    j <= e.buckets.len(),
                    e.buckets@ == b,
                    forall|k: int| 0 <= k < j ==> (#[trigger] b[k]).0 != key,
                decreases e.buckets.len() - j,
            {
                j = j + 1;
            }
            if j == e.buckets.len() {
                e.buckets.push((key, 1));
            } else {
                let c = e.buckets[j].1;
                let c2 = if c < usize::MAX {
                    c + 1
                } else {
                    c
                };
                e.buckets.set(j, (key, c2));
            }
            let ghost new_e = e;
            self.entries.insert(i, e);
            proof {
                assert(self.entries@ =~= t.update(i as int, new_e));
                assert forall|o: u128, w: u64|
                    #![trigger window_total(self.entries@, o, key, w)]
                    counted(
                        window_total(t, o, key, w),
                        window_total(self.entries@, o, key, w),
                        o == origin && w > 0,
                    ) by {
                    lemma_total_update(t, i as int, new_e, o, key, w);
                    if j == b.len() {
                        lemma_bucket_sum_push(b, (key, 1usize), key, w);
                    } else {
                        lemma_bucket_sum_update(b, j as int, new_e.buckets@[j as int], key, w);
                        lemma_bucket_sum_nonneg(b, key, w);
                        lemma_bucket_sum_single(b, j as int, key, w);
                        lemma_total_single(t, i as int, o, key, w);
                    }
                }
                let nb = new_e.buckets@;
                assert(buckets_wf(b));
                if j == b.len() {
                    assert(!exists|k: int| 0 <= k < b.len() && b[k].0 == key);
                    assert(nb == b.push((key, 1usize)));
                    assert(nb == bumped(b, key));
                    assert forall|a: int, c: int|
                        0 <= a < nb.len() && 0 <= c < nb.len() && a != c implies #[trigger] nb[a].0 != #[trigger] nb[c].0 by {
                        if a < b.len() && c < b.len() {
                            assert(nb[a] == b[a] && nb[c] == b[c]);
                        } else if a < b.len() {
                            assert(nb[a] == b[a]);
                        } else {
                            assert(nb[c] == b[c]);
                        }
                    }
                    assert forall|a: int| 0 <= a < nb.len() implies #[trigger] nb[a].1 >= 1 by {
                        if a < b.len() {
                            assert(nb[a] == b[a]);
                        }
                    }
                } else {
                    let jj = choose|k: int| 0 <= k < b.len() && b[k].0 == key;
                    assert(jj == j as int);
                    assert(nb =~= b.update(j as int, (key, sat_inc(b[j as int].1))));
                    assert(nb == bumped(b, key));
                    assert forall|a: int, c: int|
                        0 <= a < nb.len() && 0 <= c < nb.len() && a != c implies #[trigger] nb[a].0 != #[trigger] nb[c].0 by {
                        assert(nb[a].0 == b[a].0 && nb[c].0 == b[c].0);
                    }
                    assert forall|a: int| 0 <= a < nb.len() implies #[trigger] nb[a].1 >= 1 by {
                        if a != j {
                            assert(nb[a] == b[a]);
                        }
                    }
                }
                assert(buckets_wf(nb));
                assert(tv[i as int].0 == origin);
                let ii = choose|k: int| 0 <= k < tv.len() && tv[k].0 == origin;
                if ii != i as int {
                    assert(tv[ii].0 != tv[i as int].0);
                }
                let nv = tv.update(i as int, (origin, nb));
                assert(table_view(self.entries@) =~= nv);
                assert forall|a: int, c: int|
                    0 <= a < nv.len() && 0 <= c < nv.len() && a != c implies #[trigger] nv[a].0 != #[trigger] nv[c].0 by {
                    assert(nv[a].0 == tv[a].0 && nv[c].0 == tv[c].0);
                }
                assert forall|a: int| 0 <= a < nv.len() implies buckets_wf(#[trigger] nv[a].1) by {
                    if a != i {
                        assert(nv[a] == tv[a]);
                    }
                }
            }
        }
    }
}

/// `x`, or the largest `usize` where `x` exceeds it.
pub open spec fn capped(x: int) -> int {
    if x < usize::MAX {
        x
    } else {
        usize::MAX as int
    }
}

pub fn bucket_in_window(key: u64, now: u64, w: u64) -> (r: bool)
    ensures
        r == in_window(key, now, w),
{
    let d = if now >= key {
        now - key
    } else {
        0
    };
    d < w
}

fn saturating_add(a: usize, b: usize) -> (r: usize)
    ensures
        r == capped(a + b),
{
    if a > usize::MAX - b {
        usize::MAX
    } else {
        a + b
    }
}

/// `acc` plus the attempts of `b` within the window, capped.
fn capped_bucket_sum(b: &Vec<(u64, usize)>, now: u64, w: u64, acc: usize) -> (r: usize)
    ensures
        r == capped(acc + bucket_sum(b@, now, w)),
{
    let mut total = acc;
    let mut j: usize = 0;
    assert(b@.subrange(0, 0) =~= Seq::<(u64, usize)>::empty());
    while j < b.len()
        invariant
            j <= b.len(),
            total == capped(acc + bucket_sum(b@.subrange(0, j as int), now, w)),
        decreases b.len() - j,
    {
        assert(b@.subrange(0, j + 1).drop_last() =~= b@.subrange(0, j as int));
        proof {
            lemma_bucket_sum_nonneg(b@.subrange(0, j as int), now, w);
        }
        if bucket_in_window(b[j].0, now, w) {
            total = saturating_add(total, b[j].1);
        }
        j = j + 1;
    }
    assert(b@.subrange(0, b.len() as int) =~= b@);
    total
}

impl BucketTable {
    /// The attempts of `origin` within `w` buckets up to bucket `now`, capped at the
    /// largest `usize`.
    pub fn capped_total(&self, origin: u128, now: u64, w: u64) -> (r: usize)
        ensures
            r == capped(window_total(self.entries@, origin, now, w)),
    {
        let mut total: usize = 0;
        let mut i: usize = 0;
        while i < self.entries.len()
            invariant
                i <= self.entries.len(),
                total == capped(window_total(self.entries@.subrange(0, i as int), origin, now, w)),
            decreases self.entries.len() - i,
        {
            assert(self.entries@.subrange(0, i + 1).drop_last() =~= self.entries@.subrange(
                0,
                i as int,
            ));
            proof {
                lemma_total_nonneg(self.entries@.subrange(0, i as int), origin, now, w);
            }
            if self.entries[i].origin == origin {
                proof {
                    lemma_bucket_sum_nonneg(self.entries@[i as int].buckets@, now, w);
                }
                total = capped_bucket_sum(&self.entries[i].buckets, now, w, total);
            }
            i = i + 1;
        }
        assert(self.entries@.subrange(0, self.entries.len() as int) =~= self.entries@);
        total
    }

    /// Drops the buckets that lie outside `w` buckets up to bucket `now`, and the origins
    /// left without buckets. No total within `w` buckets, or fewer, up to `now` changes.
    pub fn prune(&mut self, now: u64, w: u64)
        requires
            table_wf(table_view(old(self).entries@)),
        ensures
            table_view(final(self).entries@) == pruned(table_view(old(self).entries@), now, w),
            table_wf(table_view(final(self).entries@)),
            forall|o: u128, w2: u64|
                #![trigger window_total(final(self).entries@, o, now, w2)]
                w2 <= w ==> window_total(final(self).entries@, o, now, w2) == window_total(
                    old(self).entries@,
                    o,
                    now,
                    w2,
                ),
            all_in_window(final(self).entries@, now, w),
    {
        let mut kept: Vec<OriginBuckets> = Vec::new();
        let mut i: usize = 0;
        while i < self.entries.len()
            invariant
                i <= self.entries.len(),
                forall|o: u128, w2: u64|
                    #![trigger window_total(kept@, o, now, w2)]
                    w2 <= w ==> window_total(kept@, o, now, w2) == window_total(
                        self.entries@.subrange(0, i as int),
                        o,
                        now,
                        w2,
                    ),
                all_in_window(kept@, now, w),
                table_view(kept@) == pruned(table_view(self.entries@.subrange(0, i as int)), now, w),
            decreases self.entries.len() - i,
        {
            let b = &self.entries[i].buckets;
            let mut nb: Vec<(u64, usize)> = Vec::new();
            let mut j: usize = 0;
            while j < b.len()
                invariant
                    j <= b.len(),
                    forall|w2: u64|
                        #![trigger bucket_sum(nb@, now, w2)]
                        w2 <= w ==> bucket_sum(nb@, now, w2) == bucket_sum(
                            b@.subrange(0, j as int),
                            now,
                            w2,
                        ),
                    forall|k: int| 0 <= k < nb@.len() ==> in_window(#[trigger] nb@[k].0, now, w),
                    nb@ == keep_in_window(b@.subrange(0, j as int), now, w),
                decreases b.len() - j,
            {
                assert(b@.subrange(0, j + 1).drop_last() =~= b@.subrange(0, j as int));
                assert(b@.subrange(0, j + 1).last() == b@[j as int]);
                let ghost before = nb@;
                if bucket_in_window(b[j].0, now, w) {
                    nb.push(b[j]);
                    proof {
                        assert forall|w2: u64| #![trigger bucket_sum(nb@, now, w2)] w2 <= w implies bucket_sum(nb@, now, w2)
                            == bucket_sum(b@.subrange(0, j + 1), now, w2) by {
                            lemma_bucket_sum_push(before, b@[j as int], now, w2);
                        }
                    }
                } else {
                    assert forall|w2: u64| #![trigger bucket_sum(nb@, now, w2)] w2 <= w implies bucket_sum(nb@, now, w2)
                        == bucket_sum(b@.subrange(0, j + 1), now, w2) by {
                        assert(!in_window(b@[j as int].0, now, w2));
                    }
                }
                j = j + 1;
            }
            assert(b@.subrange(0, b.len() as int) =~= b@);
            let ghost sub = self.entries@.subrange(0, i as int);
            assert(self.entries@.subrange(0, i + 1).drop_last() =~= sub);
            proof {
                let sv = table_view(self.entries@.subrange(0, i + 1));
                assert(table_view(self.entries@.subrange(0, i + 1)).drop_last() =~= table_view(sub));
                assert(sv.last() == (self.entries@[i as int].origin, b@));
            }
            if nb.len() > 0 {
                let ghost before = kept@;
                let e = OriginBuckets { origin: self.entries[i].origin, buckets: nb };
                kept.push(e);
                proof {
                    assert(table_view(kept@) =~= table_view(before).push((e.origin, e.buckets@)));
                    assert forall|o: u128, w2: u64|
                        #![trigger window_total(kept@, o, now, w2)]
                        w2 <= w implies window_total(kept@, o, now, w2) == window_total(
                            self.entries@.subrange(0, i + 1),
                            o,
                            now,
                            w2,
                        ) by {
                        lemma_total_push(before, e, o, now, w2);
                        assert(bucket_sum(e.buckets@, now, w2) == bucket_sum(b@, now, w2));
                    }
                    assert forall|a: int, c: int|
                        0 <= a < kept@.len() && 0 <= c < kept@[a].buckets@.len() implies in_window(
                            #[trigger] kept@[a].buckets@[c].0,
                            now,
                            w,
                        ) && kept@[a].buckets@.len() > 0 by {
                        if a < before.len() {
                            assert(kept@[a] == before[a]);
                            assert(all_in_window(before, now, w));
                            assert(in_window(before[a].buckets@[c].0, now, w));
                        } else {
                            assert(kept@[a] == e);
                            assert(e.buckets@.len() > 0);
                            assert(in_window(e.buckets@[c].0, now, w));
                        }
                    }
                }
            } else {
                assert(nb@ =~= Seq::<(u64, usize)>::empty());
                assert forall|o: u128, w2: u64|
                    #![trigger window_total(kept@, o, now, w2)]
                    w2 <= w implies window_total(kept@, o, now, w2) == window_total(
                        self.entries@.subrange(0, i + 1),
                        o,
                        now,
                        w2,
                    ) by {
                    assert(bucket_sum(nb@, now, w2) == bucket_sum(b@, now, w2));
                    assert(bucket_sum(nb@, now, w2) == 0);
                }
            }
            i = i + 1;
        }
        assert(self.entries@.subrange(0, self.entries.len() as int) =~= self.entries@);
        proof {
            lemma_pruned_wf(table_view(self.entries@), now, w);
        }
        self.entries = kept;
    }
}

/// Failed login attempts per origin, in one-minute and ten-second buckets.
pub struct FailedLogins {
    pub per_minute: BucketTable,
    pub per_10_seconds: BucketTable,
    /// An origin is flagged at this many attempts within the minute window.
    pub min_threshold: usize,
    /// An origin is flagged at this many attempts within the ten-second window.
    pub sec_threshold: usize,
    /// The minute buckets kept, counting the current one.
    pub window_mins: u64,
    /// The ten-second buckets kept, counting the current one.
    pub window_secs: u64,
    /// When housekeeping last ran, in seconds since the Unix epoch.
    pub last_cleanup: u64,
    /// The seconds that pass between two housekeeping runs.
    pub cleanup_interval: u64,
}

pub open spec fn minute_key(now: u64) -> u64 {
    (now / 60) as u64
}

pub open spec fn ten_second_key(now: u64) -> u64 {
    (now / 10) as u64
}

/// What one attempt of `origin` at `now` does to the detector `old`, leaving `new` and
/// answering `r`.
pub open spec fn attempt_outcome(
    old: FailedLogins,
    new: FailedLogins,
    origin: u128,
    now: u64,
    r: bool,
) -> bool {
    &&& new.same_settings(old)
    &&& new.minutes_view() == recorded(
        if old.cleanup_due(now) {
            pruned(old.minutes_view(), minute_key(now), old.window_mins)
        } else {
            old.minutes_view()
        },
        origin,
        minute_key(now),
    )
    &&& new.ten_seconds_view() == recorded(
        if old.cleanup_due(now) {
            pruned(old.ten_seconds_view(), ten_second_key(now), old.window_secs)
        } else {
            old.ten_seconds_view()
        },
        origin,
        ten_second_key(now),
    )
    &&& new.last_cleanup == (if old.cleanup_due(now) {
        now
    } else {
        old.last_cleanup
    })
    &&& forall|o: u128|
        #![trigger new.minute_total(o, now)]
        counted(old.minute_total(o, now), new.minute_total(o, now), o == origin && old.window_mins > 0)
    &&& forall|o: u128, w: u64|
        #![trigger new.minute_total_within(o, now, w)]
        w <= old.window_mins ==> counted(
            old.minute_total_within(o, now, w),
            new.minute_total_within(o, now, w),
            o == origin && w > 0,
        )
    &&& forall|o: u128|
        #![trigger new.ten_second_total(o, now)]
        counted(
            old.ten_second_total(o, now),
            new.ten_second_total(o, now),
            o == origin && old.window_secs > 0,
        )
    &&& r == (new.minute_total(origin, now) >= new.min_threshold || new.ten_second_total(origin, now)
        >= new.sec_threshold)
}

impl FailedLogins {
    /// The minute buckets of each origin.
    pub open spec fn minutes_view(&self) -> Seq<(u128, Seq<(u64, usize)>)> {
        table_view(self.per_minute.entries@)
    }

    /// The ten-second buckets of each origin.
    pub open spec fn ten_seconds_view(&self) -> Seq<(u128, Seq<(u64, usize)>)> {
        table_view(self.per_10_seconds.entries@)
    }

    /// Both tables are well formed.
    pub open spec fn wf(&self) -> bool {
        table_wf(self.minutes_view()) && table_wf(self.ten_seconds_view())
    }

    /// The attempts of `o` within the last `w` minute buckets at `now`.
    pub open spec fn minute_total_within(&self, o: u128, now: u64, w: u64) -> int {
        window_total(self.per_minute.entries@, o, minute_key(now), w)
    }

    /// The attempts of `o` within the minute window at `now` (seconds since the epoch).
    pub open spec fn minute_total(&self, o: u128, now: u64) -> int {
        window_total(self.per_minute.entries@, o, minute_key(now), self.window_mins)
    }

    /// The attempts of `o` within the ten-second window at `now`.
    pub open spec fn ten_second_total(&self, o: u128, now: u64) -> int {
        window_total(self.per_10_seconds.entries@, o, ten_second_key(now), self.window_secs)
    }

    pub open spec fn same_settings(&self, other: FailedLogins) -> bool {
        &&& self.min_threshold == other.min_threshold
        &&& self.sec_threshold == other.sec_threshold
        &&& self.window_mins == other.window_mins
        &&& self.window_secs == other.window_secs
        &&& self.cleanup_interval == other.cleanup_interval
    }

    pub open spec fn cleanup_due(&self, now: u64) -> bool {
        now > self.last_cleanup && now - self.last_cleanup > self.cleanup_interval
    }

    /// A detector with no attempts, whose last housekeeping counts as done at `now`.
    pub fn new_at(
        min_threshold: usize,
        sec_threshold: usize,
        window_mins: u64,
        window_secs: u64,
        cleanup_interval: u64,
        now: u64,
    ) -> (r: FailedLogins)
        ensures
            r.min_threshold == min_threshold,
            r.sec_threshold == sec_threshold,
            r.window_mins == window_mins,
            r.window_secs == window_secs,
            r.cleanup_interval == cleanup_interval,
            r.last_cleanup == now,
            r.wf(),
            r.per_minute.entries@.len() == 0,
            r.per_10_seconds.entries@.len() == 0,
            forall|o: u128, t: u64| r.minute_total(o, t) == 0 && r.ten_second_total(o, t) == 0,
    {
        FailedLogins {
            per_minute: BucketTable::new(),
            per_10_seconds: BucketTable::new(),
            min_threshold,
            sec_threshold,
            window_mins,
            window_secs,
            last_cleanup: now,
            cleanup_interval,
        }
    }

    /// A detector with no attempts, whose last housekeeping counts as done now.
    pub fn new(
        min_threshold: usize,
        sec_threshold: usize,
        window_mins: u64,
        window_secs: u64,
        cleanup_interval: u64,
    ) -> (r: FailedLogins)
        ensures
            r.min_threshold == min_threshold,
            r.sec_threshold == sec_threshold,
            r.window_mins == window_mins,
            r.window_secs == window_secs,
            r.cleanup_interval == cleanup_interval,
            r.wf(),
            r.per_minute.entries@.len() == 0,
            r.per_10_seconds.entries@.len() == 0,
            forall|o: u128, t: u64| r.minute_total(o, t) == 0 && r.ten_second_total(o, t) == 0,
    {
        let now = unix_now_secs();
        FailedLogins::new_at(min_threshold, sec_threshold, window_mins, window_secs, cleanup_interval, now)
    }

    /// Housekeeping at `now`: drops the buckets outside both windows and the origins left
    /// without buckets. No total within a window changes.
    pub fn cleanup_old_attempts_at(&mut self, now: u64)
        requires
            old(self).wf(),
        ensures
            final(self).wf(),
            final(self).minutes_view() == pruned(
                old(self).minutes_view(),
                minute_key(now),
                old(self).window_mins,
            ),
            final(self).ten_seconds_view() == pruned(
                old(self).ten_seconds_view(),
                ten_second_key(now),
                old(self).window_secs,
            ),
            final(self).same_settings(*old(self)),
            final(self).last_cleanup == old(self).last_cleanup,
            forall|o: u128|
                #![trigger final(self).minute_total(o, now)]
                final(self).minute_total(o, now) == old(self).minute_total(o, now),
            forall|o: u128|
                #![trigger final(self).ten_second_total(o, now)]
                final(self).ten_second_total(o, now) == old(self).ten_second_total(o, now),
            forall|o: u128, w: u64|
                #![trigger final(self).minute_total_within(o, now, w)]
                w <= old(self).window_mins ==> final(self).minute_total_within(o, now, w) == old(
                    self,
                ).minute_total_within(o, now, w),
            all_in_window(final(self).per_minute.entries@, minute_key(now), final(self).window_mins),
            all_in_window(
                final(self).per_10_seconds.entries@,
                ten_second_key(now),
                final(self).window_secs,
            ),
    {
        let wm = self.window_mins;
        let ws = self.window_secs;
        self.per_minute.prune(now / 60, wm);
        self.per_10_seconds.prune(now / 10, ws);
        assert forall|o: u128| #[trigger] self.minute_total(o, now) == old(self).minute_total(o, now) by {
            assert(window_total(self.per_minute.entries@, o, minute_key(now), wm) == window_total(
                old(self).per_minute.entries@,
                o,
                minute_key(now),
                wm,
            ));
        }
        assert forall|o: u128| #[trigger] self.ten_second_total(o, now) == old(self).ten_second_total(
            o,
            now,
        ) by {
            assert(window_total(self.per_10_seconds.entries@, o, ten_second_key(now), ws)
                == window_total(old(self).per_10_seconds.entries@, o, ten_second_key(now), ws));
        }
    }

    /// Counts one failed attempt of `origin` at `now` (seconds since the epoch), running
    /// housekeeping first when it is due, and answers whether the origin is to be flagged:
    /// whether its attempts within the minute window reach `min_threshold` or those within
    /// the ten-second window reach `sec_threshold`.
    pub fn register_attempt_at(&mut self, origin: u128, now: u64) -> (r: bool)
        requires
            old(self).wf(),
        ensures
            final(self).wf(),
            attempt_outcome(*old(self), *final(self), origin, now, r),
    {
        let ghost start = *self;
        let ghost mut cleaned = start;
        if now > self.last_cleanup && now - self.last_cleanup > self.cleanup_interval {
            self.cleanup_old_attempts_at(now);
            proof {
                cleaned = *self;
            }
            self.last_cleanup = now;
        }
        let ghost mid = *self;
        let now_minute = now / 60;
        let now_10s = now / 10;
        self.per_minute.record(origin, now_minute);
        self.per_10_seconds.record(origin, now_10s);
        assert forall|o: u128| #[trigger] self.minute_total(o, now) == self.minute_total(o, now) implies counted(
            start.minute_total(o, now),
            self.minute_total(o, now),
            o == origin && start.window_mins > 0,
        ) by {
            assert(cleaned.minute_total(o, now) == start.minute_total(o, now));
            assert(mid.per_minute == cleaned.per_minute);
            assert(window_total(self.per_minute.entries@, o, now_minute, self.window_mins) == self.minute_total(o, now));
        }
        assert forall|o: u128| #[trigger] self.ten_second_total(o, now) == self.ten_second_total(o, now) implies counted(
            start.ten_second_total(o, now),
            self.ten_second_total(o, now),
            o == origin && start.window_secs > 0,
        ) by {
            assert(cleaned.ten_second_total(o, now) == start.ten_second_total(o, now));
            assert(mid.per_10_seconds == cleaned.per_10_seconds);
            assert(window_total(self.per_10_seconds.entries@, o, now_10s, self.window_secs) == self.ten_second_total(o, now));
        }
        assert forall|o: u128, w: u64| #[trigger] self.minute_total_within(o, now, w) == self.minute_total_within(o, now, w) && w <= start.window_mins implies counted(
            start.minute_total_within(o, now, w),
            self.minute_total_within(o, now, w),
            o == origin && w > 0,
        ) by {
            assert(cleaned.minute_total_within(o, now, w) == start.minute_total_within(o, now, w));
            assert(mid.per_minute == cleaned.per_minute);
            assert(window_total(self.per_minute.entries@, o, now_minute, w) == self.minute_total_within(o, now, w));
        }
        let min_failures = self.per_minute.capped_total(origin, now_minute, self.window_mins);
        let sec_failures = self.per_10_seconds.capped_total(origin, now_10s, self.window_secs);
        min_failures >= self.min_threshold || sec_failures >= self.sec_threshold
    }

    /// Counts one failed attempt of `origin` now, as `register_attempt_at` does.
    pub fn register_attempt(&mut self, origin: u128) -> (r: bool)
        requires
            old(self).wf(),
        ensures
            final(self).wf(),
            exists|now: u64| #[trigger] attempt_outcome(*old(self), *final(self), origin, now, r),
    {
        let now = unix_now_secs();
        self.register_attempt_at(origin, now)
    }
}

proof fn lemma_bucket_sum_mono(b: Seq<(u64, usize)>, n1: u64, w1: u64, n2: u64, w2: u64)
    requires
        forall|k: u64| #[trigger] in_window(k, n1, w1) ==> in_window(k, n2, w2),
    ensures
        bucket_sum(b, n1, w1) <= bucket_sum(b, n2, w2),
    decreases b.len(),
{
    if b.len() > 0 {
        lemma_bucket_sum_mono(b.drop_last(), n1, w1, n2, w2);
        assert(in_window(b.last().0, n1, w1) ==> in_window(b.last().0, n2, w2));
    }
}

proof fn lemma_total_mono(t: Seq<OriginBuckets>, o: u128, n1: u64, w1: u64, n2: u64, w2: u64)
    requires
        forall|k: u64| #[trigger] in_window(k, n1, w1) ==> in_window(k, n2, w2),
    ensures
        window_total(t, o, n1, w1) <= window_total(t, o, n2, w2),
    decreases t.len(),
{
    if t.len() > 0 {
        lemma_total_mono(t.drop_last(), o, n1, w1, n2, w2);
        lemma_bucket_sum_mono(t.last().buckets@, n1, w1, n2, w2);
    }
}

proof fn lemma_minute_key_mono(a: u64, b: u64)
    requires
        a <= b,
    ensures
        minute_key(a) <= minute_key(b),
{
    assert(a / 60 <= b / 60) by (nonlinear_arith)
        requires
            a <= b,
    ;
}

/// The window that reaches back from the minute of `t` to the minute of `first`.
pub open spec fn span_since(first: u64, t: u64) -> u64 {
    (minute_key(t) - minute_key(first) + 1) as u64
}

proof fn lemma_run_total(
    states: Seq<FailedLogins>,
    results: Seq<bool>,
    origin: u128,
    times: Seq<u64>,
    k: int,
)
    requires
        states.len() == results.len() + 1,
        times.len() == results.len(),
        0 <= k < results.len(),
        forall|i: int|
            0 <= i < results.len() ==> #[trigger] attempt_outcome(
                states[i],
                states[i + 1],
                origin,
                times[i],
                results[i],
            ),
        forall|i: int, j: int| 0 <= i <= j < times.len() ==> #[trigger] times[i] <= #[trigger] times[j],
        minute_key(times.last()) - minute_key(times[0]) < states[0].window_mins,
    ensures
        states[k + 1].same_settings(states[0]),
        minute_key(times[0]) <= minute_key(times[k]),
        states[k + 1].minute_total_within(origin, times[k], span_since(times[0], times[k])) >= (
        if k + 1 < usize::MAX {
            k + 1
        } else {
            usize::MAX as int
        }),
    decreases k,
{
    let key0 = minute_key(times[0]);
    let t = times[k];
    assert(times[0] <= t && t <= times.last());
    lemma_minute_key_mono(times[0], t);
    lemma_minute_key_mono(t, times.last());
    let wk = span_since(times[0], t);
    assert(attempt_outcome(states[k], states[k + 1], origin, t, results[k]));
    if k == 0 {
        lemma_total_nonneg(states[0].per_minute.entries@, origin, minute_key(t), wk);
    } else {
        lemma_run_total(states, results, origin, times, k - 1);
        let tp = times[k - 1];
        assert(tp <= t);
        lemma_minute_key_mono(tp, t);
        let wp = span_since(times[0], tp);
        lemma_total_mono(states[k].per_minute.entries@, origin, minute_key(tp), wp, minute_key(t), wk);
    }
    assert(wk <= states[k].window_mins);
    assert(states[k + 1].minute_total_within(origin, t, wk) == states[k + 1].minute_total_within(origin, t, wk));
}

/// Consecutive attempts of one origin keep adding up within the minute window: where their
/// minute buckets, in time order, span fewer buckets than the window holds, every attempt from
/// the `min_threshold`-th on is flagged.
pub proof fn lemma_flagged_from_threshold_on(
    states: Seq<FailedLogins>,
    results: Seq<bool>,
    origin: u128,
    times: Seq<u64>,
)
    requires
        states.len() == results.len() + 1,
        times.len() == results.len(),
        results.len() > 0,
        forall|i: int|
            0 <= i < results.len() ==> #[trigger] attempt_outcome(
                states[i],
                states[i + 1],
                origin,
                times[i],
                results[i],
            ),
        forall|i: int, j: int| 0 <= i <= j < times.len() ==> #[trigger] times[i] <= #[trigger] times[j],
        minute_key(times.last()) - minute_key(times[0]) < states[0].window_mins,
    ensures
        forall|k: int| 0 <= k < results.len() && k + 1 >= states[0].min_threshold ==> #[trigger] results[k],
{
    assert forall|k: int| 0 <= k < results.len() && k + 1 >= states[0].min_threshold implies #[trigger] results[k] by {
        lemma_run_total(states, results, origin, times, k);
        let t = times[k];
        assert(attempt_outcome(states[k], states[k + 1], origin, t, results[k]));
        lemma_total_mono(
            states[k + 1].per_minute.entries@,
            origin,
            minute_key(t),
            span_since(times[0], t),
            minute_key(t),
            states[k + 1].window_mins,
        );
        assert(states[k + 1].minute_total(origin, t) == states[k + 1].minute_total(origin, t));
    }
}

proof fn lemma_expired_total_zero(t: Seq<OriginBuckets>, o: u128, now: u64, w: u64)
    requires
        forall|i: int, j: int|
            0 <= i < t.len() && t[i].origin == o && 0 <= j < t[i].buckets@.len() ==> !in_window(
                #[trigger] t[i].buckets@[j].0,
                now,
                w,
            ),
    ensures
        window_total(t, o, now, w) == 0,
    decreases t.len(),
{
    if t.len() > 0 {
        let d = t.drop_last();
        assert forall|i: int, j: int|
            0 <= i < d.len() && d[i].origin == o && 0 <= j < d[i].buckets@.len() implies !in_window(
            #[trigger] d[i].buckets@[j].0,
            now,
            w,
        ) by {
            assert(d[i] == t[i]);
            assert(!in_window(t[i].buckets@[j].0, now, w));
        }
        lemma_expired_total_zero(d, o, now, w);
        if t.last().origin == o {
            lemma_expired_sum_zero(t.last().buckets@, now, w);
        }
    }
}

proof fn lemma_expired_sum_zero(b: Seq<(u64, usize)>, now: u64, w: u64)
    requires
        forall|j: int| 0 <= j < b.len() ==> !in_window(#[trigger] b[j].0, now, w),
    ensures
        bucket_sum(b, now, w) == 0,
    decreases b.len(),
{
    if b.len() > 0 {
        let d = b.drop_last();
        assert forall|j: int| 0 <= j < d.len() implies !in_window(#[trigger] d[j].0, now, w) by {
            assert(d[j] == b[j]);
        }
        lemma_expired_sum_zero(d, now, w);
    }
}

/// Attempts older than the windows do not count: where every bucket of `origin` lies outside
/// both windows at `now`, an attempt is flagged only where a threshold is 0, or is 1 with a
/// window of at least one bucket.
pub proof fn lemma_expired_attempts_do_not_count(
    old: FailedLogins,
    new: FailedLogins,
    origin: u128,
    now: u64,
    r: bool,
)
    requires
        attempt_outcome(old, new, origin, now, r),
        forall|i: int, j: int|
            0 <= i < old.per_minute.entries@.len() && old.per_minute.entries@[i].origin == origin
                && 0 <= j < old.per_minute.entries@[i].buckets@.len() ==> !in_window(
                #[trigger] old.per_minute.entries@[i].buckets@[j].0,
                minute_key(now),
                old.window_mins,
            ),
        forall|i: int, j: int|
            0 <= i < old.per_10_seconds.entries@.len() && old.per_10_seconds.entries@[i].origin
                == origin && 0 <= j < old.per_10_seconds.entries@[i].buckets@.len() ==> !in_window(
                #[trigger] old.per_10_seconds.entries@[i].buckets@[j].0,
                ten_second_key(now),
                old.window_secs,
            ),
    ensures
        r == (old.min_threshold == 0 || (old.window_mins > 0 && old.min_threshold <= 1)
            || old.sec_threshold == 0 || (old.window_secs > 0 && old.sec_threshold <= 1)),
{
    lemma_expired_total_zero(old.per_minute.entries@, origin, minute_key(now), old.window_mins);
    lemma_expired_total_zero(
        old.per_10_seconds.entries@,
        origin,
        ten_second_key(now),
        old.window_secs,
    );
    assert(new.minute_total(origin, now) == new.minute_total(origin, now));
    assert(new.ten_second_total(origin, now) == new.ten_second_total(origin, now));
}

proof fn lemma_keep_all_in(b: Seq<(u64, usize)>, now: u64, w: u64)
    requires
        forall|j: int| 0 <= j < b.len() ==> in_window(#[trigger] b[j].0, now, w),
    ensures
        keep_in_window(b, now, w) == b,
    decreases b.len(),
{
    if b.len() > 0 {
        let d = b.drop_last();
        assert forall|j: int| 0 <= j < d.len() implies in_window(#[trigger] d[j].0, now, w) by {
            assert(d[j] == b[j]);
        }
        lemma_keep_all_in(d, now, w);
        assert(b[b.len() - 1] == b.last());
        assert(d.push(b.last()) =~= b);
    }
}

/// Every origin that pruning keeps has buckets, all of them within the window.
proof fn lemma_pruned_in_window(t: Seq<(u128, Seq<(u64, usize)>)>, now: u64, w: u64)
    ensures
        forall|i: int|
            0 <= i < pruned(t, now, w).len() ==> (#[trigger] pruned(t, now, w)[i]).1.len() > 0
                && forall|j: int|
                0 <= j < pruned(t, now, w)[i].1.len() ==> in_window(
                    #[trigger] pruned(t, now, w)[i].1[j].0,
                    now,
                    w,
                ),
    decreases t.len(),
{
    if t.len() > 0 {
        lemma_pruned_in_window(t.drop_last(), now, w);
        let k = keep_in_window(t.last().1, now, w);
        lemma_keep_subset(t.last().1, now, w);
        let r = pruned(t.drop_last(), now, w);
        let p = pruned(t, now, w);
        assert forall|i: int| 0 <= i < p.len() implies (#[trigger] p[i]).1.len() > 0 && forall|j: int|
            0 <= j < p[i].1.len() ==> in_window(#[trigger] p[i].1[j].0, now, w) by {
            if i < r.len() {
                assert(p[i] == r[i]);
            } else {
                assert(p[i] == (t.last().0, k));
                assert forall|j: int| 0 <= j < k.len() implies in_window(#[trigger] k[j].0, now, w) by {
                    assert(k.contains(k[j]));
                }
            }
        }
    }
}

proof fn lemma_pruned_identity(t: Seq<(u128, Seq<(u64, usize)>)>, now: u64, w: u64)
    requires
        forall|i: int|
            0 <= i < t.len() ==> (#[trigger] t[i]).1.len() > 0 && forall|j: int|
                0 <= j < t[i].1.len() ==> in_window(#[trigger] t[i].1[j].0, now, w),
    ensures
        pruned(t, now, w) == t,
    decreases t.len(),
{
    if t.len() > 0 {
        let d = t.drop_last();
        assert forall|i: int| 0 <= i < d.len() implies (#[trigger] d[i]).1.len() > 0 && forall|j: int|
            0 <= j < d[i].1.len() ==> in_window(#[trigger] d[i].1[j].0, now, w) by {
            assert(d[i] == t[i]);
        }
        lemma_pruned_identity(d, now, w);
        let last = t[t.len() - 1];
        assert(last == t.last());
        assert forall|j: int| 0 <= j < last.1.len() implies in_window(#[trigger] last.1[j].0, now, w) by {}
        lemma_keep_all_in(last.1, now, w);
        assert(d.push(last) =~= t);
    }
}

/// Housekeeping twice at the same bucket does what housekeeping once does.
pub proof fn lemma_prune_idempotent(t: Seq<(u128, Seq<(u64, usize)>)>, now: u64, w: u64)
    ensures
        pruned(pruned(t, now, w), now, w) == pruned(t, now, w),
{
    lemma_pruned_in_window(t, now, w);
    lemma_pruned_identity(pruned(t, now, w), now, w);
}

/// Memory stays bounded: well-formed buckets that all lie within `w` buckets up to `now`,
/// none of them ahead of `now`, number at most `w`. Housekeeping leaves every origin's
/// buckets well formed and within the window.
pub proof fn lemma_buckets_bounded(b: Seq<(u64, usize)>, now: u64, w: u64)
    requires
        buckets_wf(b),
        forall|j: int| 0 <= j < b.len() ==> in_window(#[trigger] b[j].0, now, w) && b[j].0 <= now,
    ensures
        b.len() <= w,
{
    let keys = b.map_values(|x: (u64, usize)| x.0 as int);
    assert(keys.no_duplicates()) by {
        assert forall|a: int, c: int| 0 <= a < keys.len() && 0 <= c < keys.len() && a != c implies keys[a]
            != keys[c] by {
            assert(b[a].0 != b[c].0);
        }
    }
    keys.unique_seq_to_set();
    let lo = now as int - w as int + 1;
    let range = vstd::set_lib::set_int_range(lo, now as int + 1);
    vstd::set_lib::lemma_int_range(lo, now as int + 1);
    assert(keys.to_set().subset_of(range)) by {
        assert forall|k: int| keys.to_set().contains(k) implies range.contains(k) by {
            assert(keys.contains(k));
            let j = choose|j: int| 0 <= j < keys.len() && keys[j] == k;
            assert(in_window(b[j].0, now, w) && b[j].0 <= now);
        }
    }
    vstd::set_lib::lemma_len_subset(keys.to_set(), range);
}

} // verus!
