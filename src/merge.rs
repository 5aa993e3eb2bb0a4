//! Path reconstruction: the observations of each target are ordered by TTL,
//! silent TTL positions are filled with synthetic unknown nodes, and the
//! resulting path is emitted as edges.

use std::collections::HashMap;
use vstd::prelude::*;
use crate::bucket::{entries_match, hops_of, GraphBucket};

verus! {

broadcast use vstd::std_specs::hash::group_hash_axioms;

/// Selects the observations made at TTL `k`.
pub open spec fn has_ttl(k: int) -> spec_fn((u64, u8)) -> bool {
    |e: (u64, u8)| e.1 == k
}

/// The observations made at TTL `k` and above, grouped by ascending TTL; each
/// group keeps the order of `s`.
pub open spec fn ttl_sort_from(s: Seq<(u64, u8)>, k: int) -> Seq<(u64, u8)>
    decreases 256 - k,
{
    if k >= 256 || k < 0 {
        Seq::empty()
    } else {
        s.filter(has_ttl(k)) + ttl_sort_from(s, k + 1)
    }
}

/// `s` sorted by ascending TTL, equal TTLs in their original order.
pub open spec fn ttl_sort(s: Seq<(u64, u8)>) -> Seq<(u64, u8)> {
    ttl_sort_from(s, 0)
}

/// The unknown node pinned to `prev` under the memo `memo`, with the memo and
/// the unknown counter after the lookup: the memoised node when there is one,
/// else the counter's value, which is then memoised and the counter moved down.
pub open spec fn unknown_after(memo: Map<i64, i64>, counter: i64, prev: i64) -> (i64, Map<i64, i64>, i64) {
    if memo.contains_key(prev) {
        (memo[prev], memo, counter)
    } else {
        (counter, memo.insert(prev, counter), (counter - 1) as i64)
    }
}

/// The gap edges emitted between `prev` at `prev_ttl` and an observation at
/// `cur_ttl`, with the node and state reached.
pub open spec fn gap_walk(prev: i64, prev_ttl: int, cur_ttl: int, memo: Map<i64, i64>, counter: i64) -> (
    Seq<(i64, i64)>,
    i64,
    Map<i64, i64>,
    i64,
)
    decreases cur_ttl - prev_ttl,
{
    if cur_ttl > prev_ttl + 1 {
        let (u, m1, c1) = unknown_after(memo, counter, prev);
        let (es, p, m2, c2) = gap_walk(u, prev_ttl + 1, cur_ttl, m1, c1);
        (seq![(prev, u)] + es, p, m2, c2)
    } else {
        (Seq::empty(), prev, memo, counter)
    }
}

/// The edges emitted for the sorted observations `hops` of one target, when
/// the walk stands at `prev` with TTL `prev_ttl`, with the memo and counter after.
pub open spec fn path_walk(hops: Seq<(u64, u8)>, prev: i64, prev_ttl: int, memo: Map<i64, i64>, counter: i64) -> (
    Seq<(i64, i64)>,
    Map<i64, i64>,
    i64,
)
    decreases hops.len(),
{
    if hops.len() == 0 {
        (Seq::empty(), memo, counter)
    } else {
        let (h, t) = hops[0];
        let (g, p, m1, c1) = gap_walk(prev, prev_ttl, t as int, memo, counter);
        let (rest, m2, c2) = path_walk(hops.drop_first(), h as i64, t as int, m1, c1);
        (g + seq![(p, h as i64)] + rest, m2, c2)
    }
}

/// The edges of the path of one target, from the prober (node 0 at TTL 0).
pub open spec fn target_path(hops: Seq<(u64, u8)>, memo: Map<i64, i64>, counter: i64) -> (
    Seq<(i64, i64)>,
    Map<i64, i64>,
    i64,
) {
    path_walk(ttl_sort(hops), 0, 0, memo, counter)
}

/// Every hop identifier fits the signed edge format.
pub open spec fn ids_fit(hops: Seq<(u64, u8)>) -> bool {
    forall|i: int| 0 <= i < hops.len() ==> #[trigger] hops[i].0 <= i64::MAX
}

/// Sorts observations by ascending TTL; observations with equal TTLs keep
/// their order.
pub fn sort_by_ttl(hops: &Vec<(u64, u8)>) -> (r: Vec<(u64, u8)>)
    ensures
        r@ == ttl_sort(hops@),
{
    let n = hops.len();
    let mut lo: u8 = 255;
    let mut hi: u8 = 0;
    let mut i: usize = 0;
    while i < n
        invariant
            n == hops@.len(),
            0 <= i <= n,
            forall|j: int| 0 <= j < i ==> lo <= #[trigger] hops@[j].1 <= hi,
            i == 0 ==> lo == 255 && hi == 0,
        decreases n - i,
    {
        if hops[i].1 < lo {
            lo = hops[i].1;
        }
        if hops[i].1 > hi {
            hi = hops[i].1;
        }
        i = i + 1;
    }
    if n == 0 {
        assert(ttl_sort(hops@) =~= Seq::<(u64, u8)>::empty()) by {
            lemma_sort_from_empty(hops@, 0);
        }
        return Vec::new();
    }
    proof {
        assert(lo <= hops@[0].1 <= hi);
        lemma_sort_from_below(hops@, 0, lo as int);
    }
    let mut r: Vec<(u64, u8)> = Vec::new();
    let mut k: u16 = lo as u16;
    while k <= hi as u16
        invariant
            n == hops@.len(),
            lo <= k <= hi as int + 1,
            hi < 256,
            forall|j: int| 0 <= j < n ==> lo <= #[trigger] hops@[j].1 <= hi,
            r@ + ttl_sort_from(hops@, k as int) == ttl_sort(hops@),
        decreases hi as int + 1 - k,
    {
        let mut j: usize = 0;
        let ghost base = r@;
        while j < n
            invariant
                n == hops@.len(),
                0 <= j <= n,
                k < 256,
                r@ == base + hops@.subrange(0, j as int).filter(has_ttl(k as int)),
            decreases n - j,
        {
            proof {
                assert(hops@.subrange(0, j as int + 1) =~= hops@.subrange(0, j as int).push(hops@[j as int]));
                hops@.subrange(0, j as int).lemma_filter_push(hops@[j as int], has_ttl(k as int));
            }
            if hops[j].1 as u16 == k {
                r.push(hops[j]);
            }
            j = j + 1;
        }
        proof {
            assert(hops@.subrange(0, n as int) =~= hops@);
            assert(ttl_sort_from(hops@, k as int) == hops@.filter(has_ttl(k as int)) + ttl_sort_from(hops@, k as int + 1));
            assert(r@ + ttl_sort_from(hops@, k as int + 1) =~= base + ttl_sort_from(hops@, k as int));
        }
        k = k + 1;
    }
    proof {
        lemma_sort_from_above(hops@, k as int, hi as int);
        assert(r@ =~= ttl_sort(hops@));
    }
    r
}

proof fn lemma_sort_from_empty(s: Seq<(u64, u8)>, k: int)
    requires
        s.len() == 0,
    ensures
        ttl_sort_from(s, k) =~= Seq::<(u64, u8)>::empty(),
    decreases 256 - k,
{
    if 0 <= k < 256 {
        s.lemma_all_neg_filter_empty(has_ttl(k));
        lemma_sort_from_empty(s, k + 1);
    }
}

/// No group below the smallest TTL holds anything.
proof fn lemma_sort_from_below(s: Seq<(u64, u8)>, k: int, lo: int)
    requires
        0 <= k <= lo < 256,
        forall|j: int| 0 <= j < s.len() ==> lo <= #[trigger] s[j].1,
    ensures
        ttl_sort_from(s, k) == ttl_sort_from(s, lo),
    decreases lo - k,
{
    if k < lo {
        assert(s.all(|x: (u64, u8)| !has_ttl(k)(x))) by {
            assert forall|j: int| 0 <= j < s.len() implies !has_ttl(k)(#[trigger] s[j]) by {}
        }
        s.lemma_all_neg_filter_empty(has_ttl(k));
        lemma_sort_from_below(s, k + 1, lo);
        assert(ttl_sort_from(s, k) =~= ttl_sort_from(s, k + 1));
    }
}

/// No group above the largest TTL holds anything.
proof fn lemma_sort_from_above(s: Seq<(u64, u8)>, k: int, hi: int)
    requires
        hi < k,
        forall|j: int| 0 <= j < s.len() ==> #[trigger] s[j].1 <= hi,
    ensures
        ttl_sort_from(s, k) =~= Seq::<(u64, u8)>::empty(),
    decreases 256 - k,
{
    if 0 <= k < 256 {
        assert(s.all(|x: (u64, u8)| !has_ttl(k)(x))) by {
            assert forall|j: int| 0 <= j < s.len() implies !has_ttl(k)(#[trigger] s[j]) by {}
        }
        s.lemma_all_neg_filter_empty(has_ttl(k));
        lemma_sort_from_above(s, k + 1, hi);
    }
}

/// Some predecessor has `v` pinned to it.
pub open spec fn is_allocated(memo: Map<i64, i64>, v: i64) -> bool {
    exists|p: i64| #[trigger] memo.contains_key(p) && memo[p] == v
}

/// Pinned unknown nodes and the unknown counter, sound when: the counter is
/// negative, the memoised nodes are exactly `counter + 1 ..= -1`, each pinned
/// to one predecessor, and every emitted edge into an unknown node leaves the
/// node it is pinned to.
pub open spec fn memo_wf(memo: Map<i64, i64>, counter: i64, emitted: Seq<(i64, i64)>) -> bool {
    &&& counter <= -1
    &&& forall|p: i64| #[trigger] memo.contains_key(p) ==> counter < memo[p] <= -1
    &&& forall|v: i64| counter < v <= -1 ==> #[trigger] is_allocated(memo, v)
    &&& forall|a: i64, b: i64|
        #[trigger] memo.contains_key(a) && #[trigger] memo.contains_key(b) && a != b ==> memo[a] != memo[b]
    &&& forall|i: int|
        0 <= i < emitted.len() && (#[trigger] emitted[i]).1 < 0 ==> memo.contains_key(emitted[i].0)
            && memo[emitted[i].0] == emitted[i].1
}

/// Rebuilds paths from merged shards, pinning each unknown node to the node
/// that precedes it.
pub struct MergeProcessor {
    missing_node_counter: i64,
    missing_node_memory: HashMap<i64, i64>,
    emitted: Ghost<Seq<(i64, i64)>>,
}

impl MergeProcessor {
    /// The unknown node pinned to each predecessor so far.
    pub closed spec fn spec_memo(&self) -> Map<i64, i64> {
        self.missing_node_memory@
    }

    /// The identifier the next unknown node receives.
    pub closed spec fn spec_counter(&self) -> i64 {
        self.missing_node_counter
    }

    /// Every edge emitted so far, in order.
    pub closed spec fn spec_emitted(&self) -> Seq<(i64, i64)> {
        self.emitted@
    }

    pub closed spec fn wf(&self) -> bool {
        memo_wf(self.missing_node_memory@, self.missing_node_counter, self.emitted@)
    }

    pub fn new() -> (r: MergeProcessor)
        ensures
            r.wf(),
            r.spec_counter() == -1,
            r.spec_memo() == Map::<i64, i64>::empty(),
            r.spec_emitted() == Seq::<(i64, i64)>::empty(),
    {
        MergeProcessor {
            missing_node_counter: -1,
            missing_node_memory: HashMap::new(),
            emitted: Ghost(Seq::empty()),
        }
    }

    /// The unknown node pinned to `prev`, allocated on first demand.
    fn pinned_unknown(&mut self, prev: i64) -> (r: i64)
        requires
            old(self).wf(),
            old(self).missing_node_counter > i64::MIN,
        ensures
            (r, final(self).spec_memo(), final(self).spec_counter()) == unknown_after(
                old(self).spec_memo(),
                old(self).spec_counter(),
                prev,
            ),
            memo_wf(final(self).spec_memo(), final(self).spec_counter(), old(self).spec_emitted().push((prev, r))),
            final(self).emitted == old(self).emitted,
            r < 0,
    {
        let ghost e = self.emitted@.push((prev, 0));
        match self.missing_node_memory.get(&prev) {
            Some(u) => {
                let u = *u;
                proof {
                    let e = old(self).emitted@.push((prev, u));
                    assert forall|i: int| 0 <= i < e.len() && (#[trigger] e[i]).1 < 0 implies
                        self.missing_node_memory@.contains_key(e[i].0) && self.missing_node_memory@[e[i].0] == e[i].1 by {
                        if i < old(self).emitted@.len() {
                            assert(e[i] == old(self).emitted@[i]);
                        }
                    }
                }
                u
            },
            None => {
                let u = self.missing_node_counter;
                self.missing_node_memory.insert(prev, u);
                self.missing_node_counter = u - 1;
                proof {
                    let m0 = old(self).missing_node_memory@;
                    let m = self.missing_node_memory@;
                    assert forall|v: i64| self.missing_node_counter < v <= -1 implies #[trigger] is_allocated(m, v) by {
                        if v == u {
                            assert(m.contains_key(prev) && m[prev] == v);
                        } else {
                            assert(is_allocated(m0, v));
                            let p = choose|p: i64| #[trigger] m0.contains_key(p) && m0[p] == v;
                            assert(p != prev);
                            assert(m.contains_key(p) && m[p] == v);
                        }
                    }
                    assert forall|a: i64, b: i64|
                        #[trigger] m.contains_key(a) && #[trigger] m.contains_key(b) && a != b implies m[a] != m[b] by {
                        if a != prev && b != prev {
                            assert(m0.contains_key(a) && m0.contains_key(b));
                        } else if a == prev {
                            assert(m0.contains_key(b));
                        } else {
                            assert(m0.contains_key(a));
                        }
                    }
                    let e = old(self).emitted@.push((prev, u));
                    assert forall|i: int| 0 <= i < e.len() && (#[trigger] e[i]).1 < 0 implies
                        m.contains_key(e[i].0) && m[e[i].0] == e[i].1 by {
                        if i < old(self).emitted@.len() {
                            assert(e[i] == old(self).emitted@[i]);
                            assert(m0.contains_key(e[i].0));
                            if e[i].0 == prev {
                                assert(false);
                            }
                        }
                    }
                }
                u
            },
        }
    }

    /// Emits the path through the observations `hops`, taken in the given
    /// order, starting at `start` with TTL 0; the unknown node pinned to the
    /// current node is inserted for every silent TTL position.
    pub fn process_path(&mut self, start: i64, hops: &Vec<(u64, u8)>) -> (r: Vec<(i64, i64)>)
        requires
            old(self).wf(),
            ids_fit(hops@),
            old(self).spec_counter() >= i64::MIN + 256 * (hops@.len() + 1),
        ensures
            final(self).wf(),
            (r@, final(self).spec_memo(), final(self).spec_counter()) == path_walk(
                hops@,
                start,
                0,
                old(self).spec_memo(),
                old(self).spec_counter(),
            ),
            final(self).spec_emitted() == old(self).spec_emitted() + r@,
            final(self).spec_counter() >= old(self).spec_counter() - 256 * hops@.len(),
    {
        let sorted = hops;
        let n = sorted.len();
        let ghost m0 = self.missing_node_memory@;
        let ghost c0 = self.missing_node_counter;
        let ghost e0 = self.emitted@;
        let mut out: Vec<(i64, i64)> = Vec::new();
        let mut prev: i64 = start;
        let mut prev_ttl: u8 = 0;
        let mut i: usize = 0;
        proof {
            assert(sorted@.subrange(0, n as int) =~= sorted@);
        }
        while i < n
            invariant
                n == sorted@.len(),
                0 <= i <= n,
                sorted@ == hops@,
                ids_fit(sorted@),
                self.wf(),
                self.emitted@ == e0 + out@,
                self.missing_node_counter >= c0 - 256 * i,
                c0 >= i64::MIN + 256 * (n + 1),
                n == hops@.len(),
                ({
                    let (rest, mf, cf) = path_walk(sorted@.subrange(i as int, n as int), prev, prev_ttl as int, self.missing_node_memory@, self.missing_node_counter);
                    (out@ + rest, mf, cf) == path_walk(sorted@, start, 0, m0, c0)
                }),
            decreases n - i,
        {
            let (cur, cur_ttl) = sorted[i];
            let ghost tail = sorted@.subrange(i as int, n as int);
            let ghost g_prev = prev;
            let ghost g_pt = prev_ttl as int;
            let ghost g_m = self.missing_node_memory@;
            let ghost g_c = self.missing_node_counter;
            let ghost g_out = out@;
            let ghost c_start = self.missing_node_counter;
            proof {
                assert(tail[0] == (cur, cur_ttl));
                assert(tail.drop_first() =~= sorted@.subrange(i as int + 1, n as int));
            }
            let mut pt: u16 = prev_ttl as u16;
            while (cur_ttl as u16) > pt + 1
                invariant
                    self.wf(),
                    pt < 256,
                    0 <= g_pt <= pt,
                    self.emitted@ == e0 + out@,
                    self.missing_node_counter >= c_start - (pt - g_pt),
                    c_start >= c0 - 256 * i,
                    c0 >= i64::MIN + 256 * (n + 1),
                    i < n,
                    ({
                        let (ga, pa, ma, ca) = gap_walk(g_prev, g_pt, cur_ttl as int, g_m, g_c);
                        let (gb, pb, mb, cb) = gap_walk(prev, pt as int, cur_ttl as int, self.missing_node_memory@, self.missing_node_counter);
                        ga == out@.subrange(g_out.len() as int, out@.len() as int) + gb && pa == pb && ma == mb && ca == cb
                    }),
                    g_out.len() <= out@.len(),
                    out@.subrange(0, g_out.len() as int) == g_out,
                decreases cur_ttl as int - pt,
            {
                let ghost before = out@;
                let u = self.pinned_unknown(prev);
                out.push((prev, u));
                proof {
                    self.emitted@ = self.emitted@.push((prev, u));
                    assert(e0 + out@ =~= (e0 + before).push((prev, u)));
                    assert(out@.subrange(g_out.len() as int, out@.len() as int) =~= before.subrange(g_out.len() as int, before.len() as int).push((prev, u)));
                    assert(out@.subrange(0, g_out.len() as int) =~= before.subrange(0, g_out.len() as int));
                    let (gb, pb, mb, cb) = gap_walk(u, pt as int + 1, cur_ttl as int, self.missing_node_memory@, self.missing_node_counter);
                    assert(seq![(prev, u)] + gb =~= seq![(prev, u)] + gb);
                    assert(before.subrange(g_out.len() as int, before.len() as int) + (seq![(prev, u)] + gb) =~= out@.subrange(g_out.len() as int, out@.len() as int) + gb);
                }
                prev = u;
                pt = pt + 1;
            }
            let h = cur as i64;
            let ghost before_push = out@;
            out.push((prev, h));
            proof {
                assert(out@.drop_last() =~= before_push);
                self.emitted@ = self.emitted@.push((prev, h));
                assert(e0 + out@ =~= self.emitted@);
                let e = self.emitted@;
                let m = self.missing_node_memory@;
                assert(h >= 0) by {
                    assert(sorted@[i as int].0 <= i64::MAX);
                }
                assert forall|j: int| 0 <= j < e.len() && (#[trigger] e[j]).1 < 0 implies
                    m.contains_key(e[j].0) && m[e[j].0] == e[j].1 by {
                    if j < e.len() - 1 {
                        assert(e[j] == e.drop_last()[j]);
                    }
                }
                let (gb, pb, mb, cb) = gap_walk(g_prev, g_pt, cur_ttl as int, g_m, g_c);
                assert(gb =~= out@.subrange(g_out.len() as int, out@.len() - 1));
                let (rest, mf, cf) = path_walk(sorted@.subrange(i as int + 1, n as int), h, cur_ttl as int, m, self.missing_node_counter);
                assert(out@ =~= g_out + gb + seq![(prev, h)]);
                assert(out@ + rest =~= g_out + (gb + seq![(prev, h)] + rest));
            }
            prev = h;
            prev_ttl = cur_ttl;
            i = i + 1;
        }
        proof {
            assert(sorted@.subrange(n as int, n as int) =~= Seq::<(u64, u8)>::empty());
            assert(out@ + Seq::<(i64, i64)>::empty() =~= out@);
        }
        out
    }

    /// Emits the path of one target from its observations: sorted by TTL,
    /// starting at the prober (node 0, TTL 0), with the unknown node pinned to
    /// the current node inserted for every silent TTL position.
    pub fn process_target(&mut self, hops: &Vec<(u64, u8)>) -> (r: Vec<(i64, i64)>)
        requires
            old(self).wf(),
            ids_fit(hops@),
            old(self).spec_counter() >= i64::MIN + 256 * (256 * hops@.len() + 1),
        ensures
            final(self).wf(),
            (r@, final(self).spec_memo(), final(self).spec_counter()) == target_path(
                hops@,
                old(self).spec_memo(),
                old(self).spec_counter(),
            ),
            final(self).spec_emitted() == old(self).spec_emitted() + r@,
            final(self).spec_counter() >= old(self).spec_counter() - 256 * 256 * hops@.len(),
    {
        let sorted = sort_by_ttl(hops);
        proof {
            lemma_sorted_ids_fit(hops@);
            lemma_sort_from_len(hops@, 0);
            let l = hops@.len();
            let n = sorted@.len();
            assert(256 * n <= 256 * 256 * l) by (nonlinear_arith) requires n <= 256 * l;
        }
        self.process_path(0, &sorted)
    }

    /// The magnitude of the lowest unknown identifier allocated so far.
    pub fn max_unknown_node(&self) -> (r: usize)
        requires
            self.wf(),
            -(self.spec_counter() + 1) <= usize::MAX,
        ensures
            r == -(self.spec_counter() + 1),
            forall|p: i64| #[trigger] self.spec_memo().contains_key(p) ==> -(r as int) <= self.spec_memo()[p],
            r > 0 ==> is_allocated(self.spec_memo(), -(r as int) as i64),
    {
        proof {
            if self.missing_node_counter < -1 {
                assert(is_allocated(self.missing_node_memory@, (self.missing_node_counter + 1) as i64));
            }
        }
        (-(self.missing_node_counter as i128 + 1)) as usize
    }
}

proof fn lemma_filter_ids_fit(s: Seq<(u64, u8)>, p: spec_fn((u64, u8)) -> bool)
    requires
        ids_fit(s),
    ensures
        ids_fit(s.filter(p)),
    decreases s.len(),
{
    reveal(Seq::filter);
    if s.len() > 0 {
        assert(ids_fit(s.drop_last())) by {
            assert forall|i: int| 0 <= i < s.drop_last().len() implies #[trigger] s.drop_last()[i].0 <= i64::MAX by {
                assert(s.drop_last()[i] == s[i]);
            }
        }
        lemma_filter_ids_fit(s.drop_last(), p);
        let f = s.drop_last().filter(p);
        if p(s.last()) {
            assert forall|i: int| 0 <= i < f.push(s.last()).len() implies #[trigger] f.push(s.last())[i].0 <= i64::MAX by {
                if i < f.len() {
                    assert(f.push(s.last())[i] == f[i]);
                }
            }
        }
    }
}

proof fn lemma_sort_from_ids_fit(s: Seq<(u64, u8)>, k: int)
    requires
        ids_fit(s),
    ensures
        ids_fit(ttl_sort_from(s, k)),
    decreases 256 - k,
{
    if 0 <= k < 256 {
        lemma_filter_ids_fit(s, has_ttl(k));
        lemma_sort_from_ids_fit(s, k + 1);
        let a = s.filter(has_ttl(k));
        let b = ttl_sort_from(s, k + 1);
        assert forall|i: int| 0 <= i < (a + b).len() implies #[trigger] (a + b)[i].0 <= i64::MAX by {
            if i < a.len() {
                assert((a + b)[i] == a[i]);
            } else {
                assert((a + b)[i] == b[i - a.len()]);
            }
        }
    }
}

proof fn lemma_sort_from_len(s: Seq<(u64, u8)>, k: int)
    requires
        0 <= k <= 256,
    ensures
        ttl_sort_from(s, k).len() <= (256 - k) * s.len(),
    decreases 256 - k,
{
    if k < 256 {
        s.filter_lemma(has_ttl(k));
        lemma_sort_from_len(s, k + 1);
        let l = s.len() as int;
        let f = s.filter(has_ttl(k)).len() as int;
        let r = ttl_sort_from(s, k + 1).len() as int;
        assert(ttl_sort_from(s, k).len() == f + r);
        assert(f + r <= (256 - k) * l) by (nonlinear_arith)
            requires
                f <= l,
                r <= (256 - (k + 1)) * l,
        ;
    } else {
        assert(ttl_sort_from(s, k).len() == 0);
    }
}

proof fn lemma_sorted_ids_fit(hops: Seq<(u64, u8)>)
    requires
        ids_fit(hops),
    ensures
        ids_fit(ttl_sort(hops)),
{
    lemma_sort_from_ids_fit(hops, 0);
}

/// Consecutive edges of `es` share their middle node, and the first edge
/// leaves `start`.
pub open spec fn is_chain(es: Seq<(i64, i64)>, start: i64) -> bool {
    &&& es.len() > 0 ==> es[0].0 == start
    &&& forall|i: int| 0 <= i < es.len() - 1 ==> (#[trigger] es[i]).1 == es[i + 1].0
}

/// TTLs strictly ascend and all lie above `floor`.
pub open spec fn ttls_ascend_above(hops: Seq<(u64, u8)>, floor: int) -> bool {
    &&& forall|i: int, j: int| 0 <= i < j < hops.len() ==> hops[i].1 < hops[j].1
    &&& forall|i: int| 0 <= i < hops.len() ==> floor < #[trigger] hops[i].1
}

proof fn lemma_gap_chain(prev: i64, pt: int, t: int, memo: Map<i64, i64>, counter: i64)
    requires
        pt < t,
    ensures
        ({
            let (g, p, m, c) = gap_walk(prev, pt, t, memo, counter);
            &&& g.len() == t - pt - 1
            &&& is_chain(g, prev)
            &&& g.len() > 0 ==> g.last().1 == p
            &&& g.len() == 0 ==> p == prev
        }),
    decreases t - pt,
{
    if t > pt + 1 {
        let (u, m1, c1) = unknown_after(memo, counter, prev);
        lemma_gap_chain(u, pt + 1, t, m1, c1);
        let (es, p, m2, c2) = gap_walk(u, pt + 1, t, m1, c1);
        let g = seq![(prev, u)] + es;
        assert forall|i: int| 0 <= i < g.len() - 1 implies (#[trigger] g[i]).1 == g[i + 1].0 by {
            if i > 0 {
                assert(g[i] == es[i - 1] && g[i + 1] == es[i]);
            }
        }
    }
}

/// Along the walk over TTL-ascending observations, every step advances the
/// TTL by exactly one: the emitted edges form one chain from the starting
/// node, with one edge per TTL step, and the observation at TTL `t` is the
/// node reached after `t - prev_ttl` steps.
pub proof fn lemma_path_contiguous(
    hops: Seq<(u64, u8)>,
    prev: i64,
    prev_ttl: int,
    memo: Map<i64, i64>,
    counter: i64,
)
    requires
        ttls_ascend_above(hops, prev_ttl),
    ensures
        ({
            let es = path_walk(hops, prev, prev_ttl, memo, counter).0;
            &&& is_chain(es, prev)
            &&& es.len() == if hops.len() == 0 { 0 } else { hops.last().1 - prev_ttl }
            &&& forall|i: int| 0 <= i < hops.len() ==> es[#[trigger] hops[i].1 - prev_ttl - 1].1 == hops[i].0 as i64
        }),
    decreases hops.len(),
{
    if hops.len() > 0 {
        let (h, t) = hops[0];
        lemma_gap_chain(prev, prev_ttl, t as int, memo, counter);
        let (g, p, m1, c1) = gap_walk(prev, prev_ttl, t as int, memo, counter);
        let tail = hops.drop_first();
        assert(ttls_ascend_above(tail, t as int)) by {
            assert forall|i: int| 0 <= i < tail.len() implies t < #[trigger] tail[i].1 by {
                assert(tail[i] == hops[i + 1]);
            }
            assert forall|i: int, j: int| 0 <= i < j < tail.len() implies tail[i].1 < tail[j].1 by {
                assert(tail[i] == hops[i + 1] && tail[j] == hops[j + 1]);
            }
        }
        lemma_path_contiguous(tail, h as i64, t as int, m1, c1);
        let rest = path_walk(tail, h as i64, t as int, m1, c1).0;
        let head = g + seq![(p, h as i64)];
        let es = head + rest;
        assert(es == path_walk(hops, prev, prev_ttl, memo, counter).0);
        assert(head.len() == t - prev_ttl);
        assert forall|i: int| 0 <= i < es.len() - 1 implies (#[trigger] es[i]).1 == es[i + 1].0 by {
            if i < g.len() - 1 {
                assert(es[i] == g[i] && es[i + 1] == g[i + 1]);
            } else if i == g.len() - 1 {
                assert(es[i] == g[i] && es[i + 1] == (p, h as i64));
            } else if i == g.len() {
                assert(es[i] == (p, h as i64));
                assert(es[i + 1] == rest[0]);
            } else {
                assert(es[i] == rest[i - head.len()] && es[i + 1] == rest[i + 1 - head.len()]);
            }
        }
        if hops.len() > 1 {
            assert(tail.last() == hops.last());
        }
        assert forall|i: int| 0 <= i < hops.len() implies es[#[trigger] hops[i].1 - prev_ttl - 1].1 == hops[i].0 as i64 by {
            if i == 0 {
                assert(es[t - prev_ttl - 1] == head[t - prev_ttl - 1]);
            } else {
                assert(hops[i] == tail[i - 1]);
                assert(hops[i].1 > t);
                assert(es[hops[i].1 - prev_ttl - 1] == rest[tail[i - 1].1 - t - 1]);
            }
        }
    }
}

/// An unknown node has at most one predecessor: any two emitted edges that
/// enter the same unknown node leave the same node.
pub proof fn lemma_unknown_single_predecessor(p: &MergeProcessor, i: int, j: int)
    requires
        p.wf(),
        0 <= i < p.spec_emitted().len(),
        0 <= j < p.spec_emitted().len(),
        p.spec_emitted()[i].1 == p.spec_emitted()[j].1,
        p.spec_emitted()[i].1 < 0,
    ensures
        p.spec_emitted()[i].0 == p.spec_emitted()[j].0,
{
    let e = p.spec_emitted();
    let m = p.spec_memo();
    assert(m.contains_key(e[i].0) && m[e[i].0] == e[i].1);
    assert(m.contains_key(e[j].0) && m[e[j].0] == e[j].1);
}

/// The union of shard entries `es` into the state `st` (hop lists by target,
/// and targets in first-seen order): lists of the same target are concatenated.
pub open spec fn merge_entries(st: (Map<u64, Seq<(u64, u8)>>, Seq<u64>), es: Seq<(u64, Vec<(u64, u8)>)>) -> (
    Map<u64, Seq<(u64, u8)>>,
    Seq<u64>,
)
    decreases es.len(),
{
    if es.len() == 0 {
        st
    } else {
        let st1 = merge_entries(st, es.drop_last());
        let (t, l) = es.last();
        (
            st1.0.insert(t, hops_of(st1.0, t) + l@),
            if st1.0.contains_key(t) {
                st1.1
            } else {
                st1.1.push(t)
            },
        )
    }
}

/// The union of all shards of one bucket key, in shard order.
pub open spec fn merge_shards(shards: Seq<Vec<(u64, Vec<(u64, u8)>)>>) -> (Map<u64, Seq<(u64, u8)>>, Seq<u64>)
    decreases shards.len(),
{
    if shards.len() == 0 {
        (Map::empty(), Seq::empty())
    } else {
        merge_entries(merge_shards(shards.drop_last()), shards.last()@)
    }
}

/// The edges emitted for the targets `order` of the merged lists `m`, one
/// path after another, with the memo and counter after.
pub open spec fn bucket_walk(m: Map<u64, Seq<(u64, u8)>>, order: Seq<u64>, memo: Map<i64, i64>, counter: i64) -> (
    Seq<(i64, i64)>,
    Map<i64, i64>,
    i64,
)
    decreases order.len(),
{
    if order.len() == 0 {
        (Seq::empty(), memo, counter)
    } else {
        let (es, m1, c1) = target_path(m[order[0]], memo, counter);
        let (rest, m2, c2) = bucket_walk(m, order.drop_first(), m1, c1);
        (es + rest, m2, c2)
    }
}

/// The number of observations of the targets `order`.
pub open spec fn hop_total(m: Map<u64, Seq<(u64, u8)>>, order: Seq<u64>) -> int
    decreases order.len(),
{
    if order.len() == 0 {
        0
    } else {
        m[order[0]].len() + 1 + hop_total(m, order.drop_first())
    }
}

proof fn lemma_hop_total_nonneg(m: Map<u64, Seq<(u64, u8)>>, order: Seq<u64>)
    ensures
        hop_total(m, order) >= 0,
    decreases order.len(),
{
    if order.len() > 0 {
        lemma_hop_total_nonneg(m, order.drop_first());
    }
}

fn copy_hops(v: &Vec<(u64, u8)>) -> (r: Vec<(u64, u8)>)
    ensures
        r@ == v@,
{
    let mut r: Vec<(u64, u8)> = Vec::new();
    let mut i: usize = 0;
    while i < v.len()
        invariant
            0 <= i <= v@.len(),
            r@ == v@.subrange(0, i as int),
        decreases v@.len() - i,
    {
        r.push(v[i]);
        proof {
            assert(v@.subrange(0, i as int + 1) =~= v@.subrange(0, i as int).push(v@[i as int]));
        }
        i = i + 1;
    }
    proof {
        assert(v@.subrange(0, v@.len() as int) =~= v@);
    }
    r
}

/// Unions the shards of one bucket key: the lists of a target are
/// concatenated in shard order.
pub fn merge_edge_maps(shards: &Vec<Vec<(u64, Vec<(u64, u8)>)>>) -> (r: GraphBucket)
    ensures
        r.wf(),
        (r@, r.spec_targets()) == merge_shards(shards@),
{
    let mut merged = GraphBucket::new(String::new());
    let mut i: usize = 0;
    while i < shards.len()
        invariant
            0 <= i <= shards@.len(),
            merged.wf(),
            (merged@, merged.spec_targets()) == merge_shards(shards@.subrange(0, i as int)),
        decreases shards@.len() - i,
    {
        let shard = &shards[i];
        let ghost before = (merged@, merged.spec_targets());
        let mut j: usize = 0;
        while j < shard.len()
            invariant
                0 <= j <= shard@.len(),
                merged.wf(),
                (merged@, merged.spec_targets()) == merge_entries(before, shard@.subrange(0, j as int)),
            decreases shard@.len() - j,
        {
            let entry = &shard[j];
            let hops = copy_hops(&entry.1);
            proof {
                assert(shard@.subrange(0, j as int + 1).drop_last() =~= shard@.subrange(0, j as int));
            }
            merged.push_hops(entry.0, hops);
            j = j + 1;
        }
        proof {
            assert(shard@.subrange(0, shard@.len() as int) =~= shard@);
            assert(shards@.subrange(0, i as int + 1).drop_last() =~= shards@.subrange(0, i as int));
        }
        i = i + 1;
    }
    proof {
        assert(shards@.subrange(0, shards@.len() as int) =~= shards@);
    }
    merged
}

impl MergeProcessor {
    /// Unions the shards of one bucket key and emits the path of every target,
    /// targets in first-seen order.
    pub fn process_bucket(&mut self, shards: &Vec<Vec<(u64, Vec<(u64, u8)>)>>) -> (r: Vec<(i64, i64)>)
        requires
            old(self).wf(),
            forall|t: u64| #[trigger] merge_shards(shards@).0.contains_key(t) ==> ids_fit(merge_shards(shards@).0[t]),
            old(self).spec_counter() >= i64::MIN + 65536 * hop_total(merge_shards(shards@).0, merge_shards(shards@).1),
        ensures
            final(self).wf(),
            (r@, final(self).spec_memo(), final(self).spec_counter()) == bucket_walk(
                merge_shards(shards@).0,
                merge_shards(shards@).1,
                old(self).spec_memo(),
                old(self).spec_counter(),
            ),
            final(self).spec_emitted() == old(self).spec_emitted() + r@,
    {
        let merged = merge_edge_maps(shards);
        let ghost m = merged@;
        let ghost order = merged.spec_targets();
        proof {
            merged.lemma_targets_are_keys();
        }
        let entries = merged.edge_map();
        let ghost m0 = self.missing_node_memory@;
        let ghost c0 = self.missing_node_counter;
        let ghost e0 = self.emitted@;
        let mut out: Vec<(i64, i64)> = Vec::new();
        let mut i: usize = 0;
        proof {
            assert(order.subrange(0, order.len() as int) =~= order);
        }
        while i < entries.len()
            invariant
                0 <= i <= entries@.len(),
                entries@.len() == order.len(),
                forall|j: int| 0 <= j < entries@.len() ==> (#[trigger] entries@[j]).0 == order[j] && entries@[j].1@ == m[entries@[j].0],
                forall|j: int| 0 <= j < order.len() ==> m.contains_key(#[trigger] order[j]),
                forall|t: u64| #[trigger] m.contains_key(t) ==> ids_fit(m[t]),
                self.wf(),
                self.emitted@ == e0 + out@,
                self.missing_node_counter >= i64::MIN + 65536 * hop_total(m, order.subrange(i as int, order.len() as int)),
                ({
                    let (rest, mf, cf) = bucket_walk(m, order.subrange(i as int, order.len() as int), self.missing_node_memory@, self.missing_node_counter);
                    (out@ + rest, mf, cf) == bucket_walk(m, order, m0, c0)
                }),
            decreases entries@.len() - i,
        {
            let hops = &entries[i].1;
            let ghost tail = order.subrange(i as int, order.len() as int);
            proof {
                assert(tail[0] == order[i as int]);
                assert(tail.drop_first() =~= order.subrange(i as int + 1, order.len() as int));
                assert(m.contains_key(order[i as int]));
                lemma_hop_total_nonneg(m, tail.drop_first());
                assert(hop_total(m, tail) == m[order[i as int]].len() + 1 + hop_total(m, tail.drop_first()));
            }
            let ghost before = out@;
            let ghost mid_memo = self.missing_node_memory@;
            let ghost mid_c = self.missing_node_counter;
            let es = self.process_target(hops);
            proof {
                let l = hops@.len() as int;
                let h = hop_total(m, tail.drop_first());
                assert(mid_c - 256 * 256 * l >= i64::MIN + 65536 * h) by (nonlinear_arith)
                    requires
                        mid_c >= i64::MIN + 65536 * (l + 1 + h),
                ;
            }
            let mut es = es;
            out.append(&mut es);
            proof {
                let (p_es, m1, c1) = target_path(m[order[i as int]], mid_memo, mid_c);
                let (rest, m2, c2) = bucket_walk(m, tail.drop_first(), m1, c1);
                assert(out@ =~= before + p_es);
                assert(out@ + rest =~= before + (p_es + rest));
                assert(e0 + out@ =~= (e0 + before) + p_es);
            }
            i = i + 1;
        }
        proof {
            assert(order.subrange(order.len() as int, order.len() as int) =~= Seq::<u64>::empty());
            assert(out@ + Seq::<(i64, i64)>::empty() =~= out@);
        }
        out
    }
}

/// The highest identifier in an index given as `(address, identifier)`
/// entries; 0 for an empty index.
pub fn max_known_node_id(index: &Vec<(u128, u64)>) -> (r: u64)
    ensures
        forall|i: int| 0 <= i < index@.len() ==> (#[trigger] index@[i]).1 <= r,
        r == 0 || exists|i: int| 0 <= i < index@.len() && (#[trigger] index@[i]).1 == r,
{
    let mut max_node_id: u64 = 0;
    let mut i: usize = 0;
    while i < index.len()
        invariant
            0 <= i <= index@.len(),
            forall|j: int| 0 <= j < i ==> (#[trigger] index@[j]).1 <= max_node_id,
            max_node_id == 0 || exists|j: int| 0 <= j < i && (#[trigger] index@[j]).1 == max_node_id,
        decreases index@.len() - i,
    {
        if index[i].1 > max_node_id {
            max_node_id = index[i].1;
        }
        i = i + 1;
    }
    max_node_id
}

/// Appending an observation whose TTL exceeds all others appends it to the
/// groups from its TTL on.
proof fn lemma_sort_from_push(p: Seq<(u64, u8)>, x: (u64, u8), k: int)
    requires
        forall|i: int| 0 <= i < p.len() ==> #[trigger] p[i].1 < x.1,
        0 <= k,
    ensures
        ttl_sort_from(p.push(x), k) == if k <= x.1 { ttl_sort_from(p, k).push(x) } else { ttl_sort_from(p, k) },
    decreases 256 - k,
{
    let s = p.push(x);
    if k < 256 {
        p.lemma_filter_push(x, has_ttl(k));
        lemma_sort_from_push(p, x, k + 1);
        if k == x.1 {
            assert(p.all(|e: (u64, u8)| !has_ttl(k)(e))) by {
                assert forall|i: int| 0 <= i < p.len() implies !has_ttl(k)(#[trigger] p[i]) by {}
            }
            p.lemma_all_neg_filter_empty(has_ttl(k));
            lemma_sort_from_above(p, k + 1, x.1 as int);
            assert(ttl_sort_from(s, k) =~= ttl_sort_from(p, k).push(x));
        } else if k < x.1 {
            assert(ttl_sort_from(s, k) =~= ttl_sort_from(p, k).push(x));
        } else {
            assert(ttl_sort_from(s, k) =~= ttl_sort_from(p, k));
        }
    }
}

/// TTLs strictly ascend along `s`.
pub open spec fn strictly_ascending(s: Seq<(u64, u8)>) -> bool {
    forall|i: int, j: int| 0 <= i < j < s.len() ==> #[trigger] s[i].1 < #[trigger] s[j].1
}

proof fn lemma_ascending_split(s: Seq<(u64, u8)>)
    requires
        strictly_ascending(s),
        s.len() > 0,
    ensures
        strictly_ascending(s.drop_last()),
        forall|i: int| 0 <= i < s.drop_last().len() ==> #[trigger] s.drop_last()[i].1 < s.last().1,
{
    let p = s.drop_last();
    assert forall|i: int, j: int| 0 <= i < j < p.len() implies #[trigger] p[i].1 < #[trigger] p[j].1 by {
        assert(p[i] == s[i] && p[j] == s[j]);
    }
    assert forall|i: int| 0 <= i < p.len() implies #[trigger] p[i].1 < s.last().1 by {
        assert(p[i] == s[i]);
        assert(s[i].1 < s[s.len() - 1].1);
    }
}

/// Observations already in strictly ascending TTL order are left as they are.
#[verifier::spinoff_prover]
#[verifier::rlimit(100)]
proof fn lemma_sort_of_ascending(s: Seq<(u64, u8)>)
    requires
        strictly_ascending(s),
    ensures
        ttl_sort(s) == s,
    decreases s.len(),
{
    if s.len() == 0 {
        lemma_sort_from_empty(s, 0);
    } else {
        let p = s.drop_last();
        let x = s.last();
        lemma_ascending_split(s);
        lemma_sort_of_ascending(p);
        lemma_sort_from_push(p, x, 0);
        assert(s == p.push(x)) by {
            assert(s =~= p.push(x));
        }
        assert(ttl_sort(s) == ttl_sort_from(p, 0).push(x));
    }
}

/// The path of a target whose observations have distinct TTLs from 1 up,
/// given in ascending order, is TTL-contiguous: one chain of edges from the
/// prober, one edge per TTL step up to the last observation, with the
/// observation at TTL `t` reached after `t` steps.
pub proof fn lemma_target_path_contiguous(hops: Seq<(u64, u8)>, memo: Map<i64, i64>, counter: i64)
    requires
        ttls_ascend_above(hops, 0),
    ensures
        ({
            let es = target_path(hops, memo, counter).0;
            &&& is_chain(es, 0)
            &&& es.len() == if hops.len() == 0 { 0 } else { hops.last().1 as int }
            &&& forall|i: int| 0 <= i < hops.len() ==> es[#[trigger] hops[i].1 - 1].1 == hops[i].0 as i64
        }),
{
    assert(strictly_ascending(hops)) by {
        assert forall|i: int, j: int| 0 <= i < j < hops.len() implies #[trigger] hops[i].1 < #[trigger] hops[j].1 by {}
    }
    lemma_sort_of_ascending(hops);
    lemma_path_contiguous(hops, 0, 0, memo, counter);
}

/// The memo and counter with which the path of target `order[j]` starts,
/// and where its edges start in the output of the bucket.
pub open spec fn bucket_segment_start(m: Map<u64, Seq<(u64, u8)>>, order: Seq<u64>, memo: Map<i64, i64>, counter: i64, j: int) -> (
    Map<i64, i64>,
    i64,
    int,
)
    decreases j,
{
    if j <= 0 || order.len() == 0 {
        (memo, counter, 0)
    } else {
        let (es, m1, c1) = target_path(m[order[0]], memo, counter);
        let (mj, cj, off) = bucket_segment_start(m, order.drop_first(), m1, c1, j - 1);
        (mj, cj, off + es.len())
    }
}

/// The edges of a bucket hold the path of each of its targets as one
/// unbroken segment: so each target's path keeps the properties stated of
/// single paths, TTL contiguity among them.
pub proof fn lemma_bucket_segments(m: Map<u64, Seq<(u64, u8)>>, order: Seq<u64>, memo: Map<i64, i64>, counter: i64, j: int)
    requires
        0 <= j < order.len(),
    ensures
        ({
            let out = bucket_walk(m, order, memo, counter).0;
            let (mj, cj, off) = bucket_segment_start(m, order, memo, counter, j);
            let seg = target_path(m[order[j]], mj, cj).0;
            &&& 0 <= off
            &&& off + seg.len() <= out.len()
            &&& out.subrange(off, off + seg.len()) == seg
        }),
    decreases j,
{
    let (es, m1, c1) = target_path(m[order[0]], memo, counter);
    let rest = bucket_walk(m, order.drop_first(), m1, c1).0;
    let out = bucket_walk(m, order, memo, counter).0;
    assert(out == es + rest);
    if j == 0 {
        assert(out.subrange(0, es.len() as int) =~= es);
    } else {
        lemma_bucket_segments(m, order.drop_first(), m1, c1, j - 1);
        assert(order.drop_first()[j - 1] == order[j]);
        let (mj, cj, off) = bucket_segment_start(m, order.drop_first(), m1, c1, j - 1);
        let seg = target_path(m[order[j]], mj, cj).0;
        assert(out.subrange(off + es.len(), off + es.len() + seg.len()) =~= rest.subrange(off, off + seg.len()));
    }
}

} // verus!
