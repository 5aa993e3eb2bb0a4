//! The integer part of Brandes' betweenness algorithm: the breadth-first
//! search from one source that yields the visiting order, the distances, the
//! shortest-path counts and the predecessor lists; and the partition of
//! sources among workers with their checkpoint schedule.

use std::collections::HashMap;
use vstd::prelude::*;
use vstd::set_lib::{lemma_int_range, lemma_len_subset, set_int_range};
use crate::graph::Graph;
use crate::sparse_list::list_at;

verus! {

broadcast use vstd::std_specs::hash::group_hash_axioms;

/// The search state: visiting order, distance, shortest-path count and
/// predecessor list of each reached node, and whether a count has exceeded
/// `u64`.
pub type BfsState = (Seq<i64>, Map<i64, i64>, Map<i64, int>, Map<i64, Seq<i64>>, bool);

pub open spec fn count_of(sg: Map<i64, int>, x: i64) -> int {
    if sg.contains_key(x) {
        sg[x]
    } else {
        0
    }
}

pub open spec fn preds_of(p: Map<i64, Seq<i64>>, x: i64) -> Seq<i64> {
    if p.contains_key(x) {
        p[x]
    } else {
        Seq::empty()
    }
}

/// Relaxing the edge `v -> w`: an unreached `w` is queued one step further
/// than `v`; when `w` lies one step further than `v`, its count grows by the
/// count of `v` and `v` joins its predecessors.
pub open spec fn relax_one(st: BfsState, v: i64, w: i64) -> BfsState {
    let (o, d, sg, p, ovf) = st;
    let (o1, d1) = if d.contains_key(w) {
        (o, d)
    } else {
        (o.push(w), d.insert(w, (d[v] + 1) as i64))
    };
    if d1[w] == d1[v] + 1 {
        let c = count_of(sg, w) + count_of(sg, v);
        (o1, d1, sg.insert(w, c), p.insert(w, preds_of(p, w).push(v)), ovf || c > u64::MAX)
    } else {
        (o1, d1, sg, p, ovf)
    }
}

/// Relaxing the edges from `v` to each node of `ws`, in order.
pub open spec fn relax_all(st: BfsState, v: i64, ws: Seq<i64>) -> BfsState
    decreases ws.len(),
{
    if ws.len() == 0 {
        st
    } else {
        relax_one(relax_all(st, v, ws.drop_last()), v, ws.last())
    }
}

/// The state before any node is taken from the queue: only `s`, at distance
/// 0 with one path.
pub open spec fn bfs_init(s: i64) -> BfsState {
    (seq![s], map![s => 0i64], map![s => 1int], Map::empty(), false)
}

/// The state after the first `k` queued nodes were taken and their outgoing
/// edges relaxed; `m` gives the successors.
pub open spec fn bfs_steps(m: Map<i64, Seq<i64>>, s: i64, k: nat) -> BfsState
    decreases k,
{
    if k == 0 {
        bfs_init(s)
    } else {
        let st = bfs_steps(m, s, (k - 1) as nat);
        if k - 1 < st.0.len() {
            let v = st.0[k - 1];
            relax_all(st, v, list_at(m, v))
        } else {
            st
        }
    }
}

/// The result of the search from one source.
pub struct ShortestPaths {
    /// Reached nodes in the order they were taken from the queue.
    pub order: Vec<i64>,
    pub dist: HashMap<i64, i64>,
    /// Shortest-path counts; exact unless `overflow` is set.
    pub sigma: HashMap<i64, u64>,
    pub preds: HashMap<i64, Vec<i64>>,
    /// Some count exceeded `u64`.
    pub overflow: bool,
}

pub open spec fn sigma_view(m: Map<i64, u64>) -> Map<i64, int> {
    Map::new(|k: i64| m.contains_key(k), |k: i64| m[k] as int)
}

pub open spec fn preds_view(m: Map<i64, Vec<i64>>) -> Map<i64, Seq<i64>> {
    Map::new(|k: i64| m.contains_key(k), |k: i64| m[k]@)
}

impl ShortestPaths {
    /// The result agrees with the search state `st`.
    pub open spec fn matches_state(&self, st: BfsState) -> bool {
        &&& self.order@ == st.0
        &&& self.dist@ == st.1
        &&& self.overflow == st.4
        &&& !self.overflow ==> sigma_view(self.sigma@) == st.2
        &&& preds_view(self.preds@) == st.3
    }
}

proof fn lemma_distinct_in_range_len(s: Seq<i64>, lo: int, hi: int)
    requires
        s.no_duplicates(),
        lo <= hi + 1,
        forall|i: int| 0 <= i < s.len() ==> lo <= #[trigger] s[i] <= hi,
    ensures
        s.len() <= hi - lo + 1,
{
    let t = s.map_values(|x: i64| x as int);
    assert(t.no_duplicates()) by {
        assert forall|i: int, j: int| 0 <= i < j < t.len() implies t[i] != t[j] by {
            assert(s[i] != s[j]);
        }
    }
    t.unique_seq_to_set();
    lemma_int_range(lo, hi + 1);
    assert(t.to_set().subset_of(set_int_range(lo, hi + 1))) by {
        assert forall|x: int| t.to_set().contains(x) implies set_int_range(lo, hi + 1).contains(x) by {
            let i = choose|i: int| 0 <= i < t.len() && t[i] == x;
            assert(lo <= s[i] <= hi);
        }
    }
    lemma_len_subset(t.to_set(), set_int_range(lo, hi + 1));
}

/// Breadth-first search from `s`, counting shortest paths and recording
/// predecessors: `s` starts at distance 0 with one path; each node taken from
/// the queue relaxes its outgoing edges in list order. The search runs until
/// the queue is empty, that is until every reached node was taken.
pub fn shortest_paths(graph: &Graph, s: i64) -> (r: ShortestPaths)
    requires
        graph.wf(),
        graph.spec_boundaries().min_node <= s <= graph.spec_boundaries().max_node,
        graph.spec_boundaries().max_node - graph.spec_boundaries().min_node < i64::MAX,
    ensures
        r.matches_state(bfs_steps(graph.spec_edges(), s, r.order@.len() as nat)),
        bfs_steps(graph.spec_edges(), s, r.order@.len() as nat).0.len() == r.order@.len(),
{
    let ghost m = graph.spec_edges();
    let ghost lo = graph.spec_boundaries().min_node as int;
    let ghost hi = graph.spec_boundaries().max_node as int;
    proof {
        graph.lemma_wf_lists_distinct();
    }
    let mut order: Vec<i64> = Vec::new();
    order.push(s);
    let mut dist: HashMap<i64, i64> = HashMap::new();
    dist.insert(s, 0);
    let mut sigma: HashMap<i64, u64> = HashMap::new();
    sigma.insert(s, 1);
    let mut preds: HashMap<i64, Vec<i64>> = HashMap::new();
    let mut overflow = false;
    let mut head: usize = 0;
    proof {
        assert(order@ =~= seq![s]);
        assert(dist@ =~= map![s => 0i64]);
        assert(sigma_view(sigma@) =~= map![s => 1int]);
        assert(preds_view(preds@) =~= Map::<i64, Seq<i64>>::empty());
        assert forall|x: i64| #[trigger] dist@.contains_key(x) <==> order@.contains(x) by {
            if x == s {
                assert(order@[0] == s);
            }
        }
    }
    while head < order.len()
        invariant
            0 <= head <= order@.len(),
            m == graph.spec_edges(),
            graph.wf(),
            lo == graph.spec_boundaries().min_node,
            hi == graph.spec_boundaries().max_node,
            hi - lo < i64::MAX,
            lo <= hi,
            forall|v: i64, i: int| 0 <= i < graph.succ(v).len() ==> lo <= #[trigger] graph.succ(v)[i] <= hi,
            order@.no_duplicates(),
            forall|i: int| 0 <= i < order@.len() ==> lo <= #[trigger] order@[i] <= hi,
            forall|x: i64| #[trigger] dist@.contains_key(x) <==> order@.contains(x),
            forall|x: i64| #[trigger] dist@.contains_key(x) ==> 0 <= dist@[x] < order@.len(),
            ({
                let st = bfs_steps(m, s, head as nat);
                &&& order@ == st.0
                &&& dist@ == st.1
                &&& overflow == st.4
                &&& !overflow ==> sigma_view(sigma@) == st.2
                &&& preds_view(preds@) == st.3
            }),
        decreases hi - lo + 2 - head,
    {
        proof {
            lemma_distinct_in_range_len(order@, lo, hi);
        }
        let v = order[head];
        let dv = match dist.get(&v) {
            Some(x) => *x,
            None => 0,
        };
        proof {
            assert(order@.contains(v));
        }
        let sv = match sigma.get(&v) {
            Some(x) => *x,
            None => 0,
        };
        let succ = graph.neighbors_out(v);
        let ghost st0 = bfs_steps(m, s, head as nat);
        let mut j: usize = 0;
        while j < succ.len()
            invariant
                0 <= j <= succ@.len(),
                succ@ == list_at(m, v),
                m == graph.spec_edges(),
                0 <= head < order@.len(),
                head < st0.0.len(),
                lo <= hi,
                st0.0[head as int] == v,
                st0.1.contains_key(v) && st0.1[v] == dv,
                !overflow ==> count_of(st0.2, v) == sv,
                hi - lo < i64::MAX,
                forall|i: int| 0 <= i < succ@.len() ==> lo <= #[trigger] succ@[i] <= hi,
                order@.no_duplicates(),
                forall|i: int| 0 <= i < order@.len() ==> lo <= #[trigger] order@[i] <= hi,
                forall|x: i64| #[trigger] dist@.contains_key(x) <==> order@.contains(x),
                forall|x: i64| #[trigger] dist@.contains_key(x) ==> 0 <= dist@[x] < order@.len(),
                ({
                    let st = relax_all(st0, v, succ@.subrange(0, j as int));
                    &&& order@ == st.0
                    &&& dist@ == st.1
                    &&& overflow == st.4
                    &&& !overflow ==> sigma_view(sigma@) == st.2
                    &&& preds_view(preds@) == st.3
                    &&& st.1.contains_key(v) && st.1[v] == dv
                    &&& count_of(st.2, v) == count_of(st0.2, v)
                }),
            decreases succ@.len() - j,
        {
            let w = succ[j];
            let ghost pre = relax_all(st0, v, succ@.subrange(0, j as int));
            proof {
                assert(succ@.subrange(0, j as int + 1).drop_last() =~= succ@.subrange(0, j as int));
                assert(succ@.subrange(0, j as int + 1).last() == w);
                lemma_distinct_in_range_len(order@, lo, hi);
            }
            if !dist.contains_key(&w) {
                proof {
                    assert(!order@.contains(w));
                    assert(dist@[v] == dv);
                    assert(order@.contains(v));
                }
                order.push(w);
                dist.insert(w, dv + 1);
                proof {
                    assert forall|x: i64| #[trigger] dist@.contains_key(x) <==> order@.contains(x) by {
                        if x != w {
                            assert(pre.1.contains_key(x) <==> pre.0.contains(x));
                            if order@.contains(x) {
                                let i = choose|i: int| 0 <= i < order@.len() && order@[i] == x;
                                assert(i < pre.0.len());
                                assert(pre.0[i] == x);
                            }
                            if pre.0.contains(x) {
                                let i = choose|i: int| 0 <= i < pre.0.len() && pre.0[i] == x;
                                assert(order@[i] == x);
                            }
                        } else {
                            assert(order@[order@.len() - 1] == w);
                        }
                    }
                    assert(order@.no_duplicates()) by {
                        assert forall|a: int, b: int| 0 <= a < b < order@.len() implies order@[a] != order@[b] by {
                            if b == order@.len() - 1 {
                                assert(pre.0.contains(pre.0[a]));
                            }
                        }
                    }
                }
            }
            let dw = match dist.get(&w) {
                Some(x) => *x,
                None => 0,
            };
            if dw == dv + 1 {
                let sw = match sigma.get(&w) {
                    Some(x) => *x,
                    None => 0,
                };
                let c = match sw.checked_add(sv) {
                    Some(c) => c,
                    None => {
                        overflow = true;
                        u64::MAX
                    },
                };
                sigma.insert(w, c);
                let mut pl = match preds.remove(&w) {
                    Some(l) => l,
                    None => Vec::new(),
                };
                pl.push(v);
                preds.insert(w, pl);
                proof {
                    let mid_p = pre.3;
                    assert(preds_view(preds@) =~= mid_p.insert(w, preds_of(mid_p, w).push(v)));
                    if !overflow {
                        assert(sigma_view(sigma@) =~= pre.2.insert(w, count_of(pre.2, w) + count_of(pre.2, v)));
                    }
                    assert(w != v);
                }
            } else {
                proof {
                    assert(dist@[w] != dist@[v] + 1);
                }
            }
            j = j + 1;
        }
        proof {
            assert(succ@.subrange(0, succ@.len() as int) =~= succ@);
            assert(st0.0.len() > head);
        }
        head = head + 1;
    }
    ShortestPaths { order, dist, sigma, preds, overflow }
}

/// What holds of every search state from `s`: `s` comes first, at distance
/// 0; every queued node has a distance; and every recorded predecessor `v` of
/// `w` has an edge to `w` and lies exactly one step closer to `s`.
pub open spec fn bfs_sound(m: Map<i64, Seq<i64>>, s: i64, st: BfsState) -> bool {
    &&& st.0.len() >= 1
    &&& st.0[0] == s
    &&& st.1.contains_key(s) && st.1[s] == 0
    &&& forall|i: int| 0 <= i < st.0.len() ==> st.1.contains_key(#[trigger] st.0[i])
    &&& forall|w: i64, i: int|
        st.3.contains_key(w) && 0 <= i < st.3[w].len() ==> {
            let v = #[trigger] st.3[w][i];
            &&& st.1.contains_key(v)
            &&& st.1.contains_key(w)
            &&& st.1[v] + 1 == st.1[w]
            &&& list_at(m, v).contains(w)
        }
}

proof fn lemma_relax_one_sound(m: Map<i64, Seq<i64>>, s: i64, st: BfsState, v: i64, w: i64)
    requires
        bfs_sound(m, s, st),
        st.1.contains_key(v),
        list_at(m, v).contains(w),
    ensures
        bfs_sound(m, s, relax_one(st, v, w)),
        relax_one(st, v, w).1.contains_key(v) && relax_one(st, v, w).1[v] == st.1[v],
        relax_one(st, v, w).0.len() >= st.0.len(),
        forall|i: int| 0 <= i < st.0.len() ==> relax_one(st, v, w).0[i] == st.0[i],
{
    let (o, d, sg, p, ovf) = st;
    let (o1, d1) = if d.contains_key(w) {
        (o, d)
    } else {
        (o.push(w), d.insert(w, (d[v] + 1) as i64))
    };
    let r = relax_one(st, v, w);
    assert forall|i: int| 0 <= i < r.0.len() implies r.1.contains_key(#[trigger] r.0[i]) by {
        if i < o.len() {
            assert(r.0[i] == o[i]);
        }
    }
    if d1[w] == d1[v] + 1 {
        let np = p.insert(w, preds_of(p, w).push(v));
        assert forall|x: i64, i: int| np.contains_key(x) && 0 <= i < np[x].len() implies {
            let u = #[trigger] np[x][i];
            &&& d1.contains_key(u)
            &&& d1.contains_key(x)
            &&& d1[u] + 1 == d1[x]
            &&& list_at(m, u).contains(x)
        } by {
            if x == w {
                if i < preds_of(p, w).len() {
                    assert(np[x][i] == p[w][i]);
                }
            }
        }
    }
}

proof fn lemma_relax_all_sound(m: Map<i64, Seq<i64>>, s: i64, st: BfsState, v: i64, ws: Seq<i64>)
    requires
        bfs_sound(m, s, st),
        st.1.contains_key(v),
        forall|i: int| 0 <= i < ws.len() ==> list_at(m, v).contains(#[trigger] ws[i]),
    ensures
        bfs_sound(m, s, relax_all(st, v, ws)),
        relax_all(st, v, ws).1.contains_key(v) && relax_all(st, v, ws).1[v] == st.1[v],
        relax_all(st, v, ws).0.len() >= st.0.len(),
        forall|i: int| 0 <= i < st.0.len() ==> relax_all(st, v, ws).0[i] == st.0[i],
    decreases ws.len(),
{
    if ws.len() > 0 {
        let init = ws.drop_last();
        assert forall|i: int| 0 <= i < init.len() implies list_at(m, v).contains(#[trigger] init[i]) by {
            assert(init[i] == ws[i]);
        }
        lemma_relax_all_sound(m, s, st, v, init);
        let mid = relax_all(st, v, init);
        assert(list_at(m, v).contains(ws[ws.len() - 1]));
        lemma_relax_one_sound(m, s, mid, v, ws.last());
    }
}

/// Every state of the search from `s` is sound: `s` first at distance 0,
/// and each recorded predecessor is joined to its node by an edge and lies
/// one step closer to `s`.
pub proof fn lemma_bfs_sound(m: Map<i64, Seq<i64>>, s: i64, k: nat)
    ensures
        bfs_sound(m, s, bfs_steps(m, s, k)),
    decreases k,
{
    if k == 0 {
        let st = bfs_init(s);
        assert(st.0[0] == s);
        assert(st.3 =~= Map::<i64, Seq<i64>>::empty());
    } else {
        lemma_bfs_sound(m, s, (k - 1) as nat);
        let st = bfs_steps(m, s, (k - 1) as nat);
        if k - 1 < st.0.len() {
            let v = st.0[k - 1];
            let ws = list_at(m, v);
            assert forall|i: int| 0 <= i < ws.len() implies list_at(m, v).contains(#[trigger] ws[i]) by {}
            lemma_relax_all_sound(m, s, st, v, ws);
        }
    }
}

/// `s` ascends.
pub open spec fn ascending(s: Seq<i64>) -> bool {
    forall|i: int, j: int| 0 <= i < j < s.len() ==> s[i] <= s[j]
}

/// Relies on `slice::sort_unstable`: the same values, in ascending order.
#[verifier::external_body]
fn sort_ids(v: &mut Vec<i64>)
    ensures
        ascending(final(v)@),
        final(v)@.to_multiset() == old(v)@.to_multiset(),
{
    v.sort_unstable();
}

/// The nodes with outgoing edges, ascending, so that the partition among
/// workers, and with it each worker's identity, is the same in every run.
pub fn sorted_keys(graph: &Graph) -> (r: Vec<i64>)
    requires
        graph.wf(),
    ensures
        ascending(r@),
        r@.no_duplicates(),
        forall|k: i64| r@.contains(k) <==> graph.spec_edges().contains_key(k),
        forall|k: i64| r@.contains(k) <==> graph.succ(k).len() > 0,
{
    let mut keys = graph.keys();
    let ghost before = keys@;
    sort_ids(&mut keys);
    proof {
        assert(forall|k: i64| before.contains(k) <==> graph.spec_edges().contains_key(k));
        assert forall|k: i64| keys@.contains(k) <==> graph.spec_edges().contains_key(k) by {
            assert(before.contains(k) <==> graph.spec_edges().contains_key(k));

            if keys@.contains(k) {
                keys@.to_multiset_ensures();
                before.to_multiset_ensures();
                assert(keys@.to_multiset().count(k) > 0);
            }
            if before.contains(k) {
                keys@.to_multiset_ensures();
                before.to_multiset_ensures();
                assert(before.to_multiset().count(k) > 0);
            }
        }
        graph.lemma_wf_lists_distinct();
        assert forall|k: i64| keys@.contains(k) <==> graph.succ(k).len() > 0 by {
            assert(keys@.contains(k) <==> graph.spec_edges().contains_key(k));
        }
        assert(keys@.no_duplicates()) by {
            assert forall|i: int, j: int| 0 <= i < j < keys@.len() implies keys@[i] != keys@[j] by {
                if keys@[i] == keys@[j] {
                    lemma_count_two(keys@, i, j);
                    before.to_multiset_ensures();
                    lemma_distinct_count(before, keys@[i]);
                }
            }
        }
    }
    keys
}

proof fn lemma_count_two(s: Seq<i64>, i: int, j: int)
    requires
        0 <= i < j < s.len(),
        s[i] == s[j],
    ensures
        s.to_multiset().count(s[i]) >= 2,
    decreases s.len(),
{
    s.to_multiset_ensures();
    let l = s.drop_last();
    l.to_multiset_ensures();
    assert(s =~= l.push(s.last()));
    if j == s.len() - 1 {
        assert(l.contains(s[i]));
        assert(l.to_multiset().count(s[i]) > 0);
    } else {
        lemma_count_two(l, i, j);
    }
}

proof fn lemma_distinct_count(s: Seq<i64>, x: i64)
    requires
        s.no_duplicates(),
    ensures
        s.to_multiset().count(x) <= 1,
    decreases s.len(),
{
    s.to_multiset_ensures();
    if s.len() > 0 {
        let l = s.drop_last();
        assert(s =~= l.push(s.last()));
        l.to_multiset_ensures();
        assert(l.no_duplicates());
        lemma_distinct_count(l, x);
        if x == s.last() {
            assert(!l.contains(x));
            assert(l.to_multiset().count(x) == 0);
        }
    }
}

/// The chunks one after another.
pub open spec fn concat_chunks(chunks: Seq<Vec<i64>>) -> Seq<i64>
    decreases chunks.len(),
{
    if chunks.len() == 0 {
        Seq::empty()
    } else {
        concat_chunks(chunks.drop_last()) + chunks.last()@
    }
}

/// The chunk size for `n` sources among `max_thread_count` workers: the
/// quotient rounded up; all sources in one chunk when no count is given.
pub open spec fn chunk_size(n: int, max_thread_count: int) -> int {
    if max_thread_count == 0 {
        n
    } else {
        (n + max_thread_count - 1) / max_thread_count
    }
}

/// Splits `keys` into consecutive chunks of `chunk_size` sources, the last
/// one possibly shorter; worker `i` takes chunk `i`.
pub fn partition_sources(keys: &Vec<i64>, max_thread_count: u16) -> (r: Vec<Vec<i64>>)
    ensures
        ({
            let c = chunk_size(keys@.len() as int, max_thread_count as int);
            &&& keys@.len() == 0 ==> r@.len() == 0
            &&& forall|i: int| 0 <= i < r@.len() ==> (#[trigger] r@[i])@ == keys@.subrange(
                i * c,
                if (i + 1) * c < keys@.len() { (i + 1) * c } else { keys@.len() as int },
            )
            &&& r@.len() * c >= keys@.len()
            &&& forall|i: int| 0 <= i < r@.len() ==> (#[trigger] r@[i])@.len() > 0
            &&& concat_chunks(r@) == keys@
        }),
{
    let n = keys.len();
    let c: usize = if max_thread_count == 0 {
        n
    } else {
        let t = max_thread_count as usize;
        ((n as u128 + t as u128 - 1) / t as u128) as usize
    };
    proof {
        if max_thread_count != 0 {
            let t = max_thread_count as int;
            assert((n + t - 1) / t <= n) by (nonlinear_arith)
                requires
                    t >= 1,
                    n >= 0,
            ;
        }
    }
    let ghost cs = chunk_size(n as int, max_thread_count as int);
    assert(c == cs);
    let mut r: Vec<Vec<i64>> = Vec::new();
    if n == 0 {
        assert(concat_chunks(r@) =~= keys@);
        return r;
    }
    proof {
        if max_thread_count != 0 {
            let t = max_thread_count as int;
            assert((n + t - 1) / t >= 1) by (nonlinear_arith)
                requires
                    t >= 1,
                    n >= 1,
            ;
        }
    }
    let mut start: usize = 0;
    proof {
        assert(r@.len() * c == 0) by (nonlinear_arith)
            requires
                r@.len() == 0,
        ;
    }
    proof {
        assert(concat_chunks(r@) =~= keys@.subrange(0, 0));
    }
    while start < n
        invariant
            n == keys@.len(),
            c == cs,
            c >= 1,
            start < n ==> start == r@.len() * c,
            start <= n,
            start == n ==> r@.len() * c >= n,
            forall|i: int| 0 <= i < r@.len() ==> (#[trigger] r@[i])@ == keys@.subrange(
                i * c,
                if (i + 1) * c < n { (i + 1) * c } else { n as int },
            ),
            forall|i: int| 0 <= i < r@.len() ==> (#[trigger] r@[i])@.len() > 0,
            concat_chunks(r@) == keys@.subrange(0, start as int),
        decreases n - start,
    {
        let end: usize = if n - start > c {
            start + c
        } else {
            n
        };
        let mut chunk: Vec<i64> = Vec::new();
        let mut k: usize = start;
        while k < end
            invariant
                start <= k <= end,
                end <= n,
                n == keys@.len(),
                chunk@ == keys@.subrange(start as int, k as int),
            decreases end - k,
        {
            chunk.push(keys[k]);
            proof {
                assert(keys@.subrange(start as int, k as int + 1) =~= keys@.subrange(start as int, k as int).push(keys@[k as int]));
            }
            k = k + 1;
        }
        proof {
            let i = r@.len() as int;
            assert(start == i * c);
            assert((i + 1) * c == i * c + c) by (nonlinear_arith);
        }
        let ghost before = r@;
        r.push(chunk);
        proof {
            let l = r@.len() as int;
            assert(l * c == (l - 1) * c + c) by (nonlinear_arith);
            assert(r@.drop_last() =~= before);
            assert(concat_chunks(r@) =~= keys@.subrange(0, end as int));
        }
        start = end;
    }
    r
}

/// Where a worker resumes: the counter of a checkpoint that belongs to this
/// worker and lies within its chunk; otherwise, with no checkpoint or an
/// unusable one, the start.
pub fn resume_counter(restored: Option<(u32, u32)>, worker_id: u32, chunk_len: usize) -> (r: u32)
    ensures
        r as int <= chunk_len,
        r == match restored {
            Some((id, counter)) => if id == worker_id && counter as int <= chunk_len {
                counter
            } else {
                0u32
            },
            None => 0u32,
        },
{
    match restored {
        Some((id, counter)) => {
            if id == worker_id && counter as usize <= chunk_len {
                counter
            } else {
                0
            }
        },
        None => 0,
    }
}

/// Whether a worker that has finished `counter` sources saves its state:
/// saving is enabled and `counter` closes a batch.
pub fn should_checkpoint(counter: u32, batch_size: u32, save_periodically: bool) -> (r: bool)
    ensures
        r == (save_periodically && batch_size > 0 && counter % batch_size == 0),
{
    save_periodically && batch_size > 0 && counter % batch_size == 0
}

} // verus!
