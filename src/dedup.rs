//! Writing the edge list back with every `(from, to)` pair once, grouped by
//! source in ascending identifier order.

use vstd::prelude::*;
use crate::graph::{lists_distinct, Graph};
use crate::sparse_list::list_at;

verus! {

/// The rows `(a, b)` for each successor `b` of `a`, in list order.
pub open spec fn rows_of(m: Map<i64, Seq<i64>>, a: i64) -> Seq<(i64, i64)> {
    list_at(m, a).map_values(|b: i64| (a, b))
}

/// The rows of every source in `lo ..= hi`, source by source.
pub open spec fn dedup_rows(m: Map<i64, Seq<i64>>, lo: int, hi: int) -> Seq<(i64, i64)>
    decreases hi - lo + 1,
{
    if lo > hi {
        Seq::empty()
    } else {
        rows_of(m, lo as i64) + dedup_rows(m, lo + 1, hi)
    }
}

/// Writes the edge list of a loaded graph back in canonical order.
pub struct Deduplicator {
    pub edges_deduplicated_path: String,
}

impl Deduplicator {
    pub fn new(edges_deduplicated_path: String) -> (r: Deduplicator)
        ensures
            r.edges_deduplicated_path == edges_deduplicated_path,
    {
        Deduplicator { edges_deduplicated_path }
    }

    /// The rows of every node of the boundary range, ascending, each
    /// successor once.
    pub fn deduplicate_edges(&self, graph: &Graph) -> (r: Vec<(i64, i64)>)
        requires
            graph.wf(),
            graph.spec_boundaries().wf(),
        ensures
            r@ == dedup_rows(
                graph.spec_edges(),
                graph.spec_boundaries().min_node as int,
                graph.spec_boundaries().max_node as int,
            ),
    {
        let b = graph.boundaries();
        let lo = b.min_node;
        let hi = b.max_node;
        let ghost m = graph.spec_edges();
        let mut out: Vec<(i64, i64)> = Vec::new();
        let mut node: i64 = lo;
        loop
            invariant_except_break
                out@ + dedup_rows(m, node as int, hi as int) == dedup_rows(m, lo as int, hi as int),
            invariant
                lo <= node <= hi,
                m == graph.spec_edges(),
            ensures
                out@ == dedup_rows(m, lo as int, hi as int),
            decreases hi - node,
        {
            let neighbors = graph.neighbors_out(node);
            let ghost base = out@;
            let mut j: usize = 0;
            while j < neighbors.len()
                invariant
                    0 <= j <= neighbors@.len(),
                    neighbors@ == list_at(m, node),
                    out@ == base + rows_of(m, node).subrange(0, j as int),
                decreases neighbors@.len() - j,
            {
                out.push((node, neighbors[j]));
                proof {
                    assert(rows_of(m, node).subrange(0, j as int + 1) =~= rows_of(m, node).subrange(0, j as int).push((node, neighbors@[j as int])));
                }
                j = j + 1;
            }
            proof {
                assert(rows_of(m, node).subrange(0, neighbors@.len() as int) =~= rows_of(m, node));
                assert(dedup_rows(m, node as int, hi as int) == rows_of(m, node) + dedup_rows(m, node + 1, hi as int));
                assert(base + rows_of(m, node) + dedup_rows(m, node + 1, hi as int) =~= base + (rows_of(m, node) + dedup_rows(m, node + 1, hi as int)));
            }
            if node == hi {
                proof {
                    assert(dedup_rows(m, node + 1, hi as int) =~= Seq::<(i64, i64)>::empty());
                    assert(out@ + Seq::<(i64, i64)>::empty() =~= out@);
                }
                break;
            }
            node = node + 1;
        }
        out
    }
}

proof fn lemma_rows_of(m: Map<i64, Seq<i64>>, a: i64)
    requires
        lists_distinct(m),
    ensures
        rows_of(m, a).no_duplicates(),
        forall|x: i64, y: i64| #[trigger] rows_of(m, a).contains((x, y)) <==> x == a && list_at(m, a).contains(y),
{
    let l = list_at(m, a);
    let r = rows_of(m, a);
    assert forall|x: i64, y: i64| #[trigger] r.contains((x, y)) <==> x == a && l.contains(y) by {
        if r.contains((x, y)) {
            let k = choose|k: int| 0 <= k < r.len() && r[k] == (x, y);
            assert(l[k] == y);
        }
        if x == a && l.contains(y) {
            let k = choose|k: int| 0 <= k < l.len() && l[k] == y;
            assert(r[k] == (x, y));
        }
    }
    assert forall|i: int, j: int| 0 <= i < j < r.len() implies r[i] != r[j] by {
        assert(r[i].1 == l[i] && r[j].1 == l[j]);
        if m.contains_key(a) {
            assert(l.no_duplicates());
        }
    }
}

/// The canonical edge list holds every pair once, and exactly the pairs
/// whose source lies in `lo ..= hi` and whose target is one of the source's
/// successors.
pub proof fn lemma_dedup_rows_exact(m: Map<i64, Seq<i64>>, lo: int, hi: int)
    requires
        lists_distinct(m),
        i64::MIN <= lo,
        hi <= i64::MAX,
    ensures
        dedup_rows(m, lo, hi).no_duplicates(),
        forall|x: i64, y: i64| #[trigger] dedup_rows(m, lo, hi).contains((x, y)) <==> lo <= x <= hi && list_at(m, x).contains(y),
    decreases hi - lo + 1,
{
    if lo <= hi {
        lemma_rows_of(m, lo as i64);
        lemma_dedup_rows_exact(m, lo + 1, hi);
        let a = rows_of(m, lo as i64);
        let b = dedup_rows(m, lo + 1, hi);
        let s = a + b;
        assert forall|x: i64, y: i64| #[trigger] s.contains((x, y)) <==> lo <= x <= hi && list_at(m, x).contains(y) by {
            if s.contains((x, y)) {
                let k = choose|k: int| 0 <= k < s.len() && s[k] == (x, y);
                if k < a.len() {
                    assert(a.contains((x, y)));
                } else {
                    assert(b[k - a.len()] == (x, y));
                    assert(b.contains((x, y)));
                }
            }
            if lo <= x <= hi && list_at(m, x).contains(y) {
                if x == lo {
                    assert(a.contains((x, y)));
                    let k = choose|k: int| 0 <= k < a.len() && a[k] == (x, y);
                    assert(s[k] == (x, y));
                } else {
                    assert(b.contains((x, y)));
                    let k = choose|k: int| 0 <= k < b.len() && b[k] == (x, y);
                    assert(s[k + a.len()] == (x, y));
                }
            }
        }
        assert forall|i: int, j: int| 0 <= i < j < s.len() implies s[i] != s[j] by {
            if i < a.len() && j >= a.len() {
                assert(a.contains(s[i]));
                assert(b[j - a.len()] == s[j]);
                assert(b.contains(s[j]));
            } else if j < a.len() {
                assert(s[i] == a[i] && s[j] == a[j]);
            } else {
                assert(s[i] == b[i - a.len()] && s[j] == b[j - a.len()]);
            }
        }
    } else {
        assert(dedup_rows(m, lo, hi) =~= Seq::<(i64, i64)>::empty());
    }
}

/// Deduplication keeps the edge set: for a graph loaded from `edges`, whose
/// sources all lie in the boundary range, the canonical edge list holds each
/// pair of `edges` exactly once and nothing else.
pub proof fn lemma_dedup_preserves_edges(g: &Graph, edges: Seq<(i64, i64)>)
    requires
        g.wf(),
        forall|a: i64, b: i64| #[trigger] g.succ(a).contains(b) <==> edges.contains((a, b)),
        forall|i: int| 0 <= i < edges.len() ==> g.spec_boundaries().min_node <= (#[trigger] edges[i]).0
            <= g.spec_boundaries().max_node,
    ensures
        ({
            let rows = dedup_rows(g.spec_edges(), g.spec_boundaries().min_node as int, g.spec_boundaries().max_node as int);
            &&& rows.no_duplicates()
            &&& forall|x: i64, y: i64| #[trigger] rows.contains((x, y)) <==> edges.contains((x, y))
        }),
{
    let lo = g.spec_boundaries().min_node as int;
    let hi = g.spec_boundaries().max_node as int;
    g.lemma_wf_lists_distinct();
    lemma_dedup_rows_exact(g.spec_edges(), lo, hi);
    let rows = dedup_rows(g.spec_edges(), lo, hi);
    assert forall|x: i64, y: i64| #[trigger] rows.contains((x, y)) <==> edges.contains((x, y)) by {
        assert(g.succ(x).contains(y) <==> edges.contains((x, y)));
        if edges.contains((x, y)) {
            let k = choose|k: int| 0 <= k < edges.len() && edges[k] == (x, y);
            assert(lo <= edges[k].0 <= hi);
        }
    }
}

/// Writing the canonical edge list, loading it again and writing it once
/// more gives the same pairs: a graph `g2` over the same range whose edges
/// are exactly the rows of `g` yields the same set of rows, each once.
pub proof fn lemma_reload_keeps_rows(g: &Graph, g2: &Graph)
    requires
        g.wf(),
        g2.wf(),
        g2.spec_boundaries() == g.spec_boundaries(),
        forall|a: i64, b: i64|
            #[trigger] g2.succ(a).contains(b) <==> dedup_rows(
                g.spec_edges(),
                g.spec_boundaries().min_node as int,
                g.spec_boundaries().max_node as int,
            ).contains((a, b)),
    ensures
        ({
            let lo = g.spec_boundaries().min_node as int;
            let hi = g.spec_boundaries().max_node as int;
            let first = dedup_rows(g.spec_edges(), lo, hi);
            let second = dedup_rows(g2.spec_edges(), lo, hi);
            &&& first.no_duplicates()
            &&& second.no_duplicates()
            &&& forall|x: i64, y: i64| #[trigger] second.contains((x, y)) <==> first.contains((x, y))
        }),
{
    let lo = g.spec_boundaries().min_node as int;
    let hi = g.spec_boundaries().max_node as int;
    g.lemma_wf_lists_distinct();
    g2.lemma_wf_lists_distinct();
    lemma_dedup_rows_exact(g.spec_edges(), lo, hi);
    lemma_dedup_rows_exact(g2.spec_edges(), lo, hi);
    let first = dedup_rows(g.spec_edges(), lo, hi);
    let second = dedup_rows(g2.spec_edges(), lo, hi);
    assert forall|x: i64, y: i64| #[trigger] second.contains((x, y)) <==> first.contains((x, y)) by {
        assert(g2.succ(x).contains(y) <==> first.contains((x, y)));
        assert(first.contains((x, y)) ==> lo <= x <= hi);
    }
}

} // verus!
