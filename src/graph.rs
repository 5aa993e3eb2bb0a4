//! The in-memory graph: forward adjacency by signed node identifier, a
//! reverse adjacency built on demand, and the boundary range of identifiers.

use vstd::prelude::*;
use crate::sparse_list::{list_at, sparse_contents, SparseList};
use crate::structs::{MaxNodeIds, NodeBoundaries};

verus! {

/// Why a graph query could not be answered.
#[derive(PartialEq, Eq, Structural, Debug, Clone, Copy)]
pub enum GraphError {
    /// Predecessors were asked for before the reverse adjacency was built.
    ReverseNotBuilt,
}

/// Every stored list holds each node at most once.
pub open spec fn lists_distinct(m: Map<i64, Seq<i64>>) -> bool {
    forall|k: i64| #[trigger] m.contains_key(k) ==> m[k].no_duplicates()
}

/// Every node that has a stored list, and every node in a stored list, lies
/// in `lo ..= hi`.
pub open spec fn in_range(m: Map<i64, Seq<i64>>, lo: int, hi: int) -> bool {
    &&& forall|k: i64| #[trigger] m.contains_key(k) ==> lo <= k <= hi
    &&& forall|k: i64, i: int| m.contains_key(k) && 0 <= i < m[k].len() ==> lo <= #[trigger] m[k][i] <= hi
}

/// Every stored list holds at least one node.
pub open spec fn lists_nonempty(m: Map<i64, Seq<i64>>) -> bool {
    forall|k: i64| #[trigger] m.contains_key(k) ==> m[k].len() > 0
}

/// `rev` is the reverse of `fwd`: `s` precedes `u` exactly when `u` succeeds `s`.
pub open spec fn is_reverse_of(rev: Map<i64, Seq<i64>>, fwd: Map<i64, Seq<i64>>) -> bool {
    forall|u: i64, s: i64|
        #![trigger list_at(rev, u).contains(s)]
        #![trigger list_at(fwd, s).contains(u)]
        list_at(rev, u).contains(s) <==> list_at(fwd, s).contains(u)
}

pub struct Graph {
    edges: SparseList,
    reverse: Option<SparseList>,
    boundaries: NodeBoundaries,
}

impl Graph {
    /// The successors of every node, as stored.
    pub closed spec fn spec_edges(&self) -> Map<i64, Seq<i64>> {
        sparse_contents(self.edges)
    }

    /// The successors of `v`, in insertion order.
    pub open spec fn succ(&self, v: i64) -> Seq<i64> {
        list_at(self.spec_edges(), v)
    }

    pub closed spec fn spec_reverse(&self) -> Option<Map<i64, Seq<i64>>> {
        match self.reverse {
            Some(r) => Some(sparse_contents(r)),
            None => None,
        }
    }

    /// The predecessors of `v`, once the reverse adjacency is built.
    pub open spec fn pred(&self, v: i64) -> Seq<i64> {
        list_at(self.spec_reverse()->0, v)
    }

    pub closed spec fn spec_boundaries(&self) -> NodeBoundaries {
        self.boundaries
    }

    pub closed spec fn wf(&self) -> bool {
        &&& lists_distinct(sparse_contents(self.edges))
        &&& lists_nonempty(sparse_contents(self.edges))
        &&& self.boundaries.wf()
        &&& in_range(sparse_contents(self.edges), self.boundaries.min_node as int, self.boundaries.max_node as int)
        &&& self.reverse matches Some(r) ==> lists_distinct(sparse_contents(r)) && is_reverse_of(
            sparse_contents(r),
            sparse_contents(self.edges),
        )
    }

    pub proof fn lemma_wf_lists_distinct(&self)
        requires
            self.wf(),
        ensures
            lists_distinct(self.spec_edges()),
            lists_nonempty(self.spec_edges()),
            self.spec_reverse() is Some ==> is_reverse_of(self.spec_reverse()->0, self.spec_edges()),
            self.spec_boundaries().wf(),
            forall|v: i64, i: int| 0 <= i < self.succ(v).len() ==> self.spec_boundaries().min_node <= #[trigger] self.succ(v)[i]
                <= self.spec_boundaries().max_node,
    {
    }

    /// An empty graph over the identifier range that `max_node_ids` gives.
    pub fn init(max_node_ids: MaxNodeIds) -> (r: Graph)
        requires
            max_node_ids.known <= i64::MAX,
            max_node_ids.unknown <= i64::MAX,
        ensures
            r.wf(),
            r.spec_edges() =~= Map::empty(),
            r.spec_reverse() is None,
            r.spec_boundaries().min_node == -(max_node_ids.unknown as int),
            r.spec_boundaries().max_node == max_node_ids.known as int,
    {
        Graph { edges: SparseList::new(), reverse: None, boundaries: NodeBoundaries::new(max_node_ids) }
    }

    /// Adds the edge `from -> to` unless it is already present; the reverse
    /// adjacency is dropped, to be built again on demand. Both ends must lie
    /// in the boundary range.
    pub fn add_edge(&mut self, from: i64, to: i64)
        requires
            old(self).wf(),
            old(self).spec_boundaries().min_node <= from <= old(self).spec_boundaries().max_node,
            old(self).spec_boundaries().min_node <= to <= old(self).spec_boundaries().max_node,
        ensures
            final(self).wf(),
            final(self).spec_reverse() is None,
            final(self).spec_boundaries() == old(self).spec_boundaries(),
            final(self).spec_edges() == if old(self).succ(from).contains(to) {
                old(self).spec_edges()
            } else {
                old(self).spec_edges().insert(from, old(self).succ(from).push(to))
            },
    {
        self.reverse = None;
        let list = self.edges.get(from);
        if !contains_node(list, to) {
            let mut l = copy_list(list);
            l.push(to);
            proof {
                let old_l = list_at(sparse_contents(self.edges), from);
                assert(l@.no_duplicates()) by {
                    assert forall|i: int, j: int| 0 <= i < j < l@.len() implies l@[i] != l@[j] by {
                        if j == l@.len() - 1 {
                            assert(old_l.contains(old_l[i]));
                        } else {
                            assert(old_l[i] == l@[i] && old_l[j] == l@[j]);
                        }
                    }
                }
                let m = sparse_contents(self.edges);
                let lo = self.boundaries.min_node as int;
                let hi = self.boundaries.max_node as int;
                assert forall|k: i64, i: int| m.insert(from, l@).contains_key(k) && 0 <= i < m.insert(from, l@)[k].len()
                    implies lo <= #[trigger] m.insert(from, l@)[k][i] <= hi by {
                    if k == from && i < old_l.len() {
                        assert(l@[i] == old_l[i]);
                    }
                }
            }
            self.edges.set(from, l);
        }
    }

    /// A graph over the range that `max_node_ids` gives, holding each edge of
    /// `edges` once, in first-seen order per source. Both ends of every edge
    /// must lie in the range.
    pub fn from_edges(max_node_ids: MaxNodeIds, edges: &Vec<(i64, i64)>) -> (r: Graph)
        requires
            max_node_ids.known <= i64::MAX,
            max_node_ids.unknown <= i64::MAX,
            forall|i: int| 0 <= i < edges@.len() ==> -(max_node_ids.unknown as int) <= (#[trigger] edges@[i]).0 <= max_node_ids.known
                && -(max_node_ids.unknown as int) <= edges@[i].1 <= max_node_ids.known,
        ensures
            r.wf(),
            r.spec_reverse() is None,
            r.spec_boundaries().min_node == -(max_node_ids.unknown as int),
            r.spec_boundaries().max_node == max_node_ids.known as int,
            forall|a: i64, b: i64| #[trigger] r.succ(a).contains(b) <==> edges@.contains((a, b)),
    {
        let mut g = Graph::init(max_node_ids);
        let mut i: usize = 0;
        while i < edges.len()
            invariant
                0 <= i <= edges@.len(),
                g.wf(),
                g.spec_reverse() is None,
                g.spec_boundaries().min_node == -(max_node_ids.unknown as int),
                g.spec_boundaries().max_node == max_node_ids.known as int,
                forall|a: i64, b: i64| #[trigger] g.succ(a).contains(b) <==> edges@.subrange(0, i as int).contains((a, b)),
                forall|k: int| 0 <= k < edges@.len() ==> -(max_node_ids.unknown as int) <= (#[trigger] edges@[k]).0 <= max_node_ids.known
                    && -(max_node_ids.unknown as int) <= edges@[k].1 <= max_node_ids.known,
            decreases edges@.len() - i,
        {
            let (a, b) = edges[i];
            proof {
                assert(edges@[i as int] == (a, b));
            }
            let ghost before = g;
            g.add_edge(a, b);
            proof {
                let pre = edges@.subrange(0, i as int);
                let post = edges@.subrange(0, i as int + 1);
                assert(post =~= pre.push((a, b)));
                assert forall|x: i64, y: i64| #[trigger] g.succ(x).contains(y) <==> post.contains((x, y)) by {
                    assert(before.succ(x).contains(y) <==> pre.contains((x, y)));
                    if x != a {
                        assert(g.succ(x) == before.succ(x));
                    }
                    if post.contains((x, y)) && (x, y) != (a, b) {
                        let k = choose|k: int| 0 <= k < post.len() && post[k] == (x, y);
                        assert(pre[k] == (x, y));
                    }
                    if pre.contains((x, y)) {
                        let k = choose|k: int| 0 <= k < pre.len() && pre[k] == (x, y);
                        assert(post[k] == (x, y));
                    }
                    assert(post[post.len() - 1] == (a, b));
                    if x == a && !before.succ(a).contains(b) {
                        let s = before.succ(a).push(b);
                        assert(g.succ(a) == s);
                        if s.contains(y) && y != b {
                            let k = choose|k: int| 0 <= k < s.len() && s[k] == y;
                            assert(before.succ(a)[k] == y);
                        }
                        if before.succ(a).contains(y) {
                            let k = choose|k: int| 0 <= k < before.succ(a).len() && before.succ(a)[k] == y;
                            assert(s[k] == y);
                        }
                        assert(s[s.len() - 1] == b);
                    }
                }
            }
            i = i + 1;
        }
        proof {
            assert(edges@.subrange(0, edges@.len() as int) =~= edges@);
        }
        g
    }

    /// Builds the reverse adjacency unless it is already there.
    pub fn ensure_reversed_edges_exist(&mut self)
        requires
            old(self).wf(),
        ensures
            final(self).wf(),
            final(self).spec_reverse() is Some,
            final(self).spec_edges() == old(self).spec_edges(),
            final(self).spec_boundaries() == old(self).spec_boundaries(),
            old(self).spec_reverse() is Some ==> final(self).spec_reverse() == old(self).spec_reverse(),
            is_reverse_of(final(self).spec_reverse()->0, final(self).spec_edges()),
    {
        if self.reverse.is_none() {
            let reversed = calculate_reverse_graph(&self.edges);
            self.reverse = Some(reversed);
        }
    }

    /// The successors of `v`; empty for a node without outgoing edges.
    pub fn neighbors_out(&self, v: i64) -> (r: &Vec<i64>)
        ensures
            r@ == self.succ(v),
    {
        self.edges.get(v)
    }

    /// The predecessors of `v`; refused until the reverse adjacency is built.
    pub fn neighbors_in(&self, v: i64) -> (r: Result<&Vec<i64>, GraphError>)
        ensures
            self.spec_reverse() is None <==> r is Err,
            r is Err ==> r == Err::<&Vec<i64>, GraphError>(GraphError::ReverseNotBuilt),
            r matches Ok(l) ==> l@ == self.pred(v),
    {
        match &self.reverse {
            Some(rev) => Ok(rev.get(v)),
            None => Err(GraphError::ReverseNotBuilt),
        }
    }

    /// The forward adjacency.
    pub fn edges(&self) -> (r: &SparseList)
        ensures
            sparse_contents(*r) == self.spec_edges(),
    {
        &self.edges
    }

    /// The reverse adjacency; refused until it is built.
    pub fn edges_reversed(&self) -> (r: Result<&SparseList, GraphError>)
        ensures
            self.spec_reverse() is None <==> r is Err,
            r is Err ==> r == Err::<&SparseList, GraphError>(GraphError::ReverseNotBuilt),
            r matches Ok(l) ==> Some(sparse_contents(*l)) == self.spec_reverse(),
            r matches Ok(l) ==> self.wf() ==> is_reverse_of(sparse_contents(*l), self.spec_edges()),
    {
        match &self.reverse {
            Some(rev) => Ok(rev),
            None => Err(GraphError::ReverseNotBuilt),
        }
    }

    /// Every node that has a stored successor list, in the map's own order.
    pub fn keys(&self) -> (r: Vec<i64>)
        requires
            self.wf(),
        ensures
            r@.no_duplicates(),
            forall|k: i64| r@.contains(k) <==> self.spec_edges().contains_key(k),
            forall|k: i64| r@.contains(k) <==> self.succ(k).len() > 0,
    {
        self.edges.keys()
    }

    pub fn boundaries(&self) -> (r: &NodeBoundaries)
        ensures
            *r == self.spec_boundaries(),
    {
        &self.boundaries
    }
}

/// Whether `list` holds `x`.
pub fn contains_node(list: &Vec<i64>, x: i64) -> (r: bool)
    ensures
        r == list@.contains(x),
{
    let mut i: usize = 0;
    while i < list.len()
        invariant
            0 <= i <= list@.len(),
            forall|j: int| 0 <= j < i ==> list@[j] != x,
        decreases list@.len() - i,
    {
        if list[i] == x {
            return true;
        }
        i = i + 1;
    }
    false
}

fn copy_list(v: &Vec<i64>) -> (r: Vec<i64>)
    ensures
        r@ == v@,
{
    let mut r: Vec<i64> = Vec::new();
    let mut i: usize = 0;
    while i < v.len()
        invariant
            0 <= i <= v@.len(),
            r@ == v@.subrange(0, i as int),
        decreases v@.len() - i,
    {
        r.push(v[i]);
        proof {
            assert(v@.subrange(0, i as int + 1) =~= v@.subrange(0, i as int).push(v@[i as int]));
        }
        i = i + 1;
    }
    proof {
        assert(v@.subrange(0, v@.len() as int) =~= v@);
    }
    r
}

/// The reverse of `edges`: for each `s` and each successor `u` of `s`, `s`
/// is added to the predecessors of `u`.
fn calculate_reverse_graph(edges: &SparseList) -> (r: SparseList)
    requires
        lists_distinct(sparse_contents(*edges)),
    ensures
        lists_distinct(sparse_contents(r)),
        is_reverse_of(sparse_contents(r), sparse_contents(*edges)),
{
    let fwd = Ghost(sparse_contents(*edges));
    let mut reversed = SparseList::new();
    let keys = edges.keys();
    let mut i: usize = 0;
    while i < keys.len()
        invariant
            0 <= i <= keys@.len(),
            keys@.no_duplicates(),
            forall|k: i64| keys@.contains(k) <==> fwd@.contains_key(k),
            fwd@ == sparse_contents(*edges),
            lists_distinct(fwd@),
            lists_distinct(sparse_contents(reversed)),
            forall|u: i64, s: i64| #![trigger list_at(sparse_contents(reversed), u).contains(s)]
                list_at(sparse_contents(reversed), u).contains(s) <==> (
                keys@.subrange(0, i as int).contains(s) && list_at(fwd@, s).contains(u)),
        decreases keys@.len() - i,
    {
        let s = keys[i];
        let succ = edges.get(s);
        let mut j: usize = 0;
        proof {
            assert(!keys@.subrange(0, i as int).contains(s)) by {
                let b = keys@.subrange(0, i as int);
                if b.contains(s) {
                    let k = choose|k: int| 0 <= k < b.len() && b[k] == s;
                    assert(keys@[k] == keys@[i as int]);
                }
            }
        }
        while j < succ.len()
            invariant
                0 <= j <= succ@.len(),
                succ@ == list_at(fwd@, s),
                succ@.no_duplicates(),
                0 <= i < keys@.len(),
                s == keys@[i as int],
                !keys@.subrange(0, i as int).contains(s),
                lists_distinct(sparse_contents(reversed)),
                forall|u: i64, t: i64| #![trigger list_at(sparse_contents(reversed), u).contains(t)]
                    list_at(sparse_contents(reversed), u).contains(t) <==> (
                    (keys@.subrange(0, i as int).contains(t) && list_at(fwd@, t).contains(u))
                    || (t == s && succ@.subrange(0, j as int).contains(u))),
            decreases succ@.len() - j,
        {
            let u = succ[j];
            let preds = reversed.get(u);
            let mut l = copy_list(preds);
            proof {
                assert(!l@.contains(s)) by {
                    if l@.contains(s) {
                        assert(list_at(sparse_contents(reversed), u).contains(s));
                        let b = succ@.subrange(0, j as int);
                        assert(b.contains(u));
                        let k = choose|k: int| 0 <= k < b.len() && b[k] == u;
                        assert(succ@[k] == succ@[j as int]);
                    }
                }
            }
            l.push(s);
            proof {
                let old_l = list_at(sparse_contents(reversed), u);
                assert(l@.no_duplicates()) by {
                    assert forall|a: int, b: int| 0 <= a < b < l@.len() implies l@[a] != l@[b] by {
                        if b == l@.len() - 1 {
                            assert(old_l.contains(old_l[a]));
                        } else {
                            assert(old_l[a] == l@[a] && old_l[b] == l@[b]);
                        }
                    }
                }
            }
            let ghost before = sparse_contents(reversed);
            reversed.set(u, l);
            proof {
                let after = sparse_contents(reversed);
                assert(succ@.subrange(0, j as int + 1) =~= succ@.subrange(0, j as int).push(u));
                assert forall|x: i64, t: i64| #![trigger list_at(after, x).contains(t)]
                    list_at(after, x).contains(t) <==> (
                    (keys@.subrange(0, i as int).contains(t) && list_at(fwd@, t).contains(x))
                    || (t == s && succ@.subrange(0, j as int + 1).contains(x))) by {
                    assert(list_at(before, x).contains(t) <==> (
                        (keys@.subrange(0, i as int).contains(t) && list_at(fwd@, t).contains(x))
                        || (t == s && succ@.subrange(0, j as int).contains(x))));
                    if x == u {
                        let ol = list_at(before, u);
                        assert(list_at(after, u) == ol.push(s));
                        if ol.push(s).contains(t) && t != s {
                            let k = choose|k: int| 0 <= k < ol.push(s).len() && ol.push(s)[k] == t;
                            assert(ol[k] == t);
                        }
                        if ol.contains(t) {
                            let k = choose|k: int| 0 <= k < ol.len() && ol[k] == t;
                            assert(ol.push(s)[k] == t);
                        }
                        assert(ol.push(s)[ol.len() as int] == s);
                        assert(succ@.subrange(0, j as int + 1)[j as int] == u);
                        let a = succ@.subrange(0, j as int + 1);
                        let b = succ@.subrange(0, j as int);
                        if b.contains(x) {
                            let k = choose|k: int| 0 <= k < b.len() && b[k] == x;
                            assert(a[k] == x);
                        }
                    } else {
                        assert(list_at(after, x) == list_at(before, x));
                        let a = succ@.subrange(0, j as int + 1);
                        let b = succ@.subrange(0, j as int);
                        if a.contains(x) {
                            let k = choose|k: int| 0 <= k < a.len() && a[k] == x;
                            assert(b[k] == x);
                        }
                        if b.contains(x) {
                            let k = choose|k: int| 0 <= k < b.len() && b[k] == x;
                            assert(a[k] == x);
                        }
                    }
                }
                assert forall|k: i64| #[trigger] after.contains_key(k) implies after[k].no_duplicates() by {
                    if k != u {
                        assert(before.contains_key(k));
                    }
                }
            }
            j = j + 1;
        }
        proof {
            assert(succ@.subrange(0, succ@.len() as int) =~= succ@);
            assert(keys@.subrange(0, i as int + 1) =~= keys@.subrange(0, i as int).push(s));
            let r = sparse_contents(reversed);
            assert forall|u: i64, t: i64| #![trigger list_at(r, u).contains(t)]
                list_at(r, u).contains(t) <==> (
                keys@.subrange(0, i as int + 1).contains(t) && list_at(fwd@, t).contains(u)) by {
                assert(list_at(r, u).contains(t) <==> (
                    (keys@.subrange(0, i as int).contains(t) && list_at(fwd@, t).contains(u))
                    || (t == s && succ@.contains(u))));
                let pre = keys@.subrange(0, i as int);
                let post = keys@.subrange(0, i as int + 1);
                if post.contains(t) && t != s {
                    let k = choose|k: int| 0 <= k < post.len() && post[k] == t;
                    assert(pre[k] == t);
                }
                if pre.contains(t) {
                    let k = choose|k: int| 0 <= k < pre.len() && pre[k] == t;
                    assert(post[k] == t);
                }
                assert(post[i as int] == s);
            }
        }
        i = i + 1;
    }
    proof {
        assert(keys@.subrange(0, keys@.len() as int) =~= keys@);
        let r = sparse_contents(reversed);
        assert forall|u: i64, s: i64| #![trigger list_at(r, u).contains(s)] #![trigger list_at(fwd@, s).contains(u)]
            list_at(r, u).contains(s) <==> list_at(fwd@, s).contains(u) by {
            assert(list_at(r, u).contains(s) <==> (keys@.contains(s) && list_at(fwd@, s).contains(u)));
            if list_at(fwd@, s).contains(u) {
                assert(fwd@.contains_key(s));
                assert(keys@.contains(s));
            }
        }
    }
    reversed
}

} // verus!
