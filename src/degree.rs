//! In- and out-degree of each node, and the average degree of its first-
//! and two-hop neighbourhoods, kept as exact integer sums and counts.

use vstd::prelude::*;
use crate::graph::{contains_node, is_reverse_of, Graph};
use crate::sparse_list::list_at;

verus! {

/// Which adjacency a neighbourhood follows, and which degree it measures.
#[derive(PartialEq, Eq, Structural, Debug, Clone, Copy)]
pub enum Direction {
    In,
    Out,
    Both,
}

/// The degree of `x` in direction `d`: in-degree, out-degree, or their sum.
pub open spec fn deg(g: Graph, d: Direction, x: i64) -> int {
    match d {
        Direction::In => g.pred(x).len() as int,
        Direction::Out => g.succ(x).len() as int,
        Direction::Both => (g.succ(x).len() + g.pred(x).len()) as int,
    }
}

/// The sum of the degrees of the nodes of `s`, counted with repetition.
pub open spec fn deg_total(g: Graph, d: Direction, s: Seq<i64>) -> int
    decreases s.len(),
{
    if s.len() == 0 {
        0
    } else {
        deg_total(g, d, s.drop_last()) + deg(g, d, s.last())
    }
}

/// The lists of `m` under the nodes of `ws`, one after another.
pub open spec fn concat_lists(m: Map<i64, Seq<i64>>, ws: Seq<i64>) -> Seq<i64>
    decreases ws.len(),
{
    if ws.len() == 0 {
        Seq::empty()
    } else {
        concat_lists(m, ws.drop_last()) + list_at(m, ws.last())
    }
}

/// The first-hop neighbours of `v`: predecessors, successors, or successors
/// then the predecessors that are not successors too (the union of both).
pub open spec fn first_hop(g: Graph, d: Direction, v: i64) -> Seq<i64> {
    match d {
        Direction::In => g.pred(v),
        Direction::Out => g.succ(v),
        Direction::Both => union_of(g.succ(v), g.pred(v)),
    }
}

/// Selects the nodes that `a` does not hold.
pub open spec fn not_in(a: Seq<i64>) -> spec_fn(i64) -> bool {
    |x: i64| !a.contains(x)
}

/// The nodes of `a`, then those of `b` that `a` does not hold.
pub open spec fn union_of(a: Seq<i64>, b: Seq<i64>) -> Seq<i64> {
    a + b.filter(not_in(a))
}

/// The first-hop neighbours of `v` followed by the neighbours of its
/// successors and of its predecessors in the same direction, duplicates kept.
pub open spec fn two_hop(g: Graph, d: Direction, v: i64) -> Seq<i64> {
    let fwd = g.spec_edges();
    let rev = g.spec_reverse()->0;
    match d {
        Direction::In => g.pred(v) + concat_lists(rev, g.pred(v)),
        Direction::Out => g.succ(v) + concat_lists(fwd, g.succ(v)),
        Direction::Both => union_of(g.succ(v), g.pred(v)) + concat_lists(fwd, g.succ(v)) + concat_lists(rev, g.pred(v)),
    }
}

/// A neighbourhood's degree sum and size; their quotient is the average
/// neighbour degree, 0 for an empty neighbourhood.
#[derive(PartialEq, Eq, Structural, Debug, Clone, Copy)]
pub struct NeighborDegree {
    pub degree_sum: u64,
    pub neighbor_count: u64,
}

/// The degree statistics of one node.
#[derive(PartialEq, Eq, Structural, Debug, Clone, Copy)]
pub struct DegreeValues {
    pub node_id: i64,
    pub d_in: u64,
    pub d_out: u64,
    pub and_in: NeighborDegree,
    pub and_out: NeighborDegree,
    pub and_total: NeighborDegree,
    pub iand_in: NeighborDegree,
    pub iand_out: NeighborDegree,
    pub iand_total: NeighborDegree,
}

/// `nd` holds the degree sum and size of the neighbourhood `s`.
pub open spec fn describes(nd: NeighborDegree, g: Graph, d: Direction, s: Seq<i64>) -> bool {
    nd.degree_sum == deg_total(g, d, s) && nd.neighbor_count == s.len()
}

impl DegreeValues {
    /// Whether the node has any edge; rows without one are not written.
    pub fn is_non_zero(&self) -> (r: bool)
        ensures
            r == !(self.d_in == 0 && self.d_out == 0),
    {
        !(self.d_in == 0 && self.d_out == 0)
    }
}

pub struct DegreeCalculator {}

impl DegreeCalculator {
    pub fn new() -> (r: DegreeCalculator) {
        DegreeCalculator {  }
    }

    /// The degree statistics of `node_id`, building the reverse adjacency
    /// first; `None` when a degree sum exceeds `u64`.
    pub fn collect_values_for_node(&self, node_id: i64, graph: &mut Graph) -> (r: Option<DegreeValues>)
        requires
            old(graph).wf(),
        ensures
            final(graph).wf(),
            final(graph).spec_reverse() is Some,
            final(graph).spec_edges() == old(graph).spec_edges(),
            final(graph).spec_boundaries() == old(graph).spec_boundaries(),
            old(graph).spec_reverse() is Some ==> final(graph).spec_reverse() == old(graph).spec_reverse(),
            is_reverse_of(final(graph).spec_reverse()->0, final(graph).spec_edges()),
            r is None <==> (
                deg_total(*final(graph), Direction::In, first_hop(*final(graph), Direction::In, node_id)) > u64::MAX
                || deg_total(*final(graph), Direction::Out, first_hop(*final(graph), Direction::Out, node_id)) > u64::MAX
                || deg_total(*final(graph), Direction::Both, first_hop(*final(graph), Direction::Both, node_id)) > u64::MAX
                || deg_total(*final(graph), Direction::In, two_hop(*final(graph), Direction::In, node_id)) > u64::MAX
                || deg_total(*final(graph), Direction::Out, two_hop(*final(graph), Direction::Out, node_id)) > u64::MAX
                || deg_total(*final(graph), Direction::Both, two_hop(*final(graph), Direction::Both, node_id)) > u64::MAX),
            r matches Some(v) ==> {
                let g = *final(graph);
                &&& v.node_id == node_id
                &&& v.d_in == g.pred(node_id).len()
                &&& v.d_out == g.succ(node_id).len()
                &&& describes(v.and_in, g, Direction::In, first_hop(g, Direction::In, node_id))
                &&& describes(v.and_out, g, Direction::Out, first_hop(g, Direction::Out, node_id))
                &&& describes(v.and_total, g, Direction::Both, first_hop(g, Direction::Both, node_id))
                &&& describes(v.iand_in, g, Direction::In, two_hop(g, Direction::In, node_id))
                &&& describes(v.iand_out, g, Direction::Out, two_hop(g, Direction::Out, node_id))
                &&& describes(v.iand_total, g, Direction::Both, two_hop(g, Direction::Both, node_id))
            },
    {
        graph.ensure_reversed_edges_exist();
        let g: &Graph = graph;
        let d_out = g.neighbors_out(node_id).len() as u64;
        let d_in = match g.neighbors_in(node_id) {
            Ok(l) => l.len() as u64,
            Err(_) => 0,
        };
        let and_in = average_neighbor_degree(node_id, g, Direction::In);
        let and_out = average_neighbor_degree(node_id, g, Direction::Out);
        let and_total = average_neighbor_degree(node_id, g, Direction::Both);
        let iand_in = iterated_average_neighbor_degree(node_id, g, Direction::In);
        let iand_out = iterated_average_neighbor_degree(node_id, g, Direction::Out);
        let iand_total = iterated_average_neighbor_degree(node_id, g, Direction::Both);
        match (and_in, and_out, and_total, iand_in, iand_out, iand_total) {
            (Some(a), Some(b), Some(c), Some(d), Some(e), Some(f)) => Some(
                DegreeValues {
                    node_id,
                    d_in,
                    d_out,
                    and_in: a,
                    and_out: b,
                    and_total: c,
                    iand_in: d,
                    iand_out: e,
                    iand_total: f,
                },
            ),
            _ => None,
        }
    }
}

/// The predecessors of `v` in a graph whose reverse adjacency is built.
fn preds<'a>(g: &'a Graph, v: i64) -> (r: &'a Vec<i64>)
    requires
        g.spec_reverse() is Some,
    ensures
        r@ == g.pred(v),
{
    match g.neighbors_in(v) {
        Ok(l) => l,
        Err(_) => g.neighbors_out(v),
    }
}

/// The degree sum and size of the neighbourhood `list`; `None` when the sum
/// exceeds `u64`.
fn degree_sum(g: &Graph, d: Direction, list: &Vec<i64>) -> (r: Option<NeighborDegree>)
    requires
        g.spec_reverse() is Some,
    ensures
        r is None <==> deg_total(*g, d, list@) > u64::MAX,
        r matches Some(nd) ==> describes(nd, *g, d, list@),
{
    let mut sum: u64 = 0;
    let mut i: usize = 0;
    while i < list.len()
        invariant
            0 <= i <= list@.len(),
            g.spec_reverse() is Some,
            sum == deg_total(*g, d, list@.subrange(0, i as int)),
        decreases list@.len() - i,
    {
        let x = list[i];
        let o = g.neighbors_out(x).len() as u64;
        let n = preds(g, x).len() as u64;
        proof {
            assert(list@.subrange(0, i as int + 1).drop_last() =~= list@.subrange(0, i as int));
            lemma_deg_total_prefix(*g, d, list@, i as int + 1);
        }
        let step = match d {
            Direction::In => sum.checked_add(n),
            Direction::Out => sum.checked_add(o),
            Direction::Both => match sum.checked_add(o) {
                Some(t) => t.checked_add(n),
                None => None,
            },
        };
        match step {
            Some(t) => {
                sum = t;
            },
            None => {
                return None;
            },
        }
        i = i + 1;
    }
    proof {
        assert(list@.subrange(0, list@.len() as int) =~= list@);
    }
    Some(NeighborDegree { degree_sum: sum, neighbor_count: list.len() as u64 })
}

/// A degree total of a prefix never exceeds that of the whole sequence.
proof fn lemma_deg_total_prefix(g: Graph, d: Direction, s: Seq<i64>, k: int)
    requires
        0 <= k <= s.len(),
    ensures
        deg_total(g, d, s.subrange(0, k)) <= deg_total(g, d, s),
        deg_total(g, d, s) >= 0,
    decreases s.len(),
{
    if s.len() > 0 {
        lemma_deg_total_prefix(g, d, s.drop_last(), if k == s.len() { 0 } else { k });
        if k < s.len() {
            assert(s.drop_last().subrange(0, k) =~= s.subrange(0, k));
        } else {
            assert(s.subrange(0, k) =~= s);
        }
    } else {
        assert(s.subrange(0, k) =~= s);
    }
}

/// Appends a copy of `src` to `dst`.
fn append_copy(dst: &mut Vec<i64>, src: &Vec<i64>)
    ensures
        final(dst)@ == old(dst)@ + src@,
{
    let mut i: usize = 0;
    while i < src.len()
        invariant
            0 <= i <= src@.len(),
            dst@ == old(dst)@ + src@.subrange(0, i as int),
        decreases src@.len() - i,
    {
        dst.push(src[i]);
        proof {
            assert(old(dst)@ + src@.subrange(0, i as int + 1) =~= (old(dst)@ + src@.subrange(0, i as int)).push(src@[i as int]));
        }
        i = i + 1;
    }
    proof {
        assert(src@.subrange(0, src@.len() as int) =~= src@);
    }
}

/// Appends the nodes of `src` that `exclude` does not hold.
fn append_missing(dst: &mut Vec<i64>, src: &Vec<i64>, exclude: &Vec<i64>)
    ensures
        final(dst)@ == old(dst)@ + src@.filter(not_in(exclude@)),
{
    let mut i: usize = 0;
    while i < src.len()
        invariant
            0 <= i <= src@.len(),
            dst@ == old(dst)@ + src@.subrange(0, i as int).filter(not_in(exclude@)),
        decreases src@.len() - i,
    {
        let x = src[i];
        proof {
            assert(src@.subrange(0, i as int + 1) =~= src@.subrange(0, i as int).push(x));
            src@.subrange(0, i as int).lemma_filter_push(x, not_in(exclude@));
        }
        if !contains_node(exclude, x) {
            dst.push(x);
            proof {
                assert(old(dst)@ + src@.subrange(0, i as int).filter(not_in(exclude@)).push(x) =~= (old(dst)@ + src@.subrange(0, i as int).filter(not_in(exclude@))).push(x));
            }
        }
        i = i + 1;
    }
    proof {
        assert(src@.subrange(0, src@.len() as int) =~= src@);
    }
}

/// Appends the successor lists (`forward`) or predecessor lists of the nodes
/// of `ws` to `dst`.
fn append_second_hop(dst: &mut Vec<i64>, g: &Graph, ws: &Vec<i64>, forward: bool)
    requires
        g.spec_reverse() is Some,
    ensures
        final(dst)@ == old(dst)@ + concat_lists(if forward { g.spec_edges() } else { g.spec_reverse()->0 }, ws@),
{
    let ghost m = if forward { g.spec_edges() } else { g.spec_reverse()->0 };
    let mut i: usize = 0;
    while i < ws.len()
        invariant
            0 <= i <= ws@.len(),
            g.spec_reverse() is Some,
            m == if forward { g.spec_edges() } else { g.spec_reverse()->0 },
            dst@ == old(dst)@ + concat_lists(m, ws@.subrange(0, i as int)),
        decreases ws@.len() - i,
    {
        let w = ws[i];
        let l = if forward { g.neighbors_out(w) } else { preds(g, w) };
        proof {
            assert(ws@.subrange(0, i as int + 1).drop_last() =~= ws@.subrange(0, i as int));
        }
        let ghost before = dst@;
        append_copy(dst, l);
        proof {
            assert(old(dst)@ + concat_lists(m, ws@.subrange(0, i as int + 1)) =~= before + l@);
        }
        i = i + 1;
    }
    proof {
        assert(ws@.subrange(0, ws@.len() as int) =~= ws@);
    }
}

/// The degree sum and size of the first-hop neighbourhood of `node_id`.
fn average_neighbor_degree(node_id: i64, g: &Graph, d: Direction) -> (r: Option<NeighborDegree>)
    requires
        g.spec_reverse() is Some,
    ensures
        r is None <==> deg_total(*g, d, first_hop(*g, d, node_id)) > u64::MAX,
        r matches Some(nd) ==> describes(nd, *g, d, first_hop(*g, d, node_id)),
{
    let mut neighbors: Vec<i64> = Vec::new();
    match d {
        Direction::In => {
            append_copy(&mut neighbors, preds(g, node_id));
        },
        Direction::Out => {
            append_copy(&mut neighbors, g.neighbors_out(node_id));
        },
        Direction::Both => {
            append_copy(&mut neighbors, g.neighbors_out(node_id));
            append_missing(&mut neighbors, preds(g, node_id), g.neighbors_out(node_id));
        },
    }
    proof {
        assert(neighbors@ =~= first_hop(*g, d, node_id));
    }
    degree_sum(g, d, &neighbors)
}

/// The degree sum and size of the two-hop neighbourhood of `node_id`.
fn iterated_average_neighbor_degree(node_id: i64, g: &Graph, d: Direction) -> (r: Option<NeighborDegree>)
    requires
        g.spec_reverse() is Some,
    ensures
        r is None <==> deg_total(*g, d, two_hop(*g, d, node_id)) > u64::MAX,
        r matches Some(nd) ==> describes(nd, *g, d, two_hop(*g, d, node_id)),
{
    let mut neighbors: Vec<i64> = Vec::new();
    let out = g.neighbors_out(node_id);
    let inc = preds(g, node_id);
    match d {
        Direction::In => {
            append_copy(&mut neighbors, inc);
            append_second_hop(&mut neighbors, g, inc, false);
        },
        Direction::Out => {
            append_copy(&mut neighbors, out);
            append_second_hop(&mut neighbors, g, out, true);
        },
        Direction::Both => {
            append_copy(&mut neighbors, out);
            append_missing(&mut neighbors, inc, out);
            append_second_hop(&mut neighbors, g, out, true);
            append_second_hop(&mut neighbors, g, inc, false);
        },
    }
    proof {
        assert(neighbors@ =~= two_hop(*g, d, node_id));
    }
    degree_sum(g, d, &neighbors)
}

} // verus!
