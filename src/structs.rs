//! Plain data carried between the pipeline stages.

use vstd::prelude::*;

verus! {

/// The address family a dataset is configured for.
#[derive(PartialEq, Eq, Structural, Debug, Clone, Copy)]
pub enum IpType {
    V4,
    V6,
}

/// One observation of an IPv4 traceroute: `hop_ip` answered at TTL `hop_count`
/// while `target_ip` was probed.
#[derive(Clone, Copy, Debug)]
pub struct NodeV4 {
    pub target_ip: u32,
    pub hop_ip: u32,
    pub hop_count: u8,
}

/// One observation of an IPv6 traceroute.
#[derive(Clone, Copy, Debug)]
pub struct NodeV6 {
    pub target_ip: u128,
    pub hop_ip: u128,
    pub hop_count: u8,
}

/// An observation whose addresses have been replaced by their identifiers.
#[derive(Clone, Copy, Debug)]
pub struct InternalNode {
    pub target_id: u64,
    pub hop_id: u64,
    pub hop_count: u8,
}

/// A directed edge as it is stored in the edge lists.
#[derive(PartialEq, Eq, Structural, Clone, Copy, Debug)]
pub struct CsvEdge {
    pub from: i64,
    pub to: i64,
}

/// The highest known identifier and the magnitude of the lowest unknown one.
#[derive(PartialEq, Eq, Structural, Clone, Copy, Debug)]
pub struct MaxNodeIds {
    pub known: usize,
    pub unknown: usize,
}

/// The inclusive range `[min_node, max_node]` that holds every assigned identifier.
#[derive(Clone, Copy, Debug)]
pub struct NodeBoundaries {
    pub min_node: i64,
    pub max_node: i64,
}

impl NodeBoundaries {
    pub open spec fn wf(&self) -> bool {
        self.min_node <= 0 <= self.max_node
    }

    /// The number of identifiers in the range.
    pub open spec fn spec_len(&self) -> int {
        self.max_node - self.min_node + 1
    }

    /// Builds the range `[-unknown, known]`; both counts must fit an `i64`.
    pub fn new(max_node_ids: MaxNodeIds) -> (r: NodeBoundaries)
        requires
            max_node_ids.known <= i64::MAX,
            max_node_ids.unknown <= i64::MAX,
        ensures
            r.min_node == -(max_node_ids.unknown as int),
            r.max_node == max_node_ids.known as int,
            r.wf(),
    {
        NodeBoundaries { min_node: -(max_node_ids.unknown as i64), max_node: max_node_ids.known as i64 }
    }

    /// The first and last identifier of the range, both included.
    pub fn range_inclusive(&self) -> (r: (i64, i64))
        ensures
            r == (self.min_node, self.max_node),
    {
        (self.min_node, self.max_node)
    }

    pub fn min_node(&self) -> (r: i64)
        ensures
            r == self.min_node,
    {
        self.min_node
    }

    pub fn max_node(&self) -> (r: i64)
        ensures
            r == self.max_node,
    {
        self.max_node
    }

    /// The number of identifiers in the range.
    pub fn len(&self) -> (r: usize)
        requires
            self.wf(),
            self.spec_len() <= usize::MAX,
        ensures
            r == self.spec_len(),
    {
        (self.max_node as i128 - self.min_node as i128 + 1) as usize
    }
}

/// A parsed row of the line-based scan format.
pub enum YarrpRow {
    V4(YarrpRowIpv4),
    V6(YarrpRowIpv6),
}

pub struct YarrpRowIpv4 {
    pub target_ip: u32,
    pub hop_ip: u32,
    pub hop_count: u8,
}

pub struct YarrpRowIpv6 {
    pub target_ip: u128,
    pub hop_ip: u128,
    pub hop_count: u8,
}

} // verus!
