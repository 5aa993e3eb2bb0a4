//! Bucketing of observations by target address, and central assignment of
//! node identifiers.

use std::collections::HashMap;
use vstd::prelude::*;
use vstd::string::StringExecFns;
use crate::parameters::{join_path, joined};
use crate::structs::{InternalNode, IpType, NodeV4, NodeV6, YarrpRow};

verus! {

broadcast use vstd::std_specs::hash::group_hash_axioms;

/// The number of distinct bucket keys.
pub const BUCKET_COUNT: u64 = 256;

/// The bucket key of an IPv4 target: the second byte from the left XOR the fourth.
pub open spec fn bucket_v4(ip: u32) -> u8 {
    ((((ip & 0x00ff0000u32) >> 16u32) as u8) ^ ((ip & 0xffu32) as u8)) as u8
}

/// The bucket key of an IPv6 target: the eighth byte from the left XOR the sixteenth.
pub open spec fn bucket_v6(ip: u128) -> u8 {
    ((((ip >> 64u128) & 0xffu128) as u8) ^ ((ip & 0xffu128) as u8)) as u8
}

pub fn calculate_bucket_id_v4(ip: u32) -> (r: u8)
    ensures
        r == bucket_v4(ip),
{
    let byte1 = ((ip & 0x00ff0000u32) >> 16u32) as u8;
    let byte2 = (ip & 0xffu32) as u8;
    byte1 ^ byte2
}

pub fn calculate_bucket_id_v6(ip: u128) -> (r: u8)
    ensures
        r == bucket_v6(ip),
{
    let byte1 = ((ip >> 64u128) & 0xffu128) as u8;
    let byte2 = (ip & 0xffu128) as u8;
    byte1 ^ byte2
}

/// The hop list stored for `target` in a map of hop lists, empty when absent.
pub open spec fn hops_of(m: Map<u64, Seq<(u64, u8)>>, target: u64) -> Seq<(u64, u8)> {
    if m.contains_key(target) {
        m[target]
    } else {
        Seq::empty()
    }
}

/// `entries` lists the map `m` exactly: each key once, with its list.
pub open spec fn entries_match(entries: Seq<(u64, Vec<(u64, u8)>)>, m: Map<u64, Seq<(u64, u8)>>) -> bool {
    &&& forall|i: int, j: int| 0 <= i < j < entries.len() ==> entries[i].0 != entries[j].0
    &&& forall|i: int| 0 <= i < entries.len() ==> #[trigger] m.contains_key(entries[i].0) && entries[i].1@ == m[entries[i].0]
    &&& forall|k: u64| #[trigger] m.contains_key(k) ==> exists|i: int| 0 <= i < entries.len() && entries[i].0 == k
}

/// One shard of the edge set: for each target, the `(hop_id, hop_count)`
/// observations in the order they were added.
pub struct GraphBucket {
    edge_map: HashMap<u64, Vec<(u64, u8)>>,
    targets: Vec<u64>,
    file_path: String,
}

impl View for GraphBucket {
    type V = Map<u64, Seq<(u64, u8)>>;

    closed spec fn view(&self) -> Map<u64, Seq<(u64, u8)>> {
        Map::new(|k: u64| self.edge_map@.contains_key(k), |k: u64| self.edge_map@[k]@)
    }
}

impl GraphBucket {
    pub closed spec fn spec_targets(&self) -> Seq<u64> {
        self.targets@
    }

    pub closed spec fn spec_file_path(&self) -> Seq<char> {
        self.file_path@
    }

    /// The targets are listed once each, in the order they were first seen,
    /// and they are exactly the keys of the map.
    pub closed spec fn wf(&self) -> bool {
        &&& self.targets@.no_duplicates()
        &&& forall|k: u64| self.edge_map@.contains_key(k) <==> self.targets@.contains(k)
    }

    pub proof fn lemma_targets_are_keys(&self)
        requires
            self.wf(),
        ensures
            self.spec_targets().no_duplicates(),
            forall|k: u64| self@.contains_key(k) <==> self.spec_targets().contains(k),
    {
    }

    /// An empty bucket that is stored at `file_path`.
    pub fn new(file_path: String) -> (r: GraphBucket)
        ensures
            r.wf(),
            r@ == Map::<u64, Seq<(u64, u8)>>::empty(),
            r.spec_targets() == Seq::<u64>::empty(),
            r.spec_file_path() == file_path@,
    {
        let r = GraphBucket { edge_map: HashMap::new(), targets: Vec::new(), file_path };
        assert(r@ =~= Map::<u64, Seq<(u64, u8)>>::empty());
        r
    }

    pub fn file_path(&self) -> (r: &String)
        ensures
            r@ == self.spec_file_path(),
    {
        &self.file_path
    }

    /// Appends the observation `(hop_id, hop_count)` to the list of its target.
    pub fn add_node(&mut self, node: InternalNode)
        requires
            old(self).wf(),
        ensures
            final(self).wf(),
            final(self)@ == old(self)@.insert(
                node.target_id,
                hops_of(old(self)@, node.target_id).push((node.hop_id, node.hop_count)),
            ),
            final(self).spec_targets() == if old(self)@.contains_key(node.target_id) {
                old(self).spec_targets()
            } else {
                old(self).spec_targets().push(node.target_id)
            },
            final(self).spec_file_path() == old(self).spec_file_path(),
    {
        let hops = vec![(node.hop_id, node.hop_count)];
        assert(hops_of(old(self)@, node.target_id) + hops@ =~= hops_of(old(self)@, node.target_id).push((node.hop_id, node.hop_count)));
        self.push_hops(node.target_id, hops);
    }

    /// Appends `hops` to the list of `target`.
    pub fn push_hops(&mut self, target: u64, hops: Vec<(u64, u8)>)
        requires
            old(self).wf(),
        ensures
            final(self).wf(),
            final(self)@ == old(self)@.insert(target, hops_of(old(self)@, target) + hops@),
            final(self).spec_targets() == if old(self)@.contains_key(target) {
                old(self).spec_targets()
            } else {
                old(self).spec_targets().push(target)
            },
            final(self).spec_file_path() == old(self).spec_file_path(),
    {
        let ghost added = hops@;
        let mut hops = hops;
        let removed = self.edge_map.remove(&target);
        let mut list = match removed {
            Some(l) => l,
            None => {
                proof {
                    assert(!old(self).targets@.contains(target));
                }
                self.targets.push(target);
                Vec::new()
            },
        };
        let ghost before = list@;
        list.append(&mut hops);
        assert(list@ == hops_of(old(self)@, target) + added) by {
            if old(self)@.contains_key(target) {
                assert(before == old(self)@[target]);
            } else {
                assert(before =~= Seq::<(u64, u8)>::empty());
            }
        }
        self.edge_map.insert(target, list);
        proof {
            assert forall|k: u64| self.edge_map@.contains_key(k) <==> self.targets@.contains(k) by {
                if k != target {
                    assert(old(self).edge_map@.contains_key(k) <==> old(self).targets@.contains(k));
                    if !old(self)@.contains_key(target) {
                        assert(self.targets@.contains(k) ==> old(self).targets@.contains(k)) by {
                            if self.targets@.contains(k) {
                                let i = choose|i: int| 0 <= i < self.targets@.len() && self.targets@[i] == k;
                                assert(i < old(self).targets@.len());
                            }
                        }
                        assert(old(self).targets@.contains(k) ==> self.targets@.contains(k)) by {
                            if old(self).targets@.contains(k) {
                                let i = choose|i: int| 0 <= i < old(self).targets@.len() && old(self).targets@[i] == k;
                                assert(self.targets@[i] == k);
                            }
                        }
                    }
                } else {
                    assert(old(self).edge_map@.contains_key(target) <==> old(self).targets@.contains(target));
                    assert(self.targets@.contains(target)) by {
                        if !old(self)@.contains_key(target) {
                            assert(self.targets@[self.targets@.len() - 1] == target);
                        }
                    }
                }
            }
            if !old(self)@.contains_key(target) {
                assert(self.targets@.no_duplicates()) by {
                    assert forall|i: int, j: int|
                        0 <= i < j < self.targets@.len() implies self.targets@[i]
                        != self.targets@[j] by {
                        if j == self.targets@.len() - 1 {
                            assert(old(self).targets@.contains(old(self).targets@[i]));
                        }
                    }
                }
            }
            assert(self@ =~= old(self)@.insert(target, hops_of(old(self)@, target) + added));
        }
    }

    /// Hands out the contents, target by target in first-seen order, and
    /// leaves the bucket empty, so that nothing stays in memory once the
    /// contents are written out.
    pub fn evict_to_disk(&mut self) -> (r: Vec<(u64, Vec<(u64, u8)>)>)
        requires
            old(self).wf(),
        ensures
            final(self).wf(),
            final(self)@ == Map::<u64, Seq<(u64, u8)>>::empty(),
            final(self).spec_targets() == Seq::<u64>::empty(),
            final(self).spec_file_path() == old(self).spec_file_path(),
            r@.len() == old(self).spec_targets().len(),
            forall|i: int|
                0 <= i < r@.len() ==> r@[i].0 == old(self).spec_targets()[i] && r@[i].1@ == old(
                    self,
                )@[r@[i].0],
            entries_match(r@, old(self)@),
    {
        let mut map = HashMap::new();
        let mut targets = Vec::new();
        std::mem::swap(&mut map, &mut self.edge_map);
        std::mem::swap(&mut targets, &mut self.targets);
        let taken = GraphBucket { edge_map: map, targets, file_path: String::new() };
        assert(taken@ =~= old(self)@);
        proof {
            assert(self@ =~= Map::<u64, Seq<(u64, u8)>>::empty());
        }
        taken.edge_map()
    }

    /// The contents, target by target in first-seen order.
    pub fn edge_map(self) -> (r: Vec<(u64, Vec<(u64, u8)>)>)
        requires
            self.wf(),
        ensures
            r@.len() == self.spec_targets().len(),
            forall|i: int|
                0 <= i < r@.len() ==> r@[i].0 == self.spec_targets()[i] && r@[i].1@ == self@[r@[i].0],
            entries_match(r@, self@),
    {
        let ghost view = self@;
        let ghost ts = self.targets@;
        let GraphBucket { edge_map: mut map, targets, file_path: _ } = self;
        let ghost old_map = map@;
        let mut r: Vec<(u64, Vec<(u64, u8)>)> = Vec::new();
        let mut i: usize = 0;
        proof {
            assert forall|j: int| 0 <= j < targets@.len() implies map@.contains_key(
                #[trigger] targets@[j],
            ) && map@[targets@[j]] == old_map[targets@[j]] by {
                assert(targets@.contains(targets@[j]));
            }
        }
        while i < targets.len()
            invariant
                0 <= i <= targets@.len(),
                targets@.no_duplicates(),
                forall|j: int|
                    i <= j < targets@.len() ==> map@.contains_key(#[trigger] targets@[j])
                        && map@[targets@[j]] == old_map[targets@[j]],
                r@.len() == i,
                forall|j: int|
                    0 <= j < i ==> r@[j].0 == targets@[j] && r@[j].1@ == old_map[r@[j].0]@,
            decreases targets@.len() - i,
        {
            let t = targets[i];
            let removed = take_list(&mut map, t);
            proof {
                assert forall|j: int| i + 1 <= j < targets@.len() implies map@.contains_key(
                    #[trigger] targets@[j],
                ) && map@[targets@[j]] == old_map[targets@[j]] by {
                    assert(targets@[j] != targets@[i as int]);
                }
            }
            r.push((t, removed));
            i = i + 1;
        }
        proof {
            assert forall|j: int| 0 <= j < r@.len() implies r@[j].0 == targets@[j] && r@[j].1@ == view[r@[j].0] && view.contains_key(r@[j].0) by {
                assert(targets@.contains(targets@[j]));
            }
            assert forall|a: int, b: int| 0 <= a < b < r@.len() implies r@[a].0 != r@[b].0 by {
                assert(r@[a].0 == targets@[a] && r@[b].0 == targets@[b]);
            }
            assert forall|k: u64| #[trigger] view.contains_key(k) implies exists|i: int| 0 <= i < r@.len() && r@[i].0 == k by {
                assert(targets@.contains(k));
                let i = choose|i: int| 0 <= i < targets@.len() && targets@[i] == k;
                assert(r@[i].0 == k);
            }
            assert(forall|i: int, j: int| 0 <= i < j < r@.len() ==> r@[i].0 != r@[j].0);
            assert forall|i: int| 0 <= i < r@.len() implies #[trigger] view.contains_key(r@[i].0) && r@[i].1@ == view[r@[i].0] by {
                assert(targets@.contains(targets@[i]));
                assert(r@[i].0 == targets@[i]);
            }
            assert(forall|k: u64| #[trigger] view.contains_key(k) ==> exists|i: int| 0 <= i < r@.len() && r@[i].0 == k);
        }
        r
    }
}

/// Removes the list of `t` from `map`; `t` must be present.
fn take_list(map: &mut HashMap<u64, Vec<(u64, u8)>>, t: u64) -> (r: Vec<(u64, u8)>)
    requires
        old(map)@.contains_key(t),
    ensures
        r == old(map)@[t],
        final(map)@ == old(map)@.remove(t),
{
    match map.remove(&t) {
        Some(l) => l,
        None => Vec::new(),
    }
}

/// What identifier assignment does to the index `(m, c)` on seeing `ip`: an
/// address already present keeps its identifier; a new one gets the counter's
/// current value and the counter moves on by one.
pub open spec fn assign_id(m: Map<u128, u64>, c: u64, ip: u128) -> (Map<u128, u64>, u64) {
    if m.contains_key(ip) {
        (m, c)
    } else {
        (m.insert(ip, c), (c + 1) as u64)
    }
}

/// The index after the hop and then the target of an observation were seen.
pub open spec fn assign_pair(m: Map<u128, u64>, c: u64, target: u128, hop: u128) -> (
    Map<u128, u64>,
    u64,
) {
    let (m1, c1) = assign_id(m, c, hop);
    assign_id(m1, c1, target)
}

/// An index is sound when it is injective and every identifier lies below
/// the counter.
pub open spec fn index_wf(m: Map<u128, u64>, c: u64) -> bool {
    &&& forall|ip: u128| #[trigger] m.contains_key(ip) ==> m[ip] < c
    &&& forall|a: u128, b: u128|
        #[trigger] m.contains_key(a) && #[trigger] m.contains_key(b) && a != b ==> m[a] != m[b]
}

/// Seeing an address keeps the index sound, and every address keeps its
/// identifier from then on.
pub proof fn lemma_assign_id_stable(m: Map<u128, u64>, c: u64, ip: u128)
    requires
        index_wf(m, c),
        c < u64::MAX,
    ensures
        index_wf(assign_id(m, c, ip).0, assign_id(m, c, ip).1),
        assign_id(m, c, ip).0.contains_key(ip),
        forall|x: u128| #[trigger]
            m.contains_key(x) ==> assign_id(m, c, ip).0.contains_key(x) && assign_id(m, c, ip).0[x]
                == m[x],
        m.contains_key(ip) ==> assign_id(m, c, ip).1 == c,
        !m.contains_key(ip) ==> assign_id(m, c, ip).0[ip] == c && assign_id(m, c, ip).1 == c + 1,
{
}

/// Why a row was not recorded.
#[derive(PartialEq, Eq, Structural, Debug, Clone, Copy)]
pub enum IngestError {
    /// The row's address family is not the configured one.
    WrongFamily,
}

pub open spec fn row_type(row: YarrpRow) -> IpType {
    match row {
        YarrpRow::V4(_) => IpType::V4,
        YarrpRow::V6(_) => IpType::V6,
    }
}

/// The target of a row, widened to 128 bits.
pub open spec fn row_target(row: YarrpRow) -> u128 {
    match row {
        YarrpRow::V4(v) => v.target_ip as u128,
        YarrpRow::V6(v) => v.target_ip,
    }
}

pub open spec fn row_hop(row: YarrpRow) -> u128 {
    match row {
        YarrpRow::V4(v) => v.hop_ip as u128,
        YarrpRow::V6(v) => v.hop_ip,
    }
}

pub open spec fn row_hop_count(row: YarrpRow) -> u8 {
    match row {
        YarrpRow::V4(v) => v.hop_count,
        YarrpRow::V6(v) => v.hop_count,
    }
}

/// The bucket key of a row's target, by its family.
pub open spec fn row_bucket(row: YarrpRow) -> u8 {
    match row {
        YarrpRow::V4(v) => bucket_v4(v.target_ip),
        YarrpRow::V6(v) => bucket_v6(v.target_ip),
    }
}

/// The identifier of `ip` in `index`; a new address gets the counter's
/// value and the counter moves on by one.
pub fn get_or_put(index: &mut HashMap<u128, u64>, ip: u128, counter: &mut u64) -> (r: u64)
    requires
        index_wf(old(index)@, *old(counter)),
        *old(counter) < u64::MAX,
    ensures
        (final(index)@, *final(counter)) == assign_id(old(index)@, *old(counter), ip),
        r == final(index)@[ip],
        index_wf(final(index)@, *final(counter)),
{
    proof {
        lemma_assign_id_stable(index@, *counter, ip);
    }
    match index.get(&ip) {
        Some(id) => *id,
        None => {
            let new_node_id = *counter;
            *counter = *counter + 1;
            index.insert(ip, new_node_id);
            new_node_id
        },
    }
}

/// Identifiers of one observation are stable: both addresses end up in the
/// index, every address already there keeps its identifier, and each new
/// address takes the counter's value at its turn, hop first.
pub proof fn lemma_assign_pair_stable(m: Map<u128, u64>, c: u64, target: u128, hop: u128)
    requires
        index_wf(m, c),
        c + 2 <= u64::MAX,
    ensures
        ({
            let (m2, c2) = assign_pair(m, c, target, hop);
            &&& index_wf(m2, c2)
            &&& m2.contains_key(target) && m2.contains_key(hop)
            &&& forall|x: u128| #[trigger] m.contains_key(x) ==> m2.contains_key(x) && m2[x] == m[x]
            &&& !m.contains_key(hop) ==> m2[hop] == c
            &&& !m.contains_key(target) && target != hop ==> m2[target] == assign_id(m, c, hop).1
            &&& c2 == c + (if m.contains_key(hop) { 0int } else { 1int }) + (if m.contains_key(target) || target == hop { 0int } else { 1int })
        }),
{
    lemma_assign_id_stable(m, c, hop);
    let (m1, c1) = assign_id(m, c, hop);
    lemma_assign_id_stable(m1, c1, target);
}

/// Some address of `m` has the identifier `id`.
pub open spec fn id_taken(m: Map<u128, u64>, id: u64) -> bool {
    exists|ip: u128| #[trigger] m.contains_key(ip) && m[ip] == id
}

/// The identifiers of `m` are exactly `base .. c`, each used once.
pub open spec fn index_dense(m: Map<u128, u64>, base: u64, c: u64) -> bool {
    &&& index_wf(m, c)
    &&& base <= c
    &&& m.dom().finite()
    &&& m.len() == c - base
    &&& forall|ip: u128| #[trigger] m.contains_key(ip) ==> base <= m[ip]
    &&& forall|id: u64| base <= id < c ==> #[trigger] id_taken(m, id)
}

/// Assigning identifiers keeps them dense: started from an empty index with
/// counter `base`, the identifiers handed out are exactly `base .. counter`,
/// so the highest one is `counter - 1` and their number is `counter - base`.
pub proof fn lemma_assign_keeps_dense(m: Map<u128, u64>, base: u64, c: u64, ip: u128)
    requires
        index_dense(m, base, c),
        c < u64::MAX,
    ensures
        index_dense(assign_id(m, c, ip).0, base, assign_id(m, c, ip).1),
        assign_id(m, c, ip).1 > base ==> id_taken(assign_id(m, c, ip).0, (assign_id(m, c, ip).1 - 1) as u64),
{
    lemma_assign_id_stable(m, c, ip);
    let (m2, c2) = assign_id(m, c, ip);
    if !m.contains_key(ip) {
        assert(m2.len() == m.len() + 1);
        assert forall|id: u64| base <= id < c2 implies #[trigger] id_taken(m2, id) by {
            if id == c {
                assert(m2.contains_key(ip) && m2[ip] == id);
            } else {
                assert(id_taken(m, id));
                let x = choose|x: u128| #[trigger] m.contains_key(x) && m[x] == id;
                assert(m2.contains_key(x) && m2[x] == id);
            }
        }
    }
    if c2 > base {
        assert(id_taken(m2, (c2 - 1) as u64));
    }
}

/// The mapping from addresses to identifiers can be read backwards: in a
/// sound index, the only address with the identifier of `ip` is `ip`.
pub proof fn lemma_mapping_round_trip(m: Map<u128, u64>, c: u64, ip: u128, other: u128)
    requires
        index_wf(m, c),
        m.contains_key(ip),
        m.contains_key(other),
        m[other] == m[ip],
    ensures
        other == ip,
{
}

pub open spec fn digit_char(d: int) -> char {
    (48 + d) as char
}

/// The decimal digits of `n`, without leading zeros.
pub open spec fn decimal_chars(n: u8) -> Seq<char> {
    let v = n as int;
    if v < 10 {
        seq![digit_char(v)]
    } else if v < 100 {
        seq![digit_char(v / 10), digit_char(v % 10)]
    } else {
        seq![digit_char(v / 100), digit_char((v / 10) % 10), digit_char(v % 10)]
    }
}

/// The file name of the shard with key `bucket_id`: `yarrp.<key>.bin`.
pub open spec fn shard_file_name(bucket_id: u8) -> Seq<char> {
    "yarrp."@ + decimal_chars(bucket_id) + ".bin"@
}

/// Relies on `std::fmt::format`: `{}` writes an integer in decimal digits,
/// without leading zeros.
#[verifier::external_body]
fn decimal_string(v: u8) -> (r: String)
    ensures
        r@ == decimal_chars(v),
{
    format!("{}", v)
}

/// The file name of the shard with key `bucket_id`.
fn bucket_file_name(bucket_id: u8) -> (r: String)
    ensures
        r@ == shard_file_name(bucket_id),
{
    let digits = decimal_string(bucket_id);
    proof {
        reveal_strlit("yarrp.");
        reveal_strlit(".bin");
    }
    String::from_str("yarrp.").concat(digits.as_str()).concat(".bin")
}

/// The shard file of `bucket_id` inside `dir`.
fn create_path_for_bucket_id(dir: &String, bucket_id: u8) -> (r: String)
    ensures
        r@ == joined(dir@, shard_file_name(bucket_id)),
{
    let name = bucket_file_name(bucket_id);
    join_path(dir, name.as_str())
}

/// The resident shards of one input file, and the global address index.
pub struct GraphBucketManager {
    buckets: HashMap<u8, GraphBucket>,
    bucket_order: Vec<u8>,
    global_ip_mapping: HashMap<u128, u64>,
    id_counter: u64,
    intermediate_path: String,
}

impl GraphBucketManager {
    /// The identifier of every address seen so far.
    pub closed spec fn spec_mapping(&self) -> Map<u128, u64> {
        self.global_ip_mapping@
    }

    /// The identifier that the next new address receives.
    pub closed spec fn spec_counter(&self) -> u64 {
        self.id_counter
    }

    /// The contents of the shard with key `b`; empty while it is not resident.
    pub closed spec fn spec_shard(&self, b: u8) -> Map<u64, Seq<(u64, u8)>> {
        if self.buckets@.contains_key(b) {
            self.buckets@[b]@
        } else {
            Map::empty()
        }
    }

    /// The keys of the resident shards, in the order they were opened.
    pub closed spec fn spec_bucket_order(&self) -> Seq<u8> {
        self.bucket_order@
    }

    pub closed spec fn wf(&self) -> bool {
        &&& index_wf(self.global_ip_mapping@, self.id_counter)
        &&& self.bucket_order@.no_duplicates()
        &&& forall|b: u8| #[trigger] self.buckets@.contains_key(b) <==> self.bucket_order@.contains(b)
        &&& forall|b: u8| #[trigger] self.buckets@.contains_key(b) ==> self.buckets@[b].wf()
            && self.buckets@[b].spec_file_path() == joined(self.intermediate_path@, shard_file_name(b))
    }

    /// The directory the shard files go to.
    pub closed spec fn spec_intermediate_path(&self) -> Seq<char> {
        self.intermediate_path@
    }

    /// At most one shard per bucket key is resident, so never more than
    /// `BUCKET_COUNT` shards are held in memory.
    pub proof fn lemma_resident_bounded(&self)
        requires
            self.wf(),
        ensures
            self.spec_bucket_order().len() <= BUCKET_COUNT,
    {
        let s = self.bucket_order@;
        let t = s.map_values(|b: u8| b as int);
        assert(t.no_duplicates()) by {
            assert forall|i: int, j: int| 0 <= i < j < t.len() implies t[i] != t[j] by {
                assert(s[i] != s[j]);
            }
        }
        t.unique_seq_to_set();
        vstd::set_lib::lemma_int_range(0, 256);
        assert(t.to_set().subset_of(vstd::set_lib::set_int_range(0, 256))) by {
            assert forall|x: int| t.to_set().contains(x) implies vstd::set_lib::set_int_range(0, 256).contains(x) by {
                let i = choose|i: int| 0 <= i < t.len() && t[i] == x;
                assert(t[i] == s[i] as int);
            }
        }
        vstd::set_lib::lemma_len_subset(t.to_set(), vstd::set_lib::set_int_range(0, 256));
    }

    /// A manager with no resident shard, continuing the index `(global_ip_mapping, counter)`.
    pub fn new(intermediate_path: String, global_ip_mapping: HashMap<u128, u64>, counter: u64) -> (r:
        GraphBucketManager)
        requires
            index_wf(global_ip_mapping@, counter),
        ensures
            r.wf(),
            r.spec_mapping() == global_ip_mapping@,
            r.spec_counter() == counter,
            r.spec_bucket_order() == Seq::<u8>::empty(),
            r.spec_intermediate_path() == intermediate_path@,
            forall|b: u8| r.spec_shard(b) == Map::<u64, Seq<(u64, u8)>>::empty(),
    {
        GraphBucketManager {
            buckets: HashMap::new(),
            bucket_order: Vec::new(),
            global_ip_mapping,
            id_counter: counter,
            intermediate_path,
        }
    }

    /// The identifier that the next new address receives.
    pub fn id_counter(&self) -> (r: u64)
        ensures
            r == self.spec_counter(),
    {
        self.id_counter
    }

    /// Looks up `ip`, giving it the next identifier when it is new.
    fn node_id(&mut self, ip: u128) -> (r: u64)
        requires
            old(self).wf(),
            old(self).id_counter < u64::MAX,
        ensures
            final(self).wf(),
            (final(self).spec_mapping(), final(self).spec_counter()) == assign_id(
                old(self).spec_mapping(),
                old(self).spec_counter(),
                ip,
            ),
            r == final(self).spec_mapping()[ip],
            final(self).buckets == old(self).buckets,
            final(self).bucket_order == old(self).bucket_order,
            final(self).intermediate_path == old(self).intermediate_path,
    {
        get_or_put(&mut self.global_ip_mapping, ip, &mut self.id_counter)
    }

    /// Replaces the addresses of an observation by their identifiers, hop first.
    fn convert_to_internal_node_v6(&mut self, node: &NodeV6) -> (r: InternalNode)
        requires
            old(self).wf(),
            old(self).spec_counter() + 2 <= u64::MAX,
        ensures
            final(self).wf(),
            (final(self).spec_mapping(), final(self).spec_counter()) == assign_pair(
                old(self).spec_mapping(),
                old(self).spec_counter(),
                node.target_ip,
                node.hop_ip,
            ),
            r.target_id == final(self).spec_mapping()[node.target_ip],
            r.hop_id == final(self).spec_mapping()[node.hop_ip],
            r.hop_count == node.hop_count,
            final(self).buckets == old(self).buckets,
            final(self).bucket_order == old(self).bucket_order,
            final(self).intermediate_path == old(self).intermediate_path,
    {
        let hop_node_id = self.node_id(node.hop_ip);
        let ghost mid = self.global_ip_mapping@;
        let ghost mid_c = self.id_counter;
        let target_node_id = self.node_id(node.target_ip);
        proof {
            lemma_assign_id_stable(mid, mid_c, node.target_ip);
            assert(mid.contains_key(node.hop_ip));
        }
        InternalNode { target_id: target_node_id, hop_id: hop_node_id, hop_count: node.hop_count }
    }

    /// Appends `node` to the shard with key `bucket_id`, opening the shard when
    /// it is not resident.
    fn add_to_bucket(&mut self, bucket_id: u8, node: InternalNode)
        requires
            old(self).wf(),
        ensures
            final(self).wf(),
            final(self).spec_shard(bucket_id) == old(self).spec_shard(bucket_id).insert(
                node.target_id,
                hops_of(old(self).spec_shard(bucket_id), node.target_id).push(
                    (node.hop_id, node.hop_count),
                ),
            ),
            forall|b: u8| b != bucket_id ==> final(self).spec_shard(b) == old(self).spec_shard(b),
            final(self).spec_mapping() == old(self).spec_mapping(),
            final(self).spec_counter() == old(self).spec_counter(),
            final(self).spec_bucket_order() == if old(self).spec_bucket_order().contains(bucket_id) {
                old(self).spec_bucket_order()
            } else {
                old(self).spec_bucket_order().push(bucket_id)
            },
    {
        let removed = self.buckets.remove(&bucket_id);
        let mut bucket = match removed {
            Some(b) => b,
            None => {
                proof {
                    assert(!old(self).bucket_order@.contains(bucket_id));
                }
                self.bucket_order.push(bucket_id);
                let path = create_path_for_bucket_id(&self.intermediate_path, bucket_id);
                let b = GraphBucket::new(path);
                b
            },
        };
        assert(bucket@ == old(self).spec_shard(bucket_id));
        bucket.add_node(node);
        self.buckets.insert(bucket_id, bucket);
        proof {
            assert forall|b: u8| #[trigger] self.buckets@.contains_key(b) <==> self.bucket_order@.contains(b) by {
                assert(old(self).buckets@.contains_key(b) <==> old(self).bucket_order@.contains(b));
                if !old(self).bucket_order@.contains(bucket_id) {
                    if b != bucket_id && self.bucket_order@.contains(b) {
                        let i = choose|i: int| 0 <= i < self.bucket_order@.len() && self.bucket_order@[i] == b;
                        assert(i < old(self).bucket_order@.len());
                        assert(old(self).bucket_order@.contains(b));
                    }
                    if old(self).bucket_order@.contains(b) {
                        let i = choose|i: int| 0 <= i < old(self).bucket_order@.len() && old(self).bucket_order@[i] == b;
                        assert(self.bucket_order@[i] == b);
                    }
                    assert(self.bucket_order@[self.bucket_order@.len() - 1] == bucket_id);
                }
            }
            assert forall|b: u8| #[trigger] self.buckets@.contains_key(b) implies self.buckets@[b].wf()
                && self.buckets@[b].spec_file_path() == joined(self.intermediate_path@, shard_file_name(b)) by {
                if b != bucket_id {
                    assert(old(self).buckets@.contains_key(b));
                }
            }
            if !old(self).bucket_order@.contains(bucket_id) {
                assert(self.bucket_order@.no_duplicates()) by {
                    assert forall|i: int, j: int|
                        0 <= i < j < self.bucket_order@.len() implies self.bucket_order@[i]
                        != self.bucket_order@[j] by {
                        if j == self.bucket_order@.len() - 1 {
                            assert(old(self).bucket_order@.contains(old(self).bucket_order@[i]));
                        }
                    }
                }
            }
            assert forall|b: u8| b != bucket_id implies self.spec_shard(b) == old(self).spec_shard(b) by {
                assert(self.buckets@.contains_key(b) == old(self).buckets@.contains_key(b));
            }
        }
    }

    /// Records an IPv4 observation: assigns identifiers to its target and hop
    /// and appends it to the shard of the target's bucket key.
    pub fn add_node_v4(&mut self, node: NodeV4)
        requires
            old(self).wf(),
            old(self).spec_counter() + 2 <= u64::MAX,
        ensures
            final(self).wf(),
            ({
                let (m, c) = assign_pair(
                    old(self).spec_mapping(),
                    old(self).spec_counter(),
                    node.target_ip as u128,
                    node.hop_ip as u128,
                );
                let b = bucket_v4(node.target_ip);
                let t = m[node.target_ip as u128];
                &&& final(self).spec_mapping() == m
                &&& final(self).spec_counter() == c
                &&& final(self).spec_shard(b) == old(self).spec_shard(b).insert(
                    t,
                    hops_of(old(self).spec_shard(b), t).push((m[node.hop_ip as u128], node.hop_count)),
                )
                &&& forall|o: u8| o != b ==> final(self).spec_shard(o) == old(self).spec_shard(o)
            }),
    {
        let bucket_id = calculate_bucket_id_v4(node.target_ip);
        let wide = NodeV6 { target_ip: node.target_ip as u128, hop_ip: node.hop_ip as u128, hop_count: node.hop_count };
        let internal_node = self.convert_to_internal_node_v6(&wide);
        self.add_to_bucket(bucket_id, internal_node);
    }

    /// Records an IPv6 observation: assigns identifiers to its target and hop
    /// and appends it to the shard of the target's bucket key.
    pub fn add_node_v6(&mut self, node: NodeV6)
        requires
            old(self).wf(),
            old(self).spec_counter() + 2 <= u64::MAX,
        ensures
            final(self).wf(),
            ({
                let (m, c) = assign_pair(
                    old(self).spec_mapping(),
                    old(self).spec_counter(),
                    node.target_ip,
                    node.hop_ip,
                );
                let b = bucket_v6(node.target_ip);
                let t = m[node.target_ip];
                &&& final(self).spec_mapping() == m
                &&& final(self).spec_counter() == c
                &&& final(self).spec_shard(b) == old(self).spec_shard(b).insert(
                    t,
                    hops_of(old(self).spec_shard(b), t).push((m[node.hop_ip], node.hop_count)),
                )
                &&& forall|o: u8| o != b ==> final(self).spec_shard(o) == old(self).spec_shard(o)
            }),
    {
        let bucket_id = calculate_bucket_id_v6(node.target_ip);
        let internal_node = self.convert_to_internal_node_v6(&node);
        self.add_to_bucket(bucket_id, internal_node);
    }

    /// Records a parsed row. A row whose address family differs from
    /// `expected` is refused and changes nothing.
    pub fn add_record(&mut self, row: YarrpRow, expected: IpType) -> (r: Result<(), IngestError>)
        requires
            old(self).wf(),
            old(self).spec_counter() + 2 <= u64::MAX,
        ensures
            final(self).wf(),
            r is Err <==> row_type(row) != expected,
            r is Err ==> r == Err::<(), IngestError>(IngestError::WrongFamily) && final(self).spec_mapping()
                == old(self).spec_mapping() && final(self).spec_counter() == old(self).spec_counter()
                && forall|o: u8| final(self).spec_shard(o) == old(self).spec_shard(o),
            r is Ok ==> ({
                let (m, c) = assign_pair(
                    old(self).spec_mapping(),
                    old(self).spec_counter(),
                    row_target(row),
                    row_hop(row),
                );
                let b = row_bucket(row);
                let t = m[row_target(row)];
                &&& final(self).spec_mapping() == m
                &&& final(self).spec_counter() == c
                &&& final(self).spec_shard(b) == old(self).spec_shard(b).insert(
                    t,
                    hops_of(old(self).spec_shard(b), t).push((m[row_hop(row)], row_hop_count(row))),
                )
                &&& forall|o: u8| o != b ==> final(self).spec_shard(o) == old(self).spec_shard(o)
            }),
    {
        match row {
            YarrpRow::V4(v4) => {
                if expected != IpType::V4 {
                    return Err(IngestError::WrongFamily);
                }
                self.add_node_v4(NodeV4 { target_ip: v4.target_ip, hop_ip: v4.hop_ip, hop_count: v4.hop_count });
                Ok(())
            },
            YarrpRow::V6(v6) => {
                if expected != IpType::V6 {
                    return Err(IngestError::WrongFamily);
                }
                self.add_node_v6(NodeV6 { target_ip: v6.target_ip, hop_ip: v6.hop_ip, hop_count: v6.hop_count });
                Ok(())
            },
        }
    }

    /// Hands out every resident shard, in the order the shards were opened,
    /// as its key, its file and its contents, and leaves none resident.
    pub fn store_buckets_to_disk(&mut self) -> (r: Vec<(u8, String, Vec<(u64, Vec<(u64, u8)>)>)>)
        requires
            old(self).wf(),
        ensures
            final(self).wf(),
            final(self).spec_mapping() == old(self).spec_mapping(),
            final(self).spec_counter() == old(self).spec_counter(),
            final(self).spec_bucket_order() == Seq::<u8>::empty(),
            forall|b: u8| final(self).spec_shard(b) == Map::<u64, Seq<(u64, u8)>>::empty(),
            r@.len() == old(self).spec_bucket_order().len(),
            forall|i: int|
                0 <= i < r@.len() ==> r@[i].0 == old(self).spec_bucket_order()[i] && entries_match(
                    r@[i].2@,
                    old(self).spec_shard(r@[i].0),
                ) && r@[i].1@ == joined(old(self).spec_intermediate_path(), shard_file_name(r@[i].0)),
    {
        let mut buckets = HashMap::new();
        let mut order = Vec::new();
        std::mem::swap(&mut buckets, &mut self.buckets);
        std::mem::swap(&mut order, &mut self.bucket_order);
        let ghost old_buckets = buckets@;
        let mut r: Vec<(u8, String, Vec<(u64, Vec<(u64, u8)>)>)> = Vec::new();
        let mut i: usize = 0;
        proof {
            assert forall|j: int| 0 <= j < order@.len() implies buckets@.contains_key(
                #[trigger] order@[j],
            ) && buckets@[order@[j]] == old_buckets[order@[j]] && old_buckets.contains_key(order@[j]) by {
                assert(order@.contains(order@[j]));
            }
        }
        while i < order.len()
            invariant
                0 <= i <= order@.len(),
                order@ == old(self).bucket_order@,
                order@.no_duplicates(),
                old_buckets == old(self).buckets@,
                forall|b: u8| #[trigger] old_buckets.contains_key(b) ==> old_buckets[b].wf()
                    && old_buckets[b].spec_file_path() == joined(old(self).intermediate_path@, shard_file_name(b)),
                forall|j: int| 0 <= j < order@.len() ==> old_buckets.contains_key(#[trigger] order@[j]),
                forall|j: int|
                    i <= j < order@.len() ==> buckets@.contains_key(#[trigger] order@[j])
                        && buckets@[order@[j]] == old_buckets[order@[j]],
                r@.len() == i,
                forall|j: int|
                    0 <= j < i ==> r@[j].0 == order@[j] && entries_match(
                        r@[j].2@,
                        old(self).spec_shard(r@[j].0),
                    ) && r@[j].1@ == joined(old(self).intermediate_path@, shard_file_name(r@[j].0)),
                self.intermediate_path == old(self).intermediate_path,
                self.buckets@ == Map::<u8, GraphBucket>::empty(),
                self.bucket_order@ == Seq::<u8>::empty(),
                self.global_ip_mapping@ == old(self).global_ip_mapping@,
                self.id_counter == old(self).id_counter,
            decreases order@.len() - i,
        {
            let b = order[i];
            let bucket = match buckets.remove(&b) {
                Some(x) => x,
                None => GraphBucket::new(String::new()),
            };
            proof {
                assert(old_buckets.contains_key(b));
                assert forall|j: int| i + 1 <= j < order@.len() implies buckets@.contains_key(
                    #[trigger] order@[j],
                ) && buckets@[order@[j]] == old_buckets[order@[j]] by {
                    assert(order@[j] != order@[i as int]);
                }
            }
            let path = bucket.file_path.clone();
            proof {
                assert(bucket == old_buckets[b]);
                assert(path@ == joined(old(self).intermediate_path@, shard_file_name(b)));
            }
            let contents = bucket.edge_map();
            r.push((b, path, contents));
            i = i + 1;
        }
        r
    }

    /// Gives the address index back: the identifier of every address seen,
    /// and the identifier that the next new address would receive.
    pub fn into_index(self) -> (r: (HashMap<u128, u64>, u64))
        ensures
            r.0@ == self.spec_mapping(),
            r.1 == self.spec_counter(),
    {
        (self.global_ip_mapping, self.id_counter)
    }
}

} // verus!
