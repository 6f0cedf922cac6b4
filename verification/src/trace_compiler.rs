//! Compiles sorted events into a continuous walk on the Boolean hypercube:
//! one active row per event, joined by routing rows along shortest paths.
//! Each row holds the raw 32-bit words that the prover's BabyBear columns
//! receive.
use crate::ctopology::{lemma_path_reaches_target, set_bits_below, walk, Hypercube};
use crate::event::{strings_view, EventView};
use crate::event_map::EventMap;
use crate::kahn::{kahn_order, lean_kahn_sort};
use std::collections::hash_map::DefaultHasher;
use std::hash::Hasher;
use vstd::std_specs::hash::DefaultHasherAdditionalSpecFns;
use vstd::arithmetic::power2::pow2;
use vstd::prelude::*;

verus! {

/// One row of the hypercube trace (raw column words).
#[derive(Clone, Copy, Debug, PartialEq, Eq, Structural)]
pub struct HypercubeTraceRow {
    pub is_active: u32,
    pub node_id: u32,
    pub dimension_flip: u32,
    // Matrix V2.1 Tie-Break Columns
    pub event_id: u32,
    pub power_level: u32,
    pub timestamp: u32,
    // Auxiliary Cryptographic Columns (Sub-Circuit Results)
    pub is_signature_valid: u32,
}

/// A routing row: the walk passes `node`, arriving over dimension `dim`.
pub open spec fn routing_row(node: usize, dim: usize) -> HypercubeTraceRow {
    HypercubeTraceRow {
        is_active: 0,
        node_id: node as u32,
        dimension_flip: dim as u32,
        event_id: 0,
        power_level: 0,
        timestamp: 0,
        is_signature_valid: 0,
    }
}

/// The active row of event `e` (with hashed id `hash`) at `node`.
pub open spec fn active_row(node: usize, dim: usize, hash: u32, e: EventView) -> HypercubeTraceRow {
    HypercubeTraceRow {
        is_active: 1,
        node_id: node as u32,
        dimension_flip: dim as u32,
        event_id: hash,
        power_level: e.power_level as u32,
        timestamp: (e.origin_server_ts % 0xFFFF_FFFF) as u32,
        is_signature_valid: 1,
    }
}

/// The rows of a route from `cur` along `path`: a routing row per hop and
/// the event's active row at the last hop.
pub open spec fn hop_rows(cur: usize, path: Seq<usize>, hash: u32, e: EventView) -> Seq<HypercubeTraceRow> {
    Seq::new(
        path.len(),
        |i: int|
            if i == path.len() - 1 {
                active_row(walk(cur, path.take(i + 1)), path[i], hash, e)
            } else {
                routing_row(walk(cur, path.take(i + 1)), path[i])
            },
    )
}

/// The rows that bring event `e` from node `cur` to node `target`: the
/// shortest route, or, when already there, a step out over dimension 0
/// and back.
pub open spec fn event_rows(cur: usize, target: usize, dimension: usize, hash: u32, e: EventView) -> Seq<HypercubeTraceRow> {
    let path = set_bits_below(cur ^ target, dimension as nat);
    if path.len() == 0 {
        seq![routing_row(cur ^ 1usize, 0), active_row(cur, 0, hash, e)]
    } else {
        hop_rows(cur, path, hash, e)
    }
}

/// The node that event `k` (after the first) is routed to.
pub open spec fn target_node(hashes: Seq<u32>, k: int, num_nodes: usize) -> usize {
    ((hashes[k] as usize) % num_nodes) as usize
}

/// The node the walk stands on after event `k`: the first event sits at
/// node 0, every later one at its target node.
pub open spec fn node_after(hashes: Seq<u32>, k: int, num_nodes: usize) -> usize {
    if k == 0 {
        0
    } else {
        target_node(hashes, k, num_nodes)
    }
}

/// The trace of the first `k` sorted events.
pub open spec fn trace_prefix(
    ids: Seq<Seq<char>>,
    m: Map<Seq<char>, EventView>,
    hashes: Seq<u32>,
    dimension: usize,
    num_nodes: usize,
    k: nat,
) -> Seq<HypercubeTraceRow>
    decreases k,
{
    if k == 0 {
        Seq::empty()
    } else if k == 1 {
        seq![active_row(0, 0, hashes[0], m[ids[0]])]
    } else {
        trace_prefix(ids, m, hashes, dimension, num_nodes, (k - 1) as nat) + event_rows(
            node_after(hashes, k - 2, num_nodes),
            target_node(hashes, k - 1, num_nodes),
            dimension,
            hashes[k - 1],
            m[ids[k - 1]],
        )
    }
}

/// The trace of the events `ids` (in order), with hashed ids `hashes`, on
/// the smallest hypercube that holds them.
pub open spec fn trace_of(ids: Seq<Seq<char>>, m: Map<Seq<char>, EventView>, hashes: Seq<u32>, dimension: usize, num_nodes: usize) -> Seq<HypercubeTraceRow> {
    trace_prefix(ids, m, hashes, dimension, num_nodes, ids.len())
}

/// The 32-bit word of an event id: the low 32 bits of the `DefaultHasher`
/// hash of the id (hashing a `str` writes its UTF-8 bytes, then `0xff`).
pub open spec fn event_id_hash(id: Seq<char>) -> u32 {
    (DefaultHasher::spec_finish(seq![vstd::utf8::encode_utf8(id), seq![0xffu8]]) & 0xFFFF_FFFFu64) as u32
}

/// The hashed ids of a sequence of ids.
pub open spec fn hashes_of(ids: Seq<Seq<char>>) -> Seq<u32> {
    ids.map_values(|id: Seq<char>| event_id_hash(id))
}

/// Helper to hash a Matrix Event ID into a 32-bit field word.
pub fn hash_event_id(id: &str) -> (r: u32)
    ensures
        r == event_id_hash(id@),
{
    let mut hasher = DefaultHasher::new();
    // `str` hashes as its bytes followed by the 0xff terminator.
    hasher.write(id.as_bytes());
    let terminator: [u8; 1] = [0xffu8];
    hasher.write(&terminator);
    proof {
        assert(terminator@ =~= seq![0xffu8]);
        assert(hasher@ =~= seq![vstd::utf8::encode_utf8(id@), seq![0xffu8]]);
    }
    let h = hasher.finish();
    (h & 0xFFFF_FFFFu64) as u32
}

/// The active row of an event.
fn make_active_row(node: usize, dim: usize, hash: u32, power_level: i64, ts: u64) -> (r: HypercubeTraceRow)
    ensures
        r == (HypercubeTraceRow {
            is_active: 1,
            node_id: node as u32,
            dimension_flip: dim as u32,
            event_id: hash,
            power_level: power_level as u32,
            timestamp: (ts % 0xFFFF_FFFF) as u32,
            is_signature_valid: 1,
        }),
{
    HypercubeTraceRow {
        is_active: 1,
        node_id: node as u32,
        dimension_flip: dim as u32,
        event_id: hash,
        power_level: power_level as u32,
        timestamp: (ts % 0xFFFF_FFFFu64) as u32,
        is_signature_valid: 1,
    }
}

/// Compiles events, already sorted into `sorted_ids`, into a hypercube walk;
/// `hashes[k]` is the hashed id of `sorted_ids[k]`.
pub fn compile_sorted_trace(sorted_ids: &Vec<String>, events: &EventMap, hashes: &Vec<u32>) -> (r: Vec<HypercubeTraceRow>)
    requires
        hashes.len() == sorted_ids.len(),
        sorted_ids.len() as nat <= pow2((usize::BITS - 1) as nat),
        forall|k: int| 0 <= k < sorted_ids.len() ==> events@.dom().contains(#[trigger] sorted_ids@[k]@),
    ensures
        sorted_ids.len() == 0 ==> r@.len() == 0,
        sorted_ids.len() > 0 ==> (exists|h: Hypercube| {
            &&& h.dimension < usize::BITS
            &&& crate::ctopology::min_dimension_for(sorted_ids.len() as nat, h.dimension as nat)
            &&& h.num_nodes as nat == pow2(h.dimension as nat)
            &&& r@ == trace_of(strings_view(sorted_ids@), events@, hashes@, h.dimension, h.num_nodes)
        }),
        active_entries(r@).len() == sorted_ids.len(),
        forall|k: int|
            0 <= k < sorted_ids.len() ==> {
                let row = #[trigger] active_entries(r@)[k];
                &&& row.event_id == hashes@[k]
                &&& row.power_level == events@[sorted_ids@[k]@].power_level as u32
                &&& row.timestamp == (events@[sorted_ids@[k]@].origin_server_ts % 0xFFFF_FFFF) as u32
                &&& row.is_signature_valid == 1
            },
{
    if sorted_ids.len() == 0 {
        proof {
            assert(active_entries(Seq::<HypercubeTraceRow>::empty()) == Seq::<HypercubeTraceRow>::empty());
        }
        return Vec::new();
    }
    let ghost ids = strings_view(sorted_ids@);
    let ghost m = events@;
    // Dynamically size the hypercube based on the number of events.
    let hypercube = Hypercube::new(sorted_ids.len());
    proof {
        vstd::arithmetic::power2::lemma_pow2_pos(hypercube.dimension as nat);
    }
    let d = hypercube.dimension;
    let num_nodes = hypercube.num_nodes;
    let mut trace: Vec<HypercubeTraceRow> = Vec::new();

    // Initial mapping: event 0 at node 0.
    let mut current_node: usize = 0;
    let first_ev = match events.get(sorted_ids[0].as_str()) {
        Some(e) => e,
        None => {
            proof {
                assert(m.dom().contains(sorted_ids@[0]@));
            }
            return Vec::new();
        },
    };
    trace.push(make_active_row(0, 0, hashes[0], first_ev.power_level, first_ev.origin_server_ts));
    proof {
        assert(ids[0] == sorted_ids@[0]@);
        assert(trace@ =~= trace_prefix(ids, m, hashes@, d, num_nodes, 1));
    }
    let mut k: usize = 1;
    while k < sorted_ids.len()
        invariant
            1 <= k <= sorted_ids.len(),
            hashes.len() == sorted_ids.len(),
            ids == strings_view(sorted_ids@),
            m == events@,
            forall|j: int| 0 <= j < sorted_ids.len() ==> m.dom().contains(#[trigger] sorted_ids@[j]@),
            d == hypercube.dimension,
            num_nodes == hypercube.num_nodes,
            d < usize::BITS,
            num_nodes as nat == pow2(d as nat),
            num_nodes > 0,
            current_node == node_after(hashes@, k - 1, num_nodes),
            current_node < num_nodes,
            trace@ == trace_prefix(ids, m, hashes@, d, num_nodes, k as nat),
        decreases sorted_ids.len() - k,
    {
        let ev = match events.get(sorted_ids[k].as_str()) {
            Some(e) => e,
            None => {
                proof {
                    assert(m.dom().contains(sorted_ids@[k as int]@));
                }
                return Vec::new();
            },
        };
        proof {
            assert(ids[k as int] == sorted_ids@[k as int]@);
        }
        let hashed_id = hashes[k];
        // Heuristic mapping: map hashed ID to a node ID within the hypercube range.
        let target = (hashed_id as usize) % num_nodes;
        let ghost start = current_node;
        let ghost before = trace@;
        // Route from current_node to target_node
        let path = hypercube.get_path(current_node, target);
        proof {
            lemma_path_reaches_target(hypercube, current_node, target);
        }
        if path.len() == 0 {
            let dim: usize = 0;
            current_node = hypercube.step(current_node, dim);
            trace.push(HypercubeTraceRow {
                is_active: 0,
                node_id: current_node as u32,
                dimension_flip: dim as u32,
                event_id: 0,
                power_level: 0,
                timestamp: 0,
                is_signature_valid: 0,
            });
            current_node = hypercube.step(current_node, dim);
            trace.push(make_active_row(current_node, dim, hashed_id, ev.power_level, ev.origin_server_ts));
            proof {
                assert(1usize << 0usize == 1usize) by (bit_vector);
                assert((start ^ 1usize) ^ 1usize == start) by (bit_vector);
                assert(walk(start, path@) == start);
                assert(start == target);
                assert(trace@ =~= before + event_rows(start, target, d, hashed_id, ev@));
            }
        } else {
            let mut step_idx: usize = 0;
            while step_idx < path.len()
                invariant
                    step_idx <= path.len(),
                    path@ == set_bits_below(start ^ target, d as nat),
                    path@.len() > 0,
                    d == hypercube.dimension,
                    d < usize::BITS,
                    forall|i: int| 0 <= i < path@.len() ==> #[trigger] path@[i] < d,
                    current_node == walk(start, path@.take(step_idx as int)),
                    trace@ == before + hop_rows(start, path@, hashed_id, ev@).take(step_idx as int),
                decreases path.len() - step_idx,
            {
                let dim = path[step_idx];
                current_node = hypercube.step(current_node, dim);
                proof {
                    assert(path@.take(step_idx + 1).drop_last() =~= path@.take(step_idx as int));
                    assert(path@.take(step_idx + 1).last() == dim);
                }
                if step_idx == path.len() - 1 {
                    trace.push(make_active_row(current_node, dim, hashed_id, ev.power_level, ev.origin_server_ts));
                } else {
                    trace.push(HypercubeTraceRow {
                        is_active: 0,
                        node_id: current_node as u32,
                        dimension_flip: dim as u32,
                        event_id: 0,
                        power_level: 0,
                        timestamp: 0,
                        is_signature_valid: 0,
                    });
                }
                proof {
                    let hr = hop_rows(start, path@, hashed_id, ev@);
                    assert(hr.take(step_idx + 1) =~= hr.take(step_idx as int).push(hr[step_idx as int]));
                }
                step_idx = step_idx + 1;
            }
            proof {
                assert(path@.take(step_idx as int) =~= path@);
                assert(hop_rows(start, path@, hashed_id, ev@).take(step_idx as int) =~= hop_rows(start, path@, hashed_id, ev@));
                assert(trace@ =~= before + event_rows(start, target, d, hashed_id, ev@));
            }
        }
        proof {
            assert(target == target_node(hashes@, k as int, num_nodes));
            assert(current_node == node_after(hashes@, k as int, num_nodes));
        }
        k = k + 1;
    }
    proof {
        assert(trace@ == trace_of(ids, m, hashes@, d, num_nodes));
        lemma_active_rows_carry_events(ids, m, hashes@, d, num_nodes);
        assert forall|k: int| 0 <= k < sorted_ids.len() implies ids[k] == #[trigger] sorted_ids@[k]@ by {}
    }
    trace
}

/// Compiles Matrix events into a continuous hypercube walk.
pub struct TraceCompiler {
    pub hypercube: Hypercube,
}

impl TraceCompiler {
    /// A compiler over a reasonably sized hypercube (dimension 10, 1024
    /// nodes) for generic use.
    pub fn new() -> (r: Self)
        ensures
            r.hypercube.dimension == 10,
            r.hypercube.num_nodes == 1024,
    {
        TraceCompiler { hypercube: Hypercube::default() }
    }

    /// Compiles a sequence of unsorted Matrix events into a continuous Hypercube walk.
    /// The events are sorted first; no trace comes out when a cycle stops the
    /// sort. The rows depend on the hashed event ids, which are the only
    /// part not fixed here.
    pub fn compile_trace(&self, unsorted_events: &EventMap, version: crate::event::StateResVersion) -> (r: Vec<HypercubeTraceRow>)
        requires
            unsorted_events@.dom().len() <= pow2((usize::BITS - 1) as nat),
        ensures
            kahn_order(unsorted_events@, version).len() != unsorted_events@.dom().len()
                || unsorted_events@.dom().len() == 0 ==> r@.len() == 0,
            kahn_order(unsorted_events@, version).len() == unsorted_events@.dom().len()
                && unsorted_events@.dom().len() > 0 ==> (exists|h: Hypercube| {
                &&& h.dimension < usize::BITS
                &&& crate::ctopology::min_dimension_for(unsorted_events@.dom().len(), h.dimension as nat)
                &&& h.num_nodes as nat == pow2(h.dimension as nat)
                &&& r@ == trace_of(
                    kahn_order(unsorted_events@, version),
                    unsorted_events@,
                    hashes_of(kahn_order(unsorted_events@, version)),
                    h.dimension,
                    h.num_nodes,
                )
            }),
            active_entries(r@).len() == if kahn_order(unsorted_events@, version).len()
                == unsorted_events@.dom().len() {
                unsorted_events@.dom().len()
            } else {
                0
            },
            kahn_order(unsorted_events@, version).len() == unsorted_events@.dom().len() ==> forall|k: int|
                0 <= k < unsorted_events@.dom().len() ==> {
                    let row = #[trigger] active_entries(r@)[k];
                    let e = unsorted_events@[kahn_order(unsorted_events@, version)[k]];
                    &&& row.event_id == event_id_hash(kahn_order(unsorted_events@, version)[k])
                    &&& row.power_level == e.power_level as u32
                    &&& row.timestamp == (e.origin_server_ts % 0xFFFF_FFFF) as u32
                    &&& row.is_signature_valid == 1
                },
    {
        let sorted_ids = lean_kahn_sort(unsorted_events, version);
        unsorted_events.lemma_entries();
        proof {
            crate::kahn::lemma_kahn_order_characterized(unsorted_events@, version);
        }
        if sorted_ids.len() == 0 {
            proof {
                assert(active_entries(Seq::<HypercubeTraceRow>::empty()) == Seq::<HypercubeTraceRow>::empty());
            }
            return Vec::new();
        }
        let mut hashes: Vec<u32> = Vec::new();
        let mut i: usize = 0;
        while i < sorted_ids.len()
            invariant
                i <= sorted_ids.len(),
                hashes@ == hashes_of(strings_view(sorted_ids@)).take(i as int),
            decreases sorted_ids.len() - i,
        {
            hashes.push(hash_event_id(sorted_ids[i].as_str()));
            i = i + 1;
            assert(hashes@ =~= hashes_of(strings_view(sorted_ids@)).take(i as int));
        }
        assert(hashes@ =~= hashes_of(strings_view(sorted_ids@)));
        proof {
            let order = kahn_order(unsorted_events@, version);
            assert forall|k: int| 0 <= k < sorted_ids.len() implies unsorted_events@.dom().contains(#[trigger] sorted_ids@[k]@) by {
                assert(strings_view(sorted_ids@)[k] == sorted_ids@[k]@);
            }
        }
        let r = compile_sorted_trace(&sorted_ids, unsorted_events, &hashes);
        proof {
            assert forall|k: int| 0 <= k < sorted_ids.len() implies #[trigger] sorted_ids@[k]@ == kahn_order(
                unsorted_events@,
                version,
            )[k] && hashes@[k] == event_id_hash(kahn_order(unsorted_events@, version)[k]) by {
                assert(strings_view(sorted_ids@)[k] == sorted_ids@[k]@);
            }
        }
        r
    }
}

impl Default for TraceCompiler {
    fn default() -> (r: Self)
        ensures
            r.hypercube.dimension == 10,
            r.hypercube.num_nodes == 1024,
    {
        Self::new()
    }
}

/// The number of active rows.
pub open spec fn active_rows(rows: Seq<HypercubeTraceRow>) -> nat
    decreases rows.len(),
{
    if rows.len() == 0 {
        0
    } else {
        active_rows(rows.drop_last()) + if rows.last().is_active == 1 {
            1nat
        } else {
            0nat
        }
    }
}

/// Counting the rows of two pieces adds up.
proof fn lemma_active_rows_concat(a: Seq<HypercubeTraceRow>, b: Seq<HypercubeTraceRow>)
    ensures
        active_rows(a + b) == active_rows(a) + active_rows(b),
    decreases b.len(),
{
    if b.len() > 0 {
        lemma_active_rows_concat(a, b.drop_last());
        assert((a + b).drop_last() =~= a + b.drop_last());
    } else {
        assert(a + b =~= a);
    }
}

/// No more rows are active than there are rows.
proof fn lemma_active_rows_bound(rows: Seq<HypercubeTraceRow>)
    ensures
        active_rows(rows) <= rows.len(),
    decreases rows.len(),
{
    if rows.len() > 0 {
        lemma_active_rows_bound(rows.drop_last());
    }
}

/// Rows that are all inactive but the last, which is active, hold one
/// active row.
proof fn lemma_one_active(rows: Seq<HypercubeTraceRow>)
    requires
        rows.len() > 0,
        rows.last().is_active == 1,
        forall|i: int| 0 <= i < rows.len() - 1 ==> (#[trigger] rows[i]).is_active == 0,
    ensures
        active_rows(rows) == 1,
{
    let init = rows.drop_last();
    assert forall|n: nat| n <= init.len() implies active_rows(#[trigger] init.take(n as int)) == 0 by {
        lemma_none_active(init, n);
    }
    assert(init.take(init.len() as int) =~= init);
}

proof fn lemma_none_active(init: Seq<HypercubeTraceRow>, n: nat)
    requires
        n <= init.len(),
        forall|i: int| 0 <= i < init.len() ==> (#[trigger] init[i]).is_active == 0,
    ensures
        active_rows(init.take(n as int)) == 0,
    decreases n,
{
    if n > 0 {
        lemma_none_active(init, (n - 1) as nat);
        assert(init.take(n as int).drop_last() =~= init.take(n - 1));
    }
}

/// The rows that bring one event to its node hold exactly one active row:
/// the event's own.
pub proof fn lemma_event_rows_one_active(cur: usize, target: usize, dimension: usize, hash: u32, e: EventView)
    ensures
        active_rows(event_rows(cur, target, dimension, hash, e)) == 1,
{
    let path = set_bits_below(cur ^ target, dimension as nat);
    let rows = event_rows(cur, target, dimension, hash, e);
    if path.len() == 0 {
        lemma_one_active(rows);
    } else {
        assert forall|i: int| 0 <= i < rows.len() - 1 implies (#[trigger] rows[i]).is_active == 0 by {
        }
        lemma_one_active(rows);
    }
}

/// A trace holds exactly one active row per event; every other row is a
/// routing row.
pub proof fn lemma_one_active_row_per_event(
    ids: Seq<Seq<char>>,
    m: Map<Seq<char>, EventView>,
    hashes: Seq<u32>,
    dimension: usize,
    num_nodes: usize,
)
    ensures
        active_rows(trace_of(ids, m, hashes, dimension, num_nodes)) == ids.len(),
{
    lemma_prefix_active(ids, m, hashes, dimension, num_nodes, ids.len());
}

proof fn lemma_prefix_active(
    ids: Seq<Seq<char>>,
    m: Map<Seq<char>, EventView>,
    hashes: Seq<u32>,
    dimension: usize,
    num_nodes: usize,
    k: nat,
)
    ensures
        active_rows(trace_prefix(ids, m, hashes, dimension, num_nodes, k)) == k,
    decreases k,
{
    if k == 1 {
        let rows = trace_prefix(ids, m, hashes, dimension, num_nodes, k);
        assert(rows.drop_last() =~= Seq::<HypercubeTraceRow>::empty());
        assert(active_rows(rows.drop_last()) == 0);
        assert(rows.last().is_active == 1);
    } else if k > 1 {
        lemma_prefix_active(ids, m, hashes, dimension, num_nodes, (k - 1) as nat);
        lemma_event_rows_one_active(
            node_after(hashes, k - 2, num_nodes),
            target_node(hashes, k - 1, num_nodes),
            dimension,
            hashes[k - 1],
            m[ids[k - 1]],
        );
        lemma_active_rows_concat(
            trace_prefix(ids, m, hashes, dimension, num_nodes, (k - 1) as nat),
            event_rows(
                node_after(hashes, k - 2, num_nodes),
                target_node(hashes, k - 1, num_nodes),
                dimension,
                hashes[k - 1],
                m[ids[k - 1]],
            ),
        );
    }
}

/// The number of active rows of a trace.
pub fn count_active(rows: &Vec<HypercubeTraceRow>) -> (r: usize)
    ensures
        r == active_rows(rows@),
{
    let mut n: usize = 0;
    let mut i: usize = 0;
    while i < rows.len()
        invariant
            i <= rows.len(),
            n == active_rows(rows@.take(i as int)),
        decreases rows.len() - i,
    {
        proof {
            assert(rows@.take(i + 1).drop_last() =~= rows@.take(i as int));
            lemma_active_rows_bound(rows@.take(i as int));
        }
        if rows[i].is_active == 1 {
            n = n + 1;
        }
        i = i + 1;
    }
    assert(rows@.take(i as int) =~= rows@);
    n
}

/// There are no more set bits below `k` than `k`.
proof fn lemma_set_bits_len(x: usize, k: nat)
    ensures
        set_bits_below(x, k).len() <= k,
    decreases k,
{
    if k > 0 {
        lemma_set_bits_len(x, (k - 1) as nat);
    }
}

/// The most rows one event adds to a trace on a hypercube of dimension `d`.
pub open spec fn rows_per_event(d: usize) -> nat {
    if d >= 2 {
        d as nat
    } else {
        2
    }
}

/// Bringing an event to its node takes a shortest route: at most one row
/// per dimension (two when the walk is already there).
pub proof fn lemma_event_rows_bounded(cur: usize, target: usize, dimension: usize, hash: u32, e: EventView)
    ensures
        1 <= event_rows(cur, target, dimension, hash, e).len() <= rows_per_event(dimension),
{
    lemma_set_bits_len(cur ^ target, dimension as nat);
}

/// A trace of `n >= 1` events has at most `1 + (n - 1) * max(d, 2)` rows:
/// the routing cost grows with the logarithm of the number of events.
pub proof fn lemma_trace_length_bound(
    ids: Seq<Seq<char>>,
    m: Map<Seq<char>, EventView>,
    hashes: Seq<u32>,
    dimension: usize,
    num_nodes: usize,
)
    requires
        ids.len() >= 1,
    ensures
        ids.len() <= trace_of(ids, m, hashes, dimension, num_nodes).len() <= 1 + (ids.len() - 1) * rows_per_event(
            dimension,
        ),
{
    lemma_prefix_length(ids, m, hashes, dimension, num_nodes, ids.len());
}

proof fn lemma_prefix_length(
    ids: Seq<Seq<char>>,
    m: Map<Seq<char>, EventView>,
    hashes: Seq<u32>,
    dimension: usize,
    num_nodes: usize,
    k: nat,
)
    requires
        k >= 1,
    ensures
        k <= trace_prefix(ids, m, hashes, dimension, num_nodes, k).len() <= 1 + (k - 1) * rows_per_event(
            dimension,
        ),
    decreases k,
{
    if k > 1 {
        lemma_prefix_length(ids, m, hashes, dimension, num_nodes, (k - 1) as nat);
        lemma_event_rows_bounded(
            node_after(hashes, k - 2, num_nodes),
            target_node(hashes, k - 1, num_nodes),
            dimension,
            hashes[k - 1],
            m[ids[k - 1]],
        );
        let c = rows_per_event(dimension);
        assert(1 + (k - 2) * c + c == 1 + (k - 1) * c) by (nonlinear_arith);
    }
}

/// Two node ids differ in exactly one of their 32 bits: neighbours on the
/// hypercube.
pub open spec fn adjacent(a: u32, b: u32) -> bool {
    exists|j: u32| j < 32 && #[trigger] (a ^ b) == (1u32 << j)
}

/// Flipping one of the low 32 bits of a node gives a neighbour.
proof fn lemma_flip_adjacent(a: usize, p: usize)
    requires
        p < 32,
    ensures
        adjacent(a as u32, (a ^ (1usize << p)) as u32),
{
    let j = p as u32;
    assert((a as u32) ^ ((a ^ (1usize << p)) as u32) == (1u32 << j)) by (bit_vector)
        requires
            p < 32,
            j == p as u32,
    ;
}

/// The rows of a route: each a neighbour of the one before, the first a
/// neighbour of the start, the last at the end of the walk.
proof fn lemma_hop_rows_walk(cur: usize, path: Seq<usize>, hash: u32, e: EventView)
    requires
        path.len() >= 1,
        forall|i: int| 0 <= i < path.len() ==> #[trigger] path[i] < 32,
    ensures
        hop_rows(cur, path, hash, e).len() == path.len(),
        adjacent(cur as u32, hop_rows(cur, path, hash, e)[0].node_id),
        hop_rows(cur, path, hash, e).last().node_id == walk(cur, path) as u32,
        forall|i: int|
            0 <= i < path.len() - 1 ==> adjacent(
                #[trigger] hop_rows(cur, path, hash, e)[i].node_id,
                hop_rows(cur, path, hash, e)[i + 1].node_id,
            ),
{
    let rows = hop_rows(cur, path, hash, e);
    assert(path.take(1).drop_last() =~= Seq::<usize>::empty());
    assert(walk(cur, Seq::<usize>::empty()) == cur);
    assert(path.take(1).last() == path[0]);
    assert(walk(cur, path.take(1)) == cur ^ (1usize << path[0]));
    lemma_flip_adjacent(cur, path[0]);
    assert(path.take(path.len() as int) =~= path);
    assert forall|i: int| 0 <= i < path.len() - 1 implies adjacent(
        #[trigger] rows[i].node_id,
        rows[i + 1].node_id,
    ) by {
        assert(path.take(i + 2).drop_last() =~= path.take(i + 1));
        assert(path.take(i + 2).last() == path[i + 1]);
        lemma_flip_adjacent(walk(cur, path.take(i + 1)), path[i + 1]);
    }
}

/// The rows that bring an event from `cur` to `target`: each a neighbour of
/// the one before, the first a neighbour of `cur`, the last at `target`.
proof fn lemma_event_rows_walk(
    cur: usize,
    target: usize,
    dimension: usize,
    num_nodes: usize,
    hash: u32,
    e: EventView,
)
    requires
        dimension <= 32,
        dimension < usize::BITS,
        num_nodes as nat == pow2(dimension as nat),
        cur < num_nodes,
        target < num_nodes,
    ensures
        event_rows(cur, target, dimension, hash, e).len() >= 1,
        adjacent(cur as u32, event_rows(cur, target, dimension, hash, e)[0].node_id),
        event_rows(cur, target, dimension, hash, e).last().node_id == target as u32,
        forall|i: int|
            0 <= i < event_rows(cur, target, dimension, hash, e).len() - 1 ==> adjacent(
                #[trigger] event_rows(cur, target, dimension, hash, e)[i].node_id,
                event_rows(cur, target, dimension, hash, e)[i + 1].node_id,
            ),
{
    let h = Hypercube { dimension, num_nodes };
    lemma_path_reaches_target(h, cur, target);
    let path = set_bits_below(cur ^ target, dimension as nat);
    let rows = event_rows(cur, target, dimension, hash, e);
    if path.len() == 0 {
        assert(cur == target);
        lemma_flip_adjacent(cur, 0);
        assert(cur ^ (1usize << 0usize) == cur ^ 1usize) by (bit_vector);
        let c1 = cur ^ 1usize;
        lemma_flip_adjacent(c1, 0);
        assert(c1 ^ (1usize << 0usize) == cur) by (bit_vector)
            requires
                c1 == cur ^ 1usize,
        ;
        assert forall|i: int| 0 <= i < rows.len() - 1 implies adjacent(
            #[trigger] rows[i].node_id,
            rows[i + 1].node_id,
        ) by {
            assert(i == 0);
        }
    } else {
        assert forall|i: int| 0 <= i < path.len() implies #[trigger] path[i] < 32 by {
            assert(path[i] < dimension);
        }
        lemma_hop_rows_walk(cur, path, hash, e);
    }
}

proof fn lemma_prefix_walk(
    ids: Seq<Seq<char>>,
    m: Map<Seq<char>, EventView>,
    hashes: Seq<u32>,
    dimension: usize,
    num_nodes: usize,
    k: nat,
)
    requires
        k >= 1,
        dimension <= 32,
        dimension < usize::BITS,
        num_nodes as nat == pow2(dimension as nat),
    ensures
        trace_prefix(ids, m, hashes, dimension, num_nodes, k).len() >= 1,
        trace_prefix(ids, m, hashes, dimension, num_nodes, k)[0].node_id == 0,
        trace_prefix(ids, m, hashes, dimension, num_nodes, k).last().node_id == node_after(
            hashes,
            k - 1,
            num_nodes,
        ) as u32,
        forall|i: int|
            0 <= i < trace_prefix(ids, m, hashes, dimension, num_nodes, k).len() - 1 ==> adjacent(
                #[trigger] trace_prefix(ids, m, hashes, dimension, num_nodes, k)[i].node_id,
                trace_prefix(ids, m, hashes, dimension, num_nodes, k)[i + 1].node_id,
            ),
    decreases k,
{
    vstd::arithmetic::power2::lemma_pow2_pos(dimension as nat);
    if k > 1 {
        lemma_prefix_walk(ids, m, hashes, dimension, num_nodes, (k - 1) as nat);
        let before = trace_prefix(ids, m, hashes, dimension, num_nodes, (k - 1) as nat);
        let cur = node_after(hashes, k - 2, num_nodes);
        let target = target_node(hashes, k - 1, num_nodes);
        let rows = event_rows(cur, target, dimension, hashes[k - 1], m[ids[k - 1]]);
        assert(cur < num_nodes);
        assert(target < num_nodes);
        lemma_event_rows_walk(cur, target, dimension, num_nodes, hashes[k - 1], m[ids[k - 1]]);
        let t = trace_prefix(ids, m, hashes, dimension, num_nodes, k);
        assert(t == before + rows);
        let n0 = before.len();
        assert forall|i: int| 0 <= i < t.len() - 1 implies adjacent(#[trigger] t[i].node_id, t[i + 1].node_id) by {
            if i < n0 - 1 {
                assert(t[i] == before[i] && t[i + 1] == before[i + 1]);
            } else if i == n0 - 1 {
                assert(t[i] == before.last() && t[i + 1] == rows[0]);
            } else {
                assert(t[i] == rows[i - n0] && t[i + 1] == rows[i - n0 + 1]);
            }
        }
        assert(t.last() == rows.last());
        assert(t[0] == before[0]);
    }
}

/// The trace is a walk on the hypercube: it starts at node 0 and every row
/// stands on a neighbour of the node of the row before. (Node ids are kept
/// in 32 bits, so this holds while the hypercube has at most 32
/// dimensions.)
pub proof fn lemma_trace_is_hypercube_walk(
    ids: Seq<Seq<char>>,
    m: Map<Seq<char>, EventView>,
    hashes: Seq<u32>,
    dimension: usize,
    num_nodes: usize,
)
    requires
        ids.len() >= 1,
        dimension <= 32,
        dimension < usize::BITS,
        num_nodes as nat == pow2(dimension as nat),
    ensures
        trace_of(ids, m, hashes, dimension, num_nodes)[0].node_id == 0,
        forall|i: int|
            0 <= i < trace_of(ids, m, hashes, dimension, num_nodes).len() - 1 ==> adjacent(
                #[trigger] trace_of(ids, m, hashes, dimension, num_nodes)[i].node_id,
                trace_of(ids, m, hashes, dimension, num_nodes)[i + 1].node_id,
            ),
{
    lemma_prefix_walk(ids, m, hashes, dimension, num_nodes, ids.len());
}

/// The active rows, in order.
pub open spec fn active_entries(rows: Seq<HypercubeTraceRow>) -> Seq<HypercubeTraceRow>
    decreases rows.len(),
{
    if rows.len() == 0 {
        Seq::empty()
    } else if rows.last().is_active == 1 {
        active_entries(rows.drop_last()).push(rows.last())
    } else {
        active_entries(rows.drop_last())
    }
}

/// There are as many active entries as active rows.
proof fn lemma_active_entries_len(rows: Seq<HypercubeTraceRow>)
    ensures
        active_entries(rows).len() == active_rows(rows),
    decreases rows.len(),
{
    if rows.len() > 0 {
        lemma_active_entries_len(rows.drop_last());
    }
}

/// The active rows of two pieces are those of the first, then those of the
/// second.
proof fn lemma_active_entries_concat(a: Seq<HypercubeTraceRow>, b: Seq<HypercubeTraceRow>)
    ensures
        active_entries(a + b) == active_entries(a) + active_entries(b),
    decreases b.len(),
{
    if b.len() > 0 {
        lemma_active_entries_concat(a, b.drop_last());
        assert((a + b).drop_last() =~= a + b.drop_last());
        assert((a + b).last() == b.last());
        if b.last().is_active == 1 {
            assert(active_entries(a + b) =~= active_entries(a) + active_entries(b));
        }
    } else {
        assert(a + b =~= a);
        assert(active_entries(a) + active_entries(b) =~= active_entries(a));
    }
}

/// The rows that bring an event to its node hold one active row, the last,
/// which is the event's.
proof fn lemma_event_rows_active_entry(cur: usize, target: usize, dimension: usize, hash: u32, e: EventView)
    ensures
        active_entries(event_rows(cur, target, dimension, hash, e)) == seq![
            event_rows(cur, target, dimension, hash, e).last(),
        ],
        exists|node: usize, dim: usize|
            event_rows(cur, target, dimension, hash, e).last() == active_row(node, dim, hash, e),
{
    let rows = event_rows(cur, target, dimension, hash, e);
    let path = set_bits_below(cur ^ target, dimension as nat);
    lemma_event_rows_one_active(cur, target, dimension, hash, e);
    assert(rows.len() > 0);
    if path.len() == 0 {
        assert(rows.last() == active_row(cur, 0, hash, e));
    } else {
        let i = path.len() - 1;
        assert(rows.last() == active_row(walk(cur, path.take(i + 1)), path[i], hash, e));
    }
    assert(rows.last().is_active == 1);
    lemma_active_entries_len(rows.drop_last());
    assert(active_rows(rows.drop_last()) == 0);
    assert(active_entries(rows.drop_last()) =~= Seq::<HypercubeTraceRow>::empty());
    assert(active_entries(rows) =~= seq![rows.last()]);
}

proof fn lemma_prefix_carries(
    ids: Seq<Seq<char>>,
    m: Map<Seq<char>, EventView>,
    hashes: Seq<u32>,
    dimension: usize,
    num_nodes: usize,
    n: nat,
)
    ensures
        active_entries(trace_prefix(ids, m, hashes, dimension, num_nodes, n)).len() == n,
        forall|k: int|
            0 <= k < n ==> {
                let row = #[trigger] active_entries(trace_prefix(ids, m, hashes, dimension, num_nodes, n))[k];
                &&& row.is_active == 1
                &&& row.event_id == hashes[k]
                &&& row.power_level == m[ids[k]].power_level as u32
                &&& row.timestamp == (m[ids[k]].origin_server_ts % 0xFFFF_FFFF) as u32
                &&& row.is_signature_valid == 1
            },
    decreases n,
{
    if n == 1 {
        let rows = trace_prefix(ids, m, hashes, dimension, num_nodes, n);
        assert(rows.drop_last() =~= Seq::<HypercubeTraceRow>::empty());
        assert(active_entries(rows) =~= seq![active_row(0, 0, hashes[0], m[ids[0]])]);
    } else if n > 1 {
        lemma_prefix_carries(ids, m, hashes, dimension, num_nodes, (n - 1) as nat);
        let prev = trace_prefix(ids, m, hashes, dimension, num_nodes, (n - 1) as nat);
        let rows = event_rows(
            node_after(hashes, n - 2, num_nodes),
            target_node(hashes, n - 1, num_nodes),
            dimension,
            hashes[n - 1],
            m[ids[n - 1]],
        );
        lemma_event_rows_active_entry(
            node_after(hashes, n - 2, num_nodes),
            target_node(hashes, n - 1, num_nodes),
            dimension,
            hashes[n - 1],
            m[ids[n - 1]],
        );
        lemma_active_entries_concat(prev, rows);
        let all = active_entries(trace_prefix(ids, m, hashes, dimension, num_nodes, n));
        assert(all == active_entries(prev) + seq![rows.last()]);
        assert forall|k: int| 0 <= k < n - 1 implies #[trigger] all[k] == active_entries(prev)[k] by {}
    }
}

/// The active rows of a trace carry the events in their order: the `k`-th
/// active row holds the `k`-th hashed id, the `k`-th event's power level
/// (as a 32-bit word) and its timestamp reduced modulo `0xFFFF_FFFF`, and a
/// set signature flag.
pub proof fn lemma_active_rows_carry_events(
    ids: Seq<Seq<char>>,
    m: Map<Seq<char>, EventView>,
    hashes: Seq<u32>,
    dimension: usize,
    num_nodes: usize,
)
    ensures
        active_entries(trace_of(ids, m, hashes, dimension, num_nodes)).len() == ids.len(),
        forall|k: int|
            0 <= k < ids.len() ==> {
                let row = #[trigger] active_entries(trace_of(ids, m, hashes, dimension, num_nodes))[k];
                &&& row.is_active == 1
                &&& row.event_id == hashes[k]
                &&& row.power_level == m[ids[k]].power_level as u32
                &&& row.timestamp == (m[ids[k]].origin_server_ts % 0xFFFF_FFFF) as u32
                &&& row.is_signature_valid == 1
            },
{
    lemma_prefix_carries(ids, m, hashes, dimension, num_nodes, ids.len());
}

proof fn lemma_prefix_nodes(
    ids: Seq<Seq<char>>,
    m: Map<Seq<char>, EventView>,
    hashes: Seq<u32>,
    dimension: usize,
    num_nodes: usize,
    n: nat,
)
    requires
        dimension <= 32,
        dimension < usize::BITS,
        num_nodes as nat == pow2(dimension as nat),
    ensures
        active_entries(trace_prefix(ids, m, hashes, dimension, num_nodes, n)).len() == n,
        forall|k: int|
            0 <= k < n ==> (#[trigger] active_entries(
                trace_prefix(ids, m, hashes, dimension, num_nodes, n),
            )[k]).node_id == if k == 0 {
                0u32
            } else {
                ((hashes[k] as usize) % num_nodes) as u32
            },
    decreases n,
{
    lemma_prefix_carries(ids, m, hashes, dimension, num_nodes, n);
    if n == 1 {
        let rows = trace_prefix(ids, m, hashes, dimension, num_nodes, n);
        assert(rows.drop_last() =~= Seq::<HypercubeTraceRow>::empty());
        assert(active_entries(rows) =~= seq![active_row(0, 0, hashes[0], m[ids[0]])]);
    } else if n > 1 {
        lemma_prefix_nodes(ids, m, hashes, dimension, num_nodes, (n - 1) as nat);
        vstd::arithmetic::power2::lemma_pow2_pos(dimension as nat);
        let cur = node_after(hashes, n - 2, num_nodes);
        let target = target_node(hashes, n - 1, num_nodes);
        let prev = trace_prefix(ids, m, hashes, dimension, num_nodes, (n - 1) as nat);
        let rows = event_rows(cur, target, dimension, hashes[n - 1], m[ids[n - 1]]);
        lemma_event_rows_active_entry(cur, target, dimension, hashes[n - 1], m[ids[n - 1]]);
        lemma_event_rows_walk(cur, target, dimension, num_nodes, hashes[n - 1], m[ids[n - 1]]);
        lemma_active_entries_concat(prev, rows);
        let all = active_entries(trace_prefix(ids, m, hashes, dimension, num_nodes, n));
        assert(all == active_entries(prev) + seq![rows.last()]);
        assert forall|k: int| 0 <= k < n - 1 implies #[trigger] all[k] == active_entries(prev)[k] by {}
    }
}

/// The active rows stand where the events are placed: the first event at
/// node 0, every later one at its hashed id modulo the number of nodes.
pub proof fn lemma_active_rows_at_targets(
    ids: Seq<Seq<char>>,
    m: Map<Seq<char>, EventView>,
    hashes: Seq<u32>,
    dimension: usize,
    num_nodes: usize,
)
    requires
        dimension <= 32,
        dimension < usize::BITS,
        num_nodes as nat == pow2(dimension as nat),
    ensures
        forall|k: int|
            0 <= k < ids.len() ==> (#[trigger] active_entries(
                trace_of(ids, m, hashes, dimension, num_nodes),
            )[k]).node_id == if k == 0 {
                0u32
            } else {
                ((hashes[k] as usize) % num_nodes) as u32
            },
{
    lemma_prefix_nodes(ids, m, hashes, dimension, num_nodes, ids.len());
}

} // verus!
