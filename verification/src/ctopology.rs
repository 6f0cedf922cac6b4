//! The Boolean hypercube H_d used to route events: nodes are the integers
//! below 2^d and two nodes are adjacent when they differ in exactly one bit.
use vstd::arithmetic::power2::{lemma_pow2_unfold, pow2};
use vstd::prelude::*;

verus! {

/// Boolean Hypercube (H_d) for event routing.
/// In a hypercube of dimension d, there are 2^d nodes.
/// A step is valid if the XOR of two node IDs has a Hamming weight of 1.
pub struct Hypercube {
    pub dimension: usize,
    pub num_nodes: usize,
}

/// The smallest dimension `d >= 1` with `2^d >= n`.
pub open spec fn min_dimension_for(n: nat, d: nat) -> bool {
    &&& d >= 1
    &&& pow2(d) >= n
    &&& (d == 1 || pow2((d - 1) as nat) < n)
}

/// Whether bit `i` of `x` is set.
pub open spec fn bit_set(x: usize, i: usize) -> bool {
    (x >> i) & 1 == 1
}

/// The indices below `k` of the bits set in `x`, in increasing order.
pub open spec fn set_bits_below(x: usize, k: nat) -> Seq<usize>
    recommends
        k <= usize::BITS,
    decreases k,
{
    if k == 0 {
        Seq::empty()
    } else {
        let rest = set_bits_below(x, (k - 1) as nat);
        if bit_set(x, (k - 1) as usize) {
            rest.push((k - 1) as usize)
        } else {
            rest
        }
    }
}

/// The node reached from `u` by flipping, in order, the bits named in `path`.
pub open spec fn walk(u: usize, path: Seq<usize>) -> usize
    decreases path.len(),
{
    if path.len() == 0 {
        u
    } else {
        walk(u, path.drop_last()) ^ (1usize << path.last())
    }
}

/// All ones below bit `k`.
pub open spec fn low_mask(k: usize) -> usize {
    if k >= usize::BITS {
        !0usize
    } else {
        ((1usize << k) - 1) as usize
    }
}

proof fn lemma_pow2_is_shift(d: usize)
    requires
        d < usize::BITS,
    ensures
        pow2(d as nat) == (1usize << d) as nat,
    decreases d,
{
    if d == 0 {
        assert(pow2(0) == 1) by {
            vstd::arithmetic::power2::lemma2_to64();
        }
        assert(1usize << 0usize == 1) by (bit_vector);
    } else {
        lemma_pow2_is_shift((d - 1) as usize);
        lemma_pow2_unfold(d as nat);
        let e = (d - 1) as usize;
        assert((1usize << (e + 1) as usize) == 2 * (1usize << e)) by (bit_vector)
            requires
                e + 1 < usize::BITS,
        ;
    }
}

proof fn lemma_mask_step(x: usize, k: usize)
    requires
        k < usize::BITS,
    ensures
        (x & low_mask(k)) ^ (if bit_set(x, k) { 1usize << k } else { 0usize }) == x & low_mask(
            (k + 1) as usize,
        ),
{
    if k + 1 >= usize::BITS {
        assert(k + 1 == usize::BITS);
        assert(bit_set(x, k) ==> (x & (((1usize << k) - 1) as usize)) ^ (1usize << k) == x & !0usize)
            by (bit_vector)
            requires
                k + 1 == usize::BITS,
        ;
        assert(!bit_set(x, k) ==> (x & (((1usize << k) - 1) as usize)) ^ 0usize == x & !0usize)
            by (bit_vector)
            requires
                k + 1 == usize::BITS,
        ;
    } else {
        assert(bit_set(x, k) ==> (x & (((1usize << k) - 1) as usize)) ^ (1usize << k) == x & (((
        1usize << (k + 1) as usize) - 1) as usize)) by (bit_vector)
            requires
                k + 1 < usize::BITS,
        ;
        assert(!bit_set(x, k) ==> (x & (((1usize << k) - 1) as usize)) ^ 0usize == x & (((1usize
            << (k + 1) as usize) - 1) as usize)) by (bit_vector)
            requires
                k + 1 < usize::BITS,
        ;
    }
}

/// Walking the set bits of `x` below `k` from `u` flips exactly the low `k` bits of `x`.
proof fn lemma_walk_set_bits(u: usize, x: usize, k: usize)
    requires
        k <= usize::BITS,
    ensures
        walk(u, set_bits_below(x, k as nat)) == u ^ (x & low_mask(k)),
    decreases k,
{
    if k == 0 {
        assert(u ^ (x & ((1usize << 0usize) - 1) as usize) == u) by (bit_vector);
    } else {
        let j = (k - 1) as usize;
        lemma_walk_set_bits(u, x, j);
        lemma_mask_step(x, j);
        let rest = set_bits_below(x, j as nat);
        let a = x & low_mask(j);
        if bit_set(x, j) {
            assert(set_bits_below(x, k as nat).drop_last() == rest);
            assert((u ^ a) ^ (1usize << j) == u ^ (a ^ (1usize << j))) by (bit_vector);
        } else {
            assert(u ^ a == u ^ (a ^ 0usize)) by (bit_vector);
        }
    }
}

proof fn lemma_set_bits_bounded(x: usize, k: nat)
    requires
        k <= usize::BITS,
    ensures
        forall|i: int| 0 <= i < set_bits_below(x, k).len() ==> set_bits_below(x, k)[i] < k,
        forall|i: int, j: int|
            0 <= i < j < set_bits_below(x, k).len() ==> set_bits_below(x, k)[i] < set_bits_below(
                x,
                k,
            )[j],
        forall|i: int|
            0 <= i < set_bits_below(x, k).len() ==> bit_set(x, #[trigger] set_bits_below(x, k)[i]),
        forall|b: usize| b < k && bit_set(x, b) ==> set_bits_below(x, k).contains(b),
    decreases k,
{
    if k > 0 {
        lemma_set_bits_bounded(x, (k - 1) as nat);
        let rest = set_bits_below(x, (k - 1) as nat);
        if bit_set(x, (k - 1) as usize) {
            assert(forall|i: int| 0 <= i < rest.len() ==> rest[i] < k - 1);
            assert forall|b: usize| b < k && bit_set(x, b) implies set_bits_below(x, k).contains(
                b,
            ) by {
                if b < k - 1 {
                    let i = choose|i: int| 0 <= i < rest.len() && rest[i] == b;
                    assert(set_bits_below(x, k)[i] == b);
                } else {
                    assert(set_bits_below(x, k)[rest.len() as int] == b);
                }
            }
        }
    }
}

impl Hypercube {
    /// Builds the smallest hypercube (of dimension at least 1) with room for
    /// `num_events` nodes.
    pub fn new(num_events: usize) -> (h: Self)
        requires
            num_events as nat <= pow2((usize::BITS - 1) as nat),
        ensures
            min_dimension_for(num_events as nat, h.dimension as nat),
            h.num_nodes as nat == pow2(h.dimension as nat),
            h.dimension < usize::BITS,
    {
        // Calculate the minimum dimension d such that 2^d >= num_events.
        let mut dimension: usize = 1;
        let mut num_nodes: usize = 2;
        proof {
            lemma_pow2_unfold(1);
            vstd::arithmetic::power2::lemma2_to64();
        }
        while num_nodes < num_events
            invariant
                1 <= dimension < usize::BITS,
                num_nodes as nat == pow2(dimension as nat),
                dimension == 1 || pow2((dimension - 1) as nat) < num_events,
                num_events as nat <= pow2((usize::BITS - 1) as nat),
            decreases usize::BITS - dimension,
        {
            proof {
                lemma_pow2_unfold((dimension + 1) as nat);
                if dimension + 1 < usize::BITS - 1 {
                    vstd::arithmetic::power2::lemma_pow2_strictly_increases(
                        (dimension + 1) as nat,
                        (usize::BITS - 1) as nat,
                    );
                }
                lemma_pow2_is_shift((usize::BITS - 1) as usize);
            }
            dimension = dimension + 1;
            num_nodes = num_nodes * 2;
        }
        Hypercube { dimension, num_nodes }
    }

    /// Returns the shortest path between two nodes as a list of dimensions to flip.
    /// In a hypercube, this is simply the indices of the bits that differ.
    pub fn get_path(&self, u: usize, v: usize) -> (path: Vec<usize>)
        requires
            self.dimension <= usize::BITS,
        ensures
            path@ == set_bits_below(u ^ v, self.dimension as nat),
    {
        let mut path = Vec::new();
        let diff = u ^ v;
        let mut i: usize = 0;
        while i < self.dimension
            invariant
                i <= self.dimension <= usize::BITS,
                diff == u ^ v,
                path@ == set_bits_below(diff, i as nat),
            decreases self.dimension - i,
        {
            if (diff >> i) & 1 == 1 {
                path.push(i);
            }
            i = i + 1;
        }
        path
    }

    /// Returns the neighbor of node `u` by flipping the bit at `dimension_idx`.
    pub fn step(&self, u: usize, dimension_idx: usize) -> (w: usize)
        requires
            dimension_idx < usize::BITS,
        ensures
            w == u ^ (1usize << dimension_idx),
    {
        u ^ (1usize << dimension_idx)
    }

}

/// The dimension satisfying `min_dimension_for` is unique.
pub proof fn lemma_min_dimension_unique(n: nat, d: nat, e: nat)
    requires
        min_dimension_for(n, d),
        min_dimension_for(n, e),
    ensures
        d == e,
{
    if d < e {
        if d < (e - 1) as nat {
            vstd::arithmetic::power2::lemma_pow2_strictly_increases(d, (e - 1) as nat);
        }
    } else if e < d {
        if e < (d - 1) as nat {
            vstd::arithmetic::power2::lemma_pow2_strictly_increases(e, (d - 1) as nat);
        }
    }
}

impl Default for Hypercube {
    /// Default to a 10-dimensional hypercube (1024 nodes) for baseline usage.
    fn default() -> (h: Self)
        ensures
            h.dimension == 10,
            h.num_nodes == 1024,
    {
        proof {
            vstd::arithmetic::power2::lemma2_to64();
            vstd::arithmetic::power2::lemma_pow2_strictly_increases(30, (usize::BITS - 1) as nat);
        }
        let h = Hypercube::new(1024);
        proof {
            assert(min_dimension_for(1024, 10));
            lemma_min_dimension_unique(1024, 10, h.dimension as nat);
        }
        h
    }
}

/// Following `get_path(u, v)` step by step from `u` arrives at `v`, for any
/// two nodes of the hypercube; every step flips a bit that differs between
/// `u` and `v`, each such bit exactly once, so the path is a shortest one.
pub proof fn lemma_path_reaches_target(h: Hypercube, u: usize, v: usize)
    requires
        h.dimension < usize::BITS,
        h.num_nodes as nat == pow2(h.dimension as nat),
        u < h.num_nodes,
        v < h.num_nodes,
    ensures
        walk(u, set_bits_below(u ^ v, h.dimension as nat)) == v,
        forall|i: int|
            0 <= i < set_bits_below(u ^ v, h.dimension as nat).len() ==> bit_set(
                u ^ v,
                #[trigger] set_bits_below(u ^ v, h.dimension as nat)[i],
            ),
        forall|b: usize|
            bit_set(u ^ v, b) ==> set_bits_below(u ^ v, h.dimension as nat).contains(b),
        set_bits_below(u ^ v, h.dimension as nat).no_duplicates(),
        forall|i: int|
            0 <= i < set_bits_below(u ^ v, h.dimension as nat).len() ==> #[trigger] set_bits_below(
                u ^ v,
                h.dimension as nat,
            )[i] < h.dimension,
{
    let d = h.dimension;
    lemma_pow2_is_shift(d);
    lemma_walk_set_bits(u, u ^ v, d);
    lemma_set_bits_bounded(u ^ v, d as nat);
    let n = h.num_nodes;
    assert((u ^ v) & (((1usize << d) - 1) as usize) == u ^ v && u ^ (u ^ v) == v) by (bit_vector)
        requires
            d < usize::BITS,
            u < n,
            v < n,
            n == 1usize << d,
    ;
    assert forall|b: usize| bit_set(u ^ v, b) implies b < d by {
        let x = u ^ v;
        assert(x < (1usize << d) && d < usize::BITS && b >= d ==> (x >> b) & 1 != 1) by (bit_vector);
        assert(x < (1usize << d)) by (bit_vector)
            requires
                d < usize::BITS,
                u < n,
                v < n,
                n == 1usize << d,
                x == u ^ v,
        ;
    }
    let p = set_bits_below(u ^ v, d as nat);
    assert forall|i: int, j: int| 0 <= i < p.len() && 0 <= j < p.len() && i != j implies p[i]
        != p[j] by {
        if i < j {
        } else {
        }
    }
}

/// The number of bits below `k` that are set in `x`.
pub open spec fn ones_below(x: usize, k: nat) -> nat
    decreases k,
{
    if k == 0 {
        0
    } else {
        ones_below(x, (k - 1) as nat) + if bit_set(x, (k - 1) as usize) {
            1nat
        } else {
            0nat
        }
    }
}

/// The number of set bits of `x`: the Hamming distance between two nodes
/// whose exclusive or is `x`.
pub open spec fn popcount(x: usize) -> nat {
    ones_below(x, usize::BITS as nat)
}

proof fn lemma_set_bits_count(x: usize, k: nat)
    ensures
        set_bits_below(x, k).len() == ones_below(x, k),
    decreases k,
{
    if k > 0 {
        lemma_set_bits_count(x, (k - 1) as nat);
    }
}

proof fn lemma_ones_above(x: usize, d: nat, k: nat)
    requires
        d <= k <= usize::BITS,
        forall|b: usize| #[trigger] bit_set(x, b) ==> b < d,
    ensures
        ones_below(x, k) == ones_below(x, d),
    decreases k,
{
    if k > d {
        lemma_ones_above(x, d, (k - 1) as nat);
        assert(!bit_set(x, (k - 1) as usize));
    }
}

/// Flipping bit `l` leaves the count of set bits below `k` alone when
/// `k <= l`, and changes it by exactly one otherwise.
proof fn lemma_flip_count(y: usize, l: usize, k: nat)
    requires
        l < usize::BITS,
        k <= usize::BITS,
    ensures
        k <= l ==> ones_below(y, k) == ones_below(y ^ (1usize << l), k),
        k > l ==> (ones_below(y, k) + 1 == ones_below(y ^ (1usize << l), k) || ones_below(
            y ^ (1usize << l),
            k,
        ) + 1 == ones_below(y, k)),
    decreases k,
{
    if k > 0 {
        lemma_flip_count(y, l, (k - 1) as nat);
        let j = (k - 1) as usize;
        if j != l {
            assert(bit_set(y ^ (1usize << l), j) == bit_set(y, j)) by (bit_vector)
                requires
                    j != l,
                    l < usize::BITS,
                    j < usize::BITS,
            ;
        } else {
            assert(bit_set(y ^ (1usize << l), j) == !bit_set(y, j)) by (bit_vector)
                requires
                    j == l,
                    l < usize::BITS,
            ;
        }
    }
}

/// A walk that flips the bits named in `p` takes at least as many steps as
/// there are bits in which its start and end differ.
pub proof fn lemma_no_shorter_walk(u: usize, p: Seq<usize>)
    requires
        forall|i: int| 0 <= i < p.len() ==> #[trigger] p[i] < usize::BITS,
    ensures
        p.len() >= popcount(u ^ walk(u, p)),
    decreases p.len(),
{
    if p.len() == 0 {
        assert(u ^ u == 0usize) by (bit_vector);
        assert forall|b: usize| #[trigger] bit_set(0usize, b) implies b < 0 by {
            assert((0usize >> b) & 1 != 1) by (bit_vector);
        }
        lemma_ones_above(0usize, 0, usize::BITS as nat);
    } else {
        let q = p.drop_last();
        assert forall|i: int| 0 <= i < q.len() implies #[trigger] q[i] < usize::BITS by {
            assert(q[i] == p[i]);
        }
        lemma_no_shorter_walk(u, q);
        let w = walk(u, q);
        let l = p.last();
        assert(p[p.len() - 1] < usize::BITS);
        let y = u ^ w;
        assert(u ^ (w ^ (1usize << l)) == y ^ (1usize << l)) by (bit_vector)
            requires
                y == u ^ w,
        ;
        lemma_flip_count(y, l, usize::BITS as nat);
    }
}

/// `get_path(u, v)` is as short as a walk from `u` to `v` can be: it flips
/// each bit in which `u` and `v` differ, once, so its length is the
/// popcount of `u ^ v`, and following it from `u` reaches `v`.
pub proof fn lemma_path_length_is_distance(h: Hypercube, u: usize, v: usize)
    requires
        h.dimension < usize::BITS,
        h.num_nodes as nat == pow2(h.dimension as nat),
        u < h.num_nodes,
        v < h.num_nodes,
    ensures
        set_bits_below(u ^ v, h.dimension as nat).len() == popcount(u ^ v),
        walk(u, set_bits_below(u ^ v, h.dimension as nat)) == v,
        forall|p: Seq<usize>|
            (forall|i: int| 0 <= i < p.len() ==> #[trigger] p[i] < usize::BITS) && walk(u, p) == v
                ==> p.len() >= set_bits_below(u ^ v, h.dimension as nat).len(),
{
    lemma_path_reaches_target(h, u, v);
    let d = h.dimension as nat;
    lemma_set_bits_count(u ^ v, d);
    assert forall|b: usize| #[trigger] bit_set(u ^ v, b) implies b < d by {
        let path = set_bits_below(u ^ v, d);
        assert(path.contains(b));
        let i = choose|i: int| 0 <= i < path.len() && path[i] == b;
    }
    lemma_ones_above(u ^ v, d, usize::BITS as nat);
    assert forall|p: Seq<usize>|
        (forall|i: int| 0 <= i < p.len() ==> #[trigger] p[i] < usize::BITS) && walk(u, p) == v implies p.len()
        >= set_bits_below(u ^ v, h.dimension as nat).len() by {
        lemma_no_shorter_walk(u, p);
    }
}

} // verus!
