//! Which stripe lock guards a block, vertex or edge, and in which order two
//! block locks are taken.
use vstd::prelude::*;

verus! {

/// Number of stripes for entity locks (a power of two).
pub const STRIPE_COUNT: usize = 1024;

/// Number of stripes for block locks (a power of two).
pub const BLOCK_STRIPE_COUNT: usize = 256;

/// The stripe of `id` among `count` stripes (`count` a power of two): the
/// low bits of `id`.
pub open spec fn stripe_of(id: u32, count: usize) -> usize {
    ((id as usize) & ((count - 1) as usize)) as usize
}

/// The block stripe guarding block `block_idx`.
pub fn block_stripe_index(block_idx: u32) -> (s: usize)
    ensures
        s == stripe_of(block_idx, BLOCK_STRIPE_COUNT),
        s < BLOCK_STRIPE_COUNT,
        s == block_idx % 256,
{
    let x = block_idx as usize;
    assert(x & 255 < 256 && x & 255 == x % 256) by (bit_vector);
    x & (BLOCK_STRIPE_COUNT - 1)
}

/// The vertex stripe guarding vertex `vertex_id`.
pub fn vertex_stripe_index(vertex_id: u32) -> (s: usize)
    ensures
        s == stripe_of(vertex_id, STRIPE_COUNT),
        s < STRIPE_COUNT,
        s == vertex_id % 1024,
{
    let x = vertex_id as usize;
    assert(x & 1023 < 1024 && x & 1023 == x % 1024) by (bit_vector);
    x & (STRIPE_COUNT - 1)
}

/// The edge stripe guarding edge `edge_id`.
pub fn edge_stripe_index(edge_id: u32) -> (s: usize)
    ensures
        s == stripe_of(edge_id, STRIPE_COUNT),
        s < STRIPE_COUNT,
        s == edge_id % 1024,
{
    let x = edge_id as usize;
    assert(x & 1023 < 1024 && x & 1023 == x % 1024) by (bit_vector);
    x & (STRIPE_COUNT - 1)
}

/// The order in which the locks of blocks `a` and `b` are taken: the lower
/// index first, so that two callers never wait on each other.
pub fn block_lock_order(a: u32, b: u32) -> (r: (u32, u32))
    ensures
        r.0 <= r.1,
        (r.0 == a && r.1 == b) || (r.0 == b && r.1 == a),
        a <= b ==> r == (a, b),
{
    if a <= b {
        (a, b)
    } else {
        (b, a)
    }
}

} // verus!
