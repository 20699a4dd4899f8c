//! Tiered pool of reusable byte buffers with hit/miss accounting.
//!
//! Three fixed size classes partition the request sizes: small buffers of
//! 5 MiB for requests up to 5 MiB, medium buffers of 20 MiB for requests up
//! to 20 MiB, and large buffers of 50 MiB beyond that. Each tier hands out
//! buffers of its own fixed size, reusing returned buffers when it can.

use std::collections::VecDeque;
use vstd::prelude::*;

verus! {

/// Fixed buffer size of the small tier (5 MiB).
pub const SMALL_BUFFER_SIZE: usize = 5 * 1024 * 1024;

/// Fixed buffer size of the medium tier (20 MiB).
pub const MEDIUM_BUFFER_SIZE: usize = 20 * 1024 * 1024;

/// Fixed buffer size of the large tier (50 MiB).
pub const LARGE_BUFFER_SIZE: usize = 50 * 1024 * 1024;

/// Largest request size served by the small tier.
pub const SMALL_MAX_REQUEST: usize = 5 * 1024 * 1024;

/// Largest request size served by the medium tier.
pub const MEDIUM_MAX_REQUEST: usize = 20 * 1024 * 1024;

/// Ghost model of one buffer tier.
pub struct PoolModel {
    /// Fixed size of every buffer this tier hands out.
    pub buffer_size: nat,
    /// Cap on the number of live buffers allocated by this tier.
    pub max_buffers: nat,
    /// Contents of the reusable buffers currently waiting on the free list.
    pub free_list: Seq<Seq<u8>>,
    /// Number of buffers this tier has allocated and not deallocated.
    pub allocated_count: nat,
    /// Requests satisfied from the free list.
    pub hits: nat,
    /// Requests that forced a fresh allocation.
    pub misses: nat,
}

/// Tier invariant: the number of live buffers never exceeds the cap.
pub open spec fn pool_wf(m: PoolModel) -> bool {
    m.allocated_count <= m.max_buffers
}

/// A zeroed byte string of length `n`.
pub open spec fn zero_bytes(n: nat) -> Seq<u8> {
    Seq::new(n, |i: int| 0u8)
}

/// Model of a freshly created tier: `initial_count` pre-allocated zeroed
/// buffers, all counted as allocated, and no hits or misses yet.
pub open spec fn init_pool(buffer_size: nat, initial_count: nat, max_buffers: nat) -> PoolModel {
    PoolModel {
        buffer_size,
        max_buffers,
        free_list: Seq::new(initial_count, |i: int| zero_bytes(buffer_size)),
        allocated_count: initial_count,
        hits: 0,
        misses: 0,
    }
}

/// How `get_buffer` may change a tier: a hit pops the oldest free buffer, a
/// miss allocates under the cap, and an exhausted tier changes nothing.
pub open spec fn acquire_step(pre: PoolModel, post: PoolModel, r: Option<Seq<u8>>) -> bool {
    match r {
        Some(b) => {
            &&& b == zero_bytes(pre.buffer_size)
            &&& if pre.free_list.len() > 0 {
                post == (PoolModel {
                    free_list: pre.free_list.drop_first(),
                    hits: pre.hits + 1,
                    ..pre
                })
            } else {
                &&& pre.allocated_count < pre.max_buffers
                &&& post == (PoolModel {
                    allocated_count: pre.allocated_count + 1,
                    misses: pre.misses + 1,
                    ..pre
                })
            }
        },
        None => {
            &&& pre.free_list.len() == 0
            &&& pre.allocated_count >= pre.max_buffers
            &&& post == pre
        },
    }
}

/// How `return_buffer` may change a tier: the counters never move, and the
/// free list either keeps its value or gains the returned contents — it
/// gains them exactly when the buffer is big enough for the tier and the
/// list is still under half the tier cap.
pub open spec fn release_frame(pre: PoolModel, post: PoolModel, buf: Seq<u8>) -> bool {
    &&& post.buffer_size == pre.buffer_size
    &&& post.max_buffers == pre.max_buffers
    &&& post.allocated_count == pre.allocated_count
    &&& post.hits == pre.hits
    &&& post.misses == pre.misses
    &&& (post.free_list == pre.free_list || post.free_list == pre.free_list.push(buf))
    &&& (pre.free_list.len() >= pre.max_buffers / 2 ==> post.free_list == pre.free_list)
    &&& ((buf.len() >= pre.buffer_size && pre.free_list.len() < pre.max_buffers / 2)
        ==> post.free_list == pre.free_list.push(buf))
}

/// Relies on `Vec::capacity`: the allocated capacity of a vector, documented
/// by std to be at least its length.
#[verifier::external_body]
fn vec_capacity(v: &Vec<u8>) -> (r: usize)
    ensures
        r >= v@.len(),
{
    v.capacity()
}

/// A zero-filled buffer of exactly `size` bytes.
fn zero_buffer(size: usize) -> (b: Vec<u8>)
    ensures
        b@ == zero_bytes(size as nat),
{
    let mut b: Vec<u8> = Vec::with_capacity(size);
    b.resize(size, 0u8);
    proof {
        assert(b@ =~= zero_bytes(size as nat));
    }
    b
}

/// One size class of reusable buffers.
#[derive(Debug)]
pub struct BufferPool {
    available_buffers: VecDeque<Vec<u8>>,
    buffer_size: usize,
    max_buffers: usize,
    allocated_count: usize,
    pool_hits: u64,
    pool_misses: u64,
}

impl View for BufferPool {
    type V = PoolModel;

    closed spec fn view(&self) -> PoolModel {
        PoolModel {
            buffer_size: self.buffer_size as nat,
            max_buffers: self.max_buffers as nat,
            free_list: self.available_buffers@.map_values(|b: Vec<u8>| b@),
            allocated_count: self.allocated_count as nat,
            hits: self.pool_hits as nat,
            misses: self.pool_misses as nat,
        }
    }
}

impl BufferPool {
    /// Tier invariant: the number of live buffers never exceeds the cap.
    pub open spec fn wf(&self) -> bool {
        pool_wf(self@)
    }

    /// Create a tier whose buffers are `buffer_size` bytes each, with
    /// `initial_count` buffers pre-allocated for immediate use and at most
    /// `max_buffers` allocated at any time.
    pub fn new(buffer_size: usize, initial_count: usize, max_buffers: usize) -> (r: BufferPool)
        requires
            initial_count <= max_buffers,
        ensures
            r@ == init_pool(buffer_size as nat, initial_count as nat, max_buffers as nat),
            r.wf(),
    {
        let mut buffers: VecDeque<Vec<u8>> = VecDeque::new();
        let mut k: usize = 0;
        while k < initial_count
            invariant
                k <= initial_count,
                buffers@.len() == k,
                forall|i: int| 0 <= i < k ==> #[trigger] buffers@[i]@ == zero_bytes(
                    buffer_size as nat,
                ),
            decreases initial_count - k,
        {
            buffers.push_back(zero_buffer(buffer_size));
            k = k + 1;
        }
        let r = BufferPool {
            available_buffers: buffers,
            buffer_size,
            max_buffers,
            allocated_count: initial_count,
            pool_hits: 0,
            pool_misses: 0,
        };
        proof {
            assert(r@.free_list =~= Seq::new(
                initial_count as nat,
                |i: int| zero_bytes(buffer_size as nat),
            ));
        }
        r
    }

    /// Hand out a zeroed buffer of the tier's fixed size: the oldest free
    /// buffer when one waits (a hit), a fresh allocation while under the cap
    /// (a miss), and `None` when the tier is exhausted — the caller may wait
    /// for capacity to be released elsewhere and retry.
    pub fn get_buffer(&mut self) -> (r: Option<Vec<u8>>)
        requires
            old(self).wf(),
            old(self)@.hits < u64::MAX,
            old(self)@.misses < u64::MAX,
        ensures
            final(self).wf(),
            acquire_step(old(self)@, final(self)@, opt_bytes(r)),
    {
        match self.available_buffers.pop_front() {
            Some(mut buffer) => {
                buffer.clear();
                buffer.resize(self.buffer_size, 0u8);
                self.pool_hits = self.pool_hits + 1;
                proof {
                    assert(buffer@ =~= zero_bytes(self.buffer_size as nat));
                    assert(self@.free_list =~= old(self)@.free_list.drop_first());
                }
                Some(buffer)
            },
            None => {
                if self.allocated_count < self.max_buffers {
                    self.allocated_count = self.allocated_count + 1;
                    self.pool_misses = self.pool_misses + 1;
                    Some(zero_buffer(self.buffer_size))
                } else {
                    None
                }
            },
        }
    }

    /// Give a buffer back: it is retained on the free list when its capacity
    /// still fits the tier's fixed size and the list is under half the tier
    /// cap; otherwise it is dropped, bounding steady-state memory.
    pub fn return_buffer(&mut self, buffer: Vec<u8>)
        requires
            old(self).wf(),
        ensures
            final(self).wf(),
            release_frame(old(self)@, final(self)@, buffer@),
    {
        let cap = vec_capacity(&buffer);
        if cap >= self.buffer_size {
            if self.available_buffers.len() < self.max_buffers / 2 {
                self.available_buffers.push_back(buffer);
                proof {
                    assert(self@.free_list =~= old(self)@.free_list.push(buffer@));
                }
            }
        }
    }

    /// Hit and miss counts so far. (The surrounding program derives the hit
    /// rate from these.)
    pub fn get_stats(&self) -> (r: (u64, u64))
        ensures
            r.0 == self@.hits,
            r.1 == self@.misses,
    {
        (self.pool_hits, self.pool_misses)
    }
}

/// View of an optional buffer as its contents.
pub open spec fn opt_bytes(r: Option<Vec<u8>>) -> Option<Seq<u8>> {
    match r {
        Some(b) => Some(b@),
        None => None,
    }
}

/// The three size classes of the tiered pool.
#[derive(Clone, Copy, PartialEq, Eq, Debug)]
pub enum SizeClass {
    Small,
    Medium,
    Large,
}

/// The size class that serves a request of `size` bytes: the classes
/// partition `(0, 5 MiB]`, `(5 MiB, 20 MiB]` and `(20 MiB, ∞)`.
pub open spec fn size_class_of(size: nat) -> SizeClass {
    if size <= SMALL_MAX_REQUEST as nat {
        SizeClass::Small
    } else if size <= MEDIUM_MAX_REQUEST as nat {
        SizeClass::Medium
    } else {
        SizeClass::Large
    }
}

/// Ghost model of the whole tiered pool.
pub struct ChunkPoolModel {
    pub small: PoolModel,
    pub medium: PoolModel,
    pub large: PoolModel,
    pub enabled: bool,
}

/// The tier model selected by a size class.
pub open spec fn class_model(m: ChunkPoolModel, c: SizeClass) -> PoolModel {
    match c {
        SizeClass::Small => m.small,
        SizeClass::Medium => m.medium,
        SizeClass::Large => m.large,
    }
}

/// All tiers other than `c`, and the enabled flag, keep their state.
pub open spec fn others_unchanged(pre: ChunkPoolModel, post: ChunkPoolModel, c: SizeClass) -> bool {
    &&& post.enabled == pre.enabled
    &&& (c != SizeClass::Small ==> post.small == pre.small)
    &&& (c != SizeClass::Medium ==> post.medium == pre.medium)
    &&& (c != SizeClass::Large ==> post.large == pre.large)
}

/// How the tiered pool takes a buffer of capacity `cap` back: the tier that
/// `cap` selects applies its own release policy; the others keep their state.
pub open spec fn chunk_release(
    pre: ChunkPoolModel,
    post: ChunkPoolModel,
    buf: Seq<u8>,
    cap: nat,
) -> bool {
    let cls = size_class_of(cap);
    &&& release_frame(class_model(pre, cls), class_model(post, cls), buf)
    &&& others_unchanged(pre, post, cls)
}

/// The tiered pool: three fixed size classes of reusable buffers, plus a
/// switch that turns pooling off entirely.
#[derive(Debug)]
pub struct ChunkDataPool {
    small_chunks: BufferPool,
    medium_chunks: BufferPool,
    large_chunks: BufferPool,
    enabled: bool,
}

impl View for ChunkDataPool {
    type V = ChunkPoolModel;

    closed spec fn view(&self) -> ChunkPoolModel {
        ChunkPoolModel {
            small: self.small_chunks@,
            medium: self.medium_chunks@,
            large: self.large_chunks@,
            enabled: self.enabled,
        }
    }
}

impl ChunkDataPool {
    /// Pool invariant: every tier respects its cap and keeps its fixed
    /// parameters (5 MiB buffers, at most 16; 20 MiB, at most 8; 50 MiB, at
    /// most 4).
    pub open spec fn wf(&self) -> bool {
        &&& pool_wf(self@.small)
        &&& pool_wf(self@.medium)
        &&& pool_wf(self@.large)
        &&& self@.small.buffer_size == SMALL_BUFFER_SIZE as nat
        &&& self@.small.max_buffers == 16
        &&& self@.medium.buffer_size == MEDIUM_BUFFER_SIZE as nat
        &&& self@.medium.max_buffers == 8
        &&& self@.large.buffer_size == LARGE_BUFFER_SIZE as nat
        &&& self@.large.max_buffers == 4
    }

    /// Create the three fixed tiers, pre-allocating a few buffers in each.
    pub fn new(enabled: bool) -> (r: ChunkDataPool)
        ensures
            r.wf(),
            r@.enabled == enabled,
            r@.small == init_pool(SMALL_BUFFER_SIZE as nat, 4, 16),
            r@.medium == init_pool(MEDIUM_BUFFER_SIZE as nat, 2, 8),
            r@.large == init_pool(LARGE_BUFFER_SIZE as nat, 1, 4),
    {
        ChunkDataPool {
            small_chunks: BufferPool::new(SMALL_BUFFER_SIZE, 4, 16),
            medium_chunks: BufferPool::new(MEDIUM_BUFFER_SIZE, 2, 8),
            large_chunks: BufferPool::new(LARGE_BUFFER_SIZE, 1, 4),
            enabled,
        }
    }

    /// Hand out a buffer for a request of `size` bytes. With pooling off, a
    /// fresh buffer of exactly `size` bytes is always returned. With pooling
    /// on, the size class selected by `size` serves the request with a buffer
    /// of the tier's own fixed size, or reports exhaustion with `None` — the
    /// caller may wait and retry.
    pub fn get_buffer_for_size(&mut self, size: usize) -> (r: Option<Vec<u8>>)
        requires
            old(self).wf(),
            old(self)@.enabled ==> ({
                let c = class_model(old(self)@, size_class_of(size as nat));
                c.hits < u64::MAX && c.misses < u64::MAX
            }),
        ensures
            final(self).wf(),
            !old(self)@.enabled ==> final(self)@ == old(self)@ && (match r {
                Some(b) => b@ == zero_bytes(size as nat),
                None => false,
            }),
            old(self)@.enabled ==> ({
                let cls = size_class_of(size as nat);
                &&& acquire_step(
                    class_model(old(self)@, cls),
                    class_model(final(self)@, cls),
                    opt_bytes(r),
                )
                &&& others_unchanged(old(self)@, final(self)@, cls)
            }),
    {
        if !self.enabled {
            return Some(zero_buffer(size));
        }
        if size <= SMALL_MAX_REQUEST {
            self.small_chunks.get_buffer()
        } else if size <= MEDIUM_MAX_REQUEST {
            self.medium_chunks.get_buffer()
        } else {
            self.large_chunks.get_buffer()
        }
    }

    /// Give a buffer back under a stated capacity: with pooling on, the tier
    /// that `cap` selects takes the buffer back under its own retention
    /// policy, and the others keep their state; with pooling off nothing
    /// changes. The plain `return_buffer` derives `cap` from the buffer
    /// itself.
    pub fn return_buffer_with_capacity(&mut self, buffer: Vec<u8>, cap: usize)
        requires
            old(self).wf(),
            cap >= buffer@.len(),
        ensures
            final(self).wf(),
            final(self)@.enabled == old(self)@.enabled,
            !old(self)@.enabled ==> final(self)@ == old(self)@,
            old(self)@.enabled ==> chunk_release(old(self)@, final(self)@, buffer@, cap as nat),
    {
        if !self.enabled {
            return ;
        }
        if cap <= SMALL_MAX_REQUEST {
            self.small_chunks.return_buffer(buffer);
        } else if cap <= MEDIUM_MAX_REQUEST {
            self.medium_chunks.return_buffer(buffer);
        } else {
            self.large_chunks.return_buffer(buffer);
        }
    }

    /// Give a buffer back. With pooling off this does nothing (the buffer is
    /// simply dropped). With pooling on, the buffer's capacity re-derives its
    /// tier, which takes it back under its own retention policy.
    pub fn return_buffer(&mut self, buffer: Vec<u8>)
        requires
            old(self).wf(),
        ensures
            final(self).wf(),
            final(self)@.enabled == old(self)@.enabled,
            !old(self)@.enabled ==> final(self)@ == old(self)@,
            old(self)@.enabled ==> (exists|cap: nat|
                cap >= buffer@.len() && #[trigger] chunk_release(
                    old(self)@,
                    final(self)@,
                    buffer@,
                    cap,
                )),
    {
        let ghost bufv = buffer@;
        let cap = vec_capacity(&buffer);
        let ghost capn = cap as nat;
        self.return_buffer_with_capacity(buffer, cap);
        proof {
            if old(self)@.enabled {
                assert(capn >= bufv.len() && chunk_release(old(self)@, self@, bufv, capn));
            }
        }
    }

    /// Per-tier (hits, misses) counters: small, medium, large. (The
    /// surrounding program derives hit rates and prints them.)
    pub fn tier_stats(&self) -> (r: ((u64, u64), (u64, u64), (u64, u64)))
        ensures
            r.0.0 == self@.small.hits && r.0.1 == self@.small.misses,
            r.1.0 == self@.medium.hits && r.1.1 == self@.medium.misses,
            r.2.0 == self@.large.hits && r.2.1 == self@.large.misses,
    {
        (self.small_chunks.get_stats(), self.medium_chunks.get_stats(), self.large_chunks.get_stats())
    }
}

} // verus!
