//! Reuse and eviction of per-frame instance buffers. Each entry pairs the bookkeeping of a
//! buffer (its capacity and when it was last used) with the buffer itself, which the library
//! only carries.
use vstd::prelude::*;

verus! {

/// Bookkeeping of one pooled buffer.
#[derive(Debug, Clone, Copy, PartialEq, Eq, Structural)]
pub struct PoolSlot {
    /// Size of the buffer in bytes.
    pub capacity: u64,
    /// The buffer already holds data of the current frame.
    pub used_this_frame: bool,
    /// Frame counter of the last frame that used the buffer.
    pub last_used_frame: u64,
}

/// Where an upload of a batch goes.
#[derive(Debug, Clone, Copy, PartialEq, Eq, Structural)]
pub enum SlotChoice {
    /// Reuse the buffer at this index.
    Reuse(usize),
    /// Create a buffer of this capacity and add it to the pool.
    Allocate(u64),
}

/// The slot is free this frame and large enough for `bytes_needed`.
pub open spec fn fits_free(slot: PoolSlot, bytes_needed: u64) -> bool {
    !slot.used_this_frame && slot.capacity >= bytes_needed
}

/// The smallest power of two that is at least `n`, searching upward from the power of two `p`.
pub open spec fn next_pow2_from(p: nat, n: nat) -> nat
    decreases (if p < n { n - p } else { 0 }),
{
    if p == 0 || p >= n {
        p
    } else {
        next_pow2_from(2 * p, n)
    }
}

/// The smallest power of two that is at least `n` (1 for 0).
pub open spec fn next_pow2(n: nat) -> nat {
    next_pow2_from(1, n)
}

/// Capacity of a new buffer for `bytes_needed` bytes: the next power of two, at least 256.
pub open spec fn new_capacity(bytes_needed: u64) -> nat {
    let p = next_pow2(bytes_needed as nat);
    if p > 256 { p } else { 256 }
}

/// The buffer was used within the last `evict_age` frames before `frame_counter`.
pub open spec fn recently_used(slot: PoolSlot, frame_counter: u64, evict_age: u64) -> bool {
    let age = if frame_counter >= slot.last_used_frame {
        (frame_counter - slot.last_used_frame) as nat
    } else {
        0
    };
    age < evict_age
}

/// The entries of `s` recently used, in order.
pub open spec fn retained<T>(s: Seq<(PoolSlot, T)>, frame_counter: u64, evict_age: u64) -> Seq<
    (PoolSlot, T),
>
    decreases s.len(),
{
    if s.len() == 0 {
        Seq::empty()
    } else {
        let p = retained(s.drop_last(), frame_counter, evict_age);
        if recently_used(s.last().0, frame_counter, evict_age) {
            p.push(s.last())
        } else {
            p
        }
    }
}

/// Index at which an entry last used in frame `key` goes into `sorted`: after every entry last
/// used no later.
pub open spec fn insert_pos<T>(sorted: Seq<(PoolSlot, T)>, key: u64) -> int
    decreases sorted.len(),
{
    if sorted.len() == 0 {
        0
    } else if sorted[0].0.last_used_frame > key {
        0
    } else {
        1 + insert_pos(sorted.drop_first(), key)
    }
}

/// `s` stably sorted by the frame of last use, least recent first.
pub open spec fn sort_by_last_use<T>(s: Seq<(PoolSlot, T)>) -> Seq<(PoolSlot, T)>
    decreases s.len(),
{
    if s.len() == 0 {
        Seq::empty()
    } else {
        let p = sort_by_last_use(s.drop_last());
        p.insert(insert_pos(p, s.last().0.last_used_frame), s.last())
    }
}

/// The pool after eviction: when it exceeds `max_pool` entries, it keeps the recently used
/// ones; when that is still too many, the first `max_pool` of them in order of last use.
pub open spec fn spec_evict<T>(
    s: Seq<(PoolSlot, T)>,
    frame_counter: u64,
    max_pool: usize,
    evict_age: u64,
) -> Seq<(PoolSlot, T)> {
    if s.len() <= max_pool {
        s
    } else {
        let k = retained(s, frame_counter, evict_age);
        if k.len() <= max_pool {
            k
        } else {
            sort_by_last_use(k).take(max_pool as int)
        }
    }
}

proof fn lemma_insert_pos<T>(s: Seq<(PoolSlot, T)>, key: u64, k: int)
    requires
        0 <= k <= s.len(),
        forall|j: int| 0 <= j < k ==> (#[trigger] s[j]).0.last_used_frame <= key,
        k < s.len() ==> s[k].0.last_used_frame > key,
    ensures
        insert_pos(s, key) == k,
    decreases k,
{
    if k > 0 {
        assert(s[0].0.last_used_frame <= key);
        assert forall|j: int| 0 <= j < k - 1 implies (#[trigger] s.drop_first()[j]).0.last_used_frame
            <= key by {
            assert(s[j + 1].0.last_used_frame <= key);
        }
        lemma_insert_pos(s.drop_first(), key, k - 1);
    }
}

proof fn lemma_retained_len<T>(s: Seq<(PoolSlot, T)>, frame_counter: u64, evict_age: u64)
    ensures
        retained(s, frame_counter, evict_age).len() <= s.len(),
    decreases s.len(),
{
    if s.len() > 0 {
        lemma_retained_len(s.drop_last(), frame_counter, evict_age);
    }
}

proof fn lemma_sort_len<T>(s: Seq<(PoolSlot, T)>)
    ensures
        sort_by_last_use(s).len() == s.len(),
    decreases s.len(),
{
    if s.len() > 0 {
        lemma_sort_len(s.drop_last());
        lemma_insert_pos_bound(sort_by_last_use(s.drop_last()), s.last().0.last_used_frame);
    }
}

proof fn lemma_insert_pos_bound<T>(s: Seq<(PoolSlot, T)>, key: u64)
    ensures
        0 <= insert_pos(s, key) <= s.len(),
    decreases s.len(),
{
    if s.len() > 0 {
        lemma_insert_pos_bound(s.drop_first(), key);
    }
}

/// Eviction brings a pool that exceeds `max_pool` entries down to at most `max_pool`, and
/// never grows a pool.
pub proof fn lemma_evict_bounds<T>(
    s: Seq<(PoolSlot, T)>,
    frame_counter: u64,
    max_pool: usize,
    evict_age: u64,
)
    ensures
        spec_evict(s, frame_counter, max_pool, evict_age).len() <= s.len(),
        s.len() > max_pool ==> spec_evict(s, frame_counter, max_pool, evict_age).len() <= max_pool,
{
    lemma_retained_len(s, frame_counter, evict_age);
    lemma_sort_len(retained(s, frame_counter, evict_age));
}

/// The capacity of a new buffer for `bytes_needed` bytes.
pub fn capacity_for(bytes_needed: u64) -> (r: u64)
    requires
        bytes_needed <= 0x8000_0000_0000_0000,
    ensures
        r == new_capacity(bytes_needed),
{
    let mut p: u64 = 1;
    while p < bytes_needed
        invariant
            1 <= p,
            bytes_needed <= 0x8000_0000_0000_0000,
            next_pow2_from(p as nat, bytes_needed as nat) == next_pow2(bytes_needed as nat),
        decreases u64::MAX - p,
    {
        p = p * 2;
    }
    if p > 256 {
        p
    } else {
        256
    }
}

/// Pooled instance buffers `T` with their bookkeeping.
pub struct InstanceBufferPool<T> {
    entries: Vec<(PoolSlot, T)>,
}

impl<T> View for InstanceBufferPool<T> {
    type V = Seq<(PoolSlot, T)>;

    closed spec fn view(&self) -> Seq<(PoolSlot, T)> {
        self.entries@
    }
}

impl<T> InstanceBufferPool<T> {
    /// An empty pool.
    pub fn new() -> (r: Self)
        ensures
            r@ == Seq::<(PoolSlot, T)>::empty(),
    {
        InstanceBufferPool { entries: Vec::new() }
    }

    /// Number of pooled buffers.
    pub fn len(&self) -> (r: usize)
        ensures
            r == self@.len(),
    {
        self.entries.len()
    }

    /// The buffer at `idx`.
    pub fn buffer(&self, idx: usize) -> (r: &T)
        requires
            idx < self@.len(),
        ensures
            *r == self@[idx as int].1,
    {
        &self.entries[idx].1
    }

    /// The bookkeeping of the buffer at `idx`.
    pub fn slot(&self, idx: usize) -> (r: PoolSlot)
        requires
            idx < self@.len(),
        ensures
            r == self@[idx as int].0,
    {
        self.entries[idx].0
    }

    /// Where a batch of `bytes_needed` bytes goes: the first buffer not used this frame that is
    /// large enough, else a new buffer of capacity `capacity_for(bytes_needed)`.
    pub fn select_slot(&self, bytes_needed: u64) -> (r: SlotChoice)
        requires
            bytes_needed <= 0x8000_0000_0000_0000,
        ensures
            match r {
                SlotChoice::Reuse(i) => {
                    &&& i < self@.len()
                    &&& fits_free(self@[i as int].0, bytes_needed)
                    &&& forall|j: int| 0 <= j < i ==> !fits_free(#[trigger] self@[j].0, bytes_needed)
                },
                SlotChoice::Allocate(capacity) => {
                    &&& capacity == new_capacity(bytes_needed)
                    &&& forall|j: int|
                        0 <= j < self@.len() ==> !fits_free(#[trigger] self@[j].0, bytes_needed)
                },
            },
    {
        let mut i: usize = 0;
        while i < self.entries.len()
            invariant
                i <= self@.len(),
                forall|j: int| 0 <= j < i ==> !fits_free(#[trigger] self@[j].0, bytes_needed),
            decreases self@.len() - i,
        {
            let slot = self.entries[i].0;
            if !slot.used_this_frame && slot.capacity >= bytes_needed {
                return SlotChoice::Reuse(i);
            }
            i = i + 1;
        }
        SlotChoice::Allocate(capacity_for(bytes_needed))
    }

    /// Adds a buffer of `capacity` bytes, not yet used this frame, created in frame
    /// `frame_counter`; returns its index.
    pub fn add_slot(&mut self, capacity: u64, frame_counter: u64, buffer: T) -> (r: usize)
        ensures
            r == old(self)@.len(),
            final(self)@ == old(self)@.push(
                (PoolSlot { capacity, used_this_frame: false, last_used_frame: frame_counter }, buffer),
            ),
    {
        let r = self.entries.len();
        self.entries.push(
            (PoolSlot { capacity, used_this_frame: false, last_used_frame: frame_counter }, buffer),
        );
        r
    }

    /// Marks the buffer at `idx` as holding data of frame `frame_counter`.
    pub fn mark_used(&mut self, idx: usize, frame_counter: u64)
        requires
            idx < old(self)@.len(),
        ensures
            final(self)@ == old(self)@.update(
                idx as int,
                (
                    PoolSlot {
                        capacity: old(self)@[idx as int].0.capacity,
                        used_this_frame: true,
                        last_used_frame: frame_counter,
                    },
                    old(self)@[idx as int].1,
                ),
            ),
    {
        let ghost pre = self@;
        let (slot, buffer) = self.entries.remove(idx);
        self.entries.insert(
            idx,
            (PoolSlot { capacity: slot.capacity, used_this_frame: true, last_used_frame: frame_counter }, buffer),
        );
        assert(self@ =~= pre.update(
            idx as int,
            (
                PoolSlot {
                    capacity: pre[idx as int].0.capacity,
                    used_this_frame: true,
                    last_used_frame: frame_counter,
                },
                pre[idx as int].1,
            ),
        ));
    }

    /// Starts a frame: no buffer holds data of it yet.
    pub fn reset_usage(&mut self)
        ensures
            final(self)@.len() == old(self)@.len(),
            forall|i: int|
                0 <= i < old(self)@.len() ==> (#[trigger] final(self)@[i]) == (
                PoolSlot { used_this_frame: false, ..old(self)@[i].0 },
                old(self)@[i].1,
            ),
    {
        let ghost pre = self@;
        let mut out: Vec<(PoolSlot, T)> = Vec::new();
        let mut rest: Vec<(PoolSlot, T)> = Vec::new();
        core::mem::swap(&mut rest, &mut self.entries);
        let n = rest.len();
        let mut i: usize = 0;
        while i < n
            invariant
                n == pre.len(),
                i <= n,
                rest@ == pre.skip(i as int),
                out@.len() == i,
                forall|j: int|
                    0 <= j < i ==> (#[trigger] out@[j]) == (
                    PoolSlot { used_this_frame: false, ..pre[j].0 },
                    pre[j].1,
                ),
            decreases n - i,
        {
            let (slot, buffer) = rest.remove(0);
            assert(pre.skip(i as int)[0] == pre[i as int]);
            out.push((PoolSlot { used_this_frame: false, ..slot }, buffer));
            assert(rest@ =~= pre.skip(i + 1));
            i = i + 1;
        }
        self.entries = out;
    }

    /// Evicts buffers once the pool holds more than `max_pool`: buffers unused for
    /// `evict_age` frames or more go; if still too many remain, the pool keeps the first
    /// `max_pool` in order of last use (least recent first, ties in pool order).
    pub fn evict(&mut self, frame_counter: u64, max_pool: usize, evict_age: u64)
        ensures
            final(self)@ == spec_evict(old(self)@, frame_counter, max_pool, evict_age),
    {
        if self.entries.len() <= max_pool {
            return;
        }
        let ghost pre = self@;
        let mut rest: Vec<(PoolSlot, T)> = Vec::new();
        core::mem::swap(&mut rest, &mut self.entries);
        let n = rest.len();
        let mut kept: Vec<(PoolSlot, T)> = Vec::new();
        let mut i: usize = 0;
        assert(pre.skip(0) =~= pre);
        while i < n
            invariant
                n == pre.len(),
                i <= n,
                rest@ == pre.skip(i as int),
                kept@ == retained(pre.take(i as int), frame_counter, evict_age),
            decreases n - i,
        {
            let e = rest.remove(0);
            proof {
                assert(pre.skip(i as int)[0] == pre[i as int]);
                assert(pre.take(i + 1).drop_last() =~= pre.take(i as int));
                assert(pre.take(i + 1).last() == pre[i as int]);
            }
            let age = frame_counter.saturating_sub(e.0.last_used_frame);
            if age < evict_age {
                kept.push(e);
            }
            assert(rest@ =~= pre.skip(i + 1));
            i = i + 1;
        }
        assert(pre.take(n as int) =~= pre);
        if kept.len() <= max_pool {
            self.entries = kept;
            return;
        }
        let ghost k = kept@;
        let m = kept.len();
        let mut sorted: Vec<(PoolSlot, T)> = Vec::new();
        let mut j: usize = 0;
        assert(k.skip(0) =~= k);
        while j < m
            invariant
                m == k.len(),
                j <= m,
                kept@ == k.skip(j as int),
                sorted@ == sort_by_last_use(k.take(j as int)),
            decreases m - j,
        {
            let e = kept.remove(0);
            proof {
                assert(k.skip(j as int)[0] == k[j as int]);
                assert(k.take(j + 1).drop_last() =~= k.take(j as int));
                assert(k.take(j + 1).last() == k[j as int]);
                lemma_sort_len(k.take(j as int));
            }
            let key = e.0.last_used_frame;
            let mut pos: usize = 0;
            while pos < sorted.len() && sorted[pos].0.last_used_frame <= key
                invariant
                    pos <= sorted@.len(),
                    forall|q: int| 0 <= q < pos ==> (#[trigger] sorted@[q]).0.last_used_frame <= key,
                decreases sorted@.len() - pos,
            {
                pos = pos + 1;
            }
            proof {
                lemma_insert_pos(sorted@, key, pos as int);
            }
            sorted.insert(pos, e);
            assert(kept@ =~= k.skip(j + 1));
            j = j + 1;
        }
        assert(k.take(m as int) =~= k);
        proof {
            lemma_sort_len(k);
        }
        sorted.truncate(max_pool);
        assert(sorted@ =~= sort_by_last_use(k).take(max_pool as int));
        self.entries = sorted;
    }
}

} // verus!
