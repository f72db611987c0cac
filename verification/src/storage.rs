//! Persistent storage engine: block-addressed data file, meta file of
//! fixed-width `KVpos` records, and the free-hole ("chink") allocator.
//!
//! The data file and the meta file are held as in-memory byte images; the
//! caller persists them.  The allocator keeps three synchronized
//! collections over released block ranges: the range table itself with a
//! two-state lifecycle (committed-free vs. tentatively-released), plus two
//! secondary indexes keyed by first and by last block id, so that
//! releasing a range can coalesce with both neighbours by direct lookup.

use vstd::prelude::*;

use crate::Error;
use crate::util::{
    bytes_to_u16, bytes_to_u32, bytes_to_u8, spec_bytes_u16, spec_bytes_u32, spec_u16_bytes,
    spec_u32_bytes, u16_to_bytes, u32_to_bytes, u8_to_bytes,
};

verus! {

/// Size in bytes of one block of the data file.
pub const BLOCK_SIZE: usize = 512;

/// Largest block id the engine will ever hand out.
pub const MAX_BLOCK_ID: u32 = 0xffff_ffff;

/// Largest number of consecutive blocks a single range may span.
pub const BLOCKS_MAX_COUNT: u8 = 255;

/// Largest key+value payload: a full 255-block span.
pub const MAX_KV_SIZE: usize = 512 * 255;

/// Width of an encoded `KVpos` record.
pub const KV_POS_SIZE: usize = 9;

/// Width of the meta-file header (a big-endian `u32` block id).
pub const SIZE_OF_BLOCK_ID: usize = 4;

/// State of a released range: committed-free, reusable at once.
pub const FREE: u8 = 0;

/// State of a released range that belongs to an update or delete whose
/// commit has not yet been applied; not reusable until flipped to `FREE`.
pub const USED: u8 = 1;

/// A run of consecutive 512-byte blocks in the data file.
#[derive(Clone, Copy, PartialEq, Eq, Structural, Debug)]
pub struct Blocks {
    pub start_block_id: u32,
    pub block_count: u8,
}

impl Blocks {
    /// A meaningful range: at least one block, and its last block id
    /// still representable.
    pub open spec fn wf(self) -> bool {
        &&& 1 <= self.block_count
        &&& self.start_block_id + self.block_count - 1 <= MAX_BLOCK_ID
    }

    /// Id of the last block of the range, inclusive.
    pub open spec fn spec_last(self) -> int {
        self.start_block_id + self.block_count - 1
    }

    /// Whether two ranges share no block.
    pub open spec fn disjoint(self, other: Blocks) -> bool {
        self.spec_last() < other.start_block_id || other.spec_last() < self.start_block_id
    }

    pub fn new(start_block_id: u32, block_count: u8) -> (r: Blocks)
        ensures
            r == (Blocks { start_block_id, block_count }),
    {
        Blocks { start_block_id, block_count }
    }

    pub fn first_block_id(&self) -> (r: u32)
        ensures
            r == self.start_block_id,
    {
        self.start_block_id
    }

    pub fn last_block_id(&self) -> (r: u32)
        requires
            self.wf(),
        ensures
            r == self.spec_last(),
    {
        self.start_block_id + (self.block_count - 1) as u32
    }

    pub fn count(&self) -> (r: u8)
        ensures
            r == self.block_count,
    {
        self.block_count
    }

    /// Absorb an immediately following range.
    pub fn merge_to_tail(&mut self, blocks: &Blocks)
        requires
            old(self).block_count + blocks.block_count <= 255,
        ensures
            final(self).start_block_id == old(self).start_block_id,
            final(self).block_count == old(self).block_count + blocks.block_count,
    {
        self.block_count = self.block_count + blocks.block_count;
    }

    /// Absorb an immediately preceding range.
    pub fn merge_to_head(&mut self, blocks: &Blocks)
        requires
            old(self).block_count + blocks.block_count <= 255,
        ensures
            final(self).start_block_id == blocks.start_block_id,
            final(self).block_count == old(self).block_count + blocks.block_count,
    {
        self.start_block_id = blocks.start_block_id;
        self.block_count = self.block_count + blocks.block_count;
    }
}

/// Fixed-width on-disk descriptor locating one key+value pair: the block
/// range, the offset of the value within it (equal to the key length),
/// and the combined key+value length.  `kv_size == 0` marks a tombstone.
#[derive(Clone, Copy, PartialEq, Eq, Structural, Debug)]
pub struct KVpos {
    pub blocks: Blocks,
    pub value_pos: u16,
    pub kv_size: u16,
}

/// The nine-byte big-endian encoding of a `KVpos` record.
pub open spec fn spec_kvpos_bytes(p: KVpos) -> Seq<u8> {
    spec_u32_bytes(p.blocks.start_block_id) + seq![p.blocks.block_count]
        + spec_u16_bytes(p.value_pos) + spec_u16_bytes(p.kv_size)
}

/// The `KVpos` denoted by nine bytes of a meta-file record.
pub open spec fn spec_bytes_kvpos(s: Seq<u8>) -> KVpos
    recommends
        s.len() == KV_POS_SIZE,
{
    KVpos {
        blocks: Blocks {
            start_block_id: spec_bytes_u32(s.subrange(0, 4)),
            block_count: s[4],
        },
        value_pos: spec_bytes_u16(s.subrange(5, 7)),
        kv_size: spec_bytes_u16(s.subrange(7, 9)),
    }
}

/// Record decoding inverts record encoding.
pub proof fn lemma_kvpos_round_trip(p: KVpos)
    ensures
        spec_bytes_kvpos(spec_kvpos_bytes(p)) == p,
{
    let s = spec_kvpos_bytes(p);
    assert(s.subrange(0, 4) =~= spec_u32_bytes(p.blocks.start_block_id));
    assert(s.subrange(5, 7) =~= spec_u16_bytes(p.value_pos));
    assert(s.subrange(7, 9) =~= spec_u16_bytes(p.kv_size));
    crate::util::lemma_u32_round_trip(p.blocks.start_block_id);
    crate::util::lemma_u16_round_trip(p.value_pos);
    crate::util::lemma_u16_round_trip(p.kv_size);
}

/// Record encoding inverts record decoding.
pub proof fn lemma_kvpos_bytes_round_trip(s: Seq<u8>)
    requires
        s.len() == KV_POS_SIZE,
    ensures
        spec_kvpos_bytes(spec_bytes_kvpos(s)) =~= s,
{
    lemma_u32_bytes_round_trip(s.subrange(0, 4));
    crate::util::lemma_u16_bytes_round_trip(s.subrange(5, 7));
    crate::util::lemma_u16_bytes_round_trip(s.subrange(7, 9));
    let t = spec_kvpos_bytes(spec_bytes_kvpos(s));
    assert forall|i: int| 0 <= i < 9 implies t[i] == s[i] by {
        if i < 4 {
            assert(t[i] == spec_u32_bytes(spec_bytes_u32(s.subrange(0, 4)))[i]);
            assert(s.subrange(0, 4)[i] == s[i]);
        } else if i == 4 {
        } else if i < 7 {
            assert(t[i] == spec_u16_bytes(spec_bytes_u16(s.subrange(5, 7)))[i - 5]);
            assert(s.subrange(5, 7)[i - 5] == s[i]);
        } else {
            assert(t[i] == spec_u16_bytes(spec_bytes_u16(s.subrange(7, 9)))[i - 7]);
            assert(s.subrange(7, 9)[i - 7] == s[i]);
        }
    }
}

impl KVpos {
    pub fn to_bytes(&self) -> (r: Vec<u8>)
        ensures
            r@ =~= spec_kvpos_bytes(*self),
            r@.len() == KV_POS_SIZE,
    {
        let mut data = u32_to_bytes(self.blocks.start_block_id);
        let mut block_count_bytes = u8_to_bytes(self.blocks.block_count);
        let mut value_pos_bytes = u16_to_bytes(self.value_pos);
        let mut kv_size_bytes = u16_to_bytes(self.kv_size);
        data.append(&mut block_count_bytes);
        data.append(&mut value_pos_bytes);
        data.append(&mut kv_size_bytes);
        data
    }

    /// Decode one record; the slice must be exactly `KV_POS_SIZE` bytes.
    pub fn to_kvpos(data: &[u8]) -> (r: KVpos)
        requires
            data@.len() == KV_POS_SIZE,
        ensures
            r == spec_bytes_kvpos(data@),
    {
        let blocks_id_bytes = vstd::slice::slice_subrange(data, 0, 4);
        let block_count_bytes = vstd::slice::slice_subrange(data, 4, 5);
        let value_pos_bytes = vstd::slice::slice_subrange(data, 5, 7);
        let kv_size_bytes = vstd::slice::slice_subrange(data, 7, 9);
        let blocks_id = bytes_to_u32(blocks_id_bytes);
        let block_count = bytes_to_u8(block_count_bytes);
        let value_pos = bytes_to_u16(value_pos_bytes);
        let kv_size = bytes_to_u16(kv_size_bytes);
        KVpos {
            blocks: Blocks::new(blocks_id, block_count),
            value_pos,
            kv_size,
        }
    }
}

/// Whether `e` occurs in the range table `s`.
pub open spec fn entry_in(s: Seq<(Blocks, u8)>, e: (Blocks, u8)) -> bool {
    exists|i: int| 0 <= i < s.len() && s[i] == e
}

/// Whether some range of `s` ends at block id `id`.
pub open spec fn has_end(s: Seq<(Blocks, u8)>, id: int) -> bool {
    exists|i: int| 0 <= i < s.len() && s[i].0.spec_last() == id
}

/// The entry of `s` whose range ends at `id` (unique when ranges are
/// pairwise disjoint).
pub open spec fn at_end(s: Seq<(Blocks, u8)>, id: int) -> (Blocks, u8) {
    s[choose|i: int| 0 <= i < s.len() && s[i].0.spec_last() == id]
}

/// Whether some range of `s` starts at block id `id`.
pub open spec fn has_start(s: Seq<(Blocks, u8)>, id: int) -> bool {
    exists|i: int| 0 <= i < s.len() && s[i].0.start_block_id == id
}

/// The entry of `s` whose range starts at `id`.
pub open spec fn at_start(s: Seq<(Blocks, u8)>, id: int) -> (Blocks, u8) {
    s[choose|i: int| 0 <= i < s.len() && s[i].0.start_block_id == id]
}

/// Range-table consistency: every range is meaningful, carries a legal
/// state, lies strictly below `min_next`, and no two ranges overlap.
pub open spec fn table_wf(s: Seq<(Blocks, u8)>, min_next: int) -> bool {
    &&& forall|i: int| 0 <= i < s.len() ==> (#[trigger] s[i]).0.wf() && (s[i].1 == FREE || s[i].1
        == USED) && s[i].0.spec_last() < min_next
    &&& forall|i: int, j: int| 0 <= i < j < s.len() ==> (#[trigger] s[i]).0.disjoint(
        (#[trigger] s[j]).0,
    )
}

/// In a consistent table a first or last block id determines the entry.
pub proof fn lemma_table_unique(s: Seq<(Blocks, u8)>, min_next: int, i: int, j: int)
    requires
        table_wf(s, min_next),
        0 <= i < s.len(),
        0 <= j < s.len(),
        s[i].0.spec_last() == s[j].0.spec_last() || s[i].0.start_block_id
            == s[j].0.start_block_id,
    ensures
        i == j,
        s[i] == s[j],
{
    if i < j {
        assert(s[i].0.disjoint(s[j].0));
    }
    if j < i {
        assert(s[j].0.disjoint(s[i].0));
    }
}

/// `at_end` picks exactly the known witness.
pub proof fn lemma_at_end(s: Seq<(Blocks, u8)>, min_next: int, id: int, i: int)
    requires
        table_wf(s, min_next),
        0 <= i < s.len(),
        s[i].0.spec_last() == id,
    ensures
        has_end(s, id),
        at_end(s, id) == s[i],
{
    assert(has_end(s, id));
    let k = choose|k: int| 0 <= k < s.len() && s[k].0.spec_last() == id;
    lemma_table_unique(s, min_next, i, k);
}

/// `at_start` picks exactly the known witness.
pub proof fn lemma_at_start(s: Seq<(Blocks, u8)>, min_next: int, id: int, i: int)
    requires
        table_wf(s, min_next),
        0 <= i < s.len(),
        s[i].0.start_block_id == id,
    ensures
        has_start(s, id),
        at_start(s, id) == s[i],
{
    assert(has_start(s, id));
    let k = choose|k: int| 0 <= k < s.len() && s[k].0.start_block_id == id;
    lemma_table_unique(s, min_next, i, k);
}

/// The range and the two optional absorbed neighbours that releasing `b`
/// into table `s` produces.  A neighbour is absorbed only when the merged
/// range still fits in one `Blocks` (at most 255 blocks).
pub open spec fn spec_coalesce(s: Seq<(Blocks, u8)>, b: Blocks) -> (Blocks, Option<Blocks>, Option<
    Blocks,
>) {
    let (mid, left) = if b.start_block_id > 0 && has_end(s, b.start_block_id - 1) && at_end(
        s,
        b.start_block_id - 1,
    ).0.block_count + b.block_count <= 255 {
        let lb = at_end(s, b.start_block_id - 1).0;
        (
            (Blocks {
                start_block_id: lb.start_block_id,
                block_count: (lb.block_count + b.block_count) as u8,
            }),
            Some(lb),
        )
    } else {
        (b, None::<Blocks>)
    };
    if mid.spec_last() < MAX_BLOCK_ID && has_start(s, mid.spec_last() + 1) && mid.block_count
        + at_start(s, mid.spec_last() + 1).0.block_count <= 255 {
        let rb = at_start(s, mid.spec_last() + 1).0;
        (
            (Blocks {
                start_block_id: mid.start_block_id,
                block_count: (mid.block_count + rb.block_count) as u8,
            }),
            left,
            Some(rb),
        )
    } else {
        (mid, left, None::<Blocks>)
    }
}

/// Whether block `id` lies in range `b`.
pub open spec fn spec_covers(b: Blocks, id: int) -> bool {
    b.start_block_id <= id <= b.spec_last()
}

/// The coalesced range covers exactly the released range plus whatever
/// its absorbed neighbours covered.
pub proof fn lemma_coalesce_covers(s: Seq<(Blocks, u8)>, min_next: int, b: Blocks)
    requires
        table_wf(s, min_next),
        b.wf(),
    ensures
        ({
            let (m, l, r) = spec_coalesce(s, b);
            &&& forall|id: int| #[trigger]
                spec_covers(m, id) <==> spec_covers(b, id) || (l is Some && spec_covers(
                    l->0,
                    id,
                )) || (r is Some && spec_covers(r->0, id))
            &&& (l is Some ==> l->0.spec_last() == b.start_block_id - 1 && entry_in(
                s,
                (l->0, at_end(s, b.start_block_id - 1).1),
            ))
            &&& (r is Some ==> r->0.start_block_id == b.spec_last() + 1 && entry_in(
                s,
                (r->0, at_start(s, b.spec_last() + 1).1),
            ))
            &&& m.wf()
        }),
{
    let (m, l, r) = spec_coalesce(s, b);
    if b.start_block_id > 0 && has_end(s, b.start_block_id - 1) && at_end(
        s,
        b.start_block_id - 1,
    ).0.block_count + b.block_count <= 255 {
        let k = choose|k: int| 0 <= k < s.len() && s[k].0.spec_last() == b.start_block_id - 1;
        assert(s[k] == at_end(s, b.start_block_id - 1));
        assert(entry_in(s, s[k]));
    }
    let mid = if l is Some {
        (Blocks {
            start_block_id: l->0.start_block_id,
            block_count: (l->0.block_count + b.block_count) as u8,
        })
    } else {
        b
    };
    if mid.spec_last() < MAX_BLOCK_ID && has_start(s, mid.spec_last() + 1) && mid.block_count
        + at_start(s, mid.spec_last() + 1).0.block_count <= 255 {
        let k = choose|k: int| 0 <= k < s.len() && s[k].0.start_block_id == mid.spec_last() + 1;
        assert(s[k] == at_start(s, mid.spec_last() + 1));
        assert(entry_in(s, s[k]));
    }
}

/// The storage engine: the data-file and meta-file images, the map from
/// live `KVpos` records to their meta-file offsets, and the free-hole
/// allocator's three synchronized collections.
pub struct Storage {
    /// Live meta records: each `KVpos` paired with its meta-file offset.
    pub kv_pos_map: Vec<(KVpos, u64)>,
    /// Meta file image: a 4-byte header then 9-byte records.
    pub meta: Vec<u8>,
    /// First block id never yet handed out (advanced at commit).
    pub min_blocks_id_can_use: u32,
    /// Data file image, always `min_blocks_id_can_use * 512` bytes.
    pub data: Vec<u8>,
    /// Released ranges with their two-state lifecycle.
    pub chink_blocks: Vec<(Blocks, u8)>,
    /// Secondary index: first block id of each range.
    pub chink_blocks_start: Vec<(u32, Blocks)>,
    /// Secondary index: last block id of each range.
    pub chink_blocks_end: Vec<(u32, Blocks)>,
}

impl Storage {
    /// The range table as a sequence of entries.
    pub open spec fn chinks(self) -> Seq<(Blocks, u8)> {
        self.chink_blocks@
    }

    /// Allocator consistency: the two secondary indexes mirror the range
    /// table entry for entry, and the table itself is consistent.
    pub open spec fn chinks_wf(self) -> bool {
        &&& self.chink_blocks_start@.len() == self.chink_blocks@.len()
        &&& self.chink_blocks_end@.len() == self.chink_blocks@.len()
        &&& forall|i: int| 0 <= i < self.chink_blocks@.len() ==> {
            let b = (#[trigger] self.chink_blocks@[i]).0;
            self.chink_blocks_start@[i] == (b.start_block_id, b) && self.chink_blocks_end@[i]
                == ((b.spec_last() as u32), b)
        }
        &&& table_wf(self.chink_blocks@, self.min_blocks_id_can_use as int)
    }

    /// Find the table index of the range ending at `id`.
    fn find_chink_end(&self, id: u32) -> (r: Option<usize>)
        requires
            self.chinks_wf(),
        ensures
            match r {
                Some(i) => i < self.chinks().len() && self.chinks()[i as int].0.spec_last() == id,
                None => !has_end(self.chinks(), id as int),
            },
    {
        let n = self.chink_blocks_end.len();
        let mut i: usize = 0;
        while i < n
            invariant
                n == self.chink_blocks_end@.len(),
                self.chinks_wf(),
                i <= n,
                forall|k: int| 0 <= k < i ==> (#[trigger] self.chinks()[k]).0.spec_last() != id,
            decreases n - i,
        {
            if self.chink_blocks_end[i].0 == id {
                return Some(i);
            }
            i = i + 1;
        }
        None
    }

    /// Find the table index of the range starting at `id`.
    fn find_chink_start(&self, id: u32) -> (r: Option<usize>)
        requires
            self.chinks_wf(),
        ensures
            match r {
                Some(i) => i < self.chinks().len() && self.chinks()[i as int].0.start_block_id
                    == id,
                None => !has_start(self.chinks(), id as int),
            },
    {
        let n = self.chink_blocks_start.len();
        let mut i: usize = 0;
        while i < n
            invariant
                n == self.chink_blocks_start@.len(),
                self.chinks_wf(),
                i <= n,
                forall|k: int| 0 <= k < i ==> (#[trigger] self.chinks()[k]).0.start_block_id
                    != id,
            decreases n - i,
        {
            if self.chink_blocks_start[i].0 == id {
                return Some(i);
            }
            i = i + 1;
        }
        None
    }

    /// Drop the table entry at `i` from all three collections.
    fn remove_chink_at(&mut self, i: usize)
        requires
            old(self).chinks_wf(),
            i < old(self).chinks().len(),
        ensures
            final(self).chinks_wf(),
            final(self).chinks().len() == old(self).chinks().len() - 1,
            forall|e: (Blocks, u8)| #[trigger]
                entry_in(final(self).chinks(), e) <==> entry_in(old(self).chinks(), e) && e != old(
                    self,
                ).chinks()[i as int],
            final(self).kv_pos_map == old(self).kv_pos_map,
            final(self).meta == old(self).meta,
            final(self).data == old(self).data,
            final(self).min_blocks_id_can_use == old(self).min_blocks_id_can_use,
    {
        self.chink_blocks.swap_remove(i);
        self.chink_blocks_start.swap_remove(i);
        self.chink_blocks_end.swap_remove(i);
        proof {
            let oldc = old(self).chinks();
            let newc = self.chinks();
            let mn = old(self).min_blocks_id_can_use as int;
            assert forall|e: (Blocks, u8)| #[trigger]
                entry_in(newc, e) implies entry_in(oldc, e) && e != oldc[i as int] by {
                let k = choose|k: int| 0 <= k < newc.len() && newc[k] == e;
                if k == i {
                    assert(oldc[oldc.len() - 1] == e);
                    if e == oldc[i as int] {
                        lemma_table_unique(oldc, mn, i as int, oldc.len() - 1);
                    }
                } else {
                    assert(oldc[k] == e);
                    if e == oldc[i as int] {
                        lemma_table_unique(oldc, mn, i as int, k);
                    }
                }
            }
            assert forall|e: (Blocks, u8)|
                entry_in(oldc, e) && e != oldc[i as int] implies #[trigger] entry_in(newc, e) by {
                let k = choose|k: int| 0 <= k < oldc.len() && oldc[k] == e;
                if k == oldc.len() - 1 {
                    if i < oldc.len() - 1 {
                        assert(newc[i as int] == e);
                    }
                } else {
                    assert(newc[k] == e);
                }
            }
        }
    }

    /// Append an entry to all three collections.
    fn push_chink(&mut self, blocks: Blocks, state: u8)
        requires
            old(self).chinks_wf(),
            blocks.wf(),
            state == FREE || state == USED,
            blocks.spec_last() < old(self).min_blocks_id_can_use,
            forall|i: int| 0 <= i < old(self).chinks().len() ==> blocks.disjoint(
                (#[trigger] old(self).chinks()[i]).0,
            ),
        ensures
            final(self).chinks_wf(),
            final(self).chinks() == old(self).chinks().push((blocks, state)),
            final(self).kv_pos_map == old(self).kv_pos_map,
            final(self).meta == old(self).meta,
            final(self).data == old(self).data,
            final(self).min_blocks_id_can_use == old(self).min_blocks_id_can_use,
    {
        let last = blocks.last_block_id();
        self.chink_blocks.push((blocks, state));
        self.chink_blocks_start.push((blocks.first_block_id(), blocks));
        self.chink_blocks_end.push((last, blocks));
        proof {
            let s = self.chinks();
            let n = s.len() - 1;
            assert(s[n] == (blocks, state));
            assert forall|i: int, j: int| 0 <= i < j < s.len() implies (#[trigger] s[i]).0.disjoint(
                (#[trigger] s[j]).0,
            ) by {
                if j == n {
                    assert(blocks.disjoint(old(self).chinks()[i].0));
                } else {
                    assert(old(self).chinks()[i] == s[i]);
                    assert(old(self).chinks()[j] == s[j]);
                }
            }
        }
    }

    /// Release a range into the table with coalescing: the immediate left
    /// and right neighbours are looked up through the secondary indexes
    /// and absorbed (when the merged span still fits 255 blocks); the
    /// resulting range is recorded with the caller's `state` in all three
    /// collections.  On return `blocks` holds the merged range.
    pub fn insert_chink_blocks(&mut self, blocks: &mut Blocks, blocks_state: u8)
        requires
            old(self).chinks_wf(),
            old(blocks).wf(),
            blocks_state == FREE || blocks_state == USED,
            old(blocks).spec_last() < old(self).min_blocks_id_can_use,
            forall|i: int| 0 <= i < old(self).chinks().len() ==> old(blocks).disjoint(
                (#[trigger] old(self).chinks()[i]).0,
            ),
        ensures
            final(self).chinks_wf(),
            *final(blocks) == spec_coalesce(old(self).chinks(), *old(blocks)).0,
            ({
                let (m, l, r) = spec_coalesce(old(self).chinks(), *old(blocks));
                &&& entry_in(final(self).chinks(), (m, blocks_state))
                &&& forall|e: (Blocks, u8)| #[trigger] entry_in(final(self).chinks(), e) <==> {
                    ||| e == (m, blocks_state)
                    ||| entry_in(old(self).chinks(), e) && (l is Some ==> e.0 != l->0) && (r
                        is Some ==> e.0 != r->0)
                }
                &&& final(self).chinks().len() == old(self).chinks().len() + 1 - (if l is Some {
                    1int
                } else {
                    0int
                }) - (if r is Some {
                    1int
                } else {
                    0int
                })
            }),
            final(self).kv_pos_map == old(self).kv_pos_map,
            final(self).meta == old(self).meta,
            final(self).data == old(self).data,
            final(self).min_blocks_id_can_use == old(self).min_blocks_id_can_use,
    {
        let ghost orig = old(self).chinks();
        let ghost b0 = *old(blocks);
        let ghost mn = old(self).min_blocks_id_can_use as int;
        let ghost trip = spec_coalesce(orig, b0);
        let first = blocks.first_block_id();
        let last = blocks.last_block_id();
        let ghost l_entry: (Blocks, u8) = arbitrary();
        let ghost l_entry = if trip.1 is Some {
            at_end(orig, b0.start_block_id - 1)
        } else {
            l_entry
        };
        if first > 0 {
            match self.find_chink_end(first - 1) {
                Some(i) => {
                    proof {
                        lemma_at_end(orig, mn, first - 1, i as int);
                    }
                    let pblocks = self.chink_blocks[i].0;
                    if pblocks.count() <= 255 - blocks.count() {
                        blocks.merge_to_head(&pblocks);
                        self.remove_chink_at(i);
                        proof {
                            assert(trip.1 == Some(pblocks));
                        }
                    } else {
                        proof {
                            assert(trip.1 is None);
                        }
                    }
                }
                None => {
                    proof {
                        assert(trip.1 is None);
                    }
                }
            }
        } else {
            proof {
                assert(trip.1 is None);
            }
        }
        let ghost mid_chinks = self.chinks();
        let ghost mid = *blocks;
        proof {
            // the range so far matches the spec's intermediate result
            if trip.1 is Some {
                assert(mid == (Blocks {
                    start_block_id: trip.1->0.start_block_id,
                    block_count: (trip.1->0.block_count + b0.block_count) as u8,
                }));
            } else {
                assert(mid == b0);
            }
            assert(mid.spec_last() == b0.spec_last());
            assert(table_wf(mid_chinks, mn));
            // the right-neighbour lookup over the reduced table agrees
            // with the lookup over the original table
            if mid.spec_last() < MAX_BLOCK_ID {
                let idr = b0.spec_last() + 1;
                if has_start(mid_chinks, idr) {
                    let k = choose|k: int|
                        0 <= k < mid_chinks.len() && mid_chinks[k].0.start_block_id == idr;
                    assert(entry_in(mid_chinks, mid_chinks[k]));
                    assert(entry_in(orig, mid_chinks[k]));
                    let k2 = choose|k2: int| 0 <= k2 < orig.len() && orig[k2] == mid_chinks[k];
                    lemma_at_start(orig, mn, idr, k2);
                    lemma_at_start(mid_chinks, mn, idr, k);
                    assert(at_start(mid_chinks, idr) == at_start(orig, idr));
                    assert(has_start(orig, idr));
                }
                if has_start(orig, idr) {
                    let k = choose|k: int| 0 <= k < orig.len() && orig[k].0.start_block_id == idr;
                    lemma_at_start(orig, mn, idr, k);
                    if trip.1 is Some {
                        // the absorbed left neighbour cannot also start
                        // just past the released range
                        assert(orig[k] != l_entry);
                    }
                    assert(entry_in(orig, orig[k]));
                    assert(entry_in(mid_chinks, orig[k]));
                    let k3 = choose|k3: int| 0 <= k3 < mid_chinks.len() && mid_chinks[k3] == orig[k];
                    lemma_at_start(mid_chinks, mn, idr, k3);
                    assert(has_start(mid_chinks, idr));
                }
            }
        }
        let ghost r_entry: (Blocks, u8) = arbitrary();
        let ghost r_entry = if trip.2 is Some {
            at_start(orig, mid.spec_last() + 1)
        } else {
            r_entry
        };
        if last < MAX_BLOCK_ID {
            match self.find_chink_start(last + 1) {
                Some(i) => {
                    proof {
                        lemma_at_start(mid_chinks, mn, last + 1, i as int);
                    }
                    let pblocks = self.chink_blocks[i].0;
                    if pblocks.count() <= 255 - blocks.count() {
                        blocks.merge_to_tail(&pblocks);
                        self.remove_chink_at(i);
                        proof {
                            assert(trip.2 == Some(pblocks));
                        }
                    } else {
                        proof {
                            assert(trip.2 is None);
                        }
                    }
                }
                None => {
                    proof {
                        assert(trip.2 is None);
                    }
                }
            }
        } else {
            proof {
                assert(trip.2 is None);
            }
        }
        let ghost pre_push = self.chinks();
        proof {
            assert(*blocks == trip.0);
            assert forall|i: int| 0 <= i < pre_push.len() implies trip.0.disjoint(
                (#[trigger] pre_push[i]).0,
            ) by {
                let e = pre_push[i];
                assert(entry_in(pre_push, e));
                assert(entry_in(mid_chinks, e));
                assert(entry_in(orig, e));
                let k = choose|k: int| 0 <= k < orig.len() && orig[k] == e;
                assert(b0.disjoint(e.0));
                if trip.1 is Some {
                    assert(e != l_entry);
                    let w = choose|w: int|
                        0 <= w < orig.len() && orig[w].0.spec_last() == b0.start_block_id - 1;
                    lemma_at_end(orig, mn, b0.start_block_id - 1, w);
                    assert(orig[w] == l_entry);
                    if k < w {
                        assert(orig[k].0.disjoint(orig[w].0));
                    } else {
                        assert(orig[w].0.disjoint(orig[k].0));
                    }
                    assert(l_entry.0.spec_last() == b0.start_block_id - 1);
                }
                if trip.2 is Some {
                    assert(e != r_entry);
                    let w = choose|w: int|
                        0 <= w < orig.len() && orig[w].0.start_block_id == mid.spec_last() + 1;
                    lemma_at_start(orig, mn, mid.spec_last() + 1, w);
                    assert(orig[w] == r_entry);
                    if k < w {
                        assert(orig[k].0.disjoint(orig[w].0));
                    } else {
                        assert(orig[w].0.disjoint(orig[k].0));
                    }
                    assert(r_entry.0.start_block_id == mid.spec_last() + 1);
                }
            }
            assert(trip.0.wf());
            assert(trip.0.spec_last() < mn);
        }
        self.push_chink(*blocks, blocks_state);
        proof {
            let m = trip.0;
            let fin = self.chinks();
            assert(fin[fin.len() - 1] == (m, blocks_state));
            assert(entry_in(fin, (m, blocks_state)));
            assert forall|e: (Blocks, u8)| #[trigger] entry_in(fin, e) implies {
                ||| e == (m, blocks_state)
                ||| entry_in(orig, e) && (trip.1 is Some ==> e.0 != trip.1->0) && (trip.2
                    is Some ==> e.0 != trip.2->0)
            } by {
                if e != (m, blocks_state) {
                    let k = choose|k: int| 0 <= k < fin.len() && fin[k] == e;
                    assert(pre_push[k] == e);
                    assert(entry_in(pre_push, e));
                    assert(entry_in(orig, e));
                    let k2 = choose|k2: int| 0 <= k2 < orig.len() && orig[k2] == e;
                    if trip.1 is Some && e.0 == trip.1->0 {
                        let kl = choose|kl: int| 0 <= kl < orig.len() && orig[kl] == l_entry;
                        lemma_table_unique(orig, mn, k2, kl);
                        assert(e == l_entry);
                        assert(!entry_in(mid_chinks, e));
                        assert(entry_in(mid_chinks, e));
                    }
                    if trip.2 is Some && e.0 == trip.2->0 {
                        let kr = choose|kr: int| 0 <= kr < orig.len() && orig[kr] == r_entry;
                        lemma_table_unique(orig, mn, k2, kr);
                        assert(e == r_entry);
                        assert(!entry_in(pre_push, e));
                    }
                }
            }
            assert forall|e: (Blocks, u8)|
                e == (m, blocks_state) || (entry_in(orig, e) && (trip.1 is Some ==> e.0
                    != trip.1->0) && (trip.2 is Some ==> e.0 != trip.2->0)) implies #[trigger]
                entry_in(fin, e) by {
                if e == (m, blocks_state) {
                } else {
                    assert(entry_in(mid_chinks, e));
                    assert(entry_in(pre_push, e));
                    let k = choose|k: int| 0 <= k < pre_push.len() && pre_push[k] == e;
                    assert(fin[k] == e);
                }
            }
        }
    }

    /// Index of the best-fit committed-free range: among `FREE` entries
    /// spanning at least `needed_blocks`, one with the smallest span.
    pub fn take_free_chink_blocks(&self, needed_blocks: u8) -> (r: Option<usize>)
        requires
            self.chinks_wf(),
        ensures
            match r {
                Some(i) => {
                    &&& i < self.chinks().len()
                    &&& self.chinks()[i as int].1 == FREE
                    &&& self.chinks()[i as int].0.block_count >= needed_blocks
                    &&& forall|j: int|
                        0 <= j < self.chinks().len() && (#[trigger] self.chinks()[j]).1 == FREE
                            && self.chinks()[j].0.block_count >= needed_blocks
                            ==> self.chinks()[i as int].0.block_count
                            <= self.chinks()[j].0.block_count
                },
                None => forall|j: int|
                    0 <= j < self.chinks().len() ==> !((#[trigger] self.chinks()[j]).1 == FREE
                        && self.chinks()[j].0.block_count >= needed_blocks),
            },
    {
        let n = self.chink_blocks.len();
        let mut best: Option<usize> = None;
        let mut i: usize = 0;
        while i < n
            invariant
                i <= n,
                n == self.chinks().len(),
                self.chinks_wf(),
                match best {
                    Some(b) => {
                        &&& b < n
                        &&& self.chinks()[b as int].1 == FREE
                        &&& self.chinks()[b as int].0.block_count >= needed_blocks
                        &&& forall|j: int|
                            0 <= j < i && (#[trigger] self.chinks()[j]).1 == FREE
                                && self.chinks()[j].0.block_count >= needed_blocks
                                ==> self.chinks()[b as int].0.block_count
                                <= self.chinks()[j].0.block_count
                    },
                    None => forall|j: int|
                        0 <= j < i ==> !((#[trigger] self.chinks()[j]).1 == FREE
                            && self.chinks()[j].0.block_count >= needed_blocks),
                },
            decreases n - i,
        {
            let (b, st) = self.chink_blocks[i];
            if st == FREE && b.block_count >= needed_blocks {
                match best {
                    Some(bi) => {
                        if b.block_count < self.chink_blocks[bi].0.block_count {
                            best = Some(i);
                        }
                    },
                    None => {
                        best = Some(i);
                    },
                }
            }
            i = i + 1;
        }
        best
    }

    /// Drop a range from all three collections, by value.
    pub fn remove_chink_blocks(&mut self, blocks: Blocks)
        requires
            old(self).chinks_wf(),
        ensures
            final(self).chinks_wf(),
            forall|e: (Blocks, u8)| #[trigger]
                entry_in(final(self).chinks(), e) <==> entry_in(old(self).chinks(), e) && e.0
                    != blocks,
            final(self).kv_pos_map == old(self).kv_pos_map,
            final(self).meta == old(self).meta,
            final(self).data == old(self).data,
            final(self).min_blocks_id_can_use == old(self).min_blocks_id_can_use,
    {
        let ghost orig = self.chinks();
        let ghost mn = self.min_blocks_id_can_use as int;
        match self.find_chink_start(blocks.start_block_id) {
            Some(i) => {
                if self.chink_blocks[i].0.block_count == blocks.block_count {
                    self.remove_chink_at(i);
                    proof {
                        assert(orig[i as int].0 == blocks);
                        assert forall|e: (Blocks, u8)| #[trigger]
                            entry_in(self.chinks(), e) <==> entry_in(orig, e) && e.0
                                != blocks by {
                            if entry_in(orig, e) && e.0 == blocks {
                                let k = choose|k: int| 0 <= k < orig.len() && orig[k] == e;
                                lemma_table_unique(orig, mn, k, i as int);
                            }
                        }
                    }
                } else {
                    proof {
                        assert forall|e: (Blocks, u8)|
                            entry_in(orig, e) implies e.0 != blocks by {
                            let k = choose|k: int| 0 <= k < orig.len() && orig[k] == e;
                            if e.0 == blocks {
                                lemma_at_start(orig, mn, blocks.start_block_id as int, k);
                                lemma_table_unique(orig, mn, k, i as int);
                            }
                        }
                    }
                }
            },
            None => {
                proof {
                    assert forall|e: (Blocks, u8)| entry_in(orig, e) implies e.0 != blocks by {
                        let k = choose|k: int| 0 <= k < orig.len() && orig[k] == e;
                        assert(!has_start(orig, blocks.start_block_id as int));
                    }
                }
            },
        }
    }

    /// Toggle the state of a recorded range without moving it.
    pub fn set_blocks_state(&mut self, blocks: &Blocks, blocks_state: u8)
        requires
            old(self).chinks_wf(),
            blocks_state == FREE || blocks_state == USED,
        ensures
            final(self).chinks_wf(),
            final(self).chinks().len() == old(self).chinks().len(),
            forall|i: int| 0 <= i < final(self).chinks().len() ==> {
                &&& (#[trigger] final(self).chinks()[i]).0 == old(self).chinks()[i].0
                &&& final(self).chinks()[i].1 == if old(self).chinks()[i].0 == *blocks {
                    blocks_state
                } else {
                    old(self).chinks()[i].1
                }
            },
            final(self).kv_pos_map == old(self).kv_pos_map,
            final(self).meta == old(self).meta,
            final(self).data == old(self).data,
            final(self).min_blocks_id_can_use == old(self).min_blocks_id_can_use,
    {
        let ghost orig = self.chinks();
        let ghost mn = self.min_blocks_id_can_use as int;
        match self.find_chink_start(blocks.start_block_id) {
            Some(i) => {
                if self.chink_blocks[i].0.block_count == blocks.block_count {
                    let b = self.chink_blocks[i].0;
                    self.chink_blocks[i] = (b, blocks_state);
                    proof {
                        assert forall|k: int|
                            0 <= k < self.chinks().len() && orig[k].0 == *blocks implies k
                            == i as int by {
                            lemma_table_unique(orig, mn, k, i as int);
                        }
                    }
                } else {
                    proof {
                        assert forall|k: int|
                            0 <= k < orig.len() implies orig[k].0 != *blocks by {
                            if orig[k].0 == *blocks {
                                lemma_table_unique(orig, mn, k, i as int);
                            }
                        }
                    }
                }
            },
            None => {
                proof {
                    assert forall|k: int| 0 <= k < orig.len() implies orig[k].0 != *blocks by {
                        assert(!has_start(orig, blocks.start_block_id as int));
                    }
                }
            },
        }
    }

    /// Choose blocks for a payload needing `needed_blocks` blocks: the
    /// best-fit committed-free hole (taken out of the table whole), or a
    /// fresh range at `min_blocks_id_can_use`.  `None` when neither is
    /// possible.
    pub fn alloc_blocks(&mut self, needed_blocks: u8) -> (r: Option<Blocks>)
        requires
            old(self).chinks_wf(),
            1 <= needed_blocks,
        ensures
            final(self).chinks_wf(),
            final(self).kv_pos_map == old(self).kv_pos_map,
            final(self).meta == old(self).meta,
            final(self).data == old(self).data,
            final(self).min_blocks_id_can_use == old(self).min_blocks_id_can_use,
            match r {
                Some(b) => {
                    &&& b.wf()
                    &&& b.block_count >= needed_blocks
                    &&& if b.start_block_id == old(self).min_blocks_id_can_use {
                        // fresh allocation past every block handed out so far
                        &&& b.block_count == needed_blocks
                        &&& old(self).min_blocks_id_can_use + needed_blocks <= MAX_BLOCK_ID
                        &&& final(self).chink_blocks == old(self).chink_blocks
                        &&& final(self).chink_blocks_start == old(self).chink_blocks_start
                        &&& final(self).chink_blocks_end == old(self).chink_blocks_end
                        &&& final(self).chinks() == old(self).chinks()
                        &&& forall|j: int|
                            0 <= j < old(self).chinks().len() ==> !((#[trigger] old(
                                self,
                            ).chinks()[j]).1 == FREE && old(self).chinks()[j].0.block_count
                                >= needed_blocks)
                    } else {
                        // a committed-free hole, removed from the table
                        &&& entry_in(old(self).chinks(), (b, FREE))
                        &&& b.spec_last() < old(self).min_blocks_id_can_use
                        &&& forall|e: (Blocks, u8)| #[trigger]
                            entry_in(final(self).chinks(), e) <==> entry_in(
                                old(self).chinks(),
                                e,
                            ) && e.0 != b
                        &&& forall|j: int|
                            0 <= j < old(self).chinks().len() && (#[trigger] old(
                                self,
                            ).chinks()[j]).1 == FREE && old(self).chinks()[j].0.block_count
                                >= needed_blocks ==> b.block_count
                                <= old(self).chinks()[j].0.block_count
                    }
                },
                None => {
                    &&& final(self).chink_blocks == old(self).chink_blocks
                    &&& final(self).chink_blocks_start == old(self).chink_blocks_start
                    &&& final(self).chink_blocks_end == old(self).chink_blocks_end
                    &&& forall|j: int|
                        0 <= j < old(self).chinks().len() ==> !((#[trigger] old(
                            self,
                        ).chinks()[j]).1 == FREE && old(self).chinks()[j].0.block_count
                            >= needed_blocks)
                    &&& old(self).min_blocks_id_can_use + needed_blocks > MAX_BLOCK_ID
                },
            },
    {
        match self.take_free_chink_blocks(needed_blocks) {
            Some(i) => {
                let blocks = self.chink_blocks[i].0;
                self.remove_chink_blocks(blocks);
                proof {
                    assert(entry_in(old(self).chinks(), (blocks, FREE)));
                    assert(blocks.start_block_id != old(self).min_blocks_id_can_use);
                }
                Some(blocks)
            },
            None => {
                if needed_blocks as u64 + self.min_blocks_id_can_use as u64
                    <= MAX_BLOCK_ID as u64 {
                    let new_blocks = Blocks::new(self.min_blocks_id_can_use, needed_blocks);
                    Some(new_blocks)
                } else {
                    None
                }
            },
        }
    }

    /// Advance the next-fresh-block counter after a committed fresh
    /// allocation, and refresh the meta-file header snapshot.
    pub fn update_min_blocks_id_can_use(&mut self, blocks_count: u32)
        requires
            old(self).chinks_wf(),
            old(self).min_blocks_id_can_use + blocks_count <= MAX_BLOCK_ID,
            old(self).meta@.len() >= SIZE_OF_BLOCK_ID,
        ensures
            final(self).chinks_wf(),
            final(self).min_blocks_id_can_use == old(self).min_blocks_id_can_use + blocks_count,
            final(self).meta@.len() == old(self).meta@.len(),
            forall|i: int|
                0 <= i < final(self).meta@.len() ==> final(self).meta@[i] == if i < 4 {
                    crate::util::spec_u32_bytes(final(self).min_blocks_id_can_use)[i]
                } else {
                    old(self).meta@[i]
                },
            final(self).kv_pos_map == old(self).kv_pos_map,
            final(self).data == old(self).data,
            final(self).chinks() == old(self).chinks(),
    {
        self.min_blocks_id_can_use = self.min_blocks_id_can_use + blocks_count;
        let header = crate::util::u32_to_bytes(self.min_blocks_id_can_use);
        crate::util::write_bytes(&mut self.meta, 0, &header);
    }

    /// Whether block `id` lies in some recorded range of `s`.
    pub open spec fn spec_chinks_cover(s: Seq<(Blocks, u8)>, id: int) -> bool {
        exists|i: int| 0 <= i < s.len() && spec_covers((#[trigger] s[i]).0, id)
    }

    /// Read the bytes a record points at: `kv_size - value_pos` bytes
    /// starting `value_pos` bytes into the record's block span.
    pub fn read_kv(&self, kv_pos: KVpos) -> (r: Vec<u8>)
        requires
            kv_pos.value_pos <= kv_pos.kv_size,
            kv_pos.blocks.start_block_id * BLOCK_SIZE + kv_pos.kv_size <= self.data@.len(),
        ensures
            r@ == self.data@.subrange(
                kv_pos.blocks.start_block_id * BLOCK_SIZE + kv_pos.value_pos,
                kv_pos.blocks.start_block_id * BLOCK_SIZE + kv_pos.kv_size,
            ),
    {
        let dlen = self.data.len();
        assert(kv_pos.blocks.start_block_id * BLOCK_SIZE + kv_pos.kv_size <= dlen);
        let off = kv_pos.blocks.start_block_id as usize * BLOCK_SIZE
            + kv_pos.value_pos as usize;
        let len = (kv_pos.kv_size - kv_pos.value_pos) as usize;
        crate::util::read_bytes(&self.data, off, len)
    }

    /// Release the blocks of a deleted record, tentatively (`USED`) until
    /// the delete commits.  Returns the coalesced range that now stands
    /// in the table.
    pub fn delete_kv(&mut self, old_blocks: Blocks) -> (r: Blocks)
        requires
            old(self).chinks_wf(),
            old_blocks.wf(),
            old_blocks.spec_last() < old(self).min_blocks_id_can_use,
            forall|i: int| 0 <= i < old(self).chinks().len() ==> old_blocks.disjoint(
                (#[trigger] old(self).chinks()[i]).0,
            ),
        ensures
            final(self).chinks_wf(),
            entry_in(final(self).chinks(), (r, USED)),
            forall|id: int| spec_covers(old_blocks, id) ==> spec_covers(r, id),
            forall|id: int| #[trigger]
                spec_covers(r, id) ==> Self::spec_chinks_cover(old(self).chinks(), id)
                    || spec_covers(old_blocks, id),
            forall|id: int| #[trigger]
                Self::spec_chinks_cover(final(self).chinks(), id) <==> Self::spec_chinks_cover(
                    old(self).chinks(),
                    id,
                ) || spec_covers(old_blocks, id),
            final(self).kv_pos_map == old(self).kv_pos_map,
            final(self).meta == old(self).meta,
            final(self).data == old(self).data,
            final(self).min_blocks_id_can_use == old(self).min_blocks_id_can_use,
    {
        let ghost orig = self.chinks();
        let ghost mn = self.min_blocks_id_can_use as int;
        let mut blocks = old_blocks;
        self.insert_chink_blocks(&mut blocks, USED);
        proof {
            let (m, l, r) = spec_coalesce(orig, old_blocks);
            lemma_coalesce_covers(orig, mn, old_blocks);
            assert forall|id: int| #[trigger]
                Self::spec_chinks_cover(self.chinks(), id) implies Self::spec_chinks_cover(
                orig,
                id,
            ) || spec_covers(old_blocks, id) by {
                let i = choose|i: int|
                    0 <= i < self.chinks().len() && spec_covers(self.chinks()[i].0, id);
                let e = self.chinks()[i];
                assert(entry_in(self.chinks(), e));
                if e == (m, USED) {
                } else {
                    assert(entry_in(orig, e));
                    let k = choose|k: int| 0 <= k < orig.len() && orig[k] == e;
                }
            }
            assert forall|id: int|
                Self::spec_chinks_cover(orig, id) || spec_covers(old_blocks, id) implies
                #[trigger] Self::spec_chinks_cover(self.chinks(), id) by {
                if spec_covers(m, id) {
                    let w = choose|w: int|
                        0 <= w < self.chinks().len() && self.chinks()[w] == (m, USED);
                    assert(spec_covers(self.chinks()[w].0, id));
                } else {
                    assert(!spec_covers(old_blocks, id));
                    let k = choose|k: int| 0 <= k < orig.len() && spec_covers(orig[k].0, id);
                    let e = orig[k];
                    assert(entry_in(orig, e));
                    assert((l is Some ==> e.0 != l->0) && (r is Some ==> e.0 != r->0));
                    assert(entry_in(self.chinks(), e));
                    let w = choose|w: int|
                        0 <= w < self.chinks().len() && self.chinks()[w] == e;
                    assert(spec_covers(self.chinks()[w].0, id));
                }
            }
        }
        blocks
    }

    /// Blocks needed to hold a payload of `len` bytes.
    pub open spec fn spec_blocks_needed(len: int) -> int {
        (len + 511) / 512
    }

    /// Write one key+value payload: choose blocks (best-fit hole or
    /// fresh), tentatively release the blocks of the record being
    /// replaced (if any), and write the payload at the start of the
    /// chosen span.  Returns the chosen blocks and the coalesced range
    /// under which the released blocks now stand.
    #[verifier::rlimit(100)]
    #[verifier::spinoff_prover]
    pub fn write_kv(&mut self, data: &Vec<u8>, old_blocks: Option<Blocks>) -> (r: Result<
        (Blocks, Option<Blocks>),
        Error,
    >)
        requires
            old(self).chinks_wf(),
            1 <= data@.len(),
            old(self).data@.len() == old(self).min_blocks_id_can_use * BLOCK_SIZE,
            old_blocks matches Some(ob) ==> ob.wf() && ob.spec_last() < old(
                self,
            ).min_blocks_id_can_use && forall|i: int|
                0 <= i < old(self).chinks().len() ==> ob.disjoint(
                    (#[trigger] old(self).chinks()[i]).0,
                ),
        ensures
            final(self).kv_pos_map == old(self).kv_pos_map,
            final(self).meta == old(self).meta,
            final(self).min_blocks_id_can_use == old(self).min_blocks_id_can_use,
            match r {
                Ok((b, mo)) => {
                    let needed = Self::spec_blocks_needed(data@.len() as int);
                    let start = b.start_block_id * BLOCK_SIZE;
                    &&& data@.len() <= MAX_KV_SIZE
                    &&& b.wf()
                    &&& b.block_count >= needed
                    &&& data@.len() <= b.block_count * BLOCK_SIZE
                    &&& final(self).chinks_wf()
                    // fresh allocation or a reused committed-free hole
                    &&& if b.start_block_id == old(self).min_blocks_id_can_use {
                        &&& b.block_count == needed
                        &&& old(self).min_blocks_id_can_use + b.block_count <= MAX_BLOCK_ID
                        &&& final(self).data@.len() == (b.start_block_id + b.block_count)
                            * BLOCK_SIZE
                    } else {
                        &&& b.spec_last() < old(self).min_blocks_id_can_use
                        &&& final(self).data@.len() == old(self).data@.len()
                        &&& forall|id: int| #[trigger]
                            spec_covers(b, id) ==> Self::spec_chinks_cover(
                                old(self).chinks(),
                                id,
                            )
                    }
                    // the payload stands at the start of the span; every
                    // other byte is as before (or zero in fresh growth)
                    &&& forall|i: int|
                        0 <= i < final(self).data@.len() ==> final(self).data@[i] == if start
                            <= i < start + data@.len() {
                            data@[i - start]
                        } else if i < old(self).data@.len() {
                            old(self).data@[i]
                        } else {
                            0u8
                        }
                    // table changes: the written span left the table, the
                    // released span entered it coalesced
                    &&& match (old_blocks, mo) {
                        (Some(ob), Some(m)) => {
                            &&& entry_in(final(self).chinks(), (m, USED))
                            &&& m.wf()
                            &&& forall|id: int|
                                spec_covers(ob, id) ==> #[trigger] spec_covers(m, id)
                            &&& forall|id: int| #[trigger]
                                spec_covers(m, id) ==> Self::spec_chinks_cover(
                                    old(self).chinks(),
                                    id,
                                ) || spec_covers(ob, id)
                            &&& forall|id: int| #[trigger]
                                Self::spec_chinks_cover(final(self).chinks(), id)
                                    <==> (Self::spec_chinks_cover(old(self).chinks(), id)
                                    || spec_covers(ob, id)) && !spec_covers(b, id)
                        },
                        (None, None) => forall|id: int| #[trigger]
                            Self::spec_chinks_cover(final(self).chinks(), id)
                                <==> Self::spec_chinks_cover(old(self).chinks(), id)
                                && !spec_covers(b, id),
                        _ => false,
                    }
                },
                Err(e) => {
                    &&& final(self).data == old(self).data
                    &&& final(self).chink_blocks == old(self).chink_blocks
                    &&& final(self).chink_blocks_start == old(self).chink_blocks_start
                    &&& final(self).chink_blocks_end == old(self).chink_blocks_end
                    &&& (e == Error::ValueTooLarge || e == Error::OutOfSpace)
                    &&& e == Error::ValueTooLarge <==> data@.len() > MAX_KV_SIZE
                    &&& e == Error::OutOfSpace ==> {
                        &&& forall|j: int|
                            0 <= j < old(self).chinks().len() ==> !((#[trigger] old(
                                self,
                            ).chinks()[j]).1 == FREE && old(self).chinks()[j].0.block_count
                                >= Self::spec_blocks_needed(data@.len() as int))
                        &&& (old(self).min_blocks_id_can_use + Self::spec_blocks_needed(
                            data@.len() as int,
                        ) > MAX_BLOCK_ID || (old(self).min_blocks_id_can_use
                            + Self::spec_blocks_needed(data@.len() as int)) * BLOCK_SIZE
                            > usize::MAX)
                    }
                },
            },
    {
        let len = data.len();
        if len > MAX_KV_SIZE {
            return Err(Error::ValueTooLarge);
        }
        let needed_blocks = ((len + (BLOCK_SIZE - 1)) / BLOCK_SIZE) as u8;
        let ghost orig = self.chinks();
        let ghost mn = self.min_blocks_id_can_use as int;
        match self.alloc_blocks(needed_blocks) {
            None => Err(Error::OutOfSpace),
            Some(blocks) => {
                let fresh = blocks.first_block_id() == self.min_blocks_id_can_use;
                if fresh {
                    let sum_u64 = self.min_blocks_id_can_use as u64 + needed_blocks as u64;
                    assert(sum_u64 * 512 <= 0x200_0002_0000u64) by (nonlinear_arith)
                        requires
                            sum_u64 <= 0x1_0000_0100u64,
                    ;
                    let new_len_u64 = sum_u64 * (BLOCK_SIZE as u64);
                    if new_len_u64 > usize::MAX as u64 {
                        return Err(Error::OutOfSpace);
                    }
                }
                let ghost after_alloc = self.chinks();
                let mut release_result: Option<Blocks> = None;
                if let Some(ob) = old_blocks {
                    proof {
                        assert forall|i: int|
                            0 <= i < after_alloc.len() implies ob.disjoint(
                            (#[trigger] after_alloc[i]).0,
                        ) by {
                            let e = after_alloc[i];
                            assert(entry_in(after_alloc, e));
                            if !fresh {
                                assert(entry_in(orig, e));
                            }
                            let k = choose|k: int| 0 <= k < orig.len() && orig[k] == e;
                        }
                    }
                    let mut obm = ob;
                    self.insert_chink_blocks(&mut obm, USED);
                    release_result = Some(obm);
                    proof {
                        lemma_coalesce_covers(after_alloc, mn, ob);
                    }
                }
                let ghost after_release = self.chinks();
                let dlen = self.data.len();
                proof {
                    if !fresh {
                        assert((blocks.start_block_id + blocks.block_count) * BLOCK_SIZE
                            <= self.min_blocks_id_can_use * BLOCK_SIZE);
                    }
                }
                let start_off = blocks.first_block_id() as usize * BLOCK_SIZE;
                if fresh {
                    let sum_u64 = self.min_blocks_id_can_use as u64 + needed_blocks as u64;
                    assert(sum_u64 * 512 <= 0x200_0002_0000u64) by (nonlinear_arith)
                        requires
                            sum_u64 <= 0x1_0000_0100u64,
                    ;
                    let new_len = (sum_u64 * (BLOCK_SIZE as u64)) as usize;
                    let ghost snap = *self;
                    while self.data.len() < new_len
                        invariant
                            snap.data@.len() <= self.data@.len() <= new_len,
                            self.data@.subrange(0, snap.data@.len() as int) == snap.data@,
                            forall|i: int|
                                snap.data@.len() <= i < self.data@.len() ==> self.data@[i]
                                    == 0u8,
                            self.chink_blocks == snap.chink_blocks,
                            self.chink_blocks_start == snap.chink_blocks_start,
                            self.chink_blocks_end == snap.chink_blocks_end,
                            self.kv_pos_map == snap.kv_pos_map,
                            self.meta == snap.meta,
                            self.min_blocks_id_can_use == snap.min_blocks_id_can_use,
                        decreases new_len - self.data@.len(),
                    {
                        assert(self.data@.subrange(0, snap.data@.len() as int) =~= snap.data@);
                        self.data.push(0u8);
                        assert(self.data@.subrange(0, snap.data@.len() as int) =~= snap.data@);
                    }
                    crate::util::write_bytes(&mut self.data, start_off, data);
                } else {
                    crate::util::write_bytes(&mut self.data, start_off, data);
                }
                proof {
                    if !fresh {
                        assert forall|id: int| #[trigger]
                            spec_covers(blocks, id) implies Self::spec_chinks_cover(
                            orig,
                            id,
                        ) by {
                            let kb = choose|kb: int|
                                0 <= kb < orig.len() && orig[kb] == (blocks, FREE);
                            assert(spec_covers(orig[kb].0, id));
                        }
                    }
                    if old_blocks is Some {
                        let ob = old_blocks->0;
                        let (m, l, rr) = spec_coalesce(after_alloc, ob);
                        assert forall|id: int| #[trigger]
                            Self::spec_chinks_cover(self.chinks(), id) implies (
                        Self::spec_chinks_cover(orig, id) || spec_covers(ob, id))
                            && !spec_covers(blocks, id) by {
                            let i = choose|i: int|
                                0 <= i < self.chinks().len() && spec_covers(
                                    self.chinks()[i].0,
                                    id,
                                );
                            let e = self.chinks()[i];
                            assert(entry_in(after_release, e));
                            if e == (m, USED) {
                                if spec_covers(blocks, id) {
                                    assert(!spec_covers(ob, id));
                                    let k = choose|k: int|
                                        0 <= k < after_alloc.len() && spec_covers(
                                            after_alloc[k].0,
                                            id,
                                        );
                                    assert(entry_in(after_alloc, after_alloc[k]));
                                    if fresh {
                                        assert(entry_in(orig, after_alloc[k]));
                                        let k2 = choose|k2: int|
                                            0 <= k2 < orig.len() && orig[k2]
                                                == after_alloc[k];
                                    } else {
                                        assert(entry_in(orig, after_alloc[k]));
                                        let k2 = choose|k2: int|
                                            0 <= k2 < orig.len() && orig[k2]
                                                == after_alloc[k];
                                        assert(after_alloc[k].0 != blocks);
                                        assert(!blocks.disjoint(after_alloc[k].0));
                                        let kb = choose|kb: int|
                                            0 <= kb < orig.len() && orig[kb] == (
                                            blocks,
                                            FREE,
                                            );
                                        lemma_table_unique(orig, mn, k2, kb);
                                    }
                                } else {
                                    if !spec_covers(ob, id) {
                                        let k = choose|k: int|
                                            0 <= k < after_alloc.len() && spec_covers(
                                                after_alloc[k].0,
                                                id,
                                            );
                                        assert(entry_in(after_alloc, after_alloc[k]));
                                        if !fresh {
                                            assert(entry_in(orig, after_alloc[k]));
                                        }
                                        let k2 = choose|k2: int|
                                            0 <= k2 < orig.len() && orig[k2]
                                                == after_alloc[k];
                                        assert(Self::spec_chinks_cover(orig, id));
                                    }
                                }
                            } else {
                                assert(entry_in(after_alloc, e));
                                if !fresh {
                                    assert(entry_in(orig, e));
                                }
                                let k2 = choose|k2: int| 0 <= k2 < orig.len() && orig[k2] == e;
                                assert(Self::spec_chinks_cover(orig, id));
                                if spec_covers(blocks, id) {
                                    if fresh {
                                        assert(spec_covers(e.0, id));
                                        assert(e.0.spec_last() < mn);
                                    } else {
                                        let kb = choose|kb: int|
                                            0 <= kb < orig.len() && orig[kb] == (
                                            blocks,
                                            FREE,
                                            );
                                        if k2 != kb {
                                            assert(e.0 != blocks);
                                            assert(blocks.disjoint(e.0) || e.0.disjoint(
                                                blocks,
                                            ));
                                        }
                                        assert(entry_in(after_alloc, e) && e.0 != blocks);
                                    }
                                }
                            }
                        }
                        assert forall|id: int|
                            (Self::spec_chinks_cover(orig, id) || spec_covers(ob, id))
                                && !spec_covers(blocks, id) implies #[trigger]
                            Self::spec_chinks_cover(self.chinks(), id) by {
                            if spec_covers(m, id) {
                                let w = choose|w: int|
                                    0 <= w < after_release.len() && after_release[w] == (
                                    m,
                                    USED,
                                    );
                                assert(spec_covers(after_release[w].0, id));
                            } else {
                                assert(!spec_covers(ob, id));
                                let k = choose|k: int|
                                    0 <= k < orig.len() && spec_covers(orig[k].0, id);
                                let e = orig[k];
                                assert(entry_in(orig, e));
                                assert(e.0 != blocks);
                                assert(entry_in(after_alloc, e));
                                assert((l is Some ==> e.0 != l->0) && (rr is Some ==> e.0
                                    != rr->0));
                                assert(entry_in(after_release, e));
                                let w = choose|w: int|
                                    0 <= w < after_release.len() && after_release[w] == e;
                                assert(spec_covers(after_release[w].0, id));
                            }
                        }
                    } else {
                        assert forall|id: int| #[trigger]
                            Self::spec_chinks_cover(self.chinks(), id) implies
                            Self::spec_chinks_cover(orig, id) && !spec_covers(blocks, id) by {
                            let i = choose|i: int|
                                0 <= i < self.chinks().len() && spec_covers(
                                    self.chinks()[i].0,
                                    id,
                                );
                            let e = self.chinks()[i];
                            assert(entry_in(after_alloc, e));
                            if !fresh {
                                assert(entry_in(orig, e));
                            }
                            let k2 = choose|k2: int| 0 <= k2 < orig.len() && orig[k2] == e;
                            assert(Self::spec_chinks_cover(orig, id));
                            if spec_covers(blocks, id) {
                                if fresh {
                                    assert(spec_covers(e.0, id));
                                    assert(e.0.spec_last() < mn);
                                } else {
                                    let kb = choose|kb: int|
                                        0 <= kb < orig.len() && orig[kb] == (blocks, FREE);
                                    if k2 != kb {
                                        assert(blocks.disjoint(e.0) || e.0.disjoint(blocks));
                                    }
                                    assert(entry_in(after_alloc, e) && e.0 != blocks);
                                }
                            }
                        }
                        assert forall|id: int|
                            Self::spec_chinks_cover(orig, id) && !spec_covers(blocks, id)
                                implies #[trigger] Self::spec_chinks_cover(
                                self.chinks(),
                                id,
                            ) by {
                            let k = choose|k: int|
                                0 <= k < orig.len() && spec_covers(orig[k].0, id);
                            let e = orig[k];
                            assert(entry_in(orig, e));
                            assert(e.0 != blocks);
                            assert(entry_in(after_alloc, e));
                            let w = choose|w: int|
                                0 <= w < after_alloc.len() && after_alloc[w] == e;
                            assert(spec_covers(after_alloc[w].0, id));
                        }
                    }
                }
                Ok((blocks, release_result))
            },
        }
    }



    /// Meta-file consistency: the image is a header plus whole record
    /// slots, the header snapshots `min_blocks_id_can_use`, every mapped
    /// record stands encoded at its offset, offsets and positions are
    /// unique, and every unmapped slot holds a tombstone.
    pub open spec fn meta_wf(self) -> bool {
        &&& self.meta@.len() >= 4
        &&& (self.meta@.len() - 4) % 9 == 0
        &&& self.meta@.subrange(0, 4) == spec_u32_bytes(self.min_blocks_id_can_use)
        &&& forall|i: int| 0 <= i < self.kv_pos_map@.len() ==> {
            let e = #[trigger] self.kv_pos_map@[i];
            &&& 4 <= e.1
            &&& (e.1 - 4) % 9 == 0
            &&& e.1 + 9 <= self.meta@.len()
            &&& self.meta@.subrange(e.1 as int, e.1 + 9) == spec_kvpos_bytes(e.0)
            &&& e.0.kv_size != 0
        }
        &&& forall|i: int, j: int|
            0 <= i < j < self.kv_pos_map@.len() ==> (#[trigger] self.kv_pos_map@[i]).1 != (
            #[trigger] self.kv_pos_map@[j]).1 && self.kv_pos_map@[i].0
                != self.kv_pos_map@[j].0
        &&& forall|k: int|
            0 <= k < spec_num_records(self.meta@) ==> (#[trigger] spec_record_at(
                self.meta@,
                k,
            )).kv_size == 0 || kv_entry_in(
                self.kv_pos_map@,
                (spec_record_at(self.meta@, k), (4 + 9 * k) as u64),
            )
    }

    /// Find the map index recording position `p`.
    fn find_kv_pos(&self, p: &KVpos) -> (r: Option<usize>)
        ensures
            match r {
                Some(i) => i < self.kv_pos_map@.len() && self.kv_pos_map@[i as int].0 == *p,
                None => !kv_has(self.kv_pos_map@, *p),
            },
    {
        let n = self.kv_pos_map.len();
        let mut i: usize = 0;
        while i < n
            invariant
                i <= n,
                n == self.kv_pos_map@.len(),
                forall|k: int| 0 <= k < i ==> (#[trigger] self.kv_pos_map@[k]).0 != *p,
            decreases n - i,
        {
            let (q, _off) = self.kv_pos_map[i];
            if q == *p {
                return Some(i);
            }
            i = i + 1;
        }
        None
    }

    /// Overwrite the record slot of map entry `i` with a tombstone and
    /// drop the entry from the map.
    #[verifier::rlimit(100)]
    #[verifier::spinoff_prover]
    fn tombstone_slot(&mut self, i: usize)
        requires
            old(self).meta_wf(),
            i < old(self).kv_pos_map@.len(),
        ensures
            final(self).meta_wf(),
            final(self).data == old(self).data,
            final(self).min_blocks_id_can_use == old(self).min_blocks_id_can_use,
            final(self).chink_blocks == old(self).chink_blocks,
            final(self).chink_blocks_start == old(self).chink_blocks_start,
            final(self).chink_blocks_end == old(self).chink_blocks_end,
            forall|e: (KVpos, u64)| #[trigger]
                kv_entry_in(final(self).kv_pos_map@, e) <==> kv_entry_in(
                    old(self).kv_pos_map@,
                    e,
                ) && e.0 != old(self).kv_pos_map@[i as int].0,
            final(self).meta@.len() == old(self).meta@.len(),
            forall|j: int|
                0 <= j < old(self).meta@.len() ==> final(self).meta@[j] == ({
                    let off = old(self).kv_pos_map@[i as int].1;
                    if off <= j < off + 9 {
                        spec_kvpos_bytes(spec_tombstone(old(self).kv_pos_map@[i as int].0))[j
                            - off]
                    } else {
                        old(self).meta@[j]
                    }
                }),
    {
        let ml = self.meta.len();
        let ghost om = old(self).kv_pos_map@;
        let (p, off) = self.kv_pos_map[i];
        let tomb = KVpos { blocks: p.blocks, value_pos: 0, kv_size: 0 };
        let tomb_bytes = tomb.to_bytes();
        assert(off + 9 <= ml);
        crate::util::write_bytes(&mut self.meta, off as usize, &tomb_bytes);
        self.kv_pos_map.swap_remove(i);
        proof {
            let newm = self.kv_pos_map@;
            assert forall|e: (KVpos, u64)| #[trigger]
                kv_entry_in(newm, e) implies kv_entry_in(om, e) && e.0 != p by {
                let k = choose|k: int| 0 <= k < newm.len() && newm[k] == e;
                if k == i as int {
                    assert(om[om.len() - 1] == e);
                    if e.0 == p && (i as int) < om.len() - 1 {
                        assert(om[i as int].0 != om[om.len() - 1].0);
                    }
                } else {
                    assert(om[k] == e);
                    if e.0 == p {
                        if k < i as int {
                            assert(om[k].0 != om[i as int].0);
                        } else {
                            assert(om[i as int].0 != om[k].0);
                        }
                    }
                }
            }
            assert forall|e: (KVpos, u64)|
                kv_entry_in(om, e) && e.0 != p implies #[trigger] kv_entry_in(newm, e) by {
                let k = choose|k: int| 0 <= k < om.len() && om[k] == e;
                if k == om.len() - 1 {
                    if (i as int) < om.len() - 1 {
                        assert(newm[i as int] == e);
                    }
                } else {
                    assert(newm[k] == e);
                }
            }
            // untouched record slots keep their bytes
            assert forall|k: int|
                0 <= k < newm.len() implies (#[trigger] newm[k]).1 + 9 <= self.meta@.len()
                && self.meta@.subrange(newm[k].1 as int, newm[k].1 + 9) == spec_kvpos_bytes(
                newm[k].0,
            ) by {
                assert(kv_entry_in(newm, newm[k]));
                let k2 = choose|k2: int| 0 <= k2 < om.len() && om[k2] == newm[k];
                if om[k2].1 != off {
                    lemma_slot_sep(om[k2].1 as int, off as int);
                    assert(self.meta@.subrange(om[k2].1 as int, om[k2].1 + 9) =~= old(
                        self,
                    ).meta@.subrange(om[k2].1 as int, om[k2].1 + 9));
                } else {
                    if k2 < i as int {
                        assert(om[k2].1 != om[i as int].1);
                    } else if (i as int) < k2 {
                        assert(om[i as int].1 != om[k2].1);
                    }
                }
            }
            // the tombstoned slot decodes as a tombstone
            assert(self.meta@.subrange(off as int, off + 9) =~= tomb_bytes@);
            lemma_kvpos_round_trip(tomb);
            // header preserved
            assert(self.meta@.subrange(0, 4) =~= old(self).meta@.subrange(0, 4));
            // unmapped slots still hold tombstones
            assert forall|k: int|
                0 <= k < spec_num_records(self.meta@) implies (#[trigger] spec_record_at(
                self.meta@,
                k,
            )).kv_size == 0 || kv_entry_in(
                newm,
                (spec_record_at(self.meta@, k), (4 + 9 * k) as u64),
            ) by {
                vstd::arithmetic::div_mod::lemma_fundamental_div_mod(off as int - 4, 9);
                let kq = (off as int - 4) / 9;
                assert(13 + 9 * k <= self.meta@.len()) by {
                    vstd::arithmetic::div_mod::lemma_fundamental_div_mod(
                        self.meta@.len() - 4,
                        9,
                    );
                }
                if k == kq {
                    assert(4 + 9 * k == off as int);
                    assert(self.meta@.subrange(4 + 9 * k, 13 + 9 * k) =~= tomb_bytes@);
                    assert(spec_record_at(self.meta@, k).kv_size == 0);
                } else {
                    lemma_slot_sep(4 + 9 * k, off as int);
                    assert(self.meta@.subrange(4 + 9 * k, 13 + 9 * k) =~= old(
                        self,
                    ).meta@.subrange(4 + 9 * k, 13 + 9 * k));
                    assert(spec_record_at(self.meta@, k) == spec_record_at(
                        old(self).meta@,
                        k,
                    ));
                    if spec_record_at(old(self).meta@, k).kv_size != 0 {
                        let e = (spec_record_at(old(self).meta@, k), (4 + 9 * k) as u64);
                        assert(kv_entry_in(om, e));
                        let w = choose|w: int| 0 <= w < om.len() && om[w] == e;
                        if om[w].0 == p {
                            if w < i as int {
                                assert(om[w].0 != om[i as int].0);
                            } else if (i as int) < w {
                                assert(om[i as int].0 != om[w].0);
                            } else {
                                assert(om[w].1 == off);
                                assert(4 + 9 * k != off as int);
                            }
                        }
                        assert(kv_entry_in(newm, e));
                    }
                }
            }
        }
    }

    /// Append a live record to the meta image and the map.
    #[verifier::rlimit(100)]
    #[verifier::spinoff_prover]
    fn append_record(&mut self, meta_data: KVpos)
        requires
            old(self).meta_wf(),
            meta_data.kv_size != 0,
            !kv_has(old(self).kv_pos_map@, meta_data),
            old(self).meta@.len() + 9 <= usize::MAX,
        ensures
            final(self).meta_wf(),
            final(self).data == old(self).data,
            final(self).min_blocks_id_can_use == old(self).min_blocks_id_can_use,
            final(self).chink_blocks == old(self).chink_blocks,
            final(self).chink_blocks_start == old(self).chink_blocks_start,
            final(self).chink_blocks_end == old(self).chink_blocks_end,
            forall|e: (KVpos, u64)| #[trigger]
                kv_entry_in(final(self).kv_pos_map@, e) <==> kv_entry_in(
                    old(self).kv_pos_map@,
                    e,
                ) || e == (meta_data, old(self).meta@.len() as u64),
            final(self).meta@.len() == old(self).meta@.len() + 9,
            forall|j: int| 0 <= j < old(self).meta@.len() ==> final(self).meta@[j] == old(
                self,
            ).meta@[j],
            final(self).meta@.subrange(old(self).meta@.len() as int, final(self).meta@.len() as int)
                == spec_kvpos_bytes(meta_data),
    {
        let ghost om = self.kv_pos_map@;
        let off = self.meta.len() as u64;
        let mut rec = meta_data.to_bytes();
        self.meta.append(&mut rec);
        self.kv_pos_map.push((meta_data, off));
        proof {
            let newm = self.kv_pos_map@;
            assert forall|e: (KVpos, u64)| #[trigger]
                kv_entry_in(newm, e) implies kv_entry_in(om, e) || e == (
                meta_data,
                off,
            ) by {
                let k = choose|k: int| 0 <= k < newm.len() && newm[k] == e;
                if k < newm.len() - 1 {
                    assert(om[k] == e);
                }
            }
            assert forall|e: (KVpos, u64)|
                kv_entry_in(om, e) || e == (meta_data, off) implies #[trigger] kv_entry_in(
                newm,
                e,
            ) by {
                if e == (meta_data, off) {
                    assert(newm[newm.len() - 1] == e);
                } else {
                    let k = choose|k: int| 0 <= k < om.len() && om[k] == e;
                    assert(newm[k] == e);
                }
            }
            assert(self.meta@.subrange(0, 4) =~= old(self).meta@.subrange(0, 4));
            assert(self.meta@.subrange(off as int, off + 9) =~= spec_kvpos_bytes(meta_data));
            assert forall|k: int|
                0 <= k < om.len() implies (#[trigger] om[k]).1 + 9 <= self.meta@.len()
                && self.meta@.subrange(om[k].1 as int, om[k].1 + 9) == spec_kvpos_bytes(
                om[k].0,
            ) && om[k].1 != off && om[k].0 != meta_data by {
                assert(self.meta@.subrange(om[k].1 as int, om[k].1 + 9) =~= old(
                    self,
                ).meta@.subrange(om[k].1 as int, om[k].1 + 9));
                if om[k].0 == meta_data {
                    assert(kv_has(om, meta_data));
                }
            }
            assert((self.meta@.len() - 4) % 9 == 0 && spec_num_records(self.meta@)
                == spec_num_records(old(self).meta@) + 1 && 4 + 9 * spec_num_records(
                old(self).meta@,
            ) == off as int) by {
                vstd::arithmetic::div_mod::lemma_fundamental_div_mod(
                    old(self).meta@.len() - 4,
                    9,
                );
                vstd::arithmetic::div_mod::lemma_fundamental_div_mod(self.meta@.len() - 4, 9);
            }
            assert forall|k: int|
                0 <= k < spec_num_records(self.meta@) implies (#[trigger] spec_record_at(
                self.meta@,
                k,
            )).kv_size == 0 || kv_entry_in(
                newm,
                (spec_record_at(self.meta@, k), (4 + 9 * k) as u64),
            ) by {
                if k < spec_num_records(old(self).meta@) {
                    assert(13 + 9 * k <= old(self).meta@.len()) by {
                        vstd::arithmetic::div_mod::lemma_fundamental_div_mod(
                            old(self).meta@.len() - 4,
                            9,
                        );
                    }
                    assert(self.meta@.subrange(4 + 9 * k, 13 + 9 * k) =~= old(
                        self,
                    ).meta@.subrange(4 + 9 * k, 13 + 9 * k));
                    assert(spec_record_at(self.meta@, k) == spec_record_at(
                        old(self).meta@,
                        k,
                    ));
                    if spec_record_at(old(self).meta@, k).kv_size != 0 {
                        let e = (spec_record_at(old(self).meta@, k), (4 + 9 * k) as u64);
                        assert(kv_entry_in(om, e));
                        let w = choose|w: int| 0 <= w < om.len() && om[w] == e;
                        assert(newm[w] == e);
                        assert(kv_entry_in(newm, e));
                    }
                } else {
                    assert(k == spec_num_records(old(self).meta@));
                    assert(4 + 9 * k == off as int);
                    lemma_kvpos_round_trip(meta_data);
                    assert(self.meta@.subrange(4 + 9 * k, 13 + 9 * k) =~= spec_kvpos_bytes(
                        meta_data,
                    ));
                    assert(spec_record_at(self.meta@, k) == meta_data);
                    assert(newm[newm.len() - 1] == (meta_data, off));
                    assert(kv_entry_in(newm, (meta_data, off)));
                }
            }
        }
    }

    /// Record a meta-file mutation: tombstone the slot of the record
    /// being replaced or deleted (if any), then append the new record
    /// (unless the new record itself is a tombstone).
    pub fn write_meta(&mut self, meta_data: KVpos, old_meta_data: Option<KVpos>)
        requires
            old(self).meta_wf(),
            old_meta_data matches Some(p) ==> kv_has(old(self).kv_pos_map@, p),
            meta_data.kv_size != 0 ==> !kv_has(old(self).kv_pos_map@, meta_data) && old(
                self,
            ).meta@.len() + 9 <= usize::MAX,
        ensures
            final(self).meta_wf(),
            final(self).data == old(self).data,
            final(self).min_blocks_id_can_use == old(self).min_blocks_id_can_use,
            final(self).chink_blocks == old(self).chink_blocks,
            final(self).chink_blocks_start == old(self).chink_blocks_start,
            final(self).chink_blocks_end == old(self).chink_blocks_end,
            forall|e: (KVpos, u64)| #[trigger]
                kv_entry_in(final(self).kv_pos_map@, e) <==> (kv_entry_in(
                    old(self).kv_pos_map@,
                    e,
                ) && (old_meta_data matches Some(p) ==> e.0 != p)) || (meta_data.kv_size != 0
                    && e == (meta_data, old(self).meta@.len() as u64)),
            final(self).meta@.len() == old(self).meta@.len() + if meta_data.kv_size != 0 {
                9int
            } else {
                0int
            },
            forall|i: int|
                0 <= i < old(self).meta@.len() ==> final(self).meta@[i] == (
                match old_meta_data {
                    Some(p) => if kv_off(old(self).kv_pos_map@, p) <= i < kv_off(
                        old(self).kv_pos_map@,
                        p,
                    ) + 9 {
                        spec_kvpos_bytes(spec_tombstone(p))[i - kv_off(
                            old(self).kv_pos_map@,
                            p,
                        )]
                    } else {
                        old(self).meta@[i]
                    },
                    None => old(self).meta@[i],
                }),
            meta_data.kv_size != 0 ==> final(self).meta@.subrange(
                old(self).meta@.len() as int,
                old(self).meta@.len() + 9int,
            ) == spec_kvpos_bytes(meta_data),
    {
        let ghost om = old(self).kv_pos_map@;
        if let Some(p) = old_meta_data {
            match self.find_kv_pos(&p) {
                Some(i) => {
                    proof {
                        let k0 = choose|k: int| 0 <= k < om.len() && om[k].0 == p;
                        if k0 < i as int {
                            assert(om[k0].0 != om[i as int].0);
                        } else if (i as int) < k0 {
                            assert(om[i as int].0 != om[k0].0);
                        }
                        assert(kv_off(om, p) == om[i as int].1);
                    }
                    self.tombstone_slot(i);
                },
                None => {
                    proof {
                        assert(false);
                    }
                },
            }
        }
        if meta_data.kv_size > 0 {
            proof {
                if old_meta_data is Some {
                    if kv_has(self.kv_pos_map@, meta_data) {
                        let k = choose|k: int|
                            0 <= k < self.kv_pos_map@.len() && self.kv_pos_map@[k].0
                                == meta_data;
                        assert(kv_entry_in(self.kv_pos_map@, self.kv_pos_map@[k]));
                        assert(kv_entry_in(om, self.kv_pos_map@[k]));
                        assert(kv_has(om, meta_data));
                    }
                }
            }
            self.append_record(meta_data);
        }
    }

    /// Open the engine over a data-file image and a meta-file image.
    /// An absent (empty) meta image denotes a fresh store.  Data beyond
    /// the committed `min_next_block_id` span is discarded: it belongs
    /// to writes whose commit never happened.
    #[verifier::rlimit(100)]
    #[verifier::spinoff_prover]
    #[verifier::loop_isolation(false)]
    pub fn new(data_image: Vec<u8>, meta_image: Vec<u8>) -> (r: Result<Storage, Error>)
        ensures
            match r {
                Ok(s) => {
                    let m = spec_norm_meta(meta_image@);
                    &&& spec_open_ok(spec_norm_meta(meta_image@), data_image@.len() as int)
                    &&& s.chinks_wf()
                    &&& s.meta_wf()
                    &&& s.chinks().len() == 0
                    &&& s.meta@ == m
                    &&& s.min_blocks_id_can_use == spec_bytes_u32(m.subrange(0, 4))
                    &&& s.data@ == data_image@.subrange(
                        0,
                        s.min_blocks_id_can_use * BLOCK_SIZE,
                    )
                    &&& s.data@.len() == s.min_blocks_id_can_use * BLOCK_SIZE
                    &&& forall|i: int|
                        0 <= i < s.kv_pos_map@.len() ==> open_entry_ok(
                            #[trigger] s.kv_pos_map@[i],
                            m,
                            s.min_blocks_id_can_use as int,
                            spec_num_records(m),
                        )
                    &&& forall|i: int, j: int|
                        0 <= i < j < s.kv_pos_map@.len()
                            ==> (#[trigger] s.kv_pos_map@[i]).0.blocks.disjoint(
                            (#[trigger] s.kv_pos_map@[j]).0.blocks,
                        )
                },
                Err(e) => e == Error::Corruption && !spec_open_ok(
                    spec_norm_meta(meta_image@),
                    data_image@.len() as int,
                ),
            },
    {
        let ghost dlen0 = data_image@.len() as int;
        let mut meta = meta_image;
        let mut data = data_image;
        if meta.len() == 0 {
            meta = crate::util::u32_to_bytes(0);
            proof {
                assert(meta@ =~= spec_u32_bytes(0u32));
            }
        }
        let ghost m0 = meta@;
        proof {
            assert(spec_norm_meta(meta_image@) == m0);
        }
        let mlen = meta.len();
        if mlen < 4 {
            return Err(Error::Corruption);
        }
        if (mlen - 4) % KV_POS_SIZE != 0 {
            return Err(Error::Corruption);
        }
        let header = crate::util::read_bytes(&meta, 0, 4);
        let min_next = crate::util::bytes_to_u32(header.as_slice());
        proof {
            assert(header@ == m0.subrange(0, 4));
        }
        let span_u64 = (min_next as u64) * (BLOCK_SIZE as u64);
        assert((min_next as u64) * 512 <= 0xffff_ffffu64 * 512) by (nonlinear_arith)
            requires
                min_next as u64 <= 0xffff_ffffu64,
        ;
        if (data.len() as u64) < span_u64 {
            return Err(Error::Corruption);
        }
        let span = span_u64 as usize;
        data.truncate(span);
        let n = (mlen - 4) / KV_POS_SIZE;
        let mut kv_pos_map: Vec<(KVpos, u64)> = Vec::new();
        let mut k: usize = 0;
        while k < n
            invariant
                k <= n,
                n == spec_num_records(m0),
                m0 == meta@,
                mlen == meta@.len(),
                meta@.len() >= 4,
                (meta@.len() - 4) % 9 == 0,
                min_next == spec_bytes_u32(m0.subrange(0, 4)),
                min_next * BLOCK_SIZE <= dlen0,
                forall|i: int|
                    0 <= i < kv_pos_map@.len() ==> open_entry_ok(
                        #[trigger] kv_pos_map@[i],
                        m0,
                        min_next as int,
                        k as int,
                    ),
                forall|i: int, j: int|
                    0 <= i < j < kv_pos_map@.len() ==> (#[trigger] kv_pos_map@[i]).1 != (
                    #[trigger] kv_pos_map@[j]).1 && kv_pos_map@[i].0.blocks.disjoint(
                        kv_pos_map@[j].0.blocks,
                    ),
                forall|q: int|
                    0 <= q < k ==> (#[trigger] spec_record_at(m0, q)).kv_size == 0
                        || kv_entry_in(kv_pos_map@, (spec_record_at(m0, q), (4 + 9
                        * q) as u64)),
                forall|q: int|
                    0 <= q < k ==> spec_record_ok(
                        #[trigger] spec_record_at(m0, q),
                        min_next as int,
                    ),
            decreases n - k,
        {
            proof {
                assert(13 + 9 * k <= meta@.len()) by {
                    vstd::arithmetic::div_mod::lemma_fundamental_div_mod(meta@.len() - 4, 9);
                }
            }
            let off = SIZE_OF_BLOCK_ID + KV_POS_SIZE * k;
            let rec_bytes = crate::util::read_bytes(&meta, off, KV_POS_SIZE);
            let rec = KVpos::to_kvpos(rec_bytes.as_slice());
            proof {
                assert(meta@.subrange(off as int, off + 9) == meta@.subrange(
                    4 + 9 * (k as int),
                    13 + 9 * (k as int),
                ));
                assert(rec == spec_record_at(m0, k as int));
            }
            if rec.kv_size > 0 {
                // a live record must describe a readable committed span
                let mut bad = rec.blocks.block_count == 0;
                if !bad {
                    let last64 = rec.blocks.start_block_id as u64
                        + rec.blocks.block_count as u64 - 1;
                    bad = last64 > MAX_BLOCK_ID as u64 || last64 >= min_next as u64;
                }
                if !bad {
                    bad = rec.value_pos > rec.kv_size || rec.kv_size as usize
                        > rec.blocks.block_count as usize * BLOCK_SIZE;
                }
                if bad {
                    proof {
                        assert(!spec_record_ok(spec_record_at(m0, k as int), min_next as int));
                        assert(!spec_open_ok(m0, dlen0));
                    }
                    return Err(Error::Corruption);
                }
                // overlap with an earlier live record is corruption
                let mut j: usize = 0;
                let mcount = kv_pos_map.len();
                while j < mcount
                    invariant
                        j <= mcount,
                        forall|i: int| 0 <= i < j ==> (
                        #[trigger] kv_pos_map@[i]).0.blocks.disjoint(rec.blocks),
                    decreases mcount - j,
                {
                    let ob = kv_pos_map[j].0.blocks;
                    let ob_last = ob.last_block_id();
                    let rec_last = rec.blocks.last_block_id();
                    if !(ob_last < rec.blocks.start_block_id || rec_last
                        < ob.start_block_id) {
                        proof {
                            let e = kv_pos_map@[j as int];
                            vstd::arithmetic::div_mod::lemma_fundamental_div_mod(
                                e.1 as int - 4,
                                9,
                            );
                            let q = (e.1 as int - 4) / 9;
                            assert(e.1 == 4 + 9 * q);
                            assert(0 <= q < k as int);
                            lemma_kvpos_round_trip(e.0);
                            assert(spec_record_at(m0, q) == e.0);
                            assert(!spec_record_at(m0, q).blocks.disjoint(
                                spec_record_at(m0, k as int).blocks,
                            ));
                            assert(!spec_open_ok(m0, dlen0));
                        }
                        return Err(Error::Corruption);
                    }
                    j = j + 1;
                }
                let ghost pre = kv_pos_map@;
                kv_pos_map.push((rec, off as u64));
                proof {
                    assert((off as int - 4) % 9 == 0) by {
                        assert(off == 4 + 9 * (k as int));
                        vstd::arithmetic::div_mod::lemma_mod_multiples_basic(k as int, 9);
                    }
                    lemma_kvpos_bytes_round_trip(meta@.subrange(off as int, off + 9));
                    assert(meta@.subrange(off as int, off + 9) =~= spec_kvpos_bytes(rec));
                    assert(open_entry_ok(
                        (rec, off as u64),
                        m0,
                        min_next as int,
                        k as int + 1,
                    ));
                    assert forall|i: int|
                        0 <= i < kv_pos_map@.len() implies open_entry_ok(
                        #[trigger] kv_pos_map@[i],
                        m0,
                        min_next as int,
                        k as int + 1,
                    ) by {
                        if i < pre.len() {
                            assert(open_entry_ok(pre[i], m0, min_next as int, k as int));
                        }
                    }
                    assert forall|q: int|
                        0 <= q < k + 1 implies (#[trigger] spec_record_at(m0, q)).kv_size
                        == 0 || kv_entry_in(
                        kv_pos_map@,
                        (spec_record_at(m0, q), (4 + 9 * q) as u64),
                    ) by {
                        if q < k {
                            if spec_record_at(m0, q).kv_size != 0 {
                                let e = (spec_record_at(m0, q), (4 + 9 * q) as u64);
                                assert(kv_entry_in(pre, e));
                                let w = choose|w: int| 0 <= w < pre.len() && pre[w] == e;
                                assert(kv_pos_map@[w] == e);
                                assert(kv_entry_in(kv_pos_map@, e));
                            }
                        } else {
                            assert(kv_pos_map@[kv_pos_map@.len() - 1] == (
                                spec_record_at(m0, q),
                                (4 + 9 * q) as u64,
                            ));
                            assert(kv_entry_in(
                                kv_pos_map@,
                                (spec_record_at(m0, q), (4 + 9 * q) as u64),
                            ));
                        }
                    }
                }
            } else {
                proof {
                    assert forall|i: int|
                        0 <= i < kv_pos_map@.len() implies open_entry_ok(
                        #[trigger] kv_pos_map@[i],
                        m0,
                        min_next as int,
                        k as int + 1,
                    ) by {
                        assert(open_entry_ok(kv_pos_map@[i], m0, min_next as int, k as int));
                    }
                }
            }
            k = k + 1;
        }
        let s = Storage {
            kv_pos_map,
            meta,
            min_blocks_id_can_use: min_next,
            data,
            chink_blocks: Vec::new(),
            chink_blocks_start: Vec::new(),
            chink_blocks_end: Vec::new(),
        };
        proof {
            assert(s.meta@.subrange(0, 4) =~= spec_u32_bytes(s.min_blocks_id_can_use)) by {
                lemma_u32_bytes_round_trip(s.meta@.subrange(0, 4));
            }
            assert(s.data@ =~= data_image@.subrange(0, s.min_blocks_id_can_use * BLOCK_SIZE));
            assert(spec_open_ok(m0, dlen0));
        }
        Ok(s)
    }

}

/// Whether `e` occurs in the record map `s`.
pub open spec fn kv_entry_in(s: Seq<(KVpos, u64)>, e: (KVpos, u64)) -> bool {
    exists|i: int| 0 <= i < s.len() && s[i] == e
}

/// Whether some entry of `s` records position `p`.
pub open spec fn kv_has(s: Seq<(KVpos, u64)>, p: KVpos) -> bool {
    exists|i: int| 0 <= i < s.len() && s[i].0 == p
}

/// The meta-file offset recorded for `p`.
pub open spec fn kv_off(s: Seq<(KVpos, u64)>, p: KVpos) -> u64 {
    s[choose|i: int| 0 <= i < s.len() && s[i].0 == p].1
}

/// Number of 9-byte record slots in meta image `m`.
pub open spec fn spec_num_records(m: Seq<u8>) -> int {
    (m.len() - 4) / 9
}

/// The record stored at slot `k` of meta image `m`.
pub open spec fn spec_record_at(m: Seq<u8>, k: int) -> KVpos {
    spec_bytes_kvpos(m.subrange(4 + 9 * k, 13 + 9 * k))
}

/// The tombstone form of a record: same blocks, zero sizes.
pub open spec fn spec_tombstone(p: KVpos) -> KVpos {
    KVpos { blocks: p.blocks, value_pos: 0, kv_size: 0 }
}

/// Two distinct record offsets are at least one whole slot apart.
pub proof fn lemma_slot_sep(off1: int, off2: int)
    requires
        4 <= off1,
        4 <= off2,
        (off1 - 4) % 9 == 0,
        (off2 - 4) % 9 == 0,
        off1 != off2,
    ensures
        off1 + 9 <= off2 || off2 + 9 <= off1,
{
    vstd::arithmetic::div_mod::lemma_fundamental_div_mod(off1 - 4, 9);
    vstd::arithmetic::div_mod::lemma_fundamental_div_mod(off2 - 4, 9);
    let q1 = (off1 - 4) / 9;
    let q2 = (off2 - 4) / 9;
    assert(off1 == 4 + 9 * q1);
    assert(off2 == 4 + 9 * q2);
}


/// Whether a live meta record is valid against the committed span.
pub open spec fn spec_record_ok(p: KVpos, min_next: int) -> bool {
    p.kv_size == 0 || {
        &&& p.blocks.wf()
        &&& p.value_pos <= p.kv_size
        &&& p.kv_size <= p.blocks.block_count * BLOCK_SIZE
        &&& p.blocks.spec_last() < min_next
    }
}

/// An absent meta image stands for a fresh header-only one.
pub open spec fn spec_norm_meta(meta: Seq<u8>) -> Seq<u8> {
    if meta.len() == 0 {
        spec_u32_bytes(0u32)
    } else {
        meta
    }
}

/// Whether a (normalized) meta image opens cleanly against a data image
/// of the given length: whole slots only, committed span present in the
/// data file, every live record valid, and no two live records
/// overlapping.
pub open spec fn spec_open_ok(m: Seq<u8>, data_len: int) -> bool {
    &&& m.len() >= 4
    &&& (m.len() - 4) % 9 == 0
    &&& spec_bytes_u32(m.subrange(0, 4)) * BLOCK_SIZE <= data_len
    &&& forall|k: int|
        0 <= k < spec_num_records(m) ==> spec_record_ok(
            #[trigger] spec_record_at(m, k),
            spec_bytes_u32(m.subrange(0, 4)) as int,
        )
    &&& forall|k1: int, k2: int|
        0 <= k1 < k2 < spec_num_records(m) && (#[trigger] spec_record_at(m, k1)).kv_size != 0
            && (#[trigger] spec_record_at(m, k2)).kv_size != 0 ==> spec_record_at(
            m,
            k1,
        ).blocks.disjoint(spec_record_at(m, k2).blocks)
}

/// Encoding inverts decoding for every four-byte sequence.
pub proof fn lemma_u32_bytes_round_trip(s: Seq<u8>)
    requires
        s.len() == 4,
    ensures
        spec_u32_bytes(spec_bytes_u32(s)) =~= s,
{
    let s0 = s[0];
    let s1 = s[1];
    let s2 = s[2];
    let s3 = s[3];
    let v = spec_bytes_u32(s);
    assert(v == (s0 as u32) * 0x1000000 + (s1 as u32) * 0x10000 + (s2 as u32) * 256 + (
    s3 as u32));
    assert((v / 0x1000000) == s0 as u32 && ((v / 0x10000) % 256) == s1 as u32 && ((v / 256)
        % 256) == s2 as u32 && (v % 256) == s3 as u32) by (bit_vector)
        requires
            v == (s0 as u32) * 0x1000000 + (s1 as u32) * 0x10000 + (s2 as u32) * 256 + (
            s3 as u32),
    ;
}


/// Validity of one collected record-map entry against meta image `meta`
/// and the committed span, among the first `k` slots.
pub open spec fn open_entry_ok(e: (KVpos, u64), meta: Seq<u8>, min_next: int, k: int) -> bool {
    &&& 4 <= e.1
    &&& (e.1 - 4) % 9 == 0
    &&& e.1 + 9 <= meta.len()
    &&& meta.subrange(e.1 as int, e.1 + 9) == spec_kvpos_bytes(e.0)
    &&& e.0.kv_size != 0
    &&& e.0.blocks.wf()
    &&& e.0.value_pos <= e.0.kv_size
    &&& e.0.kv_size <= e.0.blocks.block_count * BLOCK_SIZE
    &&& e.0.blocks.spec_last() < min_next
    &&& e.1 < 4 + 9 * k
}



/// Tables with the same ranges cover the same blocks.
pub proof fn lemma_same_ranges_cover(c1: Seq<(Blocks, u8)>, c2: Seq<(Blocks, u8)>)
    requires
        c1.len() == c2.len(),
        forall|i: int| 0 <= i < c1.len() ==> (#[trigger] c1[i]).0 == (#[trigger] c2[i]).0,
    ensures
        forall|id: int|
            #[trigger] Storage::spec_chinks_cover(c1, id) <==> Storage::spec_chinks_cover(
                c2,
                id,
            ),
{
    assert forall|id: int|
        #[trigger] Storage::spec_chinks_cover(c1, id) <==> Storage::spec_chinks_cover(
            c2,
            id,
        ) by {
        if Storage::spec_chinks_cover(c1, id) {
            let i = choose|i: int| 0 <= i < c1.len() && spec_covers(c1[i].0, id);
            assert(spec_covers(c2[i].0, id));
        }
        if Storage::spec_chinks_cover(c2, id) {
            let i = choose|i: int| 0 <= i < c2.len() && spec_covers(c2[i].0, id);
            assert(spec_covers(c1[i].0, id));
        }
    }
}


/// Rewriting the four header bytes alone preserves meta-file
/// consistency.
#[verifier::rlimit(100)]
#[verifier::spinoff_prover]
pub proof fn lemma_header_refresh(s1: Storage, s2: Storage)
    requires
        s1.meta_wf(),
        s2.kv_pos_map == s1.kv_pos_map,
        s2.meta@.len() == s1.meta@.len(),
        s2.meta@.subrange(0, 4) == spec_u32_bytes(s2.min_blocks_id_can_use),
        forall|i: int| 4 <= i < s2.meta@.len() ==> s2.meta@[i] == s1.meta@[i],
    ensures
        s2.meta_wf(),
{
    assert forall|i: int|
        0 <= i < s2.kv_pos_map@.len() implies {
        let e = #[trigger] s2.kv_pos_map@[i];
        &&& 4 <= e.1
        &&& (e.1 - 4) % 9 == 0
        &&& e.1 + 9 <= s2.meta@.len()
        &&& s2.meta@.subrange(e.1 as int, e.1 + 9) == spec_kvpos_bytes(e.0)
        &&& e.0.kv_size != 0
    } by {
        let e = s2.kv_pos_map@[i];
        assert(s2.meta@.subrange(e.1 as int, e.1 + 9) =~= s1.meta@.subrange(
            e.1 as int,
            e.1 + 9,
        ));
    }
    assert forall|q: int|
        0 <= q < spec_num_records(s2.meta@) implies (#[trigger] spec_record_at(
        s2.meta@,
        q,
    )).kv_size == 0 || kv_entry_in(
        s2.kv_pos_map@,
        (spec_record_at(s2.meta@, q), (4 + 9 * q) as u64),
    ) by {
        assert(13 + 9 * q <= s2.meta@.len()) by {
            vstd::arithmetic::div_mod::lemma_fundamental_div_mod(s2.meta@.len() - 4, 9);
        }
        assert(s2.meta@.subrange(4 + 9 * q, 13 + 9 * q) =~= s1.meta@.subrange(
            4 + 9 * q,
            13 + 9 * q,
        ));
        assert(spec_record_at(s2.meta@, q) == spec_record_at(s1.meta@, q));
    }
}

} // verus!
