//! The database surface: durable `put` / `get` / `delete` over the
//! storage engine, the write-ahead log and the trie index.
//!
//! Every mutation is logged before it is applied; applying writes the
//! payload into the data-file image, records the meta-file change, and
//! updates the index.  `open` rebuilds the index from the meta and data
//! images and replays whatever the log holds beyond the last applied
//! checkpoint.

use vstd::prelude::*;

use crate::Error;
use crate::art::ArtTree;
use crate::options::Options;
use crate::storage::{BLOCK_SIZE, KVpos, Storage, kv_has};
use crate::wal::Wal;

verus! {

/// The database: configuration, transaction bookkeeping, the index and
/// the persistent engine.
pub struct DB {
    pub opt: Options,
    /// Monotonic id of the last committed write transaction.
    pub txn_id: u64,
    /// Checkpoint of the last durable commit.
    pub commit_ts: u64,
    /// Checkpoint of the last commit reflected in the index.
    pub apply_ts: u64,
    /// Keys durable on disk but not yet applied to the index.  This
    /// engine applies synchronously, so the cache is empty between
    /// calls.
    pub key_cache: Vec<Vec<u8>>,
    pub tree: ArtTree,
    pub storage: Storage,
    pub wal: Wal,
}

impl DB {
    /// Whether the store holds a value for `k`.
    pub open spec fn spec_contains(self, k: Seq<u8>) -> bool {
        self.tree.spec_contains(k)
    }

    /// The value stored for `k`.
    pub open spec fn spec_value(self, k: Seq<u8>) -> Seq<u8> {
        let p = self.tree.spec_at(k);
        self.storage.data@.subrange(
            p.blocks.start_block_id * BLOCK_SIZE + p.value_pos,
            p.blocks.start_block_id * BLOCK_SIZE + p.kv_size,
        )
    }

    /// One live record is placed soundly: a meaningful range below the
    /// committed span, the key bytes stored ahead of the value, and a
    /// matching meta record.
    #[verifier::opaque]
    pub open spec fn record_ok(self, k: Seq<u8>) -> bool {
        let p = self.tree.spec_at(k);
        &&& p.blocks.wf()
        &&& p.value_pos == k.len()
        &&& p.value_pos <= p.kv_size
        &&& p.kv_size <= p.blocks.block_count * BLOCK_SIZE
        &&& p.blocks.spec_last() < self.storage.min_blocks_id_can_use
        &&& self.storage.data@.subrange(
            p.blocks.start_block_id * BLOCK_SIZE,
            p.blocks.start_block_id * BLOCK_SIZE + p.value_pos,
        ) == k
        &&& kv_has(self.storage.kv_pos_map@, p)
    }

    /// The whole-store invariant: every layer consistent, every live
    /// record placed soundly, live ranges pairwise disjoint and
    /// disjoint from every free hole, and every meta-map record live.
    #[verifier::opaque]
    pub open spec fn wf(self) -> bool {
        &&& self.tree.wf()
        &&& self.storage.chinks_wf()
        &&& self.storage.meta_wf()
        &&& self.wal.wf()
        &&& self.storage.data@.len() == self.storage.min_blocks_id_can_use * BLOCK_SIZE
        &&& forall|k: Seq<u8>| #[trigger] self.spec_contains(k) ==> self.record_ok(k)
        &&& forall|k1: Seq<u8>, k2: Seq<u8>|
            #[trigger] self.spec_contains(k1) && #[trigger] self.spec_contains(k2) && k1
                != k2 ==> self.tree.spec_at(k1).blocks.disjoint(self.tree.spec_at(k2).blocks)
        &&& forall|k: Seq<u8>, id: int|
            #[trigger] self.spec_contains(k) && #[trigger] crate::storage::spec_covers(
                self.tree.spec_at(k).blocks,
                id,
            ) ==> !Storage::spec_chinks_cover(self.storage.chinks(), id)
        &&& self.live_map_ok()
    }

    /// The key bytes a record stores ahead of its value.
    pub open spec fn key_of(self, p: KVpos) -> Seq<u8> {
        self.storage.data@.subrange(
            p.blocks.start_block_id * BLOCK_SIZE,
            p.blocks.start_block_id * BLOCK_SIZE + p.value_pos,
        )
    }

    /// Every record in the meta map belongs to the live key whose bytes
    /// it stores.
    pub open spec fn live_map_ok(self) -> bool {
        forall|i: int| #![trigger self.storage.kv_pos_map@[i]]
            0 <= i < self.storage.kv_pos_map@.len() ==> self.spec_contains(
                self.key_of(self.storage.kv_pos_map@[i].0),
            ) && self.tree.spec_at(self.key_of(self.storage.kv_pos_map@[i].0))
                == self.storage.kv_pos_map@[i].0
    }

    /// Open an empty store.
    pub fn new(opt: Options) -> (r: DB)
        ensures
            r.wf(),
            forall|k: Seq<u8>| !r.spec_contains(k),
            r.txn_id == 0,
            r.commit_ts == 0,
            r.apply_ts == 0,
            r.opt == opt,
            r.storage.min_blocks_id_can_use == 0,
            r.storage.chinks().len() == 0,
    {
        let storage = match Storage::new(Vec::new(), Vec::new()) {
            Ok(s) => s,
            Err(e) => {
                proof {
                    crate::util::lemma_u32_round_trip(0);
                    assert(crate::storage::spec_norm_meta(Seq::<u8>::empty())
                        == crate::util::spec_u32_bytes(0u32));
                    assert(crate::storage::spec_open_ok(
                        crate::util::spec_u32_bytes(0u32),
                        0,
                    ));
                }
                vstd::pervasive::unreached()
            },
        };
        let wal = match Wal::new(Vec::new(), Vec::new(), opt.limit_per_file) {
            Ok(w) => w,
            Err(e) => vstd::pervasive::unreached(),
        };
        proof {
            reveal(DB::wf);
            reveal(DB::record_ok);
            crate::util::lemma_u32_round_trip(0);
            let m = crate::util::spec_u32_bytes(0u32);
            assert(crate::storage::spec_num_records(m) == 0);
            assert(storage.kv_pos_map@.len() == 0) by {
                if storage.kv_pos_map@.len() > 0 {
                    assert(crate::storage::open_entry_ok(
                        storage.kv_pos_map@[0],
                        m,
                        storage.min_blocks_id_can_use as int,
                        crate::storage::spec_num_records(m),
                    ));
                }
            }
        }
        DB {
            opt,
            txn_id: 0,
            commit_ts: 0,
            apply_ts: 0,
            key_cache: Vec::new(),
            tree: ArtTree::new(),
            storage,
            wal,
        }
    }

    /// Read the value stored for `key`.
    pub fn get(&self, key: &Vec<u8>) -> (r: Result<Vec<u8>, Error>)
        requires
            self.wf(),
        ensures
            match r {
                Ok(v) => self.spec_contains(key@) && v@ == self.spec_value(key@),
                Err(e) => e == Error::NotFound && !self.spec_contains(key@),
            },
    {
        proof {
            reveal(DB::wf);
            reveal(DB::record_ok);
        }
        match self.tree.get(key) {
            None => Err(Error::NotFound),
            Some(pos) => {
                proof {
                    assert(self.spec_contains(key@));
                    assert(self.record_ok(key@));
                }
                Ok(self.storage.read_kv(pos))
            },
        }
    }

}

} // verus!
