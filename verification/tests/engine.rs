use tigadb::art::{ArtNodeType, ArtTree, Node};
use tigadb::db::DB;
use tigadb::options::Options;
use tigadb::storage::{Blocks, KVpos, Storage, FREE, USED};
use tigadb::succinct::Succinct;
use tigadb::util::{bytes_to_u16, bytes_to_u32, bytes_to_u64, u16_to_bytes, u32_to_bytes, u64_to_bytes};
use tigadb::wal::{BatchOps, KVpair, Ops, Wal, INSERT, READ_ONLY, WRITING};
use tigadb::Error;

#[test]
fn codec_round_trips() {
    assert_eq!(u16_to_bytes(0x1234), vec![0x12, 0x34]);
    assert_eq!(bytes_to_u16(&[0x12, 0x34]), 0x1234);
    assert_eq!(u32_to_bytes(0xdeadbeef), vec![0xde, 0xad, 0xbe, 0xef]);
    assert_eq!(bytes_to_u32(&[0xde, 0xad, 0xbe, 0xef]), 0xdeadbeef);
    let b = u64_to_bytes(0x0102030405060708);
    assert_eq!(b, vec![1, 2, 3, 4, 5, 6, 7, 8]);
    assert_eq!(bytes_to_u64(&b), 0x0102030405060708);
}

#[test]
fn kvpos_round_trip() {
    let p = KVpos {
        blocks: Blocks { start_block_id: 7, block_count: 3 },
        value_pos: 5,
        kv_size: 21,
    };
    let bytes = p.to_bytes();
    assert_eq!(bytes.len(), 9);
    let q = KVpos::to_kvpos(bytes.as_slice());
    assert_eq!(p, q);
}

fn empty_storage() -> Storage {
    Storage::new(Vec::new(), Vec::new()).unwrap()
}

#[test]
fn allocator_coalesces_adjacent_ranges() {
    let mut s = empty_storage();
    s.update_min_blocks_id_can_use(100);
    // release [10..19] then the adjacent [20..24]: one range [10..24]
    let mut a = Blocks { start_block_id: 10, block_count: 10 };
    s.insert_chink_blocks(&mut a, FREE);
    let mut b = Blocks { start_block_id: 20, block_count: 5 };
    s.insert_chink_blocks(&mut b, FREE);
    assert_eq!(b.start_block_id, 10);
    assert_eq!(b.block_count, 15);
    assert_eq!(s.chink_blocks.len(), 1);
    assert_eq!(s.chink_blocks_start.len(), 1);
    assert_eq!(s.chink_blocks_end.len(), 1);
    assert_eq!(s.chink_blocks[0].0, Blocks { start_block_id: 10, block_count: 15 });
    assert_eq!(s.chink_blocks_start[0].0, 10);
    assert_eq!(s.chink_blocks_end[0].0, 24);
}

#[test]
fn allocator_merges_head_side() {
    let mut s = empty_storage();
    s.update_min_blocks_id_can_use(100);
    let mut b = Blocks { start_block_id: 20, block_count: 5 };
    s.insert_chink_blocks(&mut b, USED);
    let mut a = Blocks { start_block_id: 10, block_count: 10 };
    s.insert_chink_blocks(&mut a, FREE);
    assert_eq!(s.chink_blocks.len(), 1);
    assert_eq!(s.chink_blocks[0].0, Blocks { start_block_id: 10, block_count: 15 });
    assert_eq!(s.chink_blocks[0].1, FREE);
}

#[test]
fn allocator_best_fit_and_fresh() {
    let mut s = empty_storage();
    s.update_min_blocks_id_can_use(100);
    let mut a = Blocks { start_block_id: 10, block_count: 8 };
    s.insert_chink_blocks(&mut a, FREE);
    let mut b = Blocks { start_block_id: 30, block_count: 3 };
    s.insert_chink_blocks(&mut b, FREE);
    // best fit: the 3-block hole serves a 2-block request
    let got = s.alloc_blocks(2).unwrap();
    assert_eq!(got, Blocks { start_block_id: 30, block_count: 3 });
    // nothing big enough: fresh range at the committed span
    let fresh = s.alloc_blocks(9).unwrap();
    assert_eq!(fresh, Blocks { start_block_id: 100, block_count: 9 });
}

#[test]
fn allocator_set_state() {
    let mut s = empty_storage();
    s.update_min_blocks_id_can_use(50);
    let mut a = Blocks { start_block_id: 5, block_count: 4 };
    s.insert_chink_blocks(&mut a, USED);
    s.set_blocks_state(&a, FREE);
    assert_eq!(s.chink_blocks[0].1, FREE);
}

#[test]
fn art_insert_get_remove() {
    let mut t = ArtTree::new();
    let pos = |n: u32| KVpos {
        blocks: Blocks { start_block_id: n, block_count: 1 },
        value_pos: 1,
        kv_size: 2,
    };
    t.insert(&vec![1, 2, 3], pos(1));
    t.insert(&vec![1, 2, 4], pos(2));
    t.insert(&vec![1, 2], pos(3));
    assert_eq!(t.get(&vec![1, 2, 3]), Some(pos(1)));
    assert_eq!(t.get(&vec![1, 2, 4]), Some(pos(2)));
    assert_eq!(t.get(&vec![1, 2]), Some(pos(3)));
    assert_eq!(t.get(&vec![1]), None);
    assert_eq!(t.get(&vec![9]), None);
    // overwrite
    t.insert(&vec![1, 2, 3], pos(7));
    assert_eq!(t.get(&vec![1, 2, 3]), Some(pos(7)));
    // idempotent removal at the tree level
    t.remove(&vec![1, 2, 3]);
    assert_eq!(t.get(&vec![1, 2, 3]), None);
    t.remove(&vec![1, 2, 3]);
    assert_eq!(t.get(&vec![1, 2, 3]), None);
    assert_eq!(t.get(&vec![1, 2, 4]), Some(pos(2)));
}

#[test]
fn art_root_grows_through_all_shapes() {
    // one single-byte key per byte value: the root must pass
    // N4 -> N16 -> N48 -> N256
    let mut t = ArtTree::new();
    let mut seen48 = false;
    let mut seen16 = false;
    for b in 0..=255u32 {
        let key = vec![b as u8, 0];
        let pos = KVpos {
            blocks: Blocks { start_block_id: b, block_count: 1 },
            value_pos: 2,
            kv_size: 3,
        };
        t.insert(&key, pos);
        if let Some(root) = &t.root {
            match root.typ {
                ArtNodeType::Node16 => seen16 = true,
                ArtNodeType::Node48 => seen48 = true,
                _ => {}
            }
        }
    }
    assert!(seen16);
    assert!(seen48);
    let root = t.root.as_ref().unwrap();
    assert!(matches!(root.typ, ArtNodeType::Node256));
    for b in 0..=255u32 {
        let key = vec![b as u8, 0];
        let got = t.get(&key).unwrap();
        assert_eq!(got.blocks.start_block_id, b);
    }
}

#[test]
fn art_node16_lookup_parity() {
    // the bitfield route and the scalar scan agree on all 256 queries
    let mut t = ArtTree::new();
    for b in [3u8, 9, 17, 40, 77, 130, 200, 255] {
        let key = vec![b];
        let pos = KVpos {
            blocks: Blocks { start_block_id: b as u32, block_count: 1 },
            value_pos: 1,
            kv_size: 2,
        };
        t.insert(&key, pos);
    }
    let root: &Node = t.root.as_ref().unwrap();
    assert!(matches!(root.typ, ArtNodeType::Node16));
    for q in 0..=255u8 {
        assert_eq!(root.index_bitfield(q), root.index_scan(q));
    }
}

fn batch(id: u64, key: &[u8], value: &[u8], ckpt: u64) -> BatchOps {
    BatchOps {
        id,
        ops: vec![Ops {
            op: INSERT,
            kv: KVpair { key: key.to_vec(), value: value.to_vec() },
        }],
        undo: 0,
        checkpoint: ckpt,
    }
}

#[test]
fn wal_batch_codec_round_trip() {
    let b = batch(1, b"key", b"value", 9);
    let enc = b.encode();
    let (d, end) = BatchOps::decode(&enc, 0).unwrap();
    assert_eq!(end, enc.len());
    assert_eq!(d.id, 1);
    assert_eq!(d.checkpoint, 9);
    assert_eq!(d.ops.len(), 1);
    assert_eq!(d.ops[0].op, INSERT);
    assert_eq!(d.ops[0].kv.key, b"key".to_vec());
    assert_eq!(d.ops[0].kv.value, b"value".to_vec());
}

#[test]
fn wal_decode_truncated_is_corruption() {
    let b = batch(1, b"key", b"value", 9);
    let mut enc = b.encode();
    enc.truncate(enc.len() - 1);
    let r = BatchOps::decode(&enc, 0);
    assert!(matches!(r, Err(Error::Corruption)));
}

#[test]
fn wal_append_recover_and_rotation() {
    // small per-file limit so the second frame rotates the roles
    let mut w = Wal::new(Vec::new(), Vec::new(), 64).unwrap();
    assert_eq!(w.writing_file.state, WRITING);
    assert_eq!(w.read_only_file.state, READ_ONLY);
    w.append_wal(&batch(1, b"a", b"1", 1), 1, false);
    let rec = w.recover(0);
    assert_eq!(rec.len(), 1);
    assert_eq!(rec[0].checkpoint, 1);
    // this append overflows 64 bytes: exactly one file stays writing
    w.append_wal(&batch(2, b"b", b"22", 2), 2, false);
    assert_eq!(w.writing_file.state, WRITING);
    assert_eq!(w.read_only_file.state, READ_ONLY);
    assert_eq!(w.writing_file.get_last_ckpt(), 2);
    let rec2 = w.recover(1);
    assert_eq!(rec2.len(), 1);
    assert_eq!(rec2[0].checkpoint, 2);
}

#[test]
fn wal_truncation_after_apply() {
    let mut w = Wal::new(Vec::new(), Vec::new(), 64).unwrap();
    w.append_wal(&batch(1, b"a", b"1", 1), 1, false);
    w.append_wal(&batch(2, b"b", b"2", 2), 2, false);
    // the aged file holds checkpoint 1; once applied it shrinks to its
    // role byte
    assert!(w.read_only_file.get_last_ckpt() <= 1);
    w.try_truncate_wal(2);
    assert_eq!(w.read_only_file.read_all().len(), 1);
    assert_eq!(w.read_only_file.get_last_ckpt(), 0);
}

#[test]
fn wal_reopen_from_images() {
    let mut w = Wal::new(Vec::new(), Vec::new(), 1024).unwrap();
    w.append_wal(&batch(1, b"a", b"1", 1), 1, false);
    let f1 = w.writing_file.read_all();
    let f2 = w.read_only_file.read_all();
    let w2 = Wal::new(f2, f1, 1024).unwrap();
    let rec = w2.recover(0);
    assert_eq!(rec.len(), 1);
    assert_eq!(rec[0].id, 1);
}

#[test]
fn wal_both_writing_is_corruption() {
    let mut w = Wal::new(Vec::new(), Vec::new(), 1024).unwrap();
    w.append_wal(&batch(1, b"a", b"1", 1), 1, false);
    let live = w.writing_file.read_all();
    let r = Wal::new(live.clone(), live, 1024);
    assert!(matches!(r, Err(Error::Corruption)));
}

#[test]
fn storage_open_rejects_ragged_meta() {
    let meta = vec![0, 0, 0, 0, 1, 2, 3];
    let r = Storage::new(Vec::new(), meta);
    assert!(matches!(r, Err(Error::Corruption)));
}

#[test]
fn storage_open_round_trips_records() {
    // a one-record meta image over a one-block data image
    let rec = KVpos {
        blocks: Blocks { start_block_id: 0, block_count: 1 },
        value_pos: 1,
        kv_size: 2,
    };
    let mut meta = u32_to_bytes(1);
    meta.extend_from_slice(rec.to_bytes().as_slice());
    let data = vec![0u8; 512];
    let s = Storage::new(data, meta).unwrap();
    assert_eq!(s.min_blocks_id_can_use, 1);
    assert_eq!(s.kv_pos_map.len(), 1);
    assert_eq!(s.kv_pos_map[0].0, rec);
    assert_eq!(s.kv_pos_map[0].1, 4);
}

#[test]
fn db_open_empty() {
    let db = DB::new(Options::default());
    assert_eq!(db.get(&b"a".to_vec()).unwrap_err(), Error::NotFound);
    assert_eq!(db.txn_id, 0);
}

#[test]
fn succinct_rank_select() {
    // bits: 1 1 0 1 0 0
    let s = Succinct::new(vec![true, true, false, true, false, false]);
    assert_eq!(s.rank1(0), 0);
    assert_eq!(s.rank1(2), 2);
    assert_eq!(s.rank1(6), 3);
    assert_eq!(s.rank0(6), 3);
    assert_eq!(s.select1(1), 1);
    assert_eq!(s.select1(3), 4);
    assert_eq!(s.select0(1), 3);
    assert_eq!(s.select0(3), 6);
}

#[test]
fn succinct_navigation() {
    // level-order unary encoding of a root with two children:
    // 110 10 0  (root: two child-bits; child one: one child; leaves)
    let s = Succinct::new(vec![true, true, false, true, false, false]);
    // node bit at position 0 (the root's first 1)
    assert_eq!(s.first_child(1), 4);
    assert_eq!(s.parent(4), 1);
}
