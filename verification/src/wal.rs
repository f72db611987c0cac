//! Two-file write-ahead log with checkpoint-driven truncation.
//!
//! Each log file image begins with a one-byte role (`READ_ONLY` or
//! `WRITING`); the rest is a run of frames, each an encoded batch of
//! operations followed by an eight-byte copy of its checkpoint id.
//! Exactly one file is writing at a time; when an append would overflow
//! `max_size_per_file` the roles rotate.  Recovery replays the frames
//! whose checkpoint exceeds the last applied one, read-only file first.

use vstd::prelude::*;

use crate::Error;
use crate::util::{
    bytes_to_u32, bytes_to_u64, bytes_to_u8, read_bytes, spec_bytes_u32, spec_bytes_u64,
    spec_u32_bytes, spec_u64_bytes, u32_to_bytes, u64_to_bytes, u8_to_bytes,
};

verus! {

/// Role byte of the aging log file.
pub const READ_ONLY: u8 = 0;

/// Role byte of the live log file.
pub const WRITING: u8 = 1;

/// Width of the role byte.
pub const SIZE_OF_FILE_STATE: usize = 1;

/// Width of a checkpoint id.
pub const SIZE_OF_CKPT: usize = 8;

/// Operation kind: insert or update a pair.
pub const INSERT: u8 = 0;

/// Operation kind: delete a key.
pub const DELETE: u8 = 1;

/// One key together with its value.
pub struct KVpair {
    pub key: Vec<u8>,
    pub value: Vec<u8>,
}

/// One logged operation: kind plus its pair (the value is empty for a
/// delete).
pub struct Ops {
    pub op: u8,
    pub kv: KVpair,
}

/// One logged batch: transaction id, its operations, an undo pointer
/// and the checkpoint id assigned at commit.
pub struct BatchOps {
    pub id: u64,
    pub ops: Vec<Ops>,
    pub undo: u64,
    pub checkpoint: u64,
}

/// The mathematical form of one operation.
pub struct OpModel {
    pub op: u8,
    pub key: Seq<u8>,
    pub value: Seq<u8>,
}

impl View for Ops {
    type V = OpModel;

    open spec fn view(&self) -> OpModel {
        OpModel { op: self.op, key: self.kv.key@, value: self.kv.value@ }
    }
}

/// The mathematical form of one batch.
pub struct BatchModel {
    pub id: u64,
    pub ops: Seq<OpModel>,
    pub undo: u64,
    pub checkpoint: u64,
}

impl View for BatchOps {
    type V = BatchModel;

    open spec fn view(&self) -> BatchModel {
        BatchModel {
            id: self.id,
            ops: self.ops@.map(|i: int, o: Ops| o@),
            undo: self.undo,
            checkpoint: self.checkpoint,
        }
    }
}

/// An encodable operation: a known kind, lengths that fit their fixed
/// width, and no payload on a delete.
pub open spec fn op_wf(o: OpModel) -> bool {
    &&& o.op == INSERT || o.op == DELETE
    &&& o.key.len() <= u32::MAX
    &&& o.value.len() <= u32::MAX
    &&& o.op == DELETE ==> o.value.len() == 0
}

/// An encodable batch.
pub open spec fn batch_wf(b: BatchModel) -> bool {
    &&& b.ops.len() <= u64::MAX
    &&& forall|i: int| 0 <= i < b.ops.len() ==> op_wf(#[trigger] b.ops[i])
}

/// The wire form of one operation.
pub open spec fn spec_op_bytes(o: OpModel) -> Seq<u8> {
    if o.op == INSERT {
        seq![o.op] + spec_u32_bytes(o.key.len() as u32) + o.key + spec_u32_bytes(
            o.value.len() as u32,
        ) + o.value
    } else {
        seq![o.op] + spec_u32_bytes(o.key.len() as u32) + o.key
    }
}

/// The wire form of a run of operations.
pub open spec fn spec_ops_bytes(ops: Seq<OpModel>) -> Seq<u8>
    decreases ops.len(),
{
    if ops.len() == 0 {
        Seq::<u8>::empty()
    } else {
        spec_op_bytes(ops[0]) + spec_ops_bytes(ops.drop_first())
    }
}

/// The wire form of one batch.
pub open spec fn spec_batch_bytes(b: BatchModel) -> Seq<u8> {
    spec_u64_bytes(b.id) + spec_u64_bytes(b.ops.len() as u64) + spec_ops_bytes(b.ops)
        + spec_u64_bytes(b.undo) + spec_u64_bytes(b.checkpoint)
}

/// Splitting the last operation off a run of encodings.
pub proof fn lemma_ops_bytes_snoc(ops: Seq<OpModel>)
    requires
        ops.len() > 0,
    ensures
        spec_ops_bytes(ops) == spec_ops_bytes(ops.drop_last()) + spec_op_bytes(ops.last()),
    decreases ops.len(),
{
    if ops.len() == 1 {
        assert(ops.drop_first().len() == 0);
        assert(ops.drop_last().len() == 0);
        assert(spec_ops_bytes(ops.drop_first()) == Seq::<u8>::empty());
        assert(spec_ops_bytes(ops.drop_last()) == Seq::<u8>::empty());
        assert(spec_ops_bytes(ops) == spec_op_bytes(ops[0]) + Seq::<u8>::empty());
        assert(spec_ops_bytes(ops) =~= spec_ops_bytes(ops.drop_last()) + spec_op_bytes(
            ops.last(),
        ));
    } else {
        lemma_ops_bytes_snoc(ops.drop_first());
        assert(ops.drop_first().drop_last() =~= ops.drop_last().drop_first());
        assert(ops.drop_first().last() == ops.last());
        assert(ops.drop_last()[0] == ops[0]);
        assert(spec_ops_bytes(ops.drop_last()) == spec_op_bytes(ops[0]) + spec_ops_bytes(
            ops.drop_last().drop_first(),
        ));
        assert(spec_ops_bytes(ops) =~= spec_ops_bytes(ops.drop_last()) + spec_op_bytes(
            ops.last(),
        ));
    }
}

/// Parse one operation at `off`; `None` on truncated or unknown input.
pub open spec fn spec_parse_op(data: Seq<u8>, off: int) -> Option<(OpModel, int)> {
    if off + 5 <= data.len() {
        let kind = data[off];
        let klen = spec_bytes_u32(data.subrange(off + 1, off + 5)) as int;
        if kind == INSERT {
            if off + 5 + klen + 4 <= data.len() {
                let vlen = spec_bytes_u32(
                    data.subrange(off + 5 + klen, off + 9 + klen),
                ) as int;
                if off + 9 + klen + vlen <= data.len() {
                    Some(
                        (
                            OpModel {
                                op: INSERT,
                                key: data.subrange(off + 5, off + 5 + klen),
                                value: data.subrange(off + 9 + klen, off + 9 + klen + vlen),
                            },
                            off + 9 + klen + vlen,
                        ),
                    )
                } else {
                    None
                }
            } else {
                None
            }
        } else if kind == DELETE {
            if off + 5 + klen <= data.len() {
                Some(
                    (
                        OpModel {
                            op: DELETE,
                            key: data.subrange(off + 5, off + 5 + klen),
                            value: Seq::<u8>::empty(),
                        },
                        off + 5 + klen,
                    ),
                )
            } else {
                None
            }
        } else {
            None
        }
    } else {
        None
    }
}

/// Parse `n` operations in a row.
pub open spec fn spec_parse_ops(data: Seq<u8>, off: int, n: int) -> Option<(Seq<OpModel>, int)>
    decreases n,
{
    if n <= 0 {
        Some((Seq::<OpModel>::empty(), off))
    } else {
        match spec_parse_op(data, off) {
            None => None,
            Some((o, end)) => match spec_parse_ops(data, end, n - 1) {
                None => None,
                Some((rest, fin)) => Some((seq![o] + rest, fin)),
            },
        }
    }
}

/// Parse one batch at `off`.
pub open spec fn spec_parse_batch(data: Seq<u8>, off: int) -> Option<(BatchModel, int)> {
    if off + 16 <= data.len() {
        let id = spec_bytes_u64(data.subrange(off, off + 8));
        let n = spec_bytes_u64(data.subrange(off + 8, off + 16)) as int;
        match spec_parse_ops(data, off + 16, n) {
            None => None,
            Some((ops, end)) => if end + 16 <= data.len() {
                Some(
                    (
                        BatchModel {
                            id,
                            ops,
                            undo: spec_bytes_u64(data.subrange(end, end + 8)),
                            checkpoint: spec_bytes_u64(data.subrange(end + 8, end + 16)),
                        },
                        end + 16,
                    ),
                )
            } else {
                None
            },
        }
    } else {
        None
    }
}

/// An operation's encoding parses back to itself wherever it stands.
pub proof fn lemma_parse_op_round_trip(data: Seq<u8>, off: int, o: OpModel)
    requires
        op_wf(o),
        0 <= off,
        off + spec_op_bytes(o).len() <= data.len(),
        data.subrange(off, off + spec_op_bytes(o).len()) == spec_op_bytes(o),
    ensures
        spec_parse_op(data, off) == Some((o, off + spec_op_bytes(o).len())),
{
    let enc = spec_op_bytes(o);
    let klen = o.key.len() as int;
    crate::util::lemma_u32_round_trip(o.key.len() as u32);
    crate::util::lemma_byte_of_matching(data, off, enc, 0);
    assert(enc[0] == o.op);
    crate::util::lemma_subrange_of_matching(data, off, enc, 1, 5);
    assert(enc.subrange(1, 5) =~= spec_u32_bytes(o.key.len() as u32));
    crate::util::lemma_subrange_of_matching(data, off, enc, 5, 5 + klen);
    assert(enc.subrange(5, 5 + klen) =~= o.key);
    if o.op == INSERT {
        crate::util::lemma_u32_round_trip(o.value.len() as u32);
        let vlen = o.value.len() as int;
        crate::util::lemma_subrange_of_matching(data, off, enc, 5 + klen, 9 + klen);
        assert(enc.subrange(5 + klen, 9 + klen) =~= spec_u32_bytes(o.value.len() as u32));
        crate::util::lemma_subrange_of_matching(data, off, enc, 9 + klen, 9 + klen + vlen);
        assert(enc.subrange(9 + klen, 9 + klen + vlen) =~= o.value);
        assert(spec_parse_op(data, off) == Some((o, off + enc.len())));
    } else {
        assert(enc.len() == 5 + klen);
        assert(o.value =~= Seq::<u8>::empty());
        assert(spec_parse_op(data, off) == Some((o, off + enc.len())));
    }
}

/// A run of encoded operations parses back to itself.
pub proof fn lemma_parse_ops_round_trip(data: Seq<u8>, off: int, ops: Seq<OpModel>)
    requires
        forall|i: int| 0 <= i < ops.len() ==> op_wf(#[trigger] ops[i]),
        0 <= off,
        off + spec_ops_bytes(ops).len() <= data.len(),
        data.subrange(off, off + spec_ops_bytes(ops).len()) == spec_ops_bytes(ops),
    ensures
        spec_parse_ops(data, off, ops.len() as int) == Some(
            (ops, off + spec_ops_bytes(ops).len()),
        ),
    decreases ops.len(),
{
    if ops.len() == 0 {
        assert(spec_parse_ops(data, off, 0) == Some((Seq::<OpModel>::empty(), off)));
        assert(ops =~= Seq::<OpModel>::empty());
    } else {
        let o = ops[0];
        let rest = ops.drop_first();
        let enc = spec_ops_bytes(ops);
        let olen = spec_op_bytes(o).len() as int;
        assert(enc == spec_op_bytes(o) + spec_ops_bytes(rest));
        crate::util::lemma_subrange_of_matching(data, off, enc, 0, olen);
        assert(enc.subrange(0, olen) =~= spec_op_bytes(o));
        lemma_parse_op_round_trip(data, off, o);
        crate::util::lemma_subrange_of_matching(data, off, enc, olen, enc.len() as int);
        assert(enc.subrange(olen, enc.len() as int) =~= spec_ops_bytes(rest));
        lemma_parse_ops_round_trip(data, off + olen, rest);
        assert(seq![o] + rest =~= ops);
    }
}

/// A batch's encoding parses back to itself wherever it stands.
#[verifier::rlimit(100)]
#[verifier::spinoff_prover]
pub proof fn lemma_parse_batch_round_trip(data: Seq<u8>, off: int, b: BatchModel)
    requires
        batch_wf(b),
        0 <= off,
        off + spec_batch_bytes(b).len() <= data.len(),
        data.subrange(off, off + spec_batch_bytes(b).len()) == spec_batch_bytes(b),
    ensures
        spec_parse_batch(data, off) == Some((b, off + spec_batch_bytes(b).len())),
{
    let enc = spec_batch_bytes(b);
    let obytes = spec_ops_bytes(b.ops).len() as int;
    crate::util::lemma_u64_round_trip(b.id);
    crate::util::lemma_u64_round_trip(b.ops.len() as u64);
    crate::util::lemma_u64_round_trip(b.undo);
    crate::util::lemma_u64_round_trip(b.checkpoint);
    crate::util::lemma_subrange_of_matching(data, off, enc, 0, 8);
    assert(enc.subrange(0, 8) =~= spec_u64_bytes(b.id));
    crate::util::lemma_subrange_of_matching(data, off, enc, 8, 16);
    assert(enc.subrange(8, 16) =~= spec_u64_bytes(b.ops.len() as u64));
    crate::util::lemma_subrange_of_matching(data, off, enc, 16, 16 + obytes);
    assert(enc.subrange(16, 16 + obytes) =~= spec_ops_bytes(b.ops));
    lemma_parse_ops_round_trip(data, off + 16, b.ops);
    crate::util::lemma_subrange_of_matching(data, off, enc, 16 + obytes, 24 + obytes);
    assert(enc.subrange(16 + obytes, 24 + obytes) =~= spec_u64_bytes(b.undo));
    crate::util::lemma_subrange_of_matching(data, off, enc, 24 + obytes, 32 + obytes);
    assert(enc.subrange(24 + obytes, 32 + obytes) =~= spec_u64_bytes(b.checkpoint));
    assert(spec_parse_batch(data, off) == Some((b, off + enc.len())));
}

impl Ops {
    /// Encode one operation.
    pub fn encode(&self) -> (r: Vec<u8>)
        requires
            op_wf(self@),
        ensures
            r@ == spec_op_bytes(self@),
    {
        let mut data = u8_to_bytes(self.op);
        let mut klen = u32_to_bytes(self.kv.key.len() as u32);
        data.append(&mut klen);
        let mut key = read_bytes(&self.kv.key, 0, self.kv.key.len());
        data.append(&mut key);
        if self.op == INSERT {
            let mut vlen = u32_to_bytes(self.kv.value.len() as u32);
            data.append(&mut vlen);
            let mut value = read_bytes(&self.kv.value, 0, self.kv.value.len());
            data.append(&mut value);
            proof {
                assert(self.kv.key@ =~= self.kv.key@.subrange(0, self.kv.key@.len() as int));
                assert(self.kv.value@ =~= self.kv.value@.subrange(
                    0,
                    self.kv.value@.len() as int,
                ));
                assert(data@ =~= spec_op_bytes(self@));
            }
        } else {
            proof {
                assert(self.kv.key@ =~= self.kv.key@.subrange(0, self.kv.key@.len() as int));
                assert(data@ =~= spec_op_bytes(self@));
            }
        }
        data
    }

    /// Decode one operation at `off`.
    pub fn decode(data: &Vec<u8>, off: usize) -> (r: Result<(Ops, usize), Error>)
        requires
            off <= data@.len(),
        ensures
            match r {
                Ok((o, end)) => spec_parse_op(data@, off as int) == Some((o@, end as int))
                    && off < end <= data@.len() && op_wf(o@),
                Err(e) => e == Error::Corruption && spec_parse_op(data@, off as int)
                    is None,
            },
    {
        let n = data.len();
        if n - off < 5 {
            return Err(Error::Corruption);
        }
        let kind = data[off];
        let klen_bytes = read_bytes(data, off + 1, 4);
        let klen = bytes_to_u32(klen_bytes.as_slice()) as usize;
        if kind == INSERT {
            if n - (off + 5) < klen || n - (off + 5 + klen) < 4 {
                return Err(Error::Corruption);
            }
            let key = read_bytes(data, off + 5, klen);
            let vlen_bytes = read_bytes(data, off + 5 + klen, 4);
            let vlen = bytes_to_u32(vlen_bytes.as_slice()) as usize;
            if n - (off + 9 + klen) < vlen {
                return Err(Error::Corruption);
            }
            let value = read_bytes(data, off + 9 + klen, vlen);
            Ok((Ops { op: INSERT, kv: KVpair { key, value } }, off + 9 + klen + vlen))
        } else if kind == DELETE {
            if n - (off + 5) < klen {
                return Err(Error::Corruption);
            }
            let key = read_bytes(data, off + 5, klen);
            Ok((Ops { op: DELETE, kv: KVpair { key, value: Vec::new() } }, off + 5 + klen))
        } else {
            Err(Error::Corruption)
        }
    }
}

impl BatchOps {
    /// Encode one batch.
    pub fn encode(&self) -> (r: Vec<u8>)
        requires
            batch_wf(self@),
        ensures
            r@ == spec_batch_bytes(self@),
    {
        let mut data = u64_to_bytes(self.id);
        let mut nlen = u64_to_bytes(self.ops.len() as u64);
        data.append(&mut nlen);
        let n = self.ops.len();
        let mut i: usize = 0;
        while i < n
            invariant
                i <= n,
                n == self.ops@.len(),
                batch_wf(self@),
                data@ == spec_u64_bytes(self@.id) + spec_u64_bytes(self@.ops.len() as u64)
                    + spec_ops_bytes(self@.ops.take(i as int)),
            decreases n - i,
        {
            proof {
                assert(self@.ops[i as int] == self.ops@[i as int]@);
                assert(op_wf(self@.ops[i as int]));
            }
            let mut enc = self.ops[i].encode();
            data.append(&mut enc);
            proof {
                lemma_ops_bytes_snoc(self@.ops.take(i + 1));
                assert(self@.ops.take(i + 1).drop_last() =~= self@.ops.take(i as int));
                assert(self@.ops.take(i + 1).last() == self@.ops[i as int]);
            }
            i = i + 1;
        }
        proof {
            assert(self@.ops.take(n as int) =~= self@.ops);
        }
        let mut undo = u64_to_bytes(self.undo);
        data.append(&mut undo);
        let mut ckpt = u64_to_bytes(self.checkpoint);
        data.append(&mut ckpt);
        proof {
            assert(data@ =~= spec_batch_bytes(self@));
        }
        data
    }

    /// Decode one batch at `off`.
    pub fn decode(data: &Vec<u8>, off: usize) -> (r: Result<(BatchOps, usize), Error>)
        requires
            off <= data@.len(),
        ensures
            match r {
                Ok((b, end)) => spec_parse_batch(data@, off as int) == Some((b@, end as int))
                    && off < end <= data@.len() && batch_wf(b@),
                Err(e) => e == Error::Corruption && spec_parse_batch(data@, off as int)
                    is None,
            },
    {
        let n = data.len();
        if n - off < 16 {
            return Err(Error::Corruption);
        }
        let id_bytes = read_bytes(data, off, 8);
        let id = bytes_to_u64(id_bytes.as_slice());
        let cnt_bytes = read_bytes(data, off + 8, 8);
        let cnt = bytes_to_u64(cnt_bytes.as_slice());
        let mut ops: Vec<Ops> = Vec::new();
        let mut cur = off + 16;
        let mut k: u64 = 0;
        while k < cnt
            invariant
                k <= cnt,
                off + 16 <= cur <= data@.len(),
                cnt == spec_bytes_u64(data@.subrange(off + 8, off + 16)),
                ops@.len() == k,
                forall|i: int| 0 <= i < ops@.len() ==> op_wf((#[trigger] ops@[i])@),
                spec_parse_ops(data@, off + 16, cnt as int) == (
                match spec_parse_ops(data@, cur as int, cnt - k) {
                    None => None::<(Seq<OpModel>, int)>,
                    Some((rest, fin)) => Some((ops@.map(|i: int, o: Ops| o@) + rest, fin)),
                }),
            decreases cnt - k,
        {
            let ghost pre_ops = ops@;
            let ghost pre_cur = cur as int;
            match Ops::decode(data, cur) {
                Ok((o, end)) => {
                    let ghost ov = o@;
                    ops.push(o);
                    cur = end;
                    proof {
                        let premap = pre_ops.map(|i: int, o: Ops| o@);
                        let newmap = ops@.map(|i: int, o: Ops| o@);
                        assert(newmap =~= premap.push(ov));
                        assert(spec_parse_ops(data@, pre_cur, cnt - k) == (
                        match spec_parse_ops(data@, cur as int, (cnt - k) - 1) {
                            None => None::<(Seq<OpModel>, int)>,
                            Some((rest, fin)) => Some((seq![ov] + rest, fin)),
                        }));
                        if spec_parse_ops(data@, cur as int, (cnt - k) - 1) is Some {
                            let (rest, fin) = spec_parse_ops(data@, cur as int, (cnt - k)
                                - 1)->0;
                            assert(premap + (seq![ov] + rest) =~= newmap + rest);
                        }
                    }
                },
                Err(e) => {
                    proof {
                        assert(spec_parse_ops(data@, pre_cur, cnt - k) is None);
                        assert(spec_parse_ops(data@, off + 16, cnt as int) is None);
                        assert(spec_bytes_u64(data@.subrange(off + 8, off + 16)) == cnt);
                        assert(spec_parse_batch(data@, off as int) is None);
                    }
                    return Err(Error::Corruption);
                },
            }
            k = k + 1;
        }
        proof {
            assert(spec_parse_ops(data@, cur as int, 0) == Some(
                (Seq::<OpModel>::empty(), cur as int),
            ));
            assert(ops@.map(|i: int, o: Ops| o@) + Seq::<OpModel>::empty() =~= ops@.map(
                |i: int, o: Ops| o@,
            ));
        }
        if n - cur < 16 {
            return Err(Error::Corruption);
        }
        let undo_bytes = read_bytes(data, cur, 8);
        let undo = bytes_to_u64(undo_bytes.as_slice());
        let ckpt_bytes = read_bytes(data, cur + 8, 8);
        let checkpoint = bytes_to_u64(ckpt_bytes.as_slice());
        let result = BatchOps { id, ops, undo, checkpoint };
        proof {
            assert(spec_bytes_u64(data@.subrange(off as int, off + 8)) == id);
            assert(spec_bytes_u64(data@.subrange(off + 8, off + 16)) == cnt);
            assert(spec_bytes_u64(data@.subrange(cur as int, cur + 8)) == undo);
            assert(spec_bytes_u64(data@.subrange(cur + 8, cur + 16)) == checkpoint);
            assert(spec_parse_ops(data@, off + 16, cnt as int) == Some(
                (result@.ops, cur as int),
            ));
            assert(spec_parse_batch(data@, off as int) == Some((result@, cur + 16)));
        }
        Ok((result, cur + 16))
    }
}


/// Parse a whole run of frames: encoded batches, each followed by an
/// eight-byte copy of its checkpoint.  `None` when anything is
/// malformed or truncated.
pub open spec fn spec_frames(data: Seq<u8>, off: int) -> Option<Seq<BatchModel>>
    decreases data.len() - off,
{
    if off < 0 || off > data.len() {
        None
    } else if off == data.len() {
        Some(Seq::<BatchModel>::empty())
    } else {
        match spec_parse_batch(data, off) {
            None => None,
            Some((b, end)) => if off < end && end + 8 <= data.len() && data.subrange(
                end,
                end + 8,
            ) == spec_u64_bytes(b.checkpoint) {
                match spec_frames(data, end + 8) {
                    None => None,
                    Some(rest) => Some(seq![b] + rest),
                }
            } else {
                None
            },
        }
    }
}

/// Checkpoint of the last frame, zero when there is none.
pub open spec fn spec_last_ckpt(fs: Seq<BatchModel>) -> u64 {
    if fs.len() == 0 {
        0
    } else {
        fs.last().checkpoint
    }
}

/// The frames whose checkpoint exceeds `ckpt`, in order.
pub open spec fn spec_newer(fs: Seq<BatchModel>, ckpt: u64) -> Seq<BatchModel>
    decreases fs.len(),
{
    if fs.len() == 0 {
        Seq::<BatchModel>::empty()
    } else if fs[0].checkpoint > ckpt {
        seq![fs[0]] + spec_newer(fs.drop_first(), ckpt)
    } else {
        spec_newer(fs.drop_first(), ckpt)
    }
}

/// Splitting the last frame off a filtered run.
pub proof fn lemma_newer_snoc(fs: Seq<BatchModel>, ckpt: u64)
    requires
        fs.len() > 0,
    ensures
        spec_newer(fs, ckpt) == if fs.last().checkpoint > ckpt {
            spec_newer(fs.drop_last(), ckpt) + seq![fs.last()]
        } else {
            spec_newer(fs.drop_last(), ckpt)
        },
    decreases fs.len(),
{
    if fs.len() == 1 {
        assert(fs.drop_first().len() == 0);
        assert(fs.drop_last().len() == 0);
        assert(spec_newer(fs.drop_first(), ckpt) == Seq::<BatchModel>::empty());
        assert(spec_newer(fs.drop_last(), ckpt) == Seq::<BatchModel>::empty());
        if fs[0].checkpoint > ckpt {
            assert(spec_newer(fs, ckpt) =~= spec_newer(fs.drop_last(), ckpt) + seq![
                fs.last(),
            ]);
        }
    } else {
        lemma_newer_snoc(fs.drop_first(), ckpt);
        assert(fs.drop_first().drop_last() =~= fs.drop_last().drop_first());
        assert(fs.drop_first().last() == fs.last());
        assert(fs.drop_last()[0] == fs[0]);
        if fs.last().checkpoint > ckpt {
            if fs[0].checkpoint > ckpt {
                assert(spec_newer(fs, ckpt) =~= spec_newer(fs.drop_last(), ckpt) + seq![
                    fs.last(),
                ]);
            } else {
                assert(spec_newer(fs, ckpt) =~= spec_newer(fs.drop_last(), ckpt) + seq![
                    fs.last(),
                ]);
            }
        } else {
            if fs[0].checkpoint > ckpt {
                assert(spec_newer(fs, ckpt) =~= spec_newer(fs.drop_last(), ckpt));
            } else {
                assert(spec_newer(fs, ckpt) =~= spec_newer(fs.drop_last(), ckpt));
            }
        }
    }
}

/// A window wholly inside a prefix is the same in the extension.
pub proof fn lemma_prefix_subrange(data: Seq<u8>, ext: Seq<u8>, a: int, b: int)
    requires
        data.len() <= ext.len(),
        ext.subrange(0, data.len() as int) == data,
        0 <= a <= b <= data.len(),
    ensures
        ext.subrange(a, b) == data.subrange(a, b),
{
    assert forall|j: int| 0 <= j < b - a implies #[trigger] ext.subrange(a, b)[j]
        == data.subrange(a, b)[j] by {
        assert(ext.subrange(0, data.len() as int)[a + j] == data[a + j]);
    }
    assert(ext.subrange(a, b) =~= data.subrange(a, b));
}

/// A parsed run of operations ends within the buffer, past its start.
pub proof fn lemma_parse_ops_bounds(data: Seq<u8>, off: int, n: int)
    requires
        0 <= off <= data.len(),
        spec_parse_ops(data, off, n) is Some,
    ensures
        off <= (spec_parse_ops(data, off, n)->0).1 <= data.len(),
    decreases n,
{
    if n <= 0 {
    } else {
        let (o, end) = spec_parse_op(data, off)->0;
        lemma_parse_ops_bounds(data, end, n - 1);
    }
}

/// Op parsing is stable under appending bytes past the parsed extent.
pub proof fn lemma_parse_op_extend(data: Seq<u8>, ext: Seq<u8>, off: int)
    requires
        data.len() <= ext.len(),
        ext.subrange(0, data.len() as int) == data,
        0 <= off,
        spec_parse_op(data, off) is Some,
    ensures
        spec_parse_op(ext, off) == spec_parse_op(data, off),
{
    assert(ext.subrange(0, data.len() as int)[off] == data[off]);
    let klen = spec_bytes_u32(data.subrange(off + 1, off + 5)) as int;
    lemma_prefix_subrange(data, ext, off + 1, off + 5);
    if data[off] == INSERT {
        let vlen = spec_bytes_u32(data.subrange(off + 5 + klen, off + 9 + klen)) as int;
        lemma_prefix_subrange(data, ext, off + 5, off + 5 + klen);
        lemma_prefix_subrange(data, ext, off + 5 + klen, off + 9 + klen);
        lemma_prefix_subrange(data, ext, off + 9 + klen, off + 9 + klen + vlen);
    } else {
        lemma_prefix_subrange(data, ext, off + 5, off + 5 + klen);
    }
}

/// Run-of-ops parsing is stable under appended bytes.
pub proof fn lemma_parse_ops_extend(data: Seq<u8>, ext: Seq<u8>, off: int, n: int)
    requires
        data.len() <= ext.len(),
        ext.subrange(0, data.len() as int) == data,
        0 <= off,
        spec_parse_ops(data, off, n) is Some,
    ensures
        spec_parse_ops(ext, off, n) == spec_parse_ops(data, off, n),
    decreases n,
{
    if n <= 0 {
    } else {
        let (o, end) = spec_parse_op(data, off)->0;
        lemma_parse_op_extend(data, ext, off);
        lemma_parse_ops_extend(data, ext, end, n - 1);
    }
}

/// Batch parsing is stable under appended bytes.
pub proof fn lemma_parse_batch_extend(data: Seq<u8>, ext: Seq<u8>, off: int)
    requires
        data.len() <= ext.len(),
        ext.subrange(0, data.len() as int) == data,
        0 <= off,
        spec_parse_batch(data, off) is Some,
    ensures
        spec_parse_batch(ext, off) == spec_parse_batch(data, off),
{
    let n = spec_bytes_u64(data.subrange(off + 8, off + 16)) as int;
    lemma_prefix_subrange(data, ext, off, off + 8);
    lemma_prefix_subrange(data, ext, off + 8, off + 16);
    lemma_parse_ops_extend(data, ext, off + 16, n);
    lemma_parse_ops_bounds(data, off + 16, n);
    let (ops, end) = spec_parse_ops(data, off + 16, n)->0;
    lemma_prefix_subrange(data, ext, end, end + 8);
    lemma_prefix_subrange(data, ext, end + 8, end + 16);
}

/// The three windows of a three-part concatenation.
pub proof fn lemma_concat_subrange3(a: Seq<u8>, b: Seq<u8>, c: Seq<u8>)
    ensures
        (a + b + c).subrange(0, a.len() as int) == a,
        (a + b + c).subrange(a.len() as int, (a.len() + b.len()) as int) == b,
        (a + b + c).subrange((a.len() + b.len()) as int, (a.len() + b.len() + c.len()) as int) == c,
{
    assert((a + b + c).subrange(0, a.len() as int) =~= a);
    assert((a + b + c).subrange(a.len() as int, (a.len() + b.len()) as int) =~= b);
    assert((a + b + c).subrange((a.len() + b.len()) as int, (a.len() + b.len() + c.len()) as int) =~= c);
}

/// A buffer holding exactly one well-placed frame at its tail parses
/// as that one batch.
#[verifier::spinoff_prover]
pub proof fn lemma_frames_single(ext: Seq<u8>, off: int, b: BatchModel, end: int)
    requires
        0 <= off < end,
        end + 8 == ext.len(),
        spec_parse_batch(ext, off) == Some((b, end)),
        ext.subrange(end, end + 8) == spec_u64_bytes(b.checkpoint),
    ensures
        spec_frames(ext, off) == Some(seq![b]),
{
    assert(spec_frames(ext, end + 8) == Some(Seq::<BatchModel>::empty()));
    assert(spec_frames(ext, off) == Some(seq![b] + Seq::<BatchModel>::empty()));
    assert(seq![b] + Seq::<BatchModel>::empty() =~= seq![b]);
}

/// A batch encoding is at least as long as its four fixed fields.
pub proof fn lemma_batch_bytes_len(b: BatchModel)
    ensures
        spec_batch_bytes(b).len() >= 32,
        spec_u64_bytes(b.checkpoint).len() == 8,
{
    assert(spec_u64_bytes(b.id).len() == 8);
    assert(spec_u64_bytes(b.ops.len() as u64).len() == 8);
    assert(spec_u64_bytes(b.undo).len() == 8);
    assert(spec_u64_bytes(b.checkpoint).len() == 8);
}

/// The appended frame's batch parses at the tail of the extension.
#[verifier::rlimit(100)]
#[verifier::spinoff_prover]
pub proof fn lemma_tail_batch_parses(data: Seq<u8>, b: BatchModel)
    requires
        batch_wf(b),
    ensures
        spec_parse_batch(
            data + spec_batch_bytes(b) + spec_u64_bytes(b.checkpoint),
            data.len() as int,
        ) == Some((b, (data.len() + spec_batch_bytes(b).len()) as int)),
{
    let enc = spec_batch_bytes(b);
    let ck = spec_u64_bytes(b.checkpoint);
    let ext = data + enc + ck;
    lemma_concat_subrange3(data, enc, ck);
    lemma_batch_bytes_len(b);
    lemma_parse_batch_round_trip(ext, data.len() as int, b);
}

/// The one appended frame parses at the very end of the extended run.
#[verifier::rlimit(100)]
#[verifier::spinoff_prover]
pub proof fn lemma_frames_extend_base(data: Seq<u8>, b: BatchModel)
    requires
        batch_wf(b),
    ensures
        spec_frames(
            data + spec_batch_bytes(b) + spec_u64_bytes(b.checkpoint),
            data.len() as int,
        ) == Some(seq![b]),
{
    let enc = spec_batch_bytes(b);
    let ck = spec_u64_bytes(b.checkpoint);
    let ext = data + enc + ck;
    let off = data.len() as int;
    lemma_concat_subrange3(data, enc, ck);
    lemma_batch_bytes_len(b);
    lemma_tail_batch_parses(data, b);
    let end = off + enc.len() as int;
    assert(ext.subrange(end, end + 8) == ck);
    assert(end + 8 == ext.len());
    assert(off < end);
    lemma_frames_single(ext, off, b, end);
}

/// Appending one well-formed frame to a parseable run appends its batch
/// to the parse.
#[verifier::rlimit(100)]
#[verifier::spinoff_prover]
pub proof fn lemma_frames_extend(data: Seq<u8>, off: int, b: BatchModel)
    requires
        0 <= off <= data.len(),
        spec_frames(data, off) is Some,
        batch_wf(b),
    ensures
        spec_frames(
            data + spec_batch_bytes(b) + spec_u64_bytes(b.checkpoint),
            off,
        ) == Some(spec_frames(data, off)->0 + seq![b]),
    decreases data.len() - off,
{
    let enc = spec_batch_bytes(b);
    let ck = spec_u64_bytes(b.checkpoint);
    let ext = data + enc + ck;
    assert(ext.subrange(0, data.len() as int) =~= data);
    if off == data.len() {
        lemma_frames_extend_base(data, b);
        assert(spec_frames(data, off)->0 + seq![b] =~= seq![b]);
    } else {
        let (b0, end0) = spec_parse_batch(data, off)->0;
        lemma_parse_batch_extend(data, ext, off);
        lemma_prefix_subrange(data, ext, end0, end0 + 8);
        lemma_frames_extend(data, end0 + 8, b);
        assert(spec_frames(data, off)->0 == seq![b0] + spec_frames(data, end0 + 8)->0);
        assert(seq![b0] + (spec_frames(data, end0 + 8)->0 + seq![b]) =~= (seq![b0]
            + spec_frames(data, end0 + 8)->0) + seq![b]);
    }
}

/// One of the two rotating log files: its role byte, the checkpoint of
/// its last frame, and its frame bytes (the file image is the role byte
/// followed by these).
pub struct LogFile {
    pub state: u8,
    pub last_ckpt: u64,
    pub data: Vec<u8>,
}

impl LogFile {
    /// A consistent log file: a known role, parseable frames, and the
    /// cached checkpoint equal to the last frame's.
    pub open spec fn wf(self) -> bool {
        &&& self.state == READ_ONLY || self.state == WRITING
        &&& spec_frames(self.data@, 0) is Some
        &&& self.last_ckpt == spec_last_ckpt(spec_frames(self.data@, 0)->0)
    }

    /// The parsed frames.
    pub open spec fn frames(self) -> Seq<BatchModel> {
        spec_frames(self.data@, 0)->0
    }

    /// Open a log file image: the role byte followed by frames.  An
    /// empty image stands for a file never written; it opens read-only.
    pub fn new(image: Vec<u8>) -> (r: Result<(LogFile, u8), Error>)
        ensures
            match r {
                Ok((lf, state)) => {
                    &&& spec_log_ok(image@)
                    &&& lf.wf()
                    &&& state == lf.state
                    &&& lf.state == spec_log_role(image@)
                    &&& lf.frames() == spec_log_frames(image@)
                    &&& image@.len() == 0 ==> lf.data@.len() == 0
                    &&& image@.len() > 0 ==> lf.data@ == image@.subrange(
                        1,
                        image@.len() as int,
                    )
                },
                Err(e) => e == Error::Corruption && !spec_log_ok(image@),
            },
    {
        if image.len() == 0 {
            let lf = LogFile { state: READ_ONLY, last_ckpt: 0, data: Vec::new() };
            proof {
                assert(spec_frames(lf.data@, 0) == Some(Seq::<BatchModel>::empty()));
            }
            return Ok((lf, READ_ONLY));
        }
        let state = image[0];
        if state != READ_ONLY && state != WRITING {
            return Err(Error::Corruption);
        }
        let data = read_bytes(&image, 1, image.len() - 1);
        proof {
            assert(data@ =~= image@.skip(1));
        }
        let (frame_count, last_ckpt) = match Self::scan_frames(&data) {
            Ok(pair) => pair,
            Err(e) => {
                return Err(Error::Corruption);
            },
        };
        Ok((LogFile { state, last_ckpt, data }, state))
    }

    /// Walk the frames of `data`, returning how many there are and the
    /// checkpoint of the last one.
    fn scan_frames(data: &Vec<u8>) -> (r: Result<(usize, u64), Error>)
        ensures
            match r {
                Ok((n, last)) => spec_frames(data@, 0) is Some && last == spec_last_ckpt(
                    spec_frames(data@, 0)->0,
                ),
                Err(e) => e == Error::Corruption && spec_frames(data@, 0) is None,
            },
    {
        let len = data.len();
        let mut off: usize = 0;
        let mut count: usize = 0;
        let mut last: u64 = 0;
        let ghost done: Seq<BatchModel> = Seq::empty();
        let mut done = Ghost(done);
        while off < len
            invariant
                off <= len,
                len == data@.len(),
                count == done@.len(),
                last == spec_last_ckpt(done@),
                count <= off,
                spec_frames(data@, 0) == (match spec_frames(data@, off as int) {
                    None => None::<Seq<BatchModel>>,
                    Some(rest) => Some(done@ + rest),
                }),
            decreases len - off,
        {
            let ghost pre_off = off as int;
            let ghost pre_done = done@;
            match BatchOps::decode(data, off) {
                Ok((b, end)) => {
                    if len - end < 8 {
                        return Err(Error::Corruption);
                    }
                    let trailer_bytes = read_bytes(data, end, 8);
                    let trailer = bytes_to_u64(trailer_bytes.as_slice());
                    if trailer != b.checkpoint {
                        proof {
                            crate::util::lemma_u64_round_trip(b@.checkpoint);
                            if data@.subrange(end as int, end + 8) == spec_u64_bytes(
                                b@.checkpoint,
                            ) {
                                assert(trailer == b@.checkpoint);
                            }
                        }
                        return Err(Error::Corruption);
                    }
                    proof {
                        lemma_u64_bytes_round_trip(data@.subrange(end as int, end + 8));
                        assert(data@.subrange(end as int, end + 8) =~= spec_u64_bytes(
                            b@.checkpoint,
                        ));
                    }
                    last = b.checkpoint;
                    count = count + 1;
                    proof {
                        done@ = done@.push(b@);
                    }
                    off = end + 8;
                    proof {
                        assert(spec_frames(data@, pre_off) == (
                        match spec_frames(data@, off as int) {
                            None => None::<Seq<BatchModel>>,
                            Some(rest) => Some(seq![b@] + rest),
                        }));
                        if spec_frames(data@, off as int) is Some {
                            let rest = spec_frames(data@, off as int)->0;
                            assert(pre_done + (seq![b@] + rest) =~= done@ + rest);
                        }
                        assert(done@.last() == b@);
                    }
                },
                Err(e) => {
                    proof {
                        assert(spec_frames(data@, pre_off) is None);
                    }
                    return Err(Error::Corruption);
                },
            }
        }
        proof {
            assert(spec_frames(data@, off as int) == Some(Seq::<BatchModel>::empty()));
            assert(done@ + Seq::<BatchModel>::empty() =~= done@);
        }
        Ok((count, last))
    }

    /// The file image: role byte followed by the frames.
    pub fn read_all(&self) -> (r: Vec<u8>)
        ensures
            r@ == seq![self.state] + self.data@,
    {
        let mut out = u8_to_bytes(self.state);
        let mut rest = read_bytes(&self.data, 0, self.data.len());
        out.append(&mut rest);
        proof {
            assert(self.data@.subrange(0, self.data@.len() as int) =~= self.data@);
        }
        out
    }

    /// File length in bytes (role byte included).
    pub fn len(&self) -> (r: u64)
        requires
            self.data@.len() + 1 <= u64::MAX,
        ensures
            r == 1 + self.data@.len(),
    {
        1 + self.data.len() as u64
    }

    /// Append one batch frame and remember its checkpoint.
    #[verifier::rlimit(100)]
    #[verifier::spinoff_prover]
    pub fn append_file(&mut self, batch_op: &BatchOps, last_ckpt: u64, fsync: bool)
        requires
            old(self).wf(),
            batch_wf(batch_op@),
            last_ckpt == batch_op.checkpoint,
            old(self).data@.len() + spec_batch_bytes(batch_op@).len() + 8 <= usize::MAX,
        ensures
            final(self).wf(),
            final(self).state == old(self).state,
            final(self).frames() == old(self).frames() + seq![batch_op@],
            final(self).last_ckpt == batch_op.checkpoint,
            final(self).data@.len() == old(self).data@.len() + spec_batch_bytes(
                batch_op@,
            ).len() + 8,
    {
        let mut enc = batch_op.encode();
        let mut trailer = u64_to_bytes(batch_op.checkpoint);
        self.data.append(&mut enc);
        self.data.append(&mut trailer);
        self.last_ckpt = batch_op.checkpoint;
        proof {
            lemma_frames_extend(old(self).data@, 0, batch_op@);
            assert(self.data@ =~= old(self).data@ + spec_batch_bytes(batch_op@)
                + spec_u64_bytes(batch_op@.checkpoint));
            assert(self.frames() == old(self).frames() + seq![batch_op@]);
            assert(self.frames().last() == batch_op@);
        }
    }

    /// The batches recorded here whose checkpoint exceeds `last_ckpt`.
    pub fn recover(&self, last_ckpt: u64) -> (r: Vec<BatchOps>)
        requires
            self.wf(),
        ensures
            r@.map(|i: int, b: BatchOps| b@) == spec_newer(self.frames(), last_ckpt),
            forall|i: int| 0 <= i < r@.len() ==> batch_wf((#[trigger] r@[i])@),
    {
        let len = self.data.len();
        let mut off: usize = 0;
        let mut out: Vec<BatchOps> = Vec::new();
        let ghost done: Seq<BatchModel> = Seq::empty();
        let mut done = Ghost(done);
        while off < len
            invariant
                off <= len,
                len == self.data@.len(),
                self.wf(),
                out@.map(|i: int, b: BatchOps| b@) == spec_newer(done@, last_ckpt),
                forall|i: int| 0 <= i < out@.len() ==> batch_wf((#[trigger] out@[i])@),
                spec_frames(self.data@, 0) == (match spec_frames(self.data@, off as int) {
                    None => None::<Seq<BatchModel>>,
                    Some(rest) => Some(done@ + rest),
                }),
            decreases len - off,
        {
            let ghost pre_off = off as int;
            let ghost pre_done = done@;
            match BatchOps::decode(&self.data, off) {
                Ok((b, end)) => {
                    if len - end < 8 {
                        proof {
                            assert(spec_frames(self.data@, pre_off) is None);
                            assert(false);
                        }
                    }
                    let ghost bv = b@;
                    if b.checkpoint > last_ckpt {
                        out.push(b);
                    }
                    proof {
                        done@ = done@.push(bv);
                        lemma_newer_snoc(done@, last_ckpt);
                        assert(done@.drop_last() =~= pre_done);
                        if bv.checkpoint > last_ckpt {
                            assert(out@.map(|i: int, b: BatchOps| b@) =~= spec_newer(
                                pre_done,
                                last_ckpt,
                            ) + seq![bv]);
                        }
                        assert(spec_frames(self.data@, pre_off) is Some);
                        let (b2, end2) = spec_parse_batch(self.data@, pre_off)->0;
                        assert(b2 == bv);
                    }
                    off = end + 8;
                    proof {
                        if spec_frames(self.data@, off as int) is Some {
                            let rest = spec_frames(self.data@, off as int)->0;
                            assert(pre_done + (seq![bv] + rest) =~= done@ + rest);
                        }
                    }
                },
                Err(e) => {
                    proof {
                        assert(spec_frames(self.data@, pre_off) is None);
                        assert(false);
                    }
                },
            }
        }
        proof {
            assert(spec_frames(self.data@, off as int) == Some(Seq::<BatchModel>::empty()));
            assert(done@ + Seq::<BatchModel>::empty() =~= done@);
            assert(done@ == self.frames());
        }
        out
    }

    /// Cut the file back to its role byte.
    pub fn truncate(&mut self)
        requires
            old(self).wf(),
        ensures
            final(self).wf(),
            final(self).state == old(self).state,
            final(self).data@.len() == 0,
            final(self).frames() == Seq::<BatchModel>::empty(),
            final(self).last_ckpt == 0,
    {
        self.data.truncate(0);
        self.last_ckpt = 0;
        proof {
            assert(self.data@ =~= Seq::<u8>::empty());
            assert(spec_frames(self.data@, 0) == Some(Seq::<BatchModel>::empty()));
        }
    }

    /// Checkpoint of the last frame recorded here.
    pub fn get_last_ckpt(&self) -> (r: u64)
        ensures
            r == self.last_ckpt,
    {
        self.last_ckpt
    }

    /// Mark this file as the live one.
    pub fn set_writing_state(&mut self)
        requires
            old(self).wf(),
        ensures
            final(self).wf(),
            final(self).state == WRITING,
            final(self).data == old(self).data,
            final(self).last_ckpt == old(self).last_ckpt,
    {
        self.state = WRITING;
    }

    /// Mark this file as the aging one.
    pub fn set_readonly_state(&mut self)
        requires
            old(self).wf(),
        ensures
            final(self).wf(),
            final(self).state == READ_ONLY,
            final(self).data == old(self).data,
            final(self).last_ckpt == old(self).last_ckpt,
    {
        self.state = READ_ONLY;
    }
}

/// Encoding inverts decoding for every eight-byte sequence.
pub proof fn lemma_u64_bytes_round_trip(s: Seq<u8>)
    requires
        s.len() == 8,
    ensures
        spec_u64_bytes(spec_bytes_u64(s)) =~= s,
{
    let s0 = s[0];
    let s1 = s[1];
    let s2 = s[2];
    let s3 = s[3];
    let s4 = s[4];
    let s5 = s[5];
    let s6 = s[6];
    let s7 = s[7];
    let v = spec_bytes_u64(s);
    assert(v == (s0 as u64) * 0x100000000000000 + (s1 as u64) * 0x1000000000000 + (
    s2 as u64) * 0x10000000000 + (s3 as u64) * 0x100000000 + (s4 as u64) * 0x1000000 + (
    s5 as u64) * 0x10000 + (s6 as u64) * 256 + (s7 as u64));
    assert((v / 0x100000000000000) == s0 as u64 && ((v / 0x1000000000000) % 256) == s1 as u64
        && ((v / 0x10000000000) % 256) == s2 as u64 && ((v / 0x100000000) % 256) == s3 as u64
        && ((v / 0x1000000) % 256) == s4 as u64 && ((v / 0x10000) % 256) == s5 as u64 && ((v
        / 256) % 256) == s6 as u64 && (v % 256) == s7 as u64) by (bit_vector)
        requires
            v == (s0 as u64) * 0x100000000000000 + (s1 as u64) * 0x1000000000000 + (
            s2 as u64) * 0x10000000000 + (s3 as u64) * 0x100000000 + (s4 as u64) * 0x1000000
                + (s5 as u64) * 0x10000 + (s6 as u64) * 256 + (s7 as u64),
    ;
}


/// Whether a log-file image opens cleanly.
pub open spec fn spec_log_ok(image: Seq<u8>) -> bool {
    image.len() == 0 || ((image[0] == READ_ONLY || image[0] == WRITING) && spec_frames(
        image.skip(1),
        0,
    ) is Some)
}

/// The frames of a log-file image.
pub open spec fn spec_log_frames(image: Seq<u8>) -> Seq<BatchModel> {
    if image.len() == 0 {
        Seq::<BatchModel>::empty()
    } else {
        spec_frames(image.skip(1), 0)->0
    }
}

/// The role byte of a log-file image (a never-written file is
/// read-only).
pub open spec fn spec_log_role(image: Seq<u8>) -> u8 {
    if image.len() == 0 {
        READ_ONLY
    } else {
        image[0]
    }
}

/// The two rotating log files.  Exactly one is writing at any time.
pub struct Wal {
    pub writing_file: LogFile,
    pub read_only_file: LogFile,
    pub max_size_per_file: u64,
}

impl Wal {
    /// Consistent log pair: both files parse and the roles are split.
    pub open spec fn wf(self) -> bool {
        &&& self.writing_file.wf()
        &&& self.read_only_file.wf()
        &&& self.writing_file.state == WRITING
        &&& self.read_only_file.state == READ_ONLY
    }

    /// Open the log pair from the two file images.  If both report
    /// read-only the first is promoted to writing; both reporting
    /// writing is corruption.
    #[verifier::rlimit(100)]
    #[verifier::spinoff_prover]
    pub fn new(f1_image: Vec<u8>, f2_image: Vec<u8>, max_size_per_file: u64) -> (r: Result<
        Wal,
        Error,
    >)
        ensures
            match r {
                Ok(w) => {
                    &&& w.wf()
                    &&& w.max_size_per_file == max_size_per_file
                    &&& if spec_log_role(f2_image@) == WRITING {
                        w.writing_file.frames() == spec_log_frames(f2_image@)
                            && w.read_only_file.frames() == spec_log_frames(f1_image@)
                    } else {
                        w.writing_file.frames() == spec_log_frames(f1_image@)
                            && w.read_only_file.frames() == spec_log_frames(f2_image@)
                    }
                },
                Err(e) => e == Error::Corruption && !(spec_log_ok(f1_image@) && spec_log_ok(
                    f2_image@,
                ) && !(spec_log_role(f1_image@) == WRITING && spec_log_role(f2_image@)
                    == WRITING)),
            },
    {
        let ghost f1v = f1_image@;
        let ghost f2v = f2_image@;
        let (mut lf1, lf1_state) = match LogFile::new(f1_image) {
            Ok(pair) => pair,
            Err(e) => {
                return Err(Error::Corruption);
            },
        };
        let (mut lf2, lf2_state) = match LogFile::new(f2_image) {
            Ok(pair) => pair,
            Err(e) => {
                return Err(Error::Corruption);
            },
        };
        if lf1_state == WRITING && lf2_state == WRITING {
            return Err(Error::Corruption);
        }
        if lf2_state == WRITING {
            lf1.set_readonly_state();
            return Ok(
                Wal { writing_file: lf2, read_only_file: lf1, max_size_per_file },
            );
        }
        lf1.set_writing_state();
        lf2.set_readonly_state();
        Ok(Wal { writing_file: lf1, read_only_file: lf2, max_size_per_file })
    }

    /// Truncate the read-only file back to its role byte once every
    /// checkpoint it holds has been applied.
    pub fn try_truncate_wal(&mut self, last_ckpt: u64)
        requires
            old(self).wf(),
        ensures
            final(self).wf(),
            final(self).writing_file == old(self).writing_file,
            final(self).max_size_per_file == old(self).max_size_per_file,
            if old(self).read_only_file.last_ckpt <= last_ckpt {
                &&& final(self).read_only_file.frames() == Seq::<BatchModel>::empty()
                &&& final(self).read_only_file.data@.len() == 0
                &&& final(self).read_only_file.last_ckpt == 0
            } else {
                final(self).read_only_file == old(self).read_only_file
            },
    {
        if self.read_only_file.get_last_ckpt() <= last_ckpt {
            self.read_only_file.truncate();
        }
    }

    /// Swap the roles of the two files.
    fn switch_log_files(&mut self)
        requires
            old(self).wf(),
        ensures
            final(self).wf(),
            final(self).max_size_per_file == old(self).max_size_per_file,
            final(self).writing_file.frames() == old(self).read_only_file.frames(),
            final(self).writing_file.last_ckpt == old(self).read_only_file.last_ckpt,
            final(self).writing_file.data == old(self).read_only_file.data,
            final(self).read_only_file.frames() == old(self).writing_file.frames(),
            final(self).read_only_file.last_ckpt == old(self).writing_file.last_ckpt,
            final(self).read_only_file.data == old(self).writing_file.data,
    {
        self.writing_file.set_readonly_state();
        self.read_only_file.set_writing_state();
        core::mem::swap(&mut self.writing_file, &mut self.read_only_file);
    }

    /// Append one batch.  The read-only file is truncated when wholly
    /// applied; the roles rotate when the frame would overflow
    /// `max_size_per_file`.
    #[verifier::rlimit(100)]
    #[verifier::spinoff_prover]
    pub fn append_wal(&mut self, batch_op: &BatchOps, last_ckpt: u64, fsync: bool)
        requires
            old(self).wf(),
            batch_wf(batch_op@),
            last_ckpt == batch_op.checkpoint,
            spec_batch_bytes(batch_op@).len() + 8 + old(self).writing_file.data@.len()
                <= usize::MAX,
            spec_batch_bytes(batch_op@).len() + 8 + old(self).read_only_file.data@.len()
                <= usize::MAX,
        ensures
            final(self).wf(),
            final(self).max_size_per_file == old(self).max_size_per_file,
            final(self).writing_file.last_ckpt == batch_op.checkpoint,
            ({
                let trf = if old(self).read_only_file.last_ckpt <= last_ckpt {
                    Seq::<BatchModel>::empty()
                } else {
                    old(self).read_only_file.frames()
                };
                if spec_batch_bytes(batch_op@).len() + 1 + old(self).writing_file.data@.len()
                    > old(self).max_size_per_file {
                    &&& final(self).writing_file.frames() == trf + seq![batch_op@]
                    &&& final(self).read_only_file.frames() == old(
                        self,
                    ).writing_file.frames()
                    &&& final(self).read_only_file.last_ckpt == old(
                        self,
                    ).writing_file.last_ckpt
                } else {
                    &&& final(self).writing_file.frames() == old(self).writing_file.frames()
                        + seq![batch_op@]
                    &&& final(self).read_only_file.frames() == trf
                }
            }),
    {
        self.try_truncate_wal(last_ckpt);
        let enc_len = Self::encoded_len(batch_op);
        let writing_file_len = self.writing_file.len();
        if enc_len + writing_file_len > self.max_size_per_file {
            self.switch_log_files();
        }
        self.writing_file.append_file(batch_op, last_ckpt, fsync);
    }

    /// Length in bytes of one encoded batch (checkpoint trailer not
    /// included).
    fn encoded_len(batch_op: &BatchOps) -> (r: u64)
        requires
            batch_wf(batch_op@),
            spec_batch_bytes(batch_op@).len() <= usize::MAX,
        ensures
            r == spec_batch_bytes(batch_op@).len(),
    {
        let enc = batch_op.encode();
        enc.len() as u64
    }

    /// The batches not yet applied: the read-only file's first (when it
    /// holds anything newer), then the writing file's, each head to
    /// tail.
    pub fn recover(&self, last_ckpt: u64) -> (r: Vec<BatchOps>)
        requires
            self.wf(),
        ensures
            r@.map(|i: int, b: BatchOps| b@) == (
            if self.read_only_file.last_ckpt > last_ckpt {
                spec_newer(self.read_only_file.frames(), last_ckpt)
            } else {
                Seq::<BatchModel>::empty()
            }) + spec_newer(self.writing_file.frames(), last_ckpt),
            forall|i: int| 0 <= i < r@.len() ==> batch_wf((#[trigger] r@[i])@),
    {
        let rf_last_ckpt = self.read_only_file.get_last_ckpt();
        let mut result: Vec<BatchOps> = if rf_last_ckpt > last_ckpt {
            self.read_only_file.recover(last_ckpt)
        } else {
            Vec::new()
        };
        let ghost head = result@;
        let mut wf_result = self.writing_file.recover(last_ckpt);
        let ghost tail_part = wf_result@;
        result.append(&mut wf_result);
        proof {
            assert(result@.map(|i: int, b: BatchOps| b@) =~= head.map(|i: int, b: BatchOps| b@)
                + tail_part.map(|i: int, b: BatchOps| b@));
        }
        result
    }
}

} // verus!
