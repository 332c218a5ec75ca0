use vstd::prelude::*;

verus! {

/// Width of an indexed source block, and of the target window that is looked up.
pub const BLOCK_SIZE: usize = 16;

/// Longest run of source bytes that one `Copy` may name.
pub const MAX_COPY_SIZE: usize = 255;

/// Longest literal run that one `Insert` may carry. The wire format needs the
/// length byte of an `Insert` to keep its high bit clear, so this stays at 127.
pub const MAX_INSERT_SIZE: usize = 127;

/// One instruction of a delta.
#[derive(Debug, PartialEq, Eq)]
pub enum Op {
    /// Copy `size` bytes of the source, starting at `offset`.
    Copy(usize, usize),
    /// Emit these bytes verbatim.
    Insert(Vec<u8>),
}

/// Mathematical model of an [`Op`].
pub ghost enum OpModel {
    Copy(usize, usize),
    Insert(Seq<u8>),
}

impl View for Op {
    type V = OpModel;

    open spec fn view(&self) -> OpModel {
        match self {
            Op::Copy(offset, size) => OpModel::Copy(*offset, *size),
            Op::Insert(bytes) => OpModel::Insert(bytes@),
        }
    }
}

/// The instruction stream that rebuilds a target from a source.
#[derive(Debug)]
pub struct Delta {
    pub source_size: usize,
    pub target_size: usize,
    pub ops: Vec<Op>,
}

/// Mathematical model of a [`Delta`].
pub ghost struct DeltaModel {
    pub source_size: usize,
    pub target_size: usize,
    pub ops: Seq<OpModel>,
}

pub open spec fn ops_view(ops: Seq<Op>) -> Seq<OpModel> {
    ops.map_values(|o: Op| o@)
}

impl View for Delta {
    type V = DeltaModel;

    open spec fn view(&self) -> DeltaModel {
        DeltaModel {
            source_size: self.source_size,
            target_size: self.target_size,
            ops: ops_view(self.ops@),
        }
    }
}

/// Number of target bytes that an op produces.
pub open spec fn op_len(op: OpModel) -> nat {
    match op {
        OpModel::Copy(_, size) => size as nat,
        OpModel::Insert(bytes) => bytes.len(),
    }
}

/// Total number of target bytes that a sequence of ops produces.
pub open spec fn ops_len(ops: Seq<OpModel>) -> nat
    decreases ops.len(),
{
    if ops.len() == 0 {
        0
    } else {
        ops_len(ops.drop_last()) + op_len(ops.last())
    }
}

/// The bytes that one op produces against `source`.
pub open spec fn op_bytes(source: Seq<u8>, op: OpModel) -> Seq<u8> {
    match op {
        OpModel::Copy(offset, size) => source.subrange(offset as int, offset + size),
        OpModel::Insert(bytes) => bytes,
    }
}

/// Replays `ops` in order against `source`, concatenating what each produces.
pub open spec fn apply_ops(source: Seq<u8>, ops: Seq<OpModel>) -> Seq<u8>
    decreases ops.len(),
{
    if ops.len() == 0 {
        Seq::empty()
    } else {
        apply_ops(source, ops.drop_last()) + op_bytes(source, ops.last())
    }
}

/// A copy stays inside the source and within the size cap; an insert is
/// non-empty and within the insert cap.
pub open spec fn op_in_bounds(source_len: nat, op: OpModel) -> bool {
    match op {
        OpModel::Copy(offset, size) => 0 < size <= MAX_COPY_SIZE && offset + size <= source_len,
        OpModel::Insert(bytes) => 0 < bytes.len() <= MAX_INSERT_SIZE,
    }
}

pub open spec fn ops_in_bounds(source_len: nat, ops: Seq<OpModel>) -> bool {
    forall|i: int| 0 <= i < ops.len() ==> #[trigger] op_in_bounds(source_len, ops[i])
}

/// An insert that is followed by another insert was cut at the insert cap:
/// only an insert that precedes a copy, or ends the stream, may be shorter.
pub open spec fn inserts_full_between(ops: Seq<OpModel>) -> bool {
    forall|i: int|
        0 <= i < ops.len() - 1 && (#[trigger] ops[i]) is Insert && ops[i + 1] is Insert
            ==> ops[i]->Insert_0.len() == MAX_INSERT_SIZE
}

/// Each op, replayed alone, is a run of bytes as long as the op says.
pub proof fn lemma_apply_len(source: Seq<u8>, ops: Seq<OpModel>)
    requires
        ops_in_bounds(source.len(), ops),
    ensures
        apply_ops(source, ops).len() == ops_len(ops),
    decreases ops.len(),
{
    if ops.len() > 0 {
        assert(op_in_bounds(source.len(), ops[ops.len() - 1]));
        assert(ops_in_bounds(source.len(), ops.drop_last())) by {
            assert forall|i: int| 0 <= i < ops.drop_last().len() implies op_in_bounds(
                source.len(),
                #[trigger] ops.drop_last()[i],
            ) by {
                assert(ops.drop_last()[i] == ops[i]);
            }
        }
        lemma_apply_len(source, ops.drop_last());
    }
}

/// Replaying `ops` followed by one more op appends what that op produces.
pub proof fn lemma_apply_push(source: Seq<u8>, ops: Seq<OpModel>, op: OpModel)
    ensures
        apply_ops(source, ops.push(op)) == apply_ops(source, ops) + op_bytes(source, op),
        ops_len(ops.push(op)) == ops_len(ops) + op_len(op),
{
    assert(ops.push(op).drop_last() =~= ops);
}

impl Delta {
    pub fn new(source_size: usize, target_size: usize, ops: Vec<Op>) -> (r: Self)
        ensures
            r.source_size == source_size,
            r.target_size == target_size,
            r.ops@ == ops@,
    {
        Delta { source_size, target_size, ops }
    }
}

} // verus!
