use vstd::prelude::*;
use std::collections::HashMap;
use crate::delta::{
    Delta, Op, OpModel, BLOCK_SIZE, MAX_COPY_SIZE, MAX_INSERT_SIZE, apply_ops, op_bytes,
    ops_in_bounds, op_in_bounds, ops_len, inserts_full_between, ops_view, lemma_apply_len,
    lemma_apply_push,
};

verus! {

broadcast use vstd::std_specs::hash::group_hash_axioms;

// ---------------------------------------------------------------------------
// Block index
// ---------------------------------------------------------------------------

/// Key under which a block is filed: its bytes packed big-endian into a `u128`.
pub open spec fn block_key(bytes: Seq<u8>) -> u128
    decreases bytes.len(),
{
    if bytes.len() == 0 {
        0
    } else {
        (block_key(bytes.drop_last()) << 8u128) | (bytes.last() as u128)
    }
}

/// The `BLOCK_SIZE` bytes of `s` that start at `p`.
pub open spec fn block_at(s: Seq<u8>, p: int) -> Seq<u8> {
    s.subrange(p, p + BLOCK_SIZE)
}

/// `p` starts a full, aligned block of a buffer of `len` bytes.
pub open spec fn is_block_offset(len: int, p: int) -> bool {
    0 <= p && p % (BLOCK_SIZE as int) == 0 && p + BLOCK_SIZE <= len
}

/// The offsets filed under key `k` are block offsets of `source` whose block
/// has key `k`, in strictly increasing order.
pub open spec fn offsets_sound(source: Seq<u8>, k: u128, l: Seq<usize>) -> bool {
    &&& forall|i: int, j: int| 0 <= i < j < l.len() ==> l[i] < l[j]
    &&& forall|i: int|
        0 <= i < l.len() ==> is_block_offset(source.len() as int, #[trigger] l[i] as int)
            && block_key(block_at(source, l[i] as int)) == k
}

/// Everything filed in the index is a block of `source` under its own key.
pub open spec fn index_sound(source: Seq<u8>, m: Map<u128, Vec<usize>>) -> bool {
    forall|k: u128| #[trigger] m.contains_key(k) ==> offsets_sound(source, k, m[k]@)
}

/// Every block offset of `source` below `bound` is filed under its block's key.
pub open spec fn index_complete(source: Seq<u8>, m: Map<u128, Vec<usize>>, bound: int) -> bool {
    forall|p: int|
        is_block_offset(source.len() as int, p) && p < bound ==> {
            &&& m.contains_key(block_key(#[trigger] block_at(source, p)))
            &&& m[block_key(block_at(source, p))]@.contains(p as usize)
        }
}

/// Packs the block of `bytes` at `start` into its key.
fn block_key_at(bytes: &[u8], start: usize) -> (r: u128)
    requires
        start + BLOCK_SIZE <= bytes.len(),
    ensures
        r == block_key(block_at(bytes@, start as int)),
{
    let mut key: u128 = 0;
    let mut j: usize = 0;
    while j < BLOCK_SIZE
        invariant
            j <= BLOCK_SIZE,
            start + BLOCK_SIZE <= bytes.len(),
            key == block_key(bytes@.subrange(start as int, start + j)),
        decreases BLOCK_SIZE - j,
    {
        assert(bytes@.subrange(start as int, start + j + 1).drop_last()
            =~= bytes@.subrange(start as int, start + j));
        key = (key << 8u128) | (bytes[start + j] as u128);
        j = j + 1;
    }
    key
}


// ---------------------------------------------------------------------------
// Longest match
// ---------------------------------------------------------------------------

/// The least of three integers.
pub open spec fn min3(a: int, b: int, c: int) -> int {
    if a <= b && a <= c {
        a
    } else if b <= c {
        b
    } else {
        c
    }
}

/// Longest a match between `source` at `p` and `target` at `t` may grow.
pub open spec fn upper(source: Seq<u8>, target: Seq<u8>, p: int, t: int) -> int {
    min3(source.len() - p, target.len() - t, MAX_COPY_SIZE as int)
}

/// Number of equal bytes, at most `cap`, that `source` from `p` and `target`
/// from `t` share before they first differ or one of them ends.
pub open spec fn match_len(source: Seq<u8>, target: Seq<u8>, p: int, t: int, cap: int) -> nat
    decreases cap,
{
    if cap > 0 && 0 <= p < source.len() && 0 <= t < target.len() && source[p] == target[t] {
        1 + match_len(source, target, p + 1, t + 1, cap - 1)
    } else {
        0
    }
}

/// Length of the match at source offset `p` for the target cursor `t`.
pub open spec fn match_at(source: Seq<u8>, target: Seq<u8>, p: int, t: int) -> nat {
    match_len(source, target, p, t, upper(source, target, p, t))
}

/// `p` is an indexed block of `source` equal to the target window at `t`.
pub open spec fn is_candidate(source: Seq<u8>, target: Seq<u8>, t: int, p: int) -> bool {
    &&& is_block_offset(source.len() as int, p)
    &&& 0 <= t && t + BLOCK_SIZE <= target.len()
    &&& block_at(source, p) == block_at(target, t)
}

/// `(offset, size)` is the longest match among the candidates for cursor `t`,
/// the one of lowest offset among equally long ones.
pub open spec fn is_longest(source: Seq<u8>, target: Seq<u8>, t: int, offset: usize, size: usize) -> bool {
    &&& is_candidate(source, target, t, offset as int)
    &&& size == match_at(source, target, offset as int, t)
    &&& forall|p: int| #[trigger]
        is_candidate(source, target, t, p) ==> {
            &&& match_at(source, target, p, t) <= size
            &&& p < offset ==> match_at(source, target, p, t) < size
        }
}

/// The match that the search yields at cursor `t`: the longest one, or
/// `(0, 0)` when no block of `source` equals the window at `t`.
pub open spec fn longest_match_at(source: Seq<u8>, target: Seq<u8>, t: int) -> (usize, usize) {
    if exists|m: (usize, usize)| is_longest(source, target, t, m.0, m.1) {
        choose|m: (usize, usize)| is_longest(source, target, t, m.0, m.1)
    } else {
        (0, 0)
    }
}

/// A match is bounded by its cap and by both buffers, covers equal bytes only,
/// and stops short of its cap only at an end or at a difference.
pub proof fn lemma_match_len(source: Seq<u8>, target: Seq<u8>, p: int, t: int, cap: int)
    requires
        0 <= p,
        0 <= t,
    ensures
        match_len(source, target, p, t, cap) <= if cap < 0 { 0 } else { cap },
        match_len(source, target, p, t, cap) > 0 ==> p + match_len(source, target, p, t, cap)
            <= source.len() && t + match_len(source, target, p, t, cap) <= target.len(),
        forall|i: int|
            0 <= i < match_len(source, target, p, t, cap) ==> #[trigger] source[p + i] == target[t
                + i],
        ({
            let n = match_len(source, target, p, t, cap) as int;
            n < cap ==> (p + n >= source.len() || t + n >= target.len() || source[p + n]
                != target[t + n])
        }),
    decreases cap,
{
    if cap > 0 && 0 <= p < source.len() && 0 <= t < target.len() && source[p] == target[t] {
        lemma_match_len(source, target, p + 1, t + 1, cap - 1);
        let n = match_len(source, target, p, t, cap);
        assert forall|i: int| 0 <= i < n implies #[trigger] source[p + i] == target[t + i] by {
            if i > 0 {
                assert(source[(p + 1) + (i - 1)] == target[(t + 1) + (i - 1)]);
            }
        }
    }
}

/// Matched bytes are equal, and a match stops only at a difference, at an
/// end, or at its cap.
pub proof fn lemma_match_at(source: Seq<u8>, target: Seq<u8>, p: int, t: int)
    requires
        0 <= p <= source.len(),
        0 <= t <= target.len(),
    ensures
        match_at(source, target, p, t) <= upper(source, target, p, t),
        source.subrange(p, p + match_at(source, target, p, t)) == target.subrange(
            t,
            t + match_at(source, target, p, t),
        ),
        ({
            let n = match_at(source, target, p, t) as int;
            n < upper(source, target, p, t) ==> source[p + n] != target[t + n]
        }),
{
    lemma_match_len(source, target, p, t, upper(source, target, p, t));
    let n = match_at(source, target, p, t) as int;
    assert(source.subrange(p, p + n) =~= target.subrange(t, t + n)) by {
        assert forall|i: int| 0 <= i < n implies #[trigger] source.subrange(p, p + n)[i] == target.subrange(
            t,
            t + n,
        )[i] by {
            assert(source[p + i] == target[t + i]);
        }
    }
}

/// A block offset is a candidate exactly when its match covers a whole block.
pub proof fn lemma_candidate_iff_block_match(source: Seq<u8>, target: Seq<u8>, t: int, p: int)
    requires
        is_block_offset(source.len() as int, p),
        0 <= t && t + BLOCK_SIZE <= target.len(),
    ensures
        is_candidate(source, target, t, p) <==> match_at(source, target, p, t) >= BLOCK_SIZE,
{
    lemma_match_at(source, target, p, t);
    let n = match_at(source, target, p, t) as int;
    assert(upper(source, target, p, t) >= BLOCK_SIZE);
    if is_candidate(source, target, t, p) {
        if n < BLOCK_SIZE {
            assert(block_at(source, p)[n] == source[p + n]);
            assert(block_at(target, t)[n] == target[t + n]);
        }
    }
    if n >= BLOCK_SIZE {
        assert(block_at(source, p) =~= block_at(target, t)) by {
            assert forall|i: int| 0 <= i < BLOCK_SIZE implies block_at(source, p)[i]
                == block_at(target, t)[i] by {
                assert(source.subrange(p, p + n)[i] == target.subrange(t, t + n)[i]);
            }
        }
    }
}

/// At most one match is the longest.
pub proof fn lemma_longest_unique(
    source: Seq<u8>,
    target: Seq<u8>,
    t: int,
    offset: usize,
    size: usize,
)
    requires
        is_longest(source, target, t, offset, size),
    ensures
        longest_match_at(source, target, t) == (offset, size),
{
    let m = (offset, size);
    assert(is_longest(source, target, t, m.0, m.1));
    let c = longest_match_at(source, target, t);
    assert(is_longest(source, target, t, c.0, c.1));
    assert(is_candidate(source, target, t, c.0 as int));
    assert(is_candidate(source, target, t, offset as int));
}


// ---------------------------------------------------------------------------
// The scan
// ---------------------------------------------------------------------------

/// What the scan carries from one step to the next: the target cursor, the
/// literal bytes not yet emitted, and the ops emitted so far.
pub ghost struct ScanState {
    pub cursor: int,
    pub pending: Seq<u8>,
    pub ops: Seq<OpModel>,
}

pub open spec fn initial_scan() -> ScanState {
    ScanState { cursor: 0, pending: Seq::empty(), ops: Seq::empty() }
}

/// Grows a match at `offset` leftwards while the source byte before it equals
/// the last pending literal, taking that literal back from `pending`.
/// Yields the remaining pending bytes and the new offset and size.
pub open spec fn extend_left(source: Seq<u8>, pending: Seq<u8>, offset: int, size: int) -> (
    Seq<u8>,
    int,
    int,
)
    decreases pending.len(),
{
    if offset > 0 && size < MAX_COPY_SIZE && pending.len() > 0 && source[offset - 1]
        == pending.last() {
        extend_left(source, pending.drop_last(), offset - 1, size + 1)
    } else {
        (pending, offset, size)
    }
}

/// `ops` with the pending literal bytes appended as one insert, if there are any.
pub open spec fn flush_pending(ops: Seq<OpModel>, pending: Seq<u8>) -> Seq<OpModel> {
    if pending.len() == 0 {
        ops
    } else {
        ops.push(OpModel::Insert(pending))
    }
}

/// One step of the scan at `st.cursor`.
pub open spec fn scan_step(source: Seq<u8>, target: Seq<u8>, st: ScanState) -> ScanState {
    let (offset, size) = longest_match_at(source, target, st.cursor);
    if size == 0 {
        let pending = st.pending.push(target[st.cursor]);
        if pending.len() >= MAX_INSERT_SIZE {
            ScanState {
                cursor: st.cursor + 1,
                pending: Seq::empty(),
                ops: st.ops.push(OpModel::Insert(pending)),
            }
        } else {
            ScanState { cursor: st.cursor + 1, pending, ops: st.ops }
        }
    } else {
        let (pending, offset2, size2) = extend_left(source, st.pending, offset as int, size as int);
        ScanState {
            cursor: st.cursor + size,
            pending: Seq::empty(),
            ops: flush_pending(st.ops, pending).push(OpModel::Copy(offset2 as usize, size2 as usize)),
        }
    }
}

/// Steps the scan until the cursor reaches the end of `target`.
pub open spec fn scan_run(source: Seq<u8>, target: Seq<u8>, st: ScanState) -> ScanState
    decreases target.len() - st.cursor,
{
    let next = scan_step(source, target, st);
    if st.cursor < next.cursor <= target.len() {
        scan_run(source, target, next)
    } else {
        st
    }
}

/// The ops that compressing `target` against `source` produces.
pub open spec fn delta_ops(source: Seq<u8>, target: Seq<u8>) -> Seq<OpModel> {
    let st = scan_run(source, target, initial_scan());
    flush_pending(st.ops, st.pending)
}

/// If the last op is an insert, it was cut at the insert cap.
pub open spec fn last_insert_full(ops: Seq<OpModel>) -> bool {
    ops.len() > 0 && ops.last() is Insert ==> ops.last()->Insert_0.len() == MAX_INSERT_SIZE
}

/// What holds of every state that the scan reaches.
pub open spec fn scan_inv(source: Seq<u8>, target: Seq<u8>, st: ScanState) -> bool {
    &&& 0 <= st.cursor <= target.len()
    &&& apply_ops(source, st.ops) + st.pending == target.take(st.cursor)
    &&& st.pending.len() < MAX_INSERT_SIZE
    &&& ops_in_bounds(source.len(), st.ops)
    &&& inserts_full_between(st.ops)
    &&& last_insert_full(st.ops)
}

/// Appending an op that is within bounds, and is no insert right after a short
/// insert, keeps the op sequence within bounds and its inserts full.
pub proof fn lemma_push_op(source_len: nat, ops: Seq<OpModel>, op: OpModel)
    requires
        ops_in_bounds(source_len, ops),
        op_in_bounds(source_len, op),
        inserts_full_between(ops),
        op is Insert ==> last_insert_full(ops),
    ensures
        ops_in_bounds(source_len, ops.push(op)),
        inserts_full_between(ops.push(op)),
{
    let n = ops.push(op);
    assert forall|i: int| 0 <= i < n.len() implies #[trigger] op_in_bounds(source_len, n[i]) by {
        if i < ops.len() {
            assert(n[i] == ops[i]);
        }
    }
    assert forall|i: int|
        0 <= i < n.len() - 1 && (#[trigger] n[i]) is Insert && n[i + 1] is Insert
            implies n[i]->Insert_0.len() == MAX_INSERT_SIZE by {
        assert(n[i] == ops[i]);
        if i < ops.len() - 1 {
            assert(n[i + 1] == ops[i + 1]);
        }
    }
}

/// Left extension moves taken-back bytes from the end of `pending` to the
/// front of the match, keeping the match's end and its cap.
pub proof fn lemma_extend_left(source: Seq<u8>, pending: Seq<u8>, offset: int, size: int)
    requires
        0 <= offset <= source.len(),
    ensures
        ({
            let (pending2, offset2, size2) = extend_left(source, pending, offset, size);
            &&& pending2 + source.subrange(offset2, offset) == pending
            &&& offset2 + size2 == offset + size
            &&& 0 <= offset2 <= offset
            &&& size <= size2
            &&& size <= MAX_COPY_SIZE ==> size2 <= MAX_COPY_SIZE
        }),
    decreases pending.len(),
{
    if offset > 0 && size < MAX_COPY_SIZE && pending.len() > 0 && source[offset - 1]
        == pending.last() {
        lemma_extend_left(source, pending.drop_last(), offset - 1, size + 1);
        let (pending2, offset2, size2) = extend_left(source, pending, offset, size);
        assert(source.subrange(offset2, offset) =~= source.subrange(offset2, offset - 1).push(
            source[offset - 1],
        ));
        assert(pending2 + source.subrange(offset2, offset) =~= (pending2 + source.subrange(
            offset2,
            offset - 1,
        )).push(source[offset - 1]));
        assert(pending.drop_last().push(pending.last()) =~= pending);
    } else {
        assert(pending + source.subrange(offset, offset) =~= pending);
    }
}

/// A non-empty search result is the longest match.
pub proof fn lemma_longest_found(source: Seq<u8>, target: Seq<u8>, t: int)
    ensures
        ({
            let (offset, size) = longest_match_at(source, target, t);
            size != 0 ==> is_longest(source, target, t, offset, size)
        }),
{
}

/// A step keeps the invariant and moves the cursor forward.
pub proof fn lemma_scan_step(source: Seq<u8>, target: Seq<u8>, st: ScanState)
    requires
        scan_inv(source, target, st),
        st.cursor < target.len(),
    ensures
        scan_inv(source, target, scan_step(source, target, st)),
        scan_step(source, target, st).cursor > st.cursor,
{
    let t = st.cursor;
    let (offset, size) = longest_match_at(source, target, t);
    lemma_longest_found(source, target, t);
    let next = scan_step(source, target, st);
    if size == 0 {
        let pending = st.pending.push(target[t]);
        assert(target.take(t + 1) =~= target.take(t).push(target[t]));
        assert(apply_ops(source, st.ops) + pending =~= (apply_ops(source, st.ops)
            + st.pending).push(target[t]));
        if pending.len() >= MAX_INSERT_SIZE {
            lemma_apply_push(source, st.ops, OpModel::Insert(pending));
            lemma_push_op(source.len(), st.ops, OpModel::Insert(pending));
            assert(apply_ops(source, next.ops) + next.pending =~= apply_ops(source, next.ops));
        }
    } else {
        lemma_match_at(source, target, offset as int, t);
        let (pending2, offset2, size2) = extend_left(source, st.pending, offset as int, size as int);
        lemma_extend_left(source, st.pending, offset as int, size as int);
        let copied = source.subrange(offset2, offset2 + size2);
        assert(copied =~= source.subrange(offset2, offset as int) + source.subrange(
            offset as int,
            offset + size,
        ));
        let copy = OpModel::Copy(offset2 as usize, size2 as usize);
        assert(op_bytes(source, copy) == copied);
        let flushed = flush_pending(st.ops, pending2);
        if pending2.len() > 0 {
            lemma_apply_push(source, st.ops, OpModel::Insert(pending2));
            lemma_push_op(source.len(), st.ops, OpModel::Insert(pending2));
        }
        assert(apply_ops(source, flushed) == apply_ops(source, st.ops) + pending2);
        lemma_apply_push(source, flushed, copy);
        lemma_push_op(source.len(), flushed, copy);
        assert(target.take(t + size) =~= target.take(t) + target.subrange(t, t + size));
        assert(apply_ops(source, next.ops) + next.pending =~= apply_ops(source, st.ops) + (
        pending2 + source.subrange(offset2, offset as int)) + source.subrange(
            offset as int,
            offset + size,
        ));
    }
}

/// The scan ends with the cursor at the end of `target`, the invariant kept.
pub proof fn lemma_scan_run(source: Seq<u8>, target: Seq<u8>, st: ScanState)
    requires
        scan_inv(source, target, st),
    ensures
        scan_inv(source, target, scan_run(source, target, st)),
        scan_run(source, target, st).cursor == target.len(),
    decreases target.len() - st.cursor,
{
    if st.cursor < target.len() {
        lemma_scan_step(source, target, st);
        lemma_scan_run(source, target, scan_step(source, target, st));
    }
}


/// The scan once the pending literal bytes have been flushed.
pub open spec fn finish_scan(st: ScanState) -> ScanState {
    ScanState { cursor: st.cursor, pending: Seq::empty(), ops: flush_pending(st.ops, st.pending) }
}

/// No match is attempted where less than a block of the target is left.
pub proof fn lemma_no_match(source: Seq<u8>, target: Seq<u8>, t: int)
    requires
        t + BLOCK_SIZE > target.len(),
    ensures
        longest_match_at(source, target, t) == (0usize, 0usize),
{
    assert forall|m: (usize, usize)| !is_longest(source, target, t, m.0, m.1) by {}
}

/// The scan from its start keeps its invariant and ends at the end of the target.
proof fn lemma_scan_from_start(source: Seq<u8>, target: Seq<u8>)
    ensures
        scan_inv(source, target, scan_run(source, target, initial_scan())),
        scan_run(source, target, initial_scan()).cursor == target.len(),
{
    let st0 = initial_scan();
    assert(apply_ops(source, st0.ops) + st0.pending =~= target.take(0));
    lemma_scan_run(source, target, st0);
}

/// Replaying the ops of a compression against its source, in order, rebuilds
/// the target byte for byte.
pub proof fn lemma_reconstruction(source: Seq<u8>, target: Seq<u8>)
    ensures
        apply_ops(source, delta_ops(source, target)) == target,
{
    lemma_scan_from_start(source, target);
    let st = scan_run(source, target, initial_scan());
    assert(target.take(st.cursor) =~= target);
    if st.pending.len() > 0 {
        lemma_apply_push(source, st.ops, OpModel::Insert(st.pending));
    } else {
        assert(apply_ops(source, st.ops) + st.pending =~= apply_ops(source, st.ops));
    }
}

/// The lengths of the ops of a compression add up to the target's length.
pub proof fn lemma_length_conservation(source: Seq<u8>, target: Seq<u8>)
    ensures
        ops_len(delta_ops(source, target)) == target.len(),
{
    lemma_reconstruction(source, target);
    lemma_ops_in_bounds(source, target);
    lemma_apply_len(source, delta_ops(source, target));
}

/// Every op of a compression stays within its caps (copies inside the source),
/// and an insert followed by another insert holds exactly `MAX_INSERT_SIZE`
/// bytes: only the insert before a copy, or the last one, may be shorter.
pub proof fn lemma_ops_in_bounds(source: Seq<u8>, target: Seq<u8>)
    ensures
        ops_in_bounds(source.len(), delta_ops(source, target)),
        inserts_full_between(delta_ops(source, target)),
{
    lemma_scan_from_start(source, target);
    let st = scan_run(source, target, initial_scan());
    if st.pending.len() > 0 {
        lemma_push_op(source.len(), st.ops, OpModel::Insert(st.pending));
    }
}

/// Compressing a buffer against itself: a buffer of at least a block and at
/// most `MAX_COPY_SIZE` bytes becomes one copy of all of it; a shorter,
/// non-empty one becomes one insert of all of it; an empty one, no op.
pub proof fn lemma_identity(s: Seq<u8>)
    requires
        s.len() <= MAX_COPY_SIZE,
    ensures
        s.len() >= BLOCK_SIZE ==> delta_ops(s, s) == seq![OpModel::Copy(0, s.len() as usize)],
        0 < s.len() < BLOCK_SIZE ==> delta_ops(s, s) == seq![OpModel::Insert(s)],
        s.len() == 0 ==> delta_ops(s, s) == Seq::<OpModel>::empty(),
{
    let st0 = initial_scan();
    if s.len() >= BLOCK_SIZE {
        let n = s.len() as usize;
        lemma_match_at(s, s, 0, 0);
        assert(match_at(s, s, 0, 0) == n);
        assert(block_at(s, 0) == block_at(s, 0));
        assert(is_candidate(s, s, 0, 0));
        assert forall|p: int| #[trigger] is_candidate(s, s, 0, p) implies {
            &&& match_at(s, s, p, 0) <= n
            &&& p < 0 ==> match_at(s, s, p, 0) < n
        } by {
            lemma_match_at(s, s, p, 0);
        }
        assert(is_longest(s, s, 0, 0, n));
        lemma_longest_unique(s, s, 0, 0, n);
        let next = scan_step(s, s, st0);
        assert(next.ops =~= seq![OpModel::Copy(0, n)]);
        assert(scan_run(s, s, next) == next);
    } else if s.len() > 0 {
        lemma_insert_run(s, 0);
        assert(s.take(s.len() as int) =~= s);
        assert(s.take(0) =~= Seq::<u8>::empty());
        assert(st0 == (ScanState { cursor: 0, pending: s.take(0), ops: Seq::empty() }));
    }
}

/// On a buffer shorter than a block, compressing it against itself takes every
/// byte as a literal.
proof fn lemma_insert_run(s: Seq<u8>, c: int)
    requires
        s.len() < BLOCK_SIZE,
        0 <= c <= s.len(),
    ensures
        scan_run(s, s, ScanState { cursor: c, pending: s.take(c), ops: Seq::empty() })
            == (ScanState { cursor: s.len() as int, pending: s, ops: Seq::<OpModel>::empty() }),
    decreases s.len() - c,
{
    let st = ScanState { cursor: c, pending: s.take(c), ops: Seq::<OpModel>::empty() };
    if c < s.len() {
        lemma_no_match(s, s, c);
        assert(s.take(c).push(s[c]) =~= s.take(c + 1));
        lemma_insert_run(s, c + 1);
    } else {
        assert(s.take(c) =~= s);
    }
}

/// Single-use compressor of one target against one source.
pub struct DeltaCompressor<'s, 't> {
    source: &'s [u8],
    target: &'t [u8],
    offset: usize,
    offset_map: HashMap<u128, Vec<usize>>,
    insert: Vec<u8>,
    ops: Vec<Op>,
}

impl<'s, 't> DeltaCompressor<'s, 't> {
    pub closed spec fn source_bytes(&self) -> Seq<u8> {
        self.source@
    }

    pub closed spec fn target_bytes(&self) -> Seq<u8> {
        self.target@
    }

    /// Cursor, pending literal bytes and ops emitted so far.
    pub closed spec fn scan_state(&self) -> ScanState {
        ScanState { cursor: self.offset as int, pending: self.insert@, ops: ops_view(self.ops@) }
    }

    /// The block index files exactly the blocks of the source.
    pub closed spec fn index_ok(&self) -> bool {
        &&& index_sound(self.source@, self.offset_map@)
        &&& index_complete(self.source@, self.offset_map@, self.source@.len() as int)
    }

    /// The index is complete and the scan state is one that the scan reaches.
    pub closed spec fn wf(&self) -> bool {
        &&& self.index_ok()
        &&& scan_inv(self.source@, self.target@, self.scan_state())
    }

    /// A compressor at the start of `target`, with every block of `source` indexed.
    pub fn new(source: &'s [u8], target: &'t [u8]) -> (r: Self)
        ensures
            r.wf(),
            r.source_bytes() == source@,
            r.target_bytes() == target@,
            r.scan_state() == initial_scan(),
    {
        let mut offset_map: HashMap<u128, Vec<usize>> = HashMap::new();
        DeltaCompressor::refresh_offsets(&mut offset_map, source);
        let r = DeltaCompressor {
            source,
            target,
            offset: 0,
            offset_map,
            insert: Vec::new(),
            ops: Vec::new(),
        };
        assert(ops_view(r.ops@) =~= Seq::<OpModel>::empty());
        assert(apply_ops(source@, Seq::<OpModel>::empty()) + Seq::<u8>::empty() =~= target@.take(0));
        r
    }

    /// Hands out the ops emitted so far as a delta, leaving none behind.
    pub fn gendelta(&mut self) -> (r: Delta)
        ensures
            r@.source_size == old(self).source_bytes().len(),
            r@.target_size == old(self).target_bytes().len(),
            r@.ops == old(self).scan_state().ops,
            final(self).source_bytes() == old(self).source_bytes(),
            final(self).target_bytes() == old(self).target_bytes(),
            final(self).scan_state() == (ScanState { ops: Seq::empty(), ..old(self).scan_state() }),
    {
        let mut dops: Vec<Op> = Vec::new();
        std::mem::swap(&mut self.ops, &mut dops);
        assert(ops_view(self.ops@) =~= Seq::<OpModel>::empty());
        Delta::new(self.source.len(), self.target.len(), dops)
    }

    /// Scans the whole target, then flushes the pending literal bytes.
    pub fn compress(&mut self)
        requires
            old(self).wf(),
        ensures
            final(self).index_ok(),
            final(self).source_bytes() == old(self).source_bytes(),
            final(self).target_bytes() == old(self).target_bytes(),
            final(self).scan_state() == finish_scan(
                scan_run(old(self).source_bytes(), old(self).target_bytes(), old(self).scan_state()),
            ),
    {
        while self.offset < self.target.len()
            invariant
                self.wf(),
                self.source@ == old(self).source@,
                self.target@ == old(self).target@,
                scan_run(self.source@, self.target@, self.scan_state()) == scan_run(
                    old(self).source@,
                    old(self).target@,
                    old(self).scan_state(),
                ),
            decreases self.target@.len() - self.offset,
        {
            let ghost st = self.scan_state();
            proof {
                lemma_scan_step(self.source@, self.target@, st);
            }
            self.compress_chunk();
        }
        let ghost st = self.scan_state();
        self.flush_insert(0);
        proof {
            if st.pending.len() == 0 {
                assert(self.scan_state().pending =~= Seq::<u8>::empty());
            }
        }
    }

    /// The offsets filed under the key of the target window at `start`.
    fn offsets(&self, start: usize) -> (r: Option<&Vec<usize>>)
        requires
            start + BLOCK_SIZE <= self.target@.len(),
        ensures
            ({
                let k = block_key(block_at(self.target@, start as int));
                match r {
                    Some(l) => self.offset_map@.contains_key(k) && *l == self.offset_map@[k],
                    None => !self.offset_map@.contains_key(k),
                }
            }),
    {
        let key = block_key_at(self.target, start);
        self.offset_map.get(&key)
    }

    /// One step of the scan.
    fn compress_chunk(&mut self)
        requires
            old(self).wf(),
            old(self).offset < old(self).target@.len(),
        ensures
            final(self).wf(),
            final(self).source == old(self).source,
            final(self).target == old(self).target,
            final(self).offset_map == old(self).offset_map,
            final(self).scan_state() == scan_step(
                old(self).source@,
                old(self).target@,
                old(self).scan_state(),
            ),
    {
        let ghost st = self.scan_state();
        proof {
            lemma_scan_step(self.source@, self.target@, st);
            lemma_longest_found(self.source@, self.target@, st.cursor);
        }
        let (mut m_offset, mut m_size) = self.longest_match();
        if m_size == 0 {
            self.push_insert();
        } else {
            proof {
                lemma_match_at(self.source@, self.target@, m_offset as int, st.cursor);
                assert(self.insert@.len() <= self.offset) by {
                    assert((apply_ops(self.source@, st.ops) + st.pending).len() == st.cursor);
                }
            }
            self.expand_match(&mut m_offset, &mut m_size);
            self.flush_insert(0);
            let ghost ops0 = self.ops@;
            let op = Op::Copy(m_offset, m_size);
            self.ops.push(op);
            proof {
                assert(ops_view(self.ops@) =~= ops_view(ops0).push(op@));
                if self.insert@.len() != 0 {
                    assert(false);
                }
                assert(self.insert@ =~= Seq::<u8>::empty());
            }
        }
    }

    /// Search of the longest match at the cursor: the candidates are visited
    /// in increasing offset order, and the search stops at the first one
    /// whose room cannot beat the best so far, since no later one has more.
    fn longest_match(&self) -> (r: (usize, usize))
        requires
            self.index_ok(),
            self.offset <= self.target@.len(),
        ensures
            r == longest_match_at(self.source@, self.target@, self.offset as int),
    {
        let ghost src = self.source@;
        let ghost tgt = self.target@;
        let ghost t = self.offset as int;
        if self.target.len() - self.offset < BLOCK_SIZE {
            proof {
                assert forall|m: (usize, usize)| !is_longest(src, tgt, t, m.0, m.1) by {}
            }
            return (0, 0);
        }
        let ghost key = block_key(block_at(tgt, t));
        let mut m_offset: usize = 0;
        let mut m_size: usize = 0;
        match self.offsets(self.offset) {
            None => {
                proof {
                    assert forall|p: int| !#[trigger] is_candidate(src, tgt, t, p) by {
                        if is_candidate(src, tgt, t, p) {
                            assert(block_at(src, p) == block_at(tgt, t));
                            assert(self.offset_map@.contains_key(block_key(block_at(src, p))));
                        }
                    }
                }
            },
            Some(list) => {
                let ghost l = list@;
                assert(offsets_sound(src, key, l));
                let mut i: usize = 0;
                let mut done = false;
                let ghost mut best: int = 0;
                while i < list.len() && !done
                    invariant
                        self.index_ok(),
                        src == self.source@,
                        tgt == self.target@,
                        t == self.offset,
                        t + BLOCK_SIZE <= tgt.len(),
                        l == list@,
                        offsets_sound(src, key, l),
                        i <= l.len(),
                        m_size == 0 ==> m_offset == 0,
                        m_size > 0 ==> {
                            &&& 0 <= best < i
                            &&& l[best] == m_offset
                            &&& is_candidate(src, tgt, t, m_offset as int)
                            &&& m_size == match_at(src, tgt, m_offset as int, t)
                        },
                        forall|j: int|
                            0 <= j < i && is_candidate(src, tgt, t, #[trigger] l[j] as int) ==> {
                                &&& match_at(src, tgt, l[j] as int, t) <= m_size
                                &&& l[j] < m_offset ==> match_at(src, tgt, l[j] as int, t) < m_size
                            },
                        done ==> forall|j: int|
                            i <= j < l.len() && is_candidate(src, tgt, t, #[trigger] l[j] as int)
                                ==> {
                                &&& match_at(src, tgt, l[j] as int, t) <= m_size
                                &&& l[j] > m_offset
                            },
                    decreases l.len() - i + if done { 0int } else { 1int },
                {
                    let pos = list[i];
                    assert(is_block_offset(src.len() as int, l[i as int] as int));
                    let remaining = self.remaining_bytes(pos);
                    if remaining <= m_size {
                        proof {
                            assert forall|j: int|
                                i <= j < l.len() && is_candidate(
                                    src,
                                    tgt,
                                    t,
                                    #[trigger] l[j] as int,
                                ) implies {
                                &&& match_at(src, tgt, l[j] as int, t) <= m_size
                                &&& l[j] > m_offset
                            } by {
                                lemma_match_at(src, tgt, l[j] as int, t);
                                if j > i {
                                    assert(l[i as int] < l[j]);
                                }
                                assert(l[best] < l[j]);
                            }
                        }
                        done = true;
                    } else {
                        let s = self.match_from(pos, remaining);
                        proof {
                            lemma_candidate_iff_block_match(src, tgt, t, pos as int);
                        }
                        if m_size < s - pos && s - pos >= BLOCK_SIZE {
                            proof {
                                best = i as int;
                            }
                            m_offset = pos;
                            m_size = s - pos;
                        } else {
                            proof {
                                if m_size > 0 {
                                    assert(l[best] < l[i as int]);
                                }
                            }
                        }
                        i = i + 1;
                    }
                }
                proof {
                    assert forall|p: int| #[trigger]
                        is_candidate(src, tgt, t, p) implies {
                        &&& match_at(src, tgt, p, t) <= m_size
                        &&& p < m_offset ==> match_at(src, tgt, p, t) < m_size
                    } by {
                        assert(block_at(src, p) == block_at(tgt, t));
                        assert(self.offset_map@.contains_key(block_key(block_at(src, p))));
                        assert(self.source.len() == src.len());
                        let j = choose|j: int| 0 <= j < l.len() && l[j] == p as usize;
                        assert(l[j] as int == p);
                    }
                }
            },
        }
        proof {
            if m_size > 0 {
                lemma_longest_unique(src, tgt, t, m_offset, m_size);
            } else {
                assert forall|m: (usize, usize)| !is_longest(src, tgt, t, m.0, m.1) by {
                    if is_longest(src, tgt, t, m.0, m.1) {
                        lemma_candidate_iff_block_match(src, tgt, t, m.0 as int);
                    }
                }
            }
        }
        (m_offset, m_size)
    }

    /// Room for a match at source offset `pos`: what is left of either buffer,
    /// capped at `MAX_COPY_SIZE`.
    fn remaining_bytes(&self, pos: usize) -> (r: usize)
        requires
            pos <= self.source@.len(),
            self.offset <= self.target@.len(),
        ensures
            r == upper(self.source@, self.target@, pos as int, self.offset as int),
    {
        let s_remaining = self.source.len() - pos;
        let t_remaining = self.target.len() - self.offset;
        if s_remaining <= t_remaining && s_remaining <= MAX_COPY_SIZE {
            s_remaining
        } else if t_remaining <= MAX_COPY_SIZE {
            t_remaining
        } else {
            MAX_COPY_SIZE
        }
    }

    /// Extends a match at source offset `pos` for at most `remaining` bytes,
    /// returning the source offset where it stops.
    fn match_from(&self, pos: usize, remaining: usize) -> (r: usize)
        requires
            pos + remaining <= self.source@.len(),
            self.offset + remaining <= self.target@.len(),
        ensures
            r == pos + match_len(self.source@, self.target@, pos as int, self.offset as int, remaining as int),
    {
        let mut s = pos;
        let mut t = self.offset;
        let mut left = remaining;
        while left > 0 && self.source[s] == self.target[t]
            invariant
                pos <= s,
                s - pos == t - self.offset,
                s + left == pos + remaining,
                s + left <= self.source@.len(),
                t + left <= self.target@.len(),
                match_len(self.source@, self.target@, pos as int, self.offset as int, remaining as int)
                    == (s - pos) + match_len(self.source@, self.target@, s as int, t as int, left as int),
            decreases left,
        {
            s = s + 1;
            t = t + 1;
            left = left - 1;
        }
        s
    }

    /// Left-extends a match found at the cursor (see `extend_left`), then
    /// moves the cursor past the matched region.
    fn expand_match(&mut self, m_offset: &mut usize, m_size: &mut usize)
        requires
            old(self).insert@.len() <= old(self).offset,
            *old(m_offset) + *old(m_size) <= old(self).source@.len(),
            old(self).offset + *old(m_size) <= old(self).target@.len(),
        ensures
            ({
                let (pending, offset, size) = extend_left(
                    old(self).source@,
                    old(self).insert@,
                    *old(m_offset) as int,
                    *old(m_size) as int,
                );
                &&& final(self).insert@ == pending
                &&& *final(m_offset) == offset
                &&& *final(m_size) == size
            }),
            final(self).offset == old(self).offset + *old(m_size),
            final(self).source == old(self).source,
            final(self).target == old(self).target,
            final(self).offset_map == old(self).offset_map,
            final(self).ops == old(self).ops,
    {
        let ghost goal = extend_left(
            self.source@,
            self.insert@,
            *m_offset as int,
            *m_size as int,
        );
        let ghost end = self.offset + *m_size;
        while *m_offset > 0 && *m_size < MAX_COPY_SIZE && self.insert.len() > 0
            && self.source[*m_offset - 1] == self.insert[self.insert.len() - 1]
            invariant
                extend_left(self.source@, self.insert@, *m_offset as int, *m_size as int) == goal,
                self.offset + *m_size == end,
                self.insert@.len() <= self.offset,
                *m_offset <= self.source@.len(),
                end <= self.target@.len(),
                self.source == old(self).source,
                self.target == old(self).target,
                self.offset_map == old(self).offset_map,
                self.ops == old(self).ops,
            decreases self.insert@.len(),
        {
            self.offset = self.offset - 1;
            *m_offset = *m_offset - 1;
            *m_size = *m_size + 1;
            self.insert.pop();
        }
        self.offset = self.offset + *m_size;
    }

    /// Takes the byte at the cursor as a literal, flushing the pending bytes
    /// once they reach `MAX_INSERT_SIZE`.
    fn push_insert(&mut self)
        requires
            old(self).offset < old(self).target@.len(),
        ensures
            ({
                let pending = old(self).insert@.push(old(self).target@[old(self).offset as int]);
                final(self).scan_state() == if pending.len() >= MAX_INSERT_SIZE {
                    ScanState {
                        cursor: old(self).offset + 1,
                        pending: Seq::empty(),
                        ops: ops_view(old(self).ops@).push(OpModel::Insert(pending)),
                    }
                } else {
                    ScanState {
                        cursor: old(self).offset + 1,
                        pending,
                        ops: ops_view(old(self).ops@),
                    }
                }
            }),
            final(self).source == old(self).source,
            final(self).target == old(self).target,
            final(self).offset_map == old(self).offset_map,
    {
        self.insert.push(self.target[self.offset]);
        self.offset = self.offset + 1;
        self.flush_insert(MAX_INSERT_SIZE);
    }

    /// Emits the pending bytes as one insert if there are any and at least `size`.
    fn flush_insert(&mut self, size: usize)
        ensures
            final(self).scan_state() == if old(self).insert@.len() == 0 || old(self).insert@.len()
                < size {
                old(self).scan_state()
            } else {
                ScanState {
                    cursor: old(self).offset as int,
                    pending: Seq::empty(),
                    ops: ops_view(old(self).ops@).push(OpModel::Insert(old(self).insert@)),
                }
            },
            final(self).offset == old(self).offset,
            final(self).source == old(self).source,
            final(self).target == old(self).target,
            final(self).offset_map == old(self).offset_map,
    {
        if self.insert.len() == 0 || self.insert.len() < size {
            return ;
        }
        let mut insert: Vec<u8> = Vec::new();
        std::mem::swap(&mut self.insert, &mut insert);
        let ghost ops0 = self.ops@;
        let op = Op::Insert(insert);
        self.ops.push(op);
        assert(ops_view(self.ops@) =~= ops_view(ops0).push(op@));
        assert(self.insert@ =~= Seq::<u8>::empty());
    }

    /// Files every full, aligned block of `source` under its key, offsets in
    /// increasing order; a trailing partial block is left out.
    fn refresh_offsets(offset_map: &mut HashMap<u128, Vec<usize>>, source: &[u8])
        requires
            old(offset_map)@ == Map::<u128, Vec<usize>>::empty(),
        ensures
            index_sound(source@, final(offset_map)@),
            index_complete(source@, final(offset_map)@, source@.len() as int),
    {
        let mut pos: usize = 0;
        while source.len() - pos >= BLOCK_SIZE
            invariant
                pos <= source.len(),
                pos % BLOCK_SIZE == 0,
                index_sound(source@, offset_map@),
                index_complete(source@, offset_map@, pos as int),
                forall|k: u128, i: int|
                    offset_map@.contains_key(k) && 0 <= i < offset_map@[k]@.len()
                        ==> #[trigger] offset_map@[k]@[i] < pos,
            decreases source.len() - pos,
        {
            let key = block_key_at(source, pos);
            let ghost m0 = offset_map@;
            let list = match offset_map.remove(&key) {
                Some(mut l) => {
                    l.push(pos);
                    l
                },
                None => {
                    let mut l = Vec::new();
                    l.push(pos);
                    l
                },
            };
            proof {
                if m0.contains_key(key) {
                    assert(list@ == m0[key]@.push(pos));
                } else {
                    assert(list@ == seq![pos]);
                }
            }
            offset_map.insert(key, list);
            let ghost m1 = offset_map@;
            assert(m1 == m0.insert(key, list));
            assert(index_sound(source@, m1)) by {
                assert forall|k: u128| #[trigger] m1.contains_key(k) implies offsets_sound(
                    source@,
                    k,
                    m1[k]@,
                ) by {
                    if k == key {
                        assert(m1[k]@[list@.len() - 1] == pos);
                        if m0.contains_key(key) {
                            assert forall|i: int| 0 <= i < m0[key]@.len() implies m0[key]@[i] < pos by {
                                assert(m0[key]@[i] < pos);
                            }
                        }
                    }
                }
            }
            assert(index_complete(source@, m1, pos + BLOCK_SIZE)) by {
                assert forall|p: int|
                    is_block_offset(source@.len() as int, p) && p < pos + BLOCK_SIZE implies {
                    &&& m1.contains_key(block_key(#[trigger] block_at(source@, p)))
                    &&& m1[block_key(block_at(source@, p))]@.contains(p as usize)
                } by {
                    if p < pos {
                        let kp = block_key(block_at(source@, p));
                        let j = choose|j: int| 0 <= j < m0[kp]@.len() && m0[kp]@[j] == p as usize;
                        if kp == key {
                            assert(list@[j] == p as usize);
                        }
                    } else {
                        assert(p == pos);
                        assert(list@[list@.len() - 1] == pos);
                    }
                }
            }
            pos = pos + BLOCK_SIZE;
        }
    }
}

} // verus!
