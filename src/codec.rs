use vstd::prelude::*;
use crate::delta::{Delta, DeltaModel, Op, OpModel, MAX_INSERT_SIZE, ops_view};
use crate::errors::RstzError;

verus! {

// ---------------------------------------------------------------------------
// Varints: 7 data bits per byte, least significant group first, the high bit
// set on every byte but the last.
// ---------------------------------------------------------------------------

/// Why a byte string is not an encoded delta.
pub ghost enum WireError {
    /// The input ends in the middle of an item.
    Truncated,
    /// A varint runs over `MAX_VARINT_BYTES` bytes.
    TooLong,
    /// A varint holds a value that does not fit in `usize`.
    TooLarge,
}

/// Longest varint that the decoder reads.
pub const MAX_VARINT_BYTES: usize = 10;

/// The varint bytes of `v`.
pub open spec fn varint(v: nat) -> Seq<u8>
    decreases v,
{
    if v < 128 {
        seq![v as u8]
    } else {
        seq![(128 + v % 128) as u8] + varint(v / 128)
    }
}

/// `128` to the power `k`.
pub open spec fn pow128(k: nat) -> nat
    decreases k,
{
    if k == 0 {
        1
    } else {
        128 * pow128((k - 1) as nat)
    }
}

/// Reads a varint from `b` at `pos`, `k` of its bytes already read; yields
/// its value and the position after it.
pub open spec fn parse_varint(b: Seq<u8>, pos: int, k: nat) -> Result<(nat, int), WireError>
    decreases MAX_VARINT_BYTES - k,
{
    if k >= MAX_VARINT_BYTES {
        Err(WireError::TooLong)
    } else if pos < 0 || pos >= b.len() {
        Err(WireError::Truncated)
    } else if b[pos] < 128 {
        Ok((b[pos] as nat, pos + 1))
    } else {
        match parse_varint(b, pos + 1, k + 1) {
            Ok((v, end)) => Ok((((b[pos] - 128) + 128 * v) as nat, end)),
            Err(e) => Err(e),
        }
    }
}

/// Reads a varint that must fit in `usize`.
pub open spec fn parse_size(b: Seq<u8>, pos: int) -> Result<(usize, int), WireError> {
    match parse_varint(b, pos, 0) {
        Ok((v, end)) => if v <= usize::MAX {
            Ok((v as usize, end))
        } else {
            Err(WireError::TooLarge)
        },
        Err(e) => Err(e),
    }
}

/// `e` is the library error for the wire error `w`.
pub open spec fn error_for(e: RstzError, w: WireError) -> bool {
    match w {
        WireError::Truncated => e is Eof,
        _ => e is Message,
    }
}

/// Appends the varint bytes of `v` to `buffer`.
fn write_varint(buffer: &mut Vec<u8>, v: usize)
    ensures
        final(buffer)@ == old(buffer)@ + varint(v as nat),
{
    let mut value = v;
    while value >= 128
        invariant
            buffer@ + varint(value as nat) == old(buffer)@ + varint(v as nat),
        decreases value,
    {
        let ghost b0 = buffer@;
        buffer.push((128 + value % 128) as u8);
        assert(b0 + varint(value as nat) =~= buffer@ + varint((value / 128) as nat));
        value = value / 128;
    }
    let ghost b0 = buffer@;
    buffer.push(value as u8);
    assert(buffer@ =~= b0 + varint(value as nat));
}

/// A varint result read after `k` bytes worth `acc`, each further one worth
/// `mult` times its group: the value of the whole varint.
pub open spec fn lift_varint(r: Result<(nat, int), WireError>, acc: nat, mult: nat) -> Result<
    (nat, int),
    WireError,
> {
    match r {
        Ok((v, end)) => Ok((acc + mult * v, end)),
        Err(e) => Err(e),
    }
}

/// Powers of 128 up to the varint length cap stay below `2^70`.
proof fn lemma_pow128_bound(k: nat)
    requires
        k <= MAX_VARINT_BYTES,
    ensures
        0 < pow128(k) <= pow128(MAX_VARINT_BYTES as nat),
        pow128(MAX_VARINT_BYTES as nat) == 0x40_0000_0000_0000_0000,
    decreases MAX_VARINT_BYTES - k,
{
    reveal_with_fuel(pow128, 11);
    if k < MAX_VARINT_BYTES {
        lemma_pow128_bound(k + 1);
    }
}

/// One more varint group folds into the accumulated value.
proof fn lemma_regroup(acc: nat, mult: nat, g: nat, v: nat)
    ensures
        acc + mult * (g + 128 * v) == (acc + mult * g) + (mult * 128) * v,
{
    assert(mult * (g + 128 * v) == mult * g + (mult * 128) * v) by (nonlinear_arith);
}

/// Reads a varint that must fit in `usize` from `b` at `pos`.
fn read_size(b: &[u8], pos: usize) -> (r: Result<(usize, usize), RstzError>)
    ensures
        match (r, parse_size(b@, pos as int)) {
            (Ok((v, end)), Ok((sv, send))) => v == sv && end == send,
            (Err(e), Err(w)) => error_for(e, w),
            _ => false,
        },
{
    let mut acc: u128 = 0;
    let mut mult: u128 = 1;
    let mut k: usize = 0;
    let mut p: usize = pos;
    loop
        invariant
            k <= MAX_VARINT_BYTES,
            mult == pow128(k as nat),
            acc < mult,
            pos <= p,
            parse_varint(b@, pos as int, 0) == lift_varint(
                parse_varint(b@, p as int, k as nat),
                acc as nat,
                mult as nat,
            ),
        decreases MAX_VARINT_BYTES - k,
    {
        proof {
            lemma_pow128_bound(k as nat);
        }
        if k >= MAX_VARINT_BYTES {
            return Err(RstzError::new("varint runs over ten bytes"));
        }
        if p >= b.len() {
            return Err(RstzError::Eof);
        }
        let byte = b[p];
        if byte < 128 {
            proof {
                assert(mult * byte <= mult * 127) by (nonlinear_arith)
                    requires
                        byte < 128,
                ;
            }
            let value = acc + mult * (byte as u128);
            if value > usize::MAX as u128 {
                return Err(RstzError::new("varint does not fit in usize"));
            }
            return Ok((value as usize, p + 1));
        }
        proof {
            lemma_pow128_bound((k + 1) as nat);
            let g = (byte - 128) as nat;
            assert(mult * g <= mult * 127) by (nonlinear_arith)
                requires
                    g < 128,
            ;
            if let Ok((v, _)) = parse_varint(b@, p + 1, (k + 1) as nat) {
                lemma_regroup(acc as nat, mult as nat, g, v);
            }
        }
        acc = acc + mult * ((byte - 128) as u128);
        mult = mult * 128;
        k = k + 1;
        p = p + 1;
    }
}


// ---------------------------------------------------------------------------
// Ops
// ---------------------------------------------------------------------------

/// The 56-bit value that a copy packs: its size from bit 32 up, its offset below.
pub open spec fn copy_value(offset: usize, size: usize) -> u64 {
    ((size as u64) << 32u64) | (offset as u64)
}

/// The seven bytes of a copy's value, least significant first.
pub open spec fn copy_bytes(offset: usize, size: usize) -> Seq<u8> {
    let v = copy_value(offset, size);
    seq![
        (v & 0xff) as u8,
        ((v >> 8u64) & 0xff) as u8,
        ((v >> 16u64) & 0xff) as u8,
        ((v >> 24u64) & 0xff) as u8,
        ((v >> 32u64) & 0xff) as u8,
        ((v >> 40u64) & 0xff) as u8,
        ((v >> 48u64) & 0xff) as u8,
    ]
}

/// 1 for a byte that goes on the wire, 0 for one that is left out.
pub open spec fn flag(b: u8) -> u8 {
    if b != 0 {
        1
    } else {
        0
    }
}

/// A copy's tag: the high bit, and bit `i` set when value byte `i` is not zero.
pub open spec fn copy_tag(bytes: Seq<u8>) -> u8 {
    0x80u8 | flag(bytes[0]) | (flag(bytes[1]) << 1u8) | (flag(bytes[2]) << 2u8) | (flag(bytes[3])
        << 3u8) | (flag(bytes[4]) << 4u8) | (flag(bytes[5]) << 5u8) | (flag(bytes[6]) << 6u8)
}

/// The non-zero ones among value bytes `i..7`, in order.
pub open spec fn nonzero_from(bytes: Seq<u8>, i: nat) -> Seq<u8>
    decreases 7 - i,
{
    if i >= 7 {
        Seq::empty()
    } else if bytes[i as int] != 0 {
        seq![bytes[i as int]] + nonzero_from(bytes, i + 1)
    } else {
        nonzero_from(bytes, i + 1)
    }
}

/// The op fits the wire format.
pub open spec fn op_encodable(op: OpModel) -> bool {
    match op {
        OpModel::Copy(offset, size) => offset < 0x1_0000_0000 && size < 0x100_0000,
        OpModel::Insert(bytes) => bytes.len() <= MAX_INSERT_SIZE,
    }
}

/// Wire form of one op: an insert is its length byte and its bytes; a copy is
/// its tag and its non-zero value bytes.
pub open spec fn encode_op(op: OpModel) -> Seq<u8> {
    match op {
        OpModel::Copy(offset, size) => {
            let bytes = copy_bytes(offset, size);
            seq![copy_tag(bytes)] + nonzero_from(bytes, 0)
        },
        OpModel::Insert(bytes) => seq![bytes.len() as u8] + bytes,
    }
}

/// Wire form of a sequence of ops, one after the other.
pub open spec fn encode_ops(ops: Seq<OpModel>) -> Seq<u8>
    decreases ops.len(),
{
    if ops.len() == 0 {
        Seq::empty()
    } else {
        encode_op(ops[0]) + encode_ops(ops.drop_first())
    }
}

/// Every op of the delta fits the wire format.
pub open spec fn delta_encodable(d: DeltaModel) -> bool {
    forall|i: int| 0 <= i < d.ops.len() ==> #[trigger] op_encodable(d.ops[i])
}

/// Wire form of a delta: the two sizes as varints, then each op.
pub open spec fn encode_delta(d: DeltaModel) -> Seq<u8> {
    varint(d.source_size as nat) + varint(d.target_size as nat) + encode_ops(d.ops)
}

/// Bit `i` of a copy tag.
pub open spec fn tag_bit(tag: u8, i: nat) -> bool {
    (tag >> (i as u8)) & 1u8 == 1u8
}

/// Reads value bytes `i..7` of a copy with tag `tag` from `b` at `pos`: a set
/// tag bit takes the next byte, a clear one stands for a zero byte.
pub open spec fn read_slots(b: Seq<u8>, tag: u8, i: nat, pos: int) -> Option<(Seq<u8>, int)>
    decreases 7 - i,
{
    if i >= 7 {
        Some((Seq::empty(), pos))
    } else if tag_bit(tag, i) {
        if 0 <= pos < b.len() {
            match read_slots(b, tag, i + 1, pos + 1) {
                Some((rest, end)) => Some((seq![b[pos]] + rest, end)),
                None => None,
            }
        } else {
            None
        }
    } else {
        match read_slots(b, tag, i + 1, pos) {
            Some((rest, end)) => Some((seq![0u8] + rest, end)),
            None => None,
        }
    }
}

/// The value that seven bytes, least significant first, hold.
pub open spec fn slots_value(s: Seq<u8>) -> u64 {
    (s[0] as u64) | ((s[1] as u64) << 8u64) | ((s[2] as u64) << 16u64) | ((s[3] as u64) << 24u64)
        | ((s[4] as u64) << 32u64) | ((s[5] as u64) << 40u64) | ((s[6] as u64) << 48u64)
}

/// Reads one op from `b` at `pos`; yields it and the position after it.
pub open spec fn parse_op(b: Seq<u8>, pos: int) -> Result<(OpModel, int), WireError> {
    if pos < 0 || pos >= b.len() {
        Err(WireError::Truncated)
    } else if b[pos] < 128 {
        let n = b[pos] as int;
        if pos + 1 + n <= b.len() {
            Ok((OpModel::Insert(b.subrange(pos + 1, pos + 1 + n)), pos + 1 + n))
        } else {
            Err(WireError::Truncated)
        }
    } else {
        match read_slots(b, b[pos], 0, pos + 1) {
            Some((slots, end)) => {
                let v = slots_value(slots);
                Ok((OpModel::Copy((v & 0xffff_ffff) as usize, (v >> 32u64) as usize), end))
            },
            None => Err(WireError::Truncated),
        }
    }
}

/// Reads ops from `b` at `pos` up to its end.
pub open spec fn parse_ops(b: Seq<u8>, pos: int) -> Result<Seq<OpModel>, WireError>
    decreases b.len() - pos,
{
    if pos < 0 || pos >= b.len() {
        Ok(Seq::empty())
    } else {
        match parse_op(b, pos) {
            Ok((op, next)) => if pos < next <= b.len() {
                match parse_ops(b, next) {
                    Ok(rest) => Ok(seq![op] + rest),
                    Err(e) => Err(e),
                }
            } else {
                Err(WireError::Truncated)
            },
            Err(e) => Err(e),
        }
    }
}

/// Reads a whole encoded delta.
pub open spec fn decode_delta(b: Seq<u8>) -> Result<DeltaModel, WireError> {
    match parse_size(b, 0) {
        Ok((source_size, p1)) => match parse_size(b, p1) {
            Ok((target_size, p2)) => match parse_ops(b, p2) {
                Ok(ops) => Ok(DeltaModel { source_size, target_size, ops }),
                Err(e) => Err(e),
            },
            Err(e) => Err(e),
        },
        Err(e) => Err(e),
    }
}

/// The high bit of a copy tag is set, and bit `i` is the flag of value byte `i`.
proof fn lemma_tag_bits(t: u8, c0: u8, c1: u8, c2: u8, c3: u8, c4: u8, c5: u8, c6: u8)
    by (bit_vector)
    requires
        c0 <= 1 && c1 <= 1 && c2 <= 1 && c3 <= 1 && c4 <= 1 && c5 <= 1 && c6 <= 1,
        t == 0x80u8 | c0 | (c1 << 1u8) | (c2 << 2u8) | (c3 << 3u8) | (c4 << 4u8) | (c5 << 5u8) | (
        c6 << 6u8),
    ensures
        t >= 128,
        (t >> 0u8) & 1u8 == c0,
        (t >> 1u8) & 1u8 == c1,
        (t >> 2u8) & 1u8 == c2,
        (t >> 3u8) & 1u8 == c3,
        (t >> 4u8) & 1u8 == c4,
        (t >> 5u8) & 1u8 == c5,
        (t >> 6u8) & 1u8 == c6,
{
}

/// Reassembling the seven value bytes of a copy gives back its offset and size.
proof fn lemma_copy_bits(o: u64, s: u64, v: u64, w: u64)
    by (bit_vector)
    requires
        o < 0x1_0000_0000,
        s < 0x100_0000,
        v == (s << 32u64) | o,
        w == (v & 0xff) | (((v >> 8u64) & 0xff) << 8u64) | (((v >> 16u64) & 0xff) << 16u64) | (((v
            >> 24u64) & 0xff) << 24u64) | (((v >> 32u64) & 0xff) << 32u64) | (((v >> 40u64) & 0xff)
            << 40u64) | (((v >> 48u64) & 0xff) << 48u64),
    ensures
        w & 0xffff_ffff == o,
        w >> 32u64 == s,
{
}

/// The low byte of a word survives a trip through `u8`.
proof fn lemma_low_byte(x: u64)
    ensures
        ((x & 0xff) as u8) as u64 == x & 0xff,
{
    assert(x & 0xff <= 0xff) by (bit_vector);
}

/// Reading the value bytes of an encoded copy gives back all seven of them.
proof fn lemma_read_slots(b: Seq<u8>, bytes: Seq<u8>, i: nat, pos: int)
    requires
        bytes.len() == 7,
        i <= 7,
        0 <= pos,
        pos + nonzero_from(bytes, i).len() <= b.len(),
        b.subrange(pos, pos + nonzero_from(bytes, i).len()) == nonzero_from(bytes, i),
        forall|j: nat| i <= j < 7 ==> (#[trigger] tag_bit(copy_tag(bytes), j) <==> bytes[j as int] != 0),
    ensures
        read_slots(b, copy_tag(bytes), i, pos) == Some(
            (bytes.subrange(i as int, 7), pos + nonzero_from(bytes, i).len()),
        ),
    decreases 7 - i,
{
    let tag = copy_tag(bytes);
    if i < 7 {
        assert(tag_bit(tag, i) <==> bytes[i as int] != 0);
        if bytes[i as int] != 0 {
            let nz = nonzero_from(bytes, i + 1);
            assert(b[pos] == nonzero_from(bytes, i)[0]);
            assert(b.subrange(pos + 1, pos + 1 + nz.len()) =~= nonzero_from(bytes, i).subrange(
                1,
                1 + nz.len() as int,
            ));
            assert(nonzero_from(bytes, i).subrange(1, 1 + nz.len() as int) =~= nz);
            lemma_read_slots(b, bytes, i + 1, pos + 1);
        } else {
            lemma_read_slots(b, bytes, i + 1, pos);
        }
        assert(seq![bytes[i as int]] + bytes.subrange(i + 1 as int, 7) =~= bytes.subrange(i as int, 7));
    } else {
        assert(bytes.subrange(7, 7) =~= Seq::<u8>::empty());
    }
}

/// An encodable op is read back from its wire form.
pub proof fn lemma_op_round_trip(b: Seq<u8>, op: OpModel, pos: int)
    requires
        op_encodable(op),
        0 <= pos,
        pos + encode_op(op).len() <= b.len(),
        b.subrange(pos, pos + encode_op(op).len()) == encode_op(op),
    ensures
        parse_op(b, pos) == Ok::<(OpModel, int), WireError>((op, pos + encode_op(op).len())),
{
    let e = encode_op(op);
    assert(b[pos] == e[0]);
    match op {
        OpModel::Insert(bytes) => {
            assert(b.subrange(pos + 1, pos + 1 + bytes.len()) =~= e.subrange(1, e.len() as int));
            assert(e.subrange(1, e.len() as int) =~= bytes);
        },
        OpModel::Copy(offset, size) => {
            let bytes = copy_bytes(offset, size);
            let tag = copy_tag(bytes);
            lemma_tag_bits(
                tag,
                flag(bytes[0]),
                flag(bytes[1]),
                flag(bytes[2]),
                flag(bytes[3]),
                flag(bytes[4]),
                flag(bytes[5]),
                flag(bytes[6]),
            );
            assert forall|j: nat| 0 <= j < 7 implies (#[trigger] tag_bit(tag, j) <==> bytes[j as int]
                != 0) by {
                if j == 0 {
                } else if j == 1 {
                } else if j == 2 {
                } else if j == 3 {
                } else if j == 4 {
                } else if j == 5 {
                } else {
                }
            }
            let nz = nonzero_from(bytes, 0);
            assert(b.subrange(pos + 1, pos + 1 + nz.len()) =~= e.subrange(1, e.len() as int));
            assert(e.subrange(1, e.len() as int) =~= nz);
            lemma_read_slots(b, bytes, 0, pos + 1);
            assert(bytes.subrange(0, 7) =~= bytes);
            let v = copy_value(offset, size);
            lemma_low_byte(v);
            lemma_low_byte(v >> 8u64);
            lemma_low_byte(v >> 16u64);
            lemma_low_byte(v >> 24u64);
            lemma_low_byte(v >> 32u64);
            lemma_low_byte(v >> 40u64);
            lemma_low_byte(v >> 48u64);
            lemma_copy_bits(offset as u64, size as u64, v, slots_value(bytes));
        },
    }
}


/// A value below `128^m` takes at most `m` varint bytes.
proof fn lemma_varint_len(v: nat, m: nat)
    requires
        1 <= m,
        v < pow128(m),
    ensures
        varint(v).len() <= m,
    decreases m,
{
    if v >= 128 {
        assert(m >= 2) by {
            if m == 1 {
                assert(pow128(1) == 128 * pow128(0));
            }
        }
        let p = pow128((m - 1) as nat);
        assert(v / 128 < p) by (nonlinear_arith)
            requires
                v < 128 * p,
        ;
        lemma_varint_len(v / 128, (m - 1) as nat);
    }
}

/// A varint is read back as the value it was written from.
proof fn lemma_varint_round_trip(b: Seq<u8>, v: nat, pos: int, k: nat)
    requires
        0 <= pos,
        k + varint(v).len() <= MAX_VARINT_BYTES,
        pos + varint(v).len() <= b.len(),
        b.subrange(pos, pos + varint(v).len()) == varint(v),
    ensures
        parse_varint(b, pos, k) == Ok::<(nat, int), WireError>((v, pos + varint(v).len())),
    decreases v,
{
    assert(b[pos] == varint(v)[0]);
    if v >= 128 {
        let rest = varint(v / 128);
        assert(b.subrange(pos + 1, pos + 1 + rest.len()) =~= varint(v).subrange(
            1,
            1 + rest.len() as int,
        ));
        assert(varint(v).subrange(1, 1 + rest.len() as int) =~= rest);
        lemma_varint_round_trip(b, v / 128, pos + 1, k + 1);
    }
}

/// A size of at most `usize::MAX` is read back from its varint.
proof fn lemma_size_round_trip(b: Seq<u8>, v: usize, pos: int)
    requires
        0 <= pos,
        pos + varint(v as nat).len() <= b.len(),
        b.subrange(pos, pos + varint(v as nat).len()) == varint(v as nat),
    ensures
        parse_size(b, pos) == Ok::<(usize, int), WireError>((v, pos + varint(v as nat).len())),
{
    lemma_pow128_bound(MAX_VARINT_BYTES as nat);
    lemma_varint_len(v as nat, MAX_VARINT_BYTES as nat);
    lemma_varint_round_trip(b, v as nat, pos, 0);
}

/// A parse result with `done` put in front of the ops it read.
pub open spec fn prepend_ops(done: Seq<OpModel>, r: Result<Seq<OpModel>, WireError>) -> Result<
    Seq<OpModel>,
    WireError,
> {
    match r {
        Ok(rest) => Ok(done + rest),
        Err(e) => Err(e),
    }
}

/// Encodable ops are read back from their wire form, up to the end of the input.
proof fn lemma_ops_round_trip(b: Seq<u8>, ops: Seq<OpModel>, pos: int)
    requires
        forall|i: int| 0 <= i < ops.len() ==> #[trigger] op_encodable(ops[i]),
        0 <= pos,
        pos + encode_ops(ops).len() == b.len(),
        b.subrange(pos, b.len() as int) == encode_ops(ops),
    ensures
        parse_ops(b, pos) == Ok::<Seq<OpModel>, WireError>(ops),
    decreases ops.len(),
{
    if ops.len() > 0 {
        let e = encode_op(ops[0]);
        let rest = ops.drop_first();
        assert(op_encodable(ops[0]));
        assert(b.subrange(pos, pos + e.len()) =~= encode_ops(ops).subrange(0, e.len() as int));
        assert(encode_ops(ops).subrange(0, e.len() as int) =~= e);
        lemma_op_round_trip(b, ops[0], pos);
        assert(b.subrange(pos + e.len(), b.len() as int) =~= encode_ops(ops).subrange(
            e.len() as int,
            encode_ops(ops).len() as int,
        ));
        assert(encode_ops(ops).subrange(e.len() as int, encode_ops(ops).len() as int)
            =~= encode_ops(rest));
        assert forall|i: int| 0 <= i < rest.len() implies #[trigger] op_encodable(rest[i]) by {
            assert(rest[i] == ops[i + 1]);
        }
        assert(e.len() > 0);
        lemma_ops_round_trip(b, rest, pos + e.len());
        assert(seq![ops[0]] + rest =~= ops);
    } else {
        assert(encode_ops(ops).len() == 0);
        assert(ops =~= Seq::<OpModel>::empty());
    }
}

/// Decoding the encoding of an encodable delta gives that delta back.
pub proof fn lemma_round_trip(d: DeltaModel)
    requires
        delta_encodable(d),
    ensures
        decode_delta(encode_delta(d)) == Ok::<DeltaModel, WireError>(d),
{
    let b = encode_delta(d);
    let s = varint(d.source_size as nat);
    let t = varint(d.target_size as nat);
    let o = encode_ops(d.ops);
    assert(b.subrange(0, s.len() as int) =~= s);
    lemma_size_round_trip(b, d.source_size, 0);
    assert(b.subrange(s.len() as int, (s.len() + t.len()) as int) =~= t);
    lemma_size_round_trip(b, d.target_size, s.len() as int);
    assert(b.subrange((s.len() + t.len()) as int, b.len() as int) =~= o);
    lemma_ops_round_trip(b, d.ops, (s.len() + t.len()) as int);
}

/// The wire form of ops with one more op at the end.
proof fn lemma_encode_ops_push(ops: Seq<OpModel>, op: OpModel)
    ensures
        encode_ops(ops.push(op)) == encode_ops(ops) + encode_op(op),
    decreases ops.len(),
{
    if ops.len() == 0 {
        assert(ops.push(op).drop_first() =~= Seq::<OpModel>::empty());
        assert(ops.push(op)[0] == op);
        assert(encode_ops(Seq::<OpModel>::empty()) == Seq::<u8>::empty());
        assert(encode_ops(ops) == Seq::<u8>::empty());
        assert(encode_ops(ops.push(op)) =~= encode_op(op) + Seq::<u8>::empty());
        assert(encode_ops(ops.push(op)) =~= encode_ops(ops) + encode_op(op));
    } else {
        assert(ops.push(op).drop_first() =~= ops.drop_first().push(op));
        lemma_encode_ops_push(ops.drop_first(), op);
        assert(ops.push(op)[0] == ops[0]);
        assert(encode_ops(ops.push(op)) =~= encode_ops(ops) + encode_op(op));
    }
}

/// 1 for a non-zero byte, 0 for a zero one.
fn flag_of(b: u8) -> (r: u8)
    ensures
        r == flag(b),
{
    if b != 0 {
        1
    } else {
        0
    }
}

/// Appends `b` to `buffer` unless it is zero.
fn push_nonzero(buffer: &mut Vec<u8>, b: u8)
    ensures
        final(buffer)@ == old(buffer)@ + keep(b),
{
    if b != 0 {
        buffer.push(b);
    } else {
        assert(buffer@ =~= buffer@ + Seq::<u8>::empty());
    }
}

/// Appends the wire form of a copy to `buffer`.
#[verifier::rlimit(50)]
fn encode_copy(offset: usize, size: usize, buffer: &mut Vec<u8>)
    requires
        op_encodable(OpModel::Copy(offset, size)),
    ensures
        final(buffer)@ == old(buffer)@ + encode_op(OpModel::Copy(offset, size)),
{
    let ghost b0 = buffer@;
    let value: u64 = ((size as u64) << 32u64) | (offset as u64);
    let v0 = (value & 0xff) as u8;
    let v1 = ((value >> 8u64) & 0xff) as u8;
    let v2 = ((value >> 16u64) & 0xff) as u8;
    let v3 = ((value >> 24u64) & 0xff) as u8;
    let v4 = ((value >> 32u64) & 0xff) as u8;
    let v5 = ((value >> 40u64) & 0xff) as u8;
    let v6 = ((value >> 48u64) & 0xff) as u8;
    let ghost bytes = copy_bytes(offset, size);
    assert(bytes =~= seq![v0, v1, v2, v3, v4, v5, v6]);
    let tag: u8 = 0x80u8 | flag_of(v0) | (flag_of(v1) << 1u8) | (flag_of(v2) << 2u8) | (flag_of(v3)
        << 3u8) | (flag_of(v4) << 4u8) | (flag_of(v5) << 5u8) | (flag_of(v6) << 6u8);
    assert(tag == copy_tag(bytes));
    let vals: Vec<u8> = vec![v0, v1, v2, v3, v4, v5, v6];
    assert(vals@ =~= bytes);
    buffer.push(tag);
    let mut i: usize = 0;
    while i < 7
        invariant
            i <= 7,
            bytes.len() == 7,
            vals@ == bytes,
            buffer@ + nonzero_from(bytes, i as nat) == b0 + (seq![tag] + nonzero_from(bytes, 0)),
        decreases 7 - i,
    {
        let ghost before = buffer@;
        proof {
            lemma_nonzero_step(bytes, i as nat);
        }
        push_nonzero(buffer, vals[i]);
        assert(before + (keep(bytes[i as int]) + nonzero_from(bytes, (i + 1) as nat)) =~= buffer@
            + nonzero_from(bytes, (i + 1) as nat));
        i = i + 1;
    }
    assert(buffer@ + nonzero_from(bytes, 7) =~= buffer@);
}

/// The non-zero value bytes from `i` on, one byte at a time.
proof fn lemma_nonzero_step(bytes: Seq<u8>, i: nat)
    requires
        i < 7,
    ensures
        nonzero_from(bytes, i) == keep(bytes[i as int]) + nonzero_from(bytes, i + 1),
{
    if bytes[i as int] == 0 {
        assert(nonzero_from(bytes, i + 1) =~= Seq::<u8>::empty() + nonzero_from(bytes, i + 1));
    }
}

/// The byte alone if it goes on the wire, else nothing.
pub open spec fn keep(b: u8) -> Seq<u8> {
    if b != 0 {
        seq![b]
    } else {
        Seq::empty()
    }
}

impl Op {
    /// The op fits the wire format: an insert of at most `MAX_INSERT_SIZE`
    /// bytes, or a copy whose offset fits 32 bits and size 24 bits.
    pub fn fits_wire(&self) -> (r: bool)
        ensures
            r == op_encodable(self@),
    {
        match self {
            Op::Copy(offset, size) => (*offset as u64) < 0x1_0000_0000u64 && *size < 0x100_0000,
            Op::Insert(bytes) => bytes.len() <= MAX_INSERT_SIZE,
        }
    }

    /// Appends the wire form of this op to `buffer`.
    fn encode(&self, buffer: &mut Vec<u8>)
        requires
            op_encodable(self@),
        ensures
            final(buffer)@ == old(buffer)@ + encode_op(self@),
    {
        let ghost b0 = buffer@;
        match self {
            Op::Copy(offset, size) => {
                encode_copy(*offset, *size, buffer);
            },
            Op::Insert(bytes) => {
                buffer.push(bytes.len() as u8);
                let mut i: usize = 0;
                while i < bytes.len()
                    invariant
                        i <= bytes@.len(),
                        buffer@ == b0 + seq![bytes@.len() as u8] + bytes@.take(i as int),
                    decreases bytes@.len() - i,
                {
                    buffer.push(bytes[i]);
                    assert(bytes@.take(i + 1) =~= bytes@.take(i as int).push(bytes@[i as int]));
                    i = i + 1;
                }
                assert(bytes@.take(i as int) =~= bytes@);
                assert(buffer@ =~= b0 + encode_op(self@));
            },
        }
    }
}

/// Reads the op that starts at `pos`.
fn read_op(b: &[u8], pos: usize) -> (r: Result<(Op, usize), RstzError>)
    requires
        pos < b@.len(),
    ensures
        match (r, parse_op(b@, pos as int)) {
            (Ok((op, end)), Ok((m, e))) => op@ == m && end == e && pos < end <= b@.len(),
            (Err(x), Err(w)) => error_for(x, w),
            _ => false,
        },
{
    let tag = b[pos];
    if tag < 128 {
        let n = tag as usize;
        if b.len() - (pos + 1) < n {
            return Err(RstzError::Eof);
        }
        let mut bytes: Vec<u8> = Vec::new();
        let mut i: usize = 0;
        while i < n
            invariant
                i <= n,
                pos + 1 + n <= b.len(),
                bytes@ == b@.subrange(pos + 1, pos + 1 + i),
            decreases n - i,
        {
            bytes.push(b[pos + 1 + i]);
            assert(b@.subrange(pos + 1, pos + 1 + i + 1) =~= b@.subrange(pos + 1, pos + 1 + i).push(
                b@[pos + 1 + i],
            ));
            i = i + 1;
        }
        Ok((Op::Insert(bytes), pos + 1 + n))
    } else {
        let mut slots: Vec<u8> = Vec::new();
        let mut p: usize = pos + 1;
        let mut i: u8 = 0;
        while i < 7
            invariant
                i <= 7,
                slots@.len() == i,
                pos < p <= b@.len(),
                tag == b@[pos as int],
                tag >= 128,
                read_slots(b@, tag, 0, pos + 1) == match read_slots(b@, tag, i as nat, p as int) {
                    Some((rest, end)) => Some((slots@ + rest, end)),
                    None => None,
                },
            decreases 7 - i,
        {
            if (tag >> i) & 1u8 == 1u8 {
                if p >= b.len() {
                    assert(tag_bit(tag, i as nat));
                    assert(read_slots(b@, tag, i as nat, p as int) is None);
                    return Err(RstzError::Eof);
                }
                let ghost s0 = slots@;
                slots.push(b[p]);
                proof {
                    if let Some((rest, end)) = read_slots(b@, tag, (i + 1) as nat, p + 1) {
                        assert(s0 + (seq![b@[p as int]] + rest) =~= slots@ + rest);
                    }
                }
                p = p + 1;
            } else {
                let ghost s0 = slots@;
                slots.push(0);
                proof {
                    if let Some((rest, end)) = read_slots(b@, tag, (i + 1) as nat, p as int) {
                        assert(s0 + (seq![0u8] + rest) =~= slots@ + rest);
                    }
                }
            }
            i = i + 1;
        }
        assert(slots@ + Seq::<u8>::empty() =~= slots@);
        let value: u64 = (slots[0] as u64) | ((slots[1] as u64) << 8u64) | ((slots[2] as u64)
            << 16u64) | ((slots[3] as u64) << 24u64) | ((slots[4] as u64) << 32u64) | ((
        slots[5] as u64) << 40u64) | ((slots[6] as u64) << 48u64);
        assert(value & 0xffff_ffff <= 0xffff_ffff) by (bit_vector);
        assert(value >> 32u64 <= 0xffff_ffff) by (bit_vector);
        Ok((Op::Copy((value & 0xffff_ffff) as usize, (value >> 32u64) as usize), p))
    }
}

impl Delta {
    /// The wire form of this delta. Fails when an op does not fit the wire
    /// format (see [`Op::fits_wire`]): an insert byte over 127 would read as a
    /// copy tag.
    pub fn encode(&self) -> (r: Result<Vec<u8>, RstzError>)
        ensures
            match r {
                Ok(b) => delta_encodable(self@) && b@ == encode_delta(self@),
                Err(e) => !delta_encodable(self@) && e is Message,
            },
    {
        let mut i: usize = 0;
        while i < self.ops.len()
            invariant
                i <= self.ops@.len(),
                forall|j: int| 0 <= j < i ==> #[trigger] op_encodable(self@.ops[j]),
            decreases self.ops@.len() - i,
        {
            if !self.ops[i].fits_wire() {
                assert(self@.ops[i as int] == self.ops@[i as int]@);
                return Err(RstzError::new("op does not fit the wire format"));
            }
            i = i + 1;
        }
        let mut buffer: Vec<u8> = Vec::new();
        write_varint(&mut buffer, self.source_size);
        write_varint(&mut buffer, self.target_size);
        let ghost head = buffer@;
        let ghost ops = self@.ops;
        let mut i: usize = 0;
        assert(ops.take(0) =~= Seq::<OpModel>::empty());
        while i < self.ops.len()
            invariant
                i <= self.ops@.len(),
                ops == self@.ops,
                ops.len() == self.ops@.len(),
                delta_encodable(self@),
                buffer@ == head + encode_ops(ops.take(i as int)),
            decreases self.ops@.len() - i,
        {
            assert(op_encodable(ops[i as int]));
            self.ops[i].encode(&mut buffer);
            proof {
                lemma_encode_ops_push(ops.take(i as int), ops[i as int]);
                assert(ops.take(i + 1) =~= ops.take(i as int).push(ops[i as int]));
            }
            i = i + 1;
        }
        assert(ops.take(i as int) =~= ops);
        Ok(buffer)
    }

    /// Reads a delta back from its wire form.
    pub fn decode(bytes: &[u8]) -> (r: Result<Delta, RstzError>)
        ensures
            match (r, decode_delta(bytes@)) {
                (Ok(d), Ok(m)) => d@ == m,
                (Err(e), Err(w)) => error_for(e, w),
                _ => false,
            },
    {
        let (source_size, p1) = match read_size(bytes, 0) {
            Ok(x) => x,
            Err(e) => return Err(e),
        };
        let (target_size, p2) = match read_size(bytes, p1) {
            Ok(x) => x,
            Err(e) => return Err(e),
        };
        let mut ops: Vec<Op> = Vec::new();
        let mut pos = p2;
        assert(ops_view(ops@) =~= Seq::<OpModel>::empty());
        assert(parse_ops(bytes@, p2 as int) == prepend_ops(
            ops_view(ops@),
            parse_ops(bytes@, pos as int),
        )) by {
            if let Ok(rest) = parse_ops(bytes@, pos as int) {
                assert(ops_view(ops@) + rest =~= rest);
            }
        }
        while pos < bytes.len()
            invariant
                parse_size(bytes@, 0) == Ok::<(usize, int), WireError>((source_size, p1 as int)),
                parse_size(bytes@, p1 as int) == Ok::<(usize, int), WireError>(
                    (target_size, p2 as int),
                ),
                parse_ops(bytes@, p2 as int) == prepend_ops(
                    ops_view(ops@),
                    parse_ops(bytes@, pos as int),
                ),
            decreases bytes@.len() - pos,
        {
            match read_op(bytes, pos) {
                Ok((op, next)) => {
                    let ghost done = ops_view(ops@);
                    ops.push(op);
                    proof {
                        assert(ops_view(ops@) =~= done.push(op@));
                        if let Ok(rest) = parse_ops(bytes@, next as int) {
                            assert(done + (seq![op@] + rest) =~= ops_view(ops@) + rest);
                        }
                    }
                    pos = next;
                },
                Err(e) => {
                    let ghost w = parse_op(bytes@, pos as int)->Err_0;
                    assert(parse_ops(bytes@, pos as int) == Err::<Seq<OpModel>, WireError>(w));
                    assert(parse_ops(bytes@, p2 as int) == Err::<Seq<OpModel>, WireError>(w));
                    assert(decode_delta(bytes@) == Err::<DeltaModel, WireError>(w));
                    return Err(e);
                },
            }
        }
        proof {
            assert(ops_view(ops@) + Seq::<OpModel>::empty() =~= ops_view(ops@));
        }
        Ok(Delta::new(source_size, target_size, ops))
    }
}

} // verus!
