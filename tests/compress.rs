use rstz::compressor::DeltaCompressor;
use rstz::delta::{BLOCK_SIZE, MAX_COPY_SIZE, MAX_INSERT_SIZE};
use rstz::{xdelta, Delta, Op};

const FOX: &str = "the quick brown fox jumps over the slow lazy dog";

fn replay(source: &[u8], delta: &Delta) -> Vec<u8> {
    let mut out = Vec::new();
    for op in &delta.ops {
        match op {
            Op::Copy(offset, size) => out.extend_from_slice(&source[*offset..*offset + *size]),
            Op::Insert(bytes) => out.extend_from_slice(bytes),
        }
    }
    out
}

fn op_len(op: &Op) -> usize {
    match op {
        Op::Copy(_, size) => *size,
        Op::Insert(bytes) => bytes.len(),
    }
}

fn ins(s: &str) -> Op {
    Op::Insert(s.as_bytes().to_vec())
}

/// Bytes with no block-aligned repeats: each 16-byte window is distinct.
fn pseudo_random(n: usize, seed: u32) -> String {
    let mut x = seed;
    let mut s = String::new();
    for _ in 0..n {
        x = x.wrapping_mul(1103515245).wrapping_add(12345);
        s.push((b'a' + ((x >> 16) % 26) as u8) as char);
    }
    s
}

#[test]
fn scenario_shared_middle() {
    let d = xdelta(FOX, "a swift auburn fox jumps over three dormant hounds");
    assert_eq!(d.ops, vec![ins("a swift aubur"), Op::Copy(14, 19), ins("ree dormant hounds")]);
}

#[test]
fn scenario_suffix_only() {
    let d = xdelta(FOX, "he slow lazy dog");
    assert_eq!(d.ops, vec![Op::Copy(32, 16)]);
}

#[test]
fn scenario_prefix_only() {
    let d = xdelta(FOX, "the quick brown ");
    assert_eq!(d.ops, vec![Op::Copy(0, 16)]);
}

#[test]
fn scenario_shifted_windows() {
    let d = xdelta("the quick brown fox", "a quick brown fox");
    assert_eq!(d.ops, vec![ins("a quick brown fox")]);
}

#[test]
fn sizes_are_recorded() {
    let d = xdelta(FOX, "he slow lazy dog");
    assert_eq!(d.source_size, 48);
    assert_eq!(d.target_size, 16);
}

#[test]
fn reconstruction_and_length() {
    let cases = [
        (FOX, "a swift auburn fox jumps over three dormant hounds"),
        (FOX, FOX),
        ("", "nothing to copy from"),
        (FOX, ""),
        ("abcdefghijklmnopabcdefghijklmnop", "xxabcdefghijklmnopabcdefghijklmnopyy"),
    ];
    for (s, t) in cases.iter() {
        let d = xdelta(s, t);
        assert_eq!(replay(s.as_bytes(), &d), t.as_bytes().to_vec());
        assert_eq!(d.ops.iter().map(op_len).sum::<usize>(), d.target_size);
    }
}

#[test]
fn long_literal_run_is_cut_at_insert_cap() {
    let t = pseudo_random(300, 7);
    let d = xdelta("", &t);
    let lens: Vec<usize> = d.ops.iter().map(op_len).collect();
    assert_eq!(lens, vec![MAX_INSERT_SIZE, MAX_INSERT_SIZE, 300 - 2 * MAX_INSERT_SIZE]);
    assert!(d.ops.iter().all(|op| matches!(op, Op::Insert(_))));
}

#[test]
fn empty_source_needs_ceil_inserts() {
    let t = pseudo_random(254, 3);
    let d = xdelta("", &t);
    assert_eq!(d.ops.len(), 2);
    assert_eq!(replay(b"", &d), t.as_bytes().to_vec());
}

#[test]
fn empty_target_gives_no_ops() {
    let d = xdelta(FOX, "");
    assert!(d.ops.is_empty());
    assert_eq!(d.target_size, 0);
}

#[test]
fn identity_within_copy_cap() {
    let s = pseudo_random(200, 11);
    let d = xdelta(&s, &s);
    assert_eq!(d.ops, vec![Op::Copy(0, 200)]);
}

#[test]
fn identity_of_exactly_one_block() {
    let s = "0123456789abcdef";
    assert_eq!(s.len(), BLOCK_SIZE);
    assert_eq!(xdelta(s, s).ops, vec![Op::Copy(0, BLOCK_SIZE)]);
}

#[test]
fn identity_shorter_than_block() {
    let s = "short one";
    assert_eq!(xdelta(s, s).ops, vec![ins("short one")]);
}

#[test]
fn identity_of_empty() {
    assert!(xdelta("", "").ops.is_empty());
}

#[test]
fn match_longer_than_copy_cap_is_split() {
    let s = "z".repeat(600);
    let d = xdelta(&s, &s);
    assert_eq!(
        d.ops,
        vec![Op::Copy(0, MAX_COPY_SIZE), Op::Copy(0, MAX_COPY_SIZE), Op::Copy(0, 600 - 2 * MAX_COPY_SIZE)]
    );
    assert_eq!(replay(s.as_bytes(), &d), s.as_bytes().to_vec());
}

#[test]
fn identity_past_copy_cap_ends_in_insert() {
    let s = pseudo_random(MAX_COPY_SIZE + 1, 5);
    let d = xdelta(&s, &s);
    assert_eq!(d.ops[0], Op::Copy(0, MAX_COPY_SIZE));
    assert_eq!(d.ops[1], Op::Insert(vec![s.as_bytes()[MAX_COPY_SIZE]]));
}

#[test]
fn left_extension_reclaims_literals() {
    // The window at target offset 2 is not aligned in the source, but the block at 16 is;
    // the literal bytes before it are taken back into the copy.
    let src = "0123456789abcdefghijklmnopqrstuv";
    let d = xdelta(src, "cdefghijklmnopqrstuv");
    assert_eq!(d.ops, vec![Op::Copy(12, 20)]);
}

#[test]
fn earliest_of_equally_long_matches_wins() {
    let src = "abcdefghijklmnopabcdefghijklmnop";
    let d = xdelta(src, "abcdefghijklmnop");
    assert_eq!(d.ops, vec![Op::Copy(0, 16)]);
}

#[test]
fn longest_candidate_wins() {
    let src = "abcdefghijklmnop-bcdefghijklmnopabcdefghijklmnopQRST";
    let d = xdelta(src, "abcdefghijklmnopQRST");
    assert_eq!(d.ops, vec![Op::Copy(32, 20)]);
}

#[test]
fn compressor_used_directly() {
    let s = FOX.as_bytes();
    let t = b"he slow lazy dog";
    let mut c = DeltaCompressor::new(s, t);
    c.compress();
    let d = c.gendelta();
    assert_eq!(d.ops, vec![Op::Copy(32, 16)]);
    assert_eq!(d.source_size, s.len());
    let again = c.gendelta();
    assert!(again.ops.is_empty());
}

#[test]
fn delta_new_keeps_fields() {
    let d = Delta::new(3, 4, vec![Op::Copy(0, 3), ins("x")]);
    assert_eq!(d.source_size, 3);
    assert_eq!(d.target_size, 4);
    assert_eq!(d.ops.len(), 2);
}
