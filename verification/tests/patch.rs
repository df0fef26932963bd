use bindelta::{apply, decode, encode, get_patch, CodecError, EditOp};

fn copy(source_offset: usize, length: usize) -> EditOp {
    EditOp::Copy { source_offset, length }
}

fn insert(bytes: &[u8]) -> EditOp {
    EditOp::Insert { bytes: bytes.to_vec() }
}

fn noise(len: usize, mut state: u32, spread: u32) -> Vec<u8> {
    let mut out = Vec::with_capacity(len);
    for _ in 0..len {
        state = state.wrapping_mul(1664525).wrapping_add(1013904223);
        out.push(((state >> 16) % spread) as u8);
    }
    out
}

fn round_trip(source: &[u8], target: &[u8]) {
    let ops = get_patch(source, target);
    let bytes = encode(&ops);
    let decoded = decode(&bytes).unwrap();
    assert_eq!(decoded, ops);
    assert_eq!(apply(source, &decoded).unwrap(), target);
}

#[test]
fn shared_ends_become_copies_around_an_insert() {
    let ops = get_patch(b"abcdef", b"abcXYZdef");
    assert_eq!(ops, vec![copy(0, 3), insert(b"XYZ"), copy(3, 3)]);
    assert_eq!(apply(b"abcdef", &ops).unwrap(), b"abcXYZdef");
}

#[test]
fn shared_ends_encode_to_three_records() {
    let ops = get_patch(b"abcdef", b"abcXYZdef");
    assert_eq!(encode(&ops), vec![0, 0, 3, 1, 3, b'X', b'Y', b'Z', 0, 3, 3]);
}

#[test]
fn empty_source_gives_one_insert() {
    let ops = get_patch(b"", b"hello");
    assert_eq!(ops, vec![insert(b"hello")]);
    let bytes = encode(&ops);
    assert_eq!(bytes, vec![1, 5, b'h', b'e', b'l', b'l', b'o']);
    assert_eq!(decode(&bytes).unwrap(), ops);
}

#[test]
fn empty_target_gives_no_operation() {
    let ops = get_patch(b"anything", b"");
    assert_eq!(ops, Vec::<EditOp>::new());
    assert_eq!(encode(&ops), Vec::<u8>::new());
    assert_eq!(apply(b"anything", &ops).unwrap(), Vec::<u8>::new());
    assert_eq!(apply(b"", &ops).unwrap(), Vec::<u8>::new());
    assert_eq!(apply(b"something else", &ops).unwrap(), Vec::<u8>::new());
}

#[test]
fn both_empty_gives_no_operation() {
    assert_eq!(get_patch(b"", b""), Vec::<EditOp>::new());
    assert_eq!(decode(b"").unwrap(), Vec::<EditOp>::new());
}

#[test]
fn equal_buffers_give_one_copy() {
    assert_eq!(get_patch(b"a", b"a"), vec![copy(0, 1)]);
    assert_eq!(get_patch(b"ab", b"ab"), vec![copy(0, 2)]);
    assert_eq!(get_patch(b"abcabcabc", b"abcabcabc"), vec![copy(0, 9)]);
    let big = noise(5000, 7, 256);
    assert_eq!(get_patch(&big, &big), vec![copy(0, 5000)]);
}

#[test]
fn longest_match_wins() {
    let ops = get_patch(b"abcXabcY", b"abcY");
    assert_eq!(ops, vec![copy(4, 4)]);
}

#[test]
fn equal_matches_take_the_smallest_offset() {
    let ops = get_patch(b"abcabc", b"abcQ");
    assert_eq!(ops, vec![copy(0, 3), insert(b"Q")]);
    let ops = get_patch(b"xyzxyzxyz", b"__xyz");
    assert_eq!(ops, vec![insert(b"__"), copy(0, 3)]);
}

#[test]
fn runs_below_the_minimum_stay_literal() {
    let ops = get_patch(b"abcdef", b"abXcdYef");
    assert_eq!(ops, vec![insert(b"abXcdYef")]);
    let ops = get_patch(b"ab", b"abab");
    assert_eq!(ops, vec![insert(b"abab")]);
}

#[test]
fn literals_between_copies_are_joined() {
    let ops = get_patch(b"0123456789", b"123ab789cd");
    assert_eq!(ops, vec![copy(1, 3), insert(b"ab"), copy(7, 3), insert(b"cd")]);
}

#[test]
fn a_match_may_run_to_the_end_of_the_source() {
    let ops = get_patch(b"hello world", b"say world!");
    assert_eq!(ops, vec![insert(b"say"), copy(5, 6), insert(b"!")]);
}

#[test]
fn repeated_source_is_copied_greedily() {
    let ops = get_patch(b"aaaa", b"aaaaaaaaaa");
    assert_eq!(ops, vec![copy(0, 4), copy(0, 4), insert(b"aa")]);
}

#[test]
fn patches_round_trip_through_the_wire() {
    round_trip(b"", b"");
    round_trip(b"", b"x");
    round_trip(b"x", b"");
    round_trip(b"abcdef", b"abcXYZdef");
    round_trip(b"the quick brown fox", b"the quick red fox jumps");
    round_trip(&[0, 0, 0, 0, 0, 0, 0], &[0, 0, 0, 0, 0, 0, 0, 0, 0, 0, 0, 0, 0]);
    round_trip(&[0, 255, 0, 255, 1, 2, 3], &[1, 2, 3, 0, 255, 0, 255, 0]);
}

#[test]
fn edited_noise_round_trips() {
    let source = noise(6000, 1, 256);
    let mut target = source[1000..3000].to_vec();
    target.extend_from_slice(&noise(300, 2, 256));
    target.extend_from_slice(&source[0..500]);
    target.extend_from_slice(&source[5500..]);
    let ops = get_patch(&source, &target);
    assert_eq!(
        ops,
        vec![
            copy(1000, 2000),
            insert(&target[2000..2300]),
            copy(0, 500),
            copy(5500, 500),
        ]
    );
    round_trip(&source, &target);
}

#[test]
fn narrow_alphabet_round_trips() {
    let source = noise(3000, 11, 3);
    let target = noise(3000, 12, 3);
    round_trip(&source, &target);
    let source = noise(2000, 13, 2);
    let mut target = source.clone();
    target[1000] ^= 1;
    target.insert(500, 9);
    round_trip(&source, &target);
}

#[test]
fn varints_take_the_fewest_bytes() {
    assert_eq!(encode(&[copy(0, 127)]), vec![0, 0, 127]);
    assert_eq!(encode(&[copy(128, 300)]), vec![0, 0x80, 0x01, 0xAC, 0x02]);
    assert_eq!(encode(&[copy(16383, 16384)]), vec![0, 0xFF, 0x7F, 0x80, 0x80, 0x01]);
    let literal = vec![b'z'; 200];
    let mut expected = vec![1, 0xC8, 0x01];
    expected.extend_from_slice(&literal);
    assert_eq!(encode(&[insert(&literal)]), expected);
}

#[test]
fn largest_numbers_round_trip() {
    let ops = vec![copy(usize::MAX, usize::MAX), copy(usize::MAX - 1, 0), insert(b"")];
    let bytes = encode(&ops);
    assert_eq!(decode(&bytes).unwrap(), ops);
    assert_eq!(encode(&[insert(b"")]), vec![1, 0]);
}

#[test]
fn unknown_tag_is_a_format_error() {
    assert_eq!(decode(&[2]), Err(CodecError::Format));
    assert_eq!(decode(&[0, 0, 3, 255, 1, 1]), Err(CodecError::Format));
}

#[test]
fn truncated_records_are_format_errors() {
    assert_eq!(decode(&[0]), Err(CodecError::Format));
    assert_eq!(decode(&[0, 5]), Err(CodecError::Format));
    assert_eq!(decode(&[0, 0x80]), Err(CodecError::Format));
    assert_eq!(decode(&[0, 5, 0x80]), Err(CodecError::Format));
    assert_eq!(decode(&[1]), Err(CodecError::Format));
    assert_eq!(decode(&[1, 5, b'a']), Err(CodecError::Format));
    assert_eq!(decode(&[1, 2, b'a', b'b', 1]), Err(CodecError::Format));
    let whole = encode(&get_patch(b"abcdef", b"abcXYZdef"));
    for cut in 1..whole.len() {
        if cut != 3 && cut != 8 {
            assert_eq!(decode(&whole[..cut]), Err(CodecError::Format));
        }
    }
    assert_eq!(decode(&whole[..3]).unwrap(), vec![copy(0, 3)]);
    assert_eq!(decode(&whole[..8]).unwrap(), vec![copy(0, 3), insert(b"XYZ")]);
}

#[test]
fn padded_varints_are_format_errors() {
    assert_eq!(decode(&[0, 0x80, 0x00, 3]), Err(CodecError::Format));
    assert_eq!(decode(&[0, 3, 0x83, 0x00]), Err(CodecError::Format));
    assert_eq!(decode(&[1, 0x81, 0x00, b'a']), Err(CodecError::Format));
}

#[test]
fn oversized_varints_are_format_errors() {
    let mut bytes = vec![0];
    bytes.extend_from_slice(&[0xFF; 10]);
    bytes.push(0x01);
    bytes.push(0);
    assert_eq!(decode(&bytes), Err(CodecError::Format));
    let mut bytes = vec![0];
    bytes.extend_from_slice(&[0xFF; 9]);
    bytes.push(0x02);
    bytes.push(0);
    assert_eq!(decode(&bytes), Err(CodecError::Format));
}

#[test]
fn insert_longer_than_the_buffer_is_a_format_error() {
    let mut bytes = vec![1];
    bytes.extend_from_slice(&[0xFF; 9]);
    bytes.push(0x01);
    bytes.extend_from_slice(b"abc");
    if usize::MAX as u128 == u64::MAX as u128 {
        assert_eq!(decode(&bytes), Err(CodecError::Format));
    }
}

#[test]
fn copy_past_the_source_is_a_range_error() {
    assert_eq!(apply(b"abcdef", &[copy(4, 10)]), Err(CodecError::Range));
    assert_eq!(apply(b"abcdef", &[copy(7, 0)]), Err(CodecError::Range));
    assert_eq!(apply(b"abcdef", &[copy(0, 7)]), Err(CodecError::Range));
    assert_eq!(apply(b"", &[copy(0, 1)]), Err(CodecError::Range));
    assert_eq!(apply(b"abcdef", &[copy(usize::MAX, 2)]), Err(CodecError::Range));
    assert_eq!(apply(b"abcdef", &[insert(b"ok"), copy(0, 2), copy(5, 2)]), Err(CodecError::Range));
}

#[test]
fn copies_at_the_edges_apply() {
    assert_eq!(apply(b"abcdef", &[copy(6, 0)]).unwrap(), b"");
    assert_eq!(apply(b"abcdef", &[copy(0, 6)]).unwrap(), b"abcdef");
    assert_eq!(apply(b"abcdef", &[copy(5, 1), insert(b"-"), copy(0, 1)]).unwrap(), b"f-a");
    assert_eq!(apply(b"", &[copy(0, 0), insert(b"")]).unwrap(), b"");
}

#[test]
fn errors_describe_themselves() {
    assert_eq!(CodecError::Format.message(), "patch bytes are not a valid operation list");
    assert_eq!(CodecError::Range.message(), "copy operation reaches past the end of the source");
    assert_eq!(CodecError::CodeMismatch.message(), "packed stream does not match the code table");
}

#[test]
fn large_buffers_round_trip() {
    let source = noise(100_000, 61, 256);
    let mut target = source.clone();
    for at in (0..target.len()).step_by(5000) {
        target[at] = target[at].wrapping_add(1);
    }
    target.extend_from_slice(&noise(1000, 62, 256));
    round_trip(&source, &target);
    let ops = get_patch(&source, &target);
    assert!(ops.len() < 100);
    assert!(encode(&ops).len() < 2000);
}

#[test]
fn long_runs_are_matched_at_once() {
    let mut source = vec![0u8; 200_000];
    source.push(b'x');
    let mut target = vec![0u8; 200_000];
    target.push(b'y');
    let ops = get_patch(&source, &target);
    assert_eq!(ops, vec![copy(0, 200_000), insert(b"y")]);
    assert_eq!(encode(&ops), vec![0, 0, 0xC0, 0x9A, 0x0C, 1, 1, b'y']);
}
