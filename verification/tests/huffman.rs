use bindelta::{
    accept_symbols, build, compress, encode, get_patch, pack, unpack, CodecError, HuffmanCode,
};

fn table_with(weights: &[(u8, u8)]) -> Vec<u8> {
    let mut table = vec![0u8; 256];
    for &(value, weight) in weights {
        table[value as usize] = weight;
    }
    table
}

fn noise(len: usize, mut state: u32, spread: u32) -> Vec<u8> {
    let mut out = Vec::with_capacity(len);
    for _ in 0..len {
        state = state.wrapping_mul(1664525).wrapping_add(1013904223);
        out.push(((state >> 16) % spread) as u8);
    }
    out
}

fn round_trip(data: &[u8]) {
    let (stream, code) = compress(data);
    assert_eq!(unpack(&stream, &code).unwrap(), data);
    let stored = code.to_table();
    let restored = HuffmanCode::from_table(&stored).unwrap();
    assert_eq!(unpack(&stream, &restored).unwrap(), data);
}

#[test]
fn weights_are_shares_of_the_largest_count() {
    let code = build(&[1, 2, 3, 1, 1, 2]);
    assert_eq!(code.to_table(), table_with(&[(1, 255), (2, 170), (3, 85)]));
    let code = build(&[0, 0, 1, 2, 2]);
    assert_eq!(code.to_table(), table_with(&[(0, 255), (1, 127), (2, 255)]));
}

#[test]
fn rare_bytes_keep_a_weight_of_one() {
    let mut data = vec![9u8; 300];
    data.push(200);
    let code = build(&data);
    assert_eq!(code.to_table(), table_with(&[(9, 255), (200, 1)]));
    assert!(code.contains(200));
    assert!(!code.contains(201));
    assert_eq!(code.symbol_count(), 2);
}

#[test]
fn empty_data_has_the_empty_code() {
    let code = build(&[]);
    assert_eq!(code.to_table(), vec![0u8; 256]);
    assert_eq!(code.symbol_count(), 0);
    assert_eq!(pack(&[], &code), Vec::<u8>::new());
    assert_eq!(unpack(&[], &code).unwrap(), Vec::<u8>::new());
    assert_eq!(unpack(&[8], &code), Err(CodecError::CodeMismatch));
    round_trip(&[]);
}

#[test]
fn single_value_gets_a_code_of_one_bit() {
    let code = build(&[7, 7, 7]);
    assert_eq!(code.to_table(), table_with(&[(7, 255)]));
    assert_eq!(code.symbol_count(), 1);
    assert_eq!(pack(&[7, 7, 7], &code), vec![0b1110_0000, 3]);
    assert_eq!(unpack(&[0b1110_0000, 3], &code).unwrap(), vec![7, 7, 7]);
    let code = build(&[0, 0]);
    assert_eq!(code.to_table(), table_with(&[(0, 255)]));
    assert_eq!(pack(&[0, 0], &code), vec![0b1100_0000, 2]);
    assert_eq!(unpack(&[0b1100_0000, 2], &code).unwrap(), vec![0, 0]);
}

#[test]
fn single_value_round_trips_at_every_length() {
    for len in 1..40 {
        let data = vec![65u8; len];
        let (stream, code) = compress(&data);
        assert_eq!(stream.len(), (len + 7) / 8 + 1);
        assert_eq!(unpack(&stream, &code).unwrap(), data);
    }
    round_trip(&[0]);
    round_trip(&[255]);
    round_trip(&[1; 1000]);
}

#[test]
fn partner_of_a_single_value_is_not_a_symbol() {
    let code = build(&[7, 7, 7]);
    assert_eq!(unpack(&[0b1010_0000, 3], &code), Err(CodecError::CodeMismatch));
    assert_eq!(unpack(&[0b0000_0000, 3], &code), Err(CodecError::CodeMismatch));
    assert!(!code.contains(0));
}

#[test]
fn packing_writes_codes_and_a_bit_count() {
    let code = build(&[0, 0, 1, 2, 2]);
    assert_eq!(pack(&[2, 2, 0, 0, 1], &code), vec![43, 8]);
    assert_eq!(pack(&[0, 0, 1, 1, 2, 2, 2, 2], &code), vec![175, 0, 4]);
    assert_eq!(pack(&[], &code), vec![8]);
}

#[test]
fn unpacking_reads_codes_up_to_the_bit_count() {
    let code = build(&[0, 0, 1, 2, 2]);
    assert_eq!(unpack(&[43, 8], &code).unwrap(), vec![2, 2, 0, 0, 1]);
    assert_eq!(unpack(&[175, 0, 4], &code).unwrap(), vec![0, 0, 1, 1, 2, 2, 2, 2]);
    assert_eq!(unpack(&[8], &code).unwrap(), Vec::<u8>::new());
    assert_eq!(unpack(&[175, 0b0000_1111, 4], &code).unwrap(), vec![0, 0, 1, 1, 2, 2, 2, 2]);
}

#[test]
fn stored_table_rebuilds_the_code() {
    let stored = table_with(&[(0, 255), (1, 128), (2, 255)]);
    let code = HuffmanCode::from_table(&stored).unwrap();
    assert_eq!(code.to_table(), stored);
    assert_eq!(unpack(&[175, 0, 4], &code).unwrap(), vec![0, 0, 1, 1, 2, 2, 2, 2]);
    assert!(HuffmanCode::from_table(&stored[..255]).is_none());
    assert!(HuffmanCode::from_table(&[]).is_none());
    let mut long = stored.clone();
    long.push(0);
    assert!(HuffmanCode::from_table(&long).is_none());
}

#[test]
fn stream_without_a_bit_count_is_a_mismatch() {
    let code = build(&[0, 0, 1, 2, 2]);
    assert_eq!(unpack(&[], &code), Err(CodecError::CodeMismatch));
    assert_eq!(unpack(&[43, 0], &code), Err(CodecError::CodeMismatch));
    assert_eq!(unpack(&[43, 9], &code), Err(CodecError::CodeMismatch));
    assert_eq!(unpack(&[43, 255], &code), Err(CodecError::CodeMismatch));
}

#[test]
fn stream_that_ends_inside_a_code_is_a_mismatch() {
    let code = build(&[0, 0, 1, 2, 2]);
    assert_eq!(unpack(&[0b1000_0000, 1], &code), Err(CodecError::CodeMismatch));
    assert_eq!(unpack(&[43, 0b0010_0000, 3], &code), Err(CodecError::CodeMismatch));
    assert_eq!(unpack(&[43, 0b0110_0000, 3], &code).unwrap(), vec![2, 2, 0, 0, 1, 2, 1]);
}

#[test]
fn outcome_of_the_coder_is_checked_against_the_code() {
    let code = build(&[5, 6, 6]);
    assert_eq!(accept_symbols(&code, Some(vec![5, 6, 5])).unwrap(), vec![5, 6, 5]);
    assert_eq!(accept_symbols(&code, Some(vec![])).unwrap(), Vec::<u8>::new());
    assert_eq!(accept_symbols(&code, Some(vec![5, 7])), Err(CodecError::CodeMismatch));
    assert_eq!(accept_symbols(&code, None), Err(CodecError::CodeMismatch));
    assert!(code.covers(&[6, 6, 5]));
    assert!(!code.covers(&[6, 0]));
}

#[test]
fn same_data_gives_the_same_table() {
    let data = noise(4000, 3, 200);
    assert_eq!(build(&data).to_table(), build(&data.clone()).to_table());
    let (first, _) = compress(&data);
    let (second, _) = compress(&data);
    assert_eq!(first, second);
}

#[test]
fn table_depends_on_counts_only() {
    let data = noise(4000, 5, 17);
    let mut shuffled = data.clone();
    shuffled.reverse();
    shuffled.sort();
    assert_eq!(build(&data).to_table(), build(&shuffled).to_table());
}

#[test]
fn data_round_trips() {
    round_trip(b"ab");
    round_trip(b"abracadabra");
    round_trip(&[0, 255]);
    round_trip(&noise(5000, 21, 256));
    round_trip(&noise(5000, 22, 5));
    let every: Vec<u8> = (0..=255u8).collect();
    round_trip(&every);
    let mut skewed = vec![b' '; 3000];
    skewed.extend_from_slice(&every);
    round_trip(&skewed);
}

#[test]
fn data_round_trips_at_every_padding() {
    let base = noise(64, 31, 4);
    for len in 2..64 {
        if base[..len].iter().any(|&b| b != base[0]) {
            round_trip(&base[..len]);
        }
    }
}

#[test]
fn compressed_patch_round_trips_to_its_last_byte() {
    let patch = encode(&get_patch(b"abcdef", b"abcXYZdef"));
    let (stream, code) = compress(&patch);
    let restored = HuffmanCode::from_table(&code.to_table()).unwrap();
    let back = unpack(&stream, &restored).unwrap();
    assert_eq!(back.len(), patch.len());
    for at in 0..patch.len() {
        assert_eq!(back[at], patch[at]);
    }
    assert_eq!(back, patch);
}

#[test]
fn compress_is_build_then_pack() {
    let data = noise(1000, 41, 50);
    let (stream, code) = compress(&data);
    let built = build(&data);
    assert_eq!(code.to_table(), built.to_table());
    assert_eq!(stream, pack(&data, &built));
    assert_ne!(stream, data);
}

#[test]
fn weights_follow_the_counts() {
    let mut data = noise(3000, 51, 40);
    data.extend_from_slice(&[250; 5000]);
    data.push(251);
    let mut counts = [0usize; 256];
    for &byte in &data {
        counts[byte as usize] += 1;
    }
    let most = *counts.iter().max().unwrap();
    let mut expected = vec![0u8; 256];
    for value in 0..256 {
        if counts[value] > 0 {
            let share = counts[value] * 255 / most;
            expected[value] = if share < 1 { 1 } else { share as u8 };
        }
    }
    assert_eq!(most, 5000);
    assert_eq!(expected[251], 1);
    assert_eq!(expected[250], 255);
    assert_eq!(build(&data).to_table(), expected);
}
