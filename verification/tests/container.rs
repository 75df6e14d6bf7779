use canvapress::{
    build_step_index_from_a, decode_fill, encode_erase, lane_k, pidx_of, raw_pack, raw_unpack,
    ABitset, CodecError, PIXELS, RG_LIMIT_EXACT,
};

fn le32(raw: &[u8], off: usize) -> u32 {
    u32::from_le_bytes([raw[off], raw[off + 1], raw[off + 2], raw[off + 3]])
}

fn le64(raw: &[u8], off: usize) -> u64 {
    let mut b = [0u8; 8];
    b.copy_from_slice(&raw[off..off + 8]);
    u64::from_le_bytes(b)
}

#[test]
fn concrete_scenario() {
    let payload = vec![0x00u8, 0xFF, 0x10, 0x7E];
    let raw = encode_erase(&payload).unwrap();

    assert_eq!(&raw[0..4], b"CVP1");
    assert_eq!(le32(&raw, 4), 512);
    assert_eq!(le32(&raw, 8), 512);
    assert_eq!(le32(&raw, 12), 4);
    assert_eq!(le64(&raw, 16), 1u64 << 59);

    let out = decode_fill(&raw).unwrap();
    assert_eq!(out, payload);

    // A successful decode certifies the post-decode state, and the container
    // itself shows it: every cell's deficit is exactly the weight of the
    // steps that touched it, so adding the four weights back fills both
    // planes; the marker set holds exactly the four step bits.
    let (rg, a, n) = raw_unpack(&raw).unwrap();
    assert_eq!(n, 4);
    let idx = build_step_index_from_a(&a, n).unwrap();
    let mut r = rg.r;
    let mut g = rg.g;
    for step in (1..=4u32).rev() {
        let cell = idx[step as usize] as usize;
        let (lane, k) = lane_k(step);
        if lane == 0 {
            r[cell] += k;
        } else {
            g[cell] += k;
        }
    }
    assert!(r.iter().all(|&v| v == 1u64 << 59));
    assert!(g.iter().all(|&v| v == 1u64 << 59));
}

#[test]
fn encode_decode_deterministic() {
    let payload = vec![9u8, 8, 7, 6, 5, 4, 3, 2, 1];
    let raw1 = encode_erase(&payload).unwrap();
    let raw2 = encode_erase(&payload).unwrap();
    let out1 = decode_fill(&raw1).unwrap();
    let out2 = decode_fill(&raw2).unwrap();
    assert_eq!(out1, payload);
    assert_eq!(out2, payload);
    assert_eq!(out1, out2);
}

#[test]
fn empty_payload_rejected() {
    let payload: Vec<u8> = Vec::new();
    assert_eq!(encode_erase(&payload), Err(CodecError::EmptyPayload));
}

#[test]
fn corrupted_magic_rejected() {
    let payload = vec![42u8, 1, 2];
    let raw = encode_erase(&payload).unwrap();
    for i in 0..4 {
        let mut bad = raw.clone();
        bad[i] ^= 0xff;
        assert_eq!(decode_fill(&bad), Err(CodecError::BadMagic));
        assert!(matches!(raw_unpack(&bad), Err(CodecError::BadMagic)));
    }
}

#[test]
fn too_small_and_truncated_rejected() {
    let raw = vec![0x43u8, 0x56];
    assert!(matches!(raw_unpack(&raw), Err(CodecError::TooSmall)));

    let payload = vec![1u8, 2, 3];
    let full = encode_erase(&payload).unwrap();
    let cut = full[..20].to_vec();
    assert!(matches!(raw_unpack(&cut), Err(CodecError::Truncated)));
    let cut2 = full[..1000].to_vec();
    assert!(matches!(raw_unpack(&cut2), Err(CodecError::Truncated)));
}

#[test]
fn dimension_mismatch_rejected() {
    let payload = vec![5u8];
    let raw = encode_erase(&payload).unwrap();

    let mut bad_w = raw.clone();
    bad_w[4..8].copy_from_slice(&511u32.to_le_bytes());
    assert_eq!(decode_fill(&bad_w), Err(CodecError::BadDims));

    let mut bad_h = raw.clone();
    bad_h[8..12].copy_from_slice(&1024u32.to_le_bytes());
    assert_eq!(decode_fill(&bad_h), Err(CodecError::BadDims));
}

#[test]
fn limit_mismatch_rejected() {
    let payload = vec![5u8];
    let raw = encode_erase(&payload).unwrap();
    let mut bad = raw.clone();
    bad[16..24].copy_from_slice(&(1u64 << 58).to_le_bytes());
    assert_eq!(decode_fill(&bad), Err(CodecError::LimitMismatch));
}

#[test]
fn clearing_unset_marker_fails() {
    let mut a = ABitset::new();
    a.set_step(5, 7);
    // absent cell
    assert_eq!(a.clear_step(6, 7), Err(CodecError::MarkerMismatch));
    // absent page
    assert_eq!(a.clear_step(5, 700), Err(CodecError::MarkerMismatch));
    // bit already 0 in an existing page
    assert_eq!(a.clear_step(5, 8), Err(CodecError::MarkerMismatch));
    // the set bit clears once, then the structure is empty
    assert_eq!(a.clear_step(5, 7), Ok(()));
    assert!(a.is_empty());
    assert_eq!(a.clear_step(5, 7), Err(CodecError::MarkerMismatch));
}

#[test]
fn marker_set_and_emptiness() {
    let mut a = ABitset::new();
    assert!(a.is_empty());
    a.set_step(100, 1);
    a.set_step(100, 65);
    a.set_step(200, 2);
    assert!(!a.is_empty());
    assert_eq!(a.clear_step(100, 1), Ok(()));
    assert_eq!(a.clear_step(100, 65), Ok(()));
    assert!(!a.is_empty());
    assert_eq!(a.clear_step(200, 2), Ok(()));
    assert!(a.is_empty());
}

#[test]
fn step_index_roundtrip() {
    let mut a = ABitset::new();
    a.set_step(10, 1);
    a.set_step(20, 2);
    a.set_step(10, 3);
    let idx = build_step_index_from_a(&a, 3).unwrap();
    assert_eq!(idx.len(), 4);
    assert_eq!(idx[1], 10);
    assert_eq!(idx[2], 20);
    assert_eq!(idx[3], 10);
}

#[test]
fn step_index_missing_step() {
    let mut a = ABitset::new();
    a.set_step(10, 1);
    a.set_step(20, 3);
    assert_eq!(build_step_index_from_a(&a, 3), Err(CodecError::StepMissing));
}

#[test]
fn step_index_collision() {
    let mut a = ABitset::new();
    a.set_step(10, 1);
    a.set_step(20, 1);
    assert_eq!(build_step_index_from_a(&a, 1), Err(CodecError::StepCollision));
}

#[test]
fn decode_detects_collision() {
    let payload = vec![7u8];
    let raw = encode_erase(&payload).unwrap();
    let (rg, mut a, n) = raw_unpack(&raw).unwrap();
    // a second cell claiming step 1
    a.set_step(0, 1);
    let bad = raw_pack(&rg, &a, n);
    assert_eq!(decode_fill(&bad), Err(CodecError::StepCollision));
}

#[test]
fn decode_detects_stray_marker() {
    let payload = vec![7u8];
    let raw = encode_erase(&payload).unwrap();
    let (rg, mut a, n) = raw_unpack(&raw).unwrap();
    // a marker bit for a step beyond the step count survives the fill
    a.set_step(0, 2);
    let bad = raw_pack(&rg, &a, n);
    assert_eq!(decode_fill(&bad), Err(CodecError::NotEmpty));
}

#[test]
fn decode_detects_wrong_plane_total() {
    let payload = vec![7u8];
    let raw = encode_erase(&payload).unwrap();
    let (mut rg, a, n) = raw_unpack(&raw).unwrap();
    // cell 0 is untouched by the single step, so a deficit there never
    // refills
    rg.r[0] = (1u64 << 59) - 1;
    let bad = raw_pack(&rg, &a, n);
    assert_eq!(decode_fill(&bad), Err(CodecError::NotFull));
}

#[test]
fn decode_detects_lane_overflow() {
    let payload = vec![7u8];
    let raw = encode_erase(&payload).unwrap();
    let (mut rg, a, n) = raw_unpack(&raw).unwrap();
    // step 1 is odd, so it refills lane R at cell 1*512 + 7 with weight 1;
    // a value already at the limit overflows
    let cell = pidx_of(7, 1) as usize;
    assert_eq!(rg.r[cell], (1u64 << 59) - 1);
    rg.r[cell] = 1u64 << 59;
    let bad = raw_pack(&rg, &a, n);
    assert_eq!(decode_fill(&bad), Err(CodecError::LaneOverflow));
}

#[test]
fn bad_cell_index_rejected() {
    let payload = vec![7u8];
    let raw = encode_erase(&payload).unwrap();
    let (rg, a, n) = raw_unpack(&raw).unwrap();
    let mut bad = raw_pack(&rg, &a, n);
    // the single entry's cell index field starts right after the planes and
    // the entry count
    let entry_off = 24 + 16 * PIXELS + 4;
    bad[entry_off..entry_off + 4].copy_from_slice(&(PIXELS as u32).to_le_bytes());
    assert_eq!(decode_fill(&bad), Err(CodecError::BadCellIndex));
}

#[test]
fn lane_and_weight_assignment() {
    assert_eq!(lane_k(1), (0, 1));
    assert_eq!(lane_k(2), (1, 1));
    assert_eq!(lane_k(3), (0, 2));
    assert_eq!(lane_k(4), (1, 2));
    assert_eq!(lane_k(511), (0, 256));
    assert_eq!(lane_k(512), (1, 256));
}

#[test]
fn cell_addressing() {
    assert_eq!(pidx_of(0, 0), 0);
    assert_eq!(pidx_of(3, 2), 2 * 512 + 3);
    assert_eq!(pidx_of(511, 511), (PIXELS - 1) as u32);
}

#[test]
fn single_byte_roundtrip() {
    for b in [0u8, 1, 127, 128, 255] {
        let payload = vec![b];
        let raw = encode_erase(&payload).unwrap();
        assert_eq!(decode_fill(&raw).unwrap(), payload);
    }
}

#[test]
fn repeated_bytes_roundtrip() {
    // every step of a constant payload lands in a distinct cell of one column
    let payload = vec![0xABu8; 600];
    let raw = encode_erase(&payload).unwrap();
    assert_eq!(decode_fill(&raw).unwrap(), payload);
}

#[test]
fn trailing_bytes_ignored() {
    let payload = vec![1u8, 2];
    let mut raw = encode_erase(&payload).unwrap();
    raw.extend_from_slice(&[0xDE, 0xAD]);
    assert_eq!(decode_fill(&raw).unwrap(), payload);
}

#[test]
fn limit_constant_value() {
    assert_eq!(RG_LIMIT_EXACT, 576460752303423488);
}
