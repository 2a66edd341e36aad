use juniward::jpeg::{flip_lsb, lsb_of, JpegDct};
use juniward::stc::{StcError, StcParams};
use juniward::uniward::reflect_index;
use juniward::{
    ac_cost_view, ac_lsbs, apply_stego_bits, embed, embed_with_params, extract,
    extract_with_params, nonzero_ac_count, JuniwardError,
};

fn sample_dct(n_blocks: usize) -> JpegDct {
    let mut blocks = Vec::new();
    for b in 0..n_blocks {
        for i in 0..64usize {
            let m = 2 + ((b * 131 + i * 17) % 23) as i16;
            let v = if i % 9 == 0 {
                ((i / 9) % 3) as i16 - 1
            } else if (b + i) % 2 == 0 {
                m
            } else {
                -m
            };
            blocks.push(if i == 0 { 400 + b as i16 } else { v });
        }
    }
    JpegDct { blocks, width_blocks: n_blocks, height_blocks: 1, qt: vec![1; 64] }
}

fn sample_costs(len: usize) -> Vec<u64> {
    (0..len as u64).map(|i| (i * 7919) % 1000 + 1).collect()
}

#[test]
fn coefficient_bits_and_flips() {
    assert_eq!(lsb_of(-3), 1);
    assert_eq!(lsb_of(4), 0);
    assert_eq!(lsb_of(0), 0);
    assert_eq!(lsb_of(i16::MIN), 0);
    assert_eq!(flip_lsb(4), 5);
    assert_eq!(flip_lsb(5), 4);
    assert_eq!(flip_lsb(-3), -2);
    assert_eq!(flip_lsb(-2), -3);
    assert_eq!(flip_lsb(0), 0);
    assert_eq!(flip_lsb(i16::MIN), i16::MAX);
}

#[test]
fn cover_view_skips_dc_and_freezes_small_coefficients() {
    let mut blocks = vec![0i16; 64];
    blocks[0] = 9;
    blocks[1] = 1;
    blocks[2] = -1;
    blocks[3] = 0;
    blocks[4] = -6;
    blocks[5] = 7;
    let costs: Vec<u64> = (0..64u64).collect();
    let bits = ac_lsbs(&blocks);
    assert_eq!(bits.len(), 63);
    assert_eq!(&bits[..5], &[1, 1, 0, 0, 1]);
    let view = ac_cost_view(&blocks, &costs);
    assert_eq!(view.len(), 63);
    assert_eq!(&view[..5], &[u64::MAX, u64::MAX, u64::MAX, 4, 5]);
    assert_eq!(nonzero_ac_count(&blocks), 4);
}

#[test]
fn incomplete_blocks_are_ignored() {
    let blocks = vec![3i16; 70];
    assert_eq!(ac_lsbs(&blocks).len(), 63);
    assert_eq!(nonzero_ac_count(&blocks), 63);
    let stego = apply_stego_bits(&blocks, &vec![0u8; 63]);
    assert_eq!(&stego[64..], &blocks[64..]);
    assert_eq!(stego[0], 3);
    assert_eq!(stego[1], 2);
}

#[test]
fn embed_and_extract_roundtrip_on_coefficients() {
    let cover = sample_dct(6);
    let costs = sample_costs(cover.blocks.len());
    let message = b"jpeg roundtrip";
    let max_bits = nonzero_ac_count(&cover.blocks);
    let stego_blocks = embed(&cover, &costs, message, max_bits, 7).expect("embedding failed");
    assert_ne!(stego_blocks, cover.blocks);
    for (i, (s, c)) in stego_blocks.iter().zip(cover.blocks.iter()).enumerate() {
        if i % 64 == 0 || (-1..=1).contains(c) {
            assert_eq!(s, c);
        }
    }
    let stego = JpegDct { blocks: stego_blocks, width_blocks: 6, height_blocks: 1, qt: vec![1; 64] };
    let recovered = extract(&stego, message.len()).expect("extraction failed");
    assert_eq!(recovered, message);
}

#[test]
fn embed_and_extract_roundtrip_with_explicit_params() {
    let cover = sample_dct(8);
    let costs = sample_costs(cover.blocks.len());
    let message = b"keyed jpeg roundtrip";
    let params = StcParams::new(5);
    let stego_blocks =
        embed_with_params(&cover, &costs, message, 10_000, &params).expect("embedding failed");
    let stego = JpegDct { blocks: stego_blocks, width_blocks: 8, height_blocks: 1, qt: vec![1; 64] };
    let recovered = extract_with_params(&stego, message.len(), &params).expect("extraction failed");
    assert_eq!(recovered, message);
}

#[test]
fn payload_too_large_on_coefficients_reports_requested_and_available_bits() {
    let cover = sample_dct(2);
    let costs = sample_costs(cover.blocks.len());
    let message = vec![0u8; 128];
    let max_bits = nonzero_ac_count(&cover.blocks) * 2 / 5;
    let err = embed(&cover, &costs, &message, max_bits, 7).unwrap_err();
    match err {
        JuniwardError::PayloadTooLarge { payload_bits, max_bits: available } => {
            assert_eq!(payload_bits, message.len() * 8);
            assert_eq!(available, max_bits);
            assert!(available < payload_bits);
        }
        other => panic!("expected payload-too-large error, got {other:?}"),
    }
}

#[test]
fn embedding_into_frozen_coefficients_fails() {
    let cover = JpegDct { blocks: vec![1i16; 128], width_blocks: 2, height_blocks: 1, qt: vec![1; 64] };
    let costs = vec![1u64; 128];
    // every AC coefficient carries bit 1; a message bit 0 needs a flip that no coefficient allows
    let err = embed(&cover, &costs, &[0u8], 1000, 7).unwrap_err();
    assert!(matches!(err, JuniwardError::EmbeddingFailed(StcError::EmbeddingFailed)));
}

#[test]
fn stc_errors_convert_into_library_errors() {
    let e: JuniwardError = StcError::EmbeddingFailed.into();
    assert!(matches!(e, JuniwardError::EmbeddingFailed(StcError::EmbeddingFailed)));
}

#[test]
fn library_error_texts() {
    let e = JuniwardError::PayloadTooLarge { payload_bits: 1024, max_bits: 300 };
    assert_eq!(e.describe(), "Payload too large: 1024 bits requested, max safe payload is 300 bits");
    let e = JuniwardError::InvalidJpeg("truncated".to_string());
    assert_eq!(e.describe(), "Invalid JPEG: truncated");
    let e = JuniwardError::EmbeddingFailed(StcError::PayloadTooLarge { payload: 0, capacity: 10 });
    assert_eq!(e.describe(), "Embedding failed: Payload (0 bit) supera capacità (10 bit)");
}

#[test]
fn extract_of_zero_bytes_is_empty() {
    let stego = sample_dct(1);
    assert_eq!(extract(&stego, 0).unwrap(), Vec::<u8>::new());
}

#[test]
fn reflect_index_mirrors_at_both_borders() {
    assert_eq!(reflect_index(-1, 5), 0);
    assert_eq!(reflect_index(-2, 5), 1);
    assert_eq!(reflect_index(2, 5), 2);
    assert_eq!(reflect_index(5, 5), 4);
    assert_eq!(reflect_index(6, 5), 3);
    assert_eq!(reflect_index(-8, 3), 0);
    assert_eq!(reflect_index(9, 3), 0);
}
