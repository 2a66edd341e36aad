use juniward::stc::{
    bits_to_bytes, bytes_to_bits, stc_embed, stc_extract, StcError, StcParams, INF_COST,
};

#[test]
fn bytes_to_bits_is_msb_first() {
    assert_eq!(bytes_to_bits(&[0b1010_0001, 0xff]), vec![1, 0, 1, 0, 0, 0, 0, 1, 1, 1, 1, 1, 1, 1, 1, 1]);
    assert_eq!(bytes_to_bits(&[]), Vec::<u8>::new());
}

#[test]
fn bits_to_bytes_packs_msb_first_and_pads_the_last_byte() {
    assert_eq!(bits_to_bytes(&[1, 0, 1, 0, 0, 0, 0, 1]), vec![0b1010_0001]);
    assert_eq!(bits_to_bytes(&[1, 1, 0, 1, 0, 0, 0, 0, 1, 1]), vec![0b1101_0000, 0b1100_0000]);
    assert_eq!(bits_to_bytes(&[]), Vec::<u8>::new());
}

#[test]
fn bits_roundtrip_on_concrete_bytes() {
    let message = b"Secret payload".to_vec();
    assert_eq!(bits_to_bytes(&bytes_to_bits(&message)), message);
    let bits = vec![0, 1, 1, 0, 1, 1, 0, 1, 1, 0, 0, 0, 0, 0, 0, 1];
    assert_eq!(bytes_to_bits(&bits_to_bytes(&bits)), bits);
}

#[test]
fn stc_embed_flips_the_cheapest_position_of_each_mismatching_group() {
    // k = 2: group 0 = {0, 2, 4}, group 1 = {1, 3, 5}
    let cover = [0, 0, 1, 1, 0, 1];
    let costs = [5, 9, 3, 2, 3, 7];
    let message = [0, 1];
    let params = StcParams::new(7);
    let stego = stc_embed(&cover, &costs, &message, &params).unwrap();
    // group 0 parity 1 != 0: cheapest is position 2 (cost 3, first of the ties)
    // group 1 parity 0 != 1: cheapest is position 3 (cost 2)
    assert_eq!(stego, vec![0, 0, 0, 0, 0, 1]);
    assert_eq!(stc_extract(&stego, 2, &params), vec![0, 1]);
}

#[test]
fn stc_embed_reports_a_message_longer_than_the_cover() {
    let params = StcParams::new(7);
    let err = stc_embed(&[0, 1], &[1, 1], &[1, 0, 1], &params).unwrap_err();
    assert_eq!(err, StcError::PayloadTooLarge { payload: 3, capacity: 2 });
}

#[test]
fn stc_embed_with_empty_message_returns_the_cover() {
    let params = StcParams::new(7);
    let stego = stc_embed(&[1, 0, 1], &[], &[], &params).unwrap();
    assert_eq!(stego, vec![1, 0, 1]);
}

#[test]
fn stc_embed_skips_infinite_costs_when_choosing_the_flip() {
    let params = StcParams::new(7);
    let stego = stc_embed(&[0, 0, 0], &[INF_COST, 8, INF_COST], &[1], &params).unwrap();
    assert_eq!(stego, vec![0, 1, 0]);
}

#[test]
fn stc_extract_computes_group_parities() {
    let params = StcParams::new(7);
    assert_eq!(stc_extract(&[1, 1, 0, 1, 1], 2, &params), vec![0, 0]);
    assert_eq!(stc_extract(&[1, 1, 0, 1, 1], 3, &params), vec![0, 0, 0]);
    assert_eq!(stc_extract(&[1, 0], 4, &params), vec![1, 0, 0, 0]);
}

#[test]
fn stc_roundtrip_on_a_longer_cover() {
    let params = StcParams::new(7);
    let cover: Vec<u8> = (0..40u32).map(|i| ((i * 7 + 3) % 5 % 2) as u8).collect();
    let costs: Vec<u64> = (0..40u64).map(|i| (i * 37) % 11 + 1).collect();
    let message = bytes_to_bits(&[0b1011_0010]);
    let stego = stc_embed(&cover, &costs, &message, &params).unwrap();
    assert_eq!(stc_extract(&stego, message.len(), &params), message);
    let changes = stego.iter().zip(cover.iter()).filter(|(a, b)| a != b).count();
    assert!(changes <= message.len());
}

#[test]
fn stc_params_standard_generator_and_states() {
    let params = StcParams::new(7);
    assert_eq!(params.h_hat, vec![0b1011011u64, 0b1111001u64, 0b1010011u64]);
    assert_eq!(params.h_height, 7);
    assert_eq!(params.num_states(), 128);
    assert_eq!(StcParams::new(3).num_states(), 8);
}

#[test]
fn next_state_xors_the_rotated_column() {
    let params = StcParams::new(7);
    assert_eq!(params.next_state(5, 0, 0), 5);
    assert_eq!(params.next_state(0, 0, 1), 0b1011011);
    assert_eq!(params.next_state(0, 1, 1), 0b1111001);
    // column 3: word 0 rotated left by one within 7 bits
    assert_eq!(params.next_state(0, 3, 1), 0b0110111);
    let s = params.next_state(42, 7, 1);
    assert!(s < params.num_states());
    assert_eq!(params.next_state(s, 7, 1), 42);
}

#[test]
fn error_texts() {
    assert_eq!(
        StcError::PayloadTooLarge { payload: 12, capacity: 4 }.describe(),
        "Payload (12 bit) supera capacità (4 bit)"
    );
    assert_eq!(
        StcError::EmbeddingFailed.describe(),
        "STC embedding fallito: nessun percorso valido nel trellis"
    );
}
