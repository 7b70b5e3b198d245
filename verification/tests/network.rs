use endspiel::nnue::network::{NnueNetwork, HEADER_SIZE, LEGACY_NET_FILE_SIZE, NET_FILE_SIZE, PAD_ALIGN};
use endspiel::nnue::{FEATURES_PER_BUCKET, HIDDEN_SIZE, INPUT_SIZE, L1_SIZE, L2_SIZE, NUM_BUCKETS, OUTPUT_BUCKETS, PIECE_FEATURES};

const LEGACY_INPUT_SIZE: usize = PIECE_FEATURES * NUM_BUCKETS;

fn expected_header() -> [u8; HEADER_SIZE] {
    let mut header = [0u8; HEADER_SIZE];
    header[..8].copy_from_slice(b"ESPNNUE2");
    for (idx, value) in [
        2u32,
        INPUT_SIZE as u32,
        HIDDEN_SIZE as u32,
        OUTPUT_BUCKETS as u32,
        L1_SIZE as u32,
        L2_SIZE as u32,
    ]
    .into_iter()
    .enumerate()
    {
        let start = 8 + idx * 4;
        header[start..start + 4].copy_from_slice(&value.to_le_bytes());
    }
    header
}

fn blank_net(extra_padding: usize) -> Vec<u8> {
    let mut bytes = vec![0u8; NET_FILE_SIZE + extra_padding];
    bytes[..HEADER_SIZE].copy_from_slice(&expected_header());
    bytes
}

fn legacy_blank_net() -> Vec<u8> {
    let mut bytes = vec![0u8; LEGACY_NET_FILE_SIZE];
    let mut header = expected_header();
    header[8..12].copy_from_slice(&1u32.to_le_bytes());
    header[12..16].copy_from_slice(&(LEGACY_INPUT_SIZE as u32).to_le_bytes());
    bytes[..HEADER_SIZE].copy_from_slice(&header);
    bytes
}

#[test]
fn accepts_exact_and_padded_sizes() {
    assert!(NnueNetwork::from_bytes(&blank_net(0)).is_ok());
    assert!(NnueNetwork::from_bytes(&blank_net(32)).is_ok());
}

#[test]
fn rejects_bad_header_and_sizes() {
    assert!(NnueNetwork::from_bytes(&vec![0u8; NET_FILE_SIZE]).is_err());
    assert!(NnueNetwork::from_bytes(&blank_net(PAD_ALIGN)).is_err());
    assert!(NnueNetwork::from_bytes(&[]).is_err());
}

#[test]
fn accepts_and_expands_legacy_piece_only_nets() {
    let net = match NnueNetwork::from_bytes(&legacy_blank_net()) {
        Ok(net) => net,
        Err(e) => panic!("{e}"),
    };
    for bucket in 0..NUM_BUCKETS {
        for state_feature in PIECE_FEATURES..FEATURES_PER_BUCKET {
            assert_eq!(
                net.ft_weights[bucket * FEATURES_PER_BUCKET + state_feature],
                [0; HIDDEN_SIZE]
            );
        }
    }
}

fn narrow_net(l1: u32, l2: u32, size: usize) -> Vec<u8> {
    let mut bytes = vec![0u8; size];
    bytes[..HEADER_SIZE].copy_from_slice(&expected_header());
    bytes[24..28].copy_from_slice(&l1.to_le_bytes());
    bytes[28..32].copy_from_slice(&l2.to_le_bytes());
    bytes
}

fn size_for(l1: usize, l2: usize) -> usize {
    HEADER_SIZE
        + INPUT_SIZE * HIDDEN_SIZE * 2
        + HIDDEN_SIZE * 2
        + OUTPUT_BUCKETS * l1 * 1024
        + OUTPUT_BUCKETS * l1 * 4
        + OUTPUT_BUCKETS * l2 * l1
        + OUTPUT_BUCKETS * l2 * 4
        + OUTPUT_BUCKETS * l2
        + OUTPUT_BUCKETS * 4
}

#[test]
fn accepts_the_dense_widths_of_the_header() {
    assert_eq!(size_for(16, 32), NET_FILE_SIZE);
    let mut bytes = narrow_net(8, 16, size_for(8, 16));
    let last = bytes.len() - 32 - 8 * 16;
    bytes[last] = 64;
    let end = bytes.len() - 32;
    bytes[end..end + 4].copy_from_slice(&25806i32.to_le_bytes());
    let net = NnueNetwork::from_bytes(&bytes).ok().unwrap();
    assert_eq!((net.l1_size, net.l2_size), (8, 16));
    assert_eq!(net.l3_weights[0], 64);
    assert!(net.is_trained());
    let acc = endspiel::nnue::accumulator::Accumulator::new();
    let value = endspiel::nnue::inference::nnue_evaluate(&acc, endspiel::Color::White, &net, 2);
    assert_eq!(value, 9);
    assert!(NnueNetwork::from_bytes(&narrow_net(0, 16, size_for(0, 16))).is_err());
    assert!(NnueNetwork::from_bytes(&narrow_net(65, 16, size_for(65, 16))).is_err());
    assert!(NnueNetwork::from_bytes(&narrow_net(64, 64, size_for(64, 64))).is_ok());
}
