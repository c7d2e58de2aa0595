use shard_merkle::{from_shards, to_shards, ShardError};

fn drop_at(shards: &[Vec<u8>], absent: &[usize]) -> Vec<Option<Vec<u8>>> {
    shards
        .iter()
        .enumerate()
        .map(|(i, s)| if absent.contains(&i) { None } else { Some(s.clone()) })
        .collect()
}

#[test]
fn hello_with_scattered_losses() {
    let shards = to_shards(b"Hello", 16, 7).unwrap();
    assert_eq!(shards.len(), 16);
    let received = drop_at(&shards, &[0, 2, 4, 6, 8, 10, 12]);
    assert_eq!(received.iter().filter(|s| s.is_some()).count(), 9);
    assert_eq!(from_shards(received, 16, 7).unwrap(), b"Hello".to_vec());
}

#[test]
fn data_shards_carry_padded_blob() {
    let shards = to_shards(b"Hello", 4, 1).unwrap();
    assert_eq!(shards[0], b"He".to_vec());
    assert_eq!(shards[1], b"ll".to_vec());
    assert_eq!(shards[2], vec![b'o', 1]);
    assert_eq!(shards[3].len(), 2);
}

#[test]
fn hello_trailer_is_four_fours() {
    let shards = to_shards(b"Hello", 16, 7).unwrap();
    let data: Vec<u8> = shards[..9].iter().flatten().copied().collect();
    assert_eq!(data, vec![b'H', b'e', b'l', b'l', b'o', 4, 4, 4, 4]);
    assert!(shards.iter().all(|s| s.len() == 1));
}

#[test]
fn parity_is_computed() {
    let shards = to_shards(b"Hello", 16, 7).unwrap();
    assert!(shards[9..].iter().any(|s| s != &vec![0u8]));
}

#[test]
fn no_parity_shards() {
    let shards = to_shards(b"abcdefg", 3, 0).unwrap();
    assert_eq!(shards, vec![b"abc".to_vec(), b"def".to_vec(), vec![b'g', 2, 2]]);
    let received = drop_at(&shards, &[]);
    assert_eq!(from_shards(received, 3, 0).unwrap(), b"abcdefg".to_vec());
}

#[test]
fn round_trip_every_choice_of_present_shards() {
    let blob = b"The quick brown fox jumps over the lazy dog";
    let (n, f) = (6usize, 2usize);
    let shards = to_shards(blob, n, f).unwrap();
    for a in 0..n {
        for b in (a + 1)..n {
            let received = drop_at(&shards, &[a, b]);
            assert_eq!(from_shards(received, n, f).unwrap(), blob.to_vec());
        }
    }
}

#[test]
fn round_trip_from_parity_heavy_subset() {
    let blob = b"0123456789abcdef!";
    let shards = to_shards(blob, 10, 5).unwrap();
    let received = drop_at(&shards, &[0, 1, 2, 3, 4]);
    assert_eq!(from_shards(received, 10, 5).unwrap(), blob.to_vec());
}

#[test]
fn encoding_is_deterministic() {
    assert_eq!(to_shards(b"same input", 7, 3), to_shards(b"same input", 7, 3));
}

#[test]
fn fewer_than_k_present() {
    let shards = to_shards(b"Hello", 16, 7).unwrap();
    let received = drop_at(&shards, &[0, 1, 2, 3, 4, 5, 6, 7]);
    assert_eq!(from_shards(received, 16, 7), Err(ShardError::InsufficientShards));
}

#[test]
fn config_errors() {
    assert_eq!(to_shards(b"x", 3, 3), Err(ShardError::Config));
    assert_eq!(to_shards(b"x", 3, 5), Err(ShardError::Config));
    assert_eq!(to_shards(b"x", 300, 299), Err(ShardError::Config));
    assert_eq!(from_shards(vec![], 2, 2), Err(ShardError::Config));
}

#[test]
fn padding_overflow() {
    assert_eq!(to_shards(b"x", 300, 0), Err(ShardError::PaddingOverflow));
}

#[test]
fn empty_blob_gives_empty_shards() {
    assert_eq!(to_shards(b"", 4, 1), Ok(vec![Vec::<u8>::new(); 4]));
}

#[test]
fn shape_errors() {
    let shards = to_shards(b"Hello", 4, 1).unwrap();
    let mut received = drop_at(&shards, &[]);
    received[1] = Some(vec![1, 2, 3]);
    assert_eq!(from_shards(received, 4, 1), Err(ShardError::Shape));
    let short = drop_at(&shards[..3], &[]);
    assert_eq!(from_shards(short, 4, 1), Err(ShardError::Shape));
}

#[test]
fn many_nodes_without_faults() {
    let blob: Vec<u8> = (0..299u32).map(|i| (i % 251) as u8 + 1).collect();
    let shards = to_shards(&blob, 300, 0).unwrap();
    assert_eq!(shards.len(), 300);
    assert_eq!(shards[299], vec![1u8]);
    let received = drop_at(&shards, &[]);
    assert_eq!(from_shards(received, 300, 0).unwrap(), blob);
}

#[test]
fn present_data_shards_are_used_as_they_are() {
    let shards = to_shards(b"Hello", 4, 1).unwrap();
    let mut received = drop_at(&shards, &[]);
    received[3] = Some(vec![0xff, 0xee]);
    assert_eq!(from_shards(received, 4, 1).unwrap(), b"Hello".to_vec());
}
