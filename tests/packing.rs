use bbq::{pack_as_binary, QuantError};

fn unpack(p: &[u8]) -> Vec<u8> {
    let mut out = Vec::new();
    for &b in p {
        for k in 0..8 {
            out.push((b >> (7 - k)) & 1);
        }
    }
    out
}

#[test]
fn test_pack_as_binary() {
    let vector = vec![1, 0, 1, 0, 1, 0, 1, 0];
    let mut packed = vec![0u8; 1];
    pack_as_binary(&vector, &mut packed).unwrap();
    assert_eq!(packed[0], 0b10101010);
}

#[test]
fn pack_round_trip_restores_code() {
    let vector: Vec<u8> = vec![1, 1, 0, 1, 0, 0, 1, 0, 0, 1, 1, 1, 0, 0, 0, 1, 1, 0, 0, 0, 0, 0, 0, 1];
    let mut packed = vec![0u8; 3];
    pack_as_binary(&vector, &mut packed).unwrap();
    assert_eq!(packed, vec![0b1101_0010, 0b0111_0001, 0b1000_0001]);
    assert_eq!(unpack(&packed), vector);
}

#[test]
fn pack_partial_group_leaves_low_bits_zero() {
    let vector = vec![1, 1, 1];
    let mut packed = vec![0xFFu8; 2];
    pack_as_binary(&vector, &mut packed).unwrap();
    assert_eq!(packed, vec![0b1110_0000, 0xFF]);
}

#[test]
fn pack_rejects_non_binary_component() {
    let vector = vec![1, 0, 2, 1];
    let mut packed = vec![7u8; 1];
    assert_eq!(pack_as_binary(&vector, &mut packed), Err(QuantError::InvalidBit { position: 2, value: 2 }));
    assert_eq!(packed, vec![7u8]);
}

#[test]
fn pack_rejects_short_destination() {
    let vector = vec![1u8; 9];
    let mut packed = vec![0u8; 1];
    assert_eq!(pack_as_binary(&vector, &mut packed), Err(QuantError::BufferTooSmall { needed: 2, available: 1 }));
    assert_eq!(packed, vec![0u8]);
}

#[test]
fn pack_reports_short_destination_before_a_later_bad_component() {
    let mut vector = vec![0u8; 17];
    vector[16] = 5;
    let mut packed = vec![0u8; 1];
    assert_eq!(pack_as_binary(&vector, &mut packed), Err(QuantError::BufferTooSmall { needed: 3, available: 1 }));
}

#[test]
fn pack_of_empty_code_writes_nothing() {
    let vector: Vec<u8> = Vec::new();
    let mut packed = vec![3u8; 2];
    assert_eq!(pack_as_binary(&vector, &mut packed), Ok(()));
    assert_eq!(packed, vec![3u8, 3u8]);
}
