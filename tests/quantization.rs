use bbq::{assign_levels, check_bits, check_quantize_args, QuantError};

#[test]
fn one_bit_levels_are_binary() {
    let levels: Vec<u32> = vec![1, 0, 1, 0];
    let mut dest = vec![9u8; 4];
    let sum = assign_levels(&levels, 1, &mut dest);
    assert_eq!(dest, vec![1, 0, 1, 0]);
    assert_eq!(sum, 2);
}

#[test]
fn one_bit_levels_are_capped_at_one() {
    let levels: Vec<u32> = vec![3, 1, 0];
    let mut dest = vec![0u8; 3];
    let sum = assign_levels(&levels, 1, &mut dest);
    assert_eq!(dest, vec![1, 1, 0]);
    assert_eq!(sum, 4);
}

#[test]
fn wider_levels_stay_within_range_and_sum_uncapped() {
    let levels: Vec<u32> = vec![0, 7, 15, 16, 300];
    let mut dest = vec![0u8; 5];
    let sum = assign_levels(&levels, 4, &mut dest);
    assert_eq!(dest, vec![0, 7, 15, 15, 15]);
    assert_eq!(sum, 338);
    let mut dest8 = vec![0u8; 5];
    assign_levels(&levels, 8, &mut dest8);
    assert_eq!(dest8, vec![0, 7, 15, 16, 255]);
    for bits in 1u8..=8 {
        let mut d = vec![0u8; 5];
        assign_levels(&levels, bits, &mut d);
        assert!(d.iter().all(|&x| (x as u32) < (1u32 << bits)));
    }
}

#[test]
fn quantize_args_accept_matching_shapes() {
    let v = vec![1i32, 2, 3];
    let c = vec![0i32, 0, 0];
    let dest = vec![0u8; 3];
    assert_eq!(check_quantize_args(&v, &c, &dest, 1), Ok(()));
    assert_eq!(check_quantize_args(&v, &c, &dest, 8), Ok(()));
}

#[test]
fn quantize_args_reject_nine_bits() {
    let v = vec![1i32, 2, 3];
    let c = vec![0i32, 0, 0];
    let dest = vec![0u8; 3];
    assert_eq!(check_quantize_args(&v, &c, &dest, 9), Err(QuantError::Config { bits: 9 }));
    assert_eq!(check_quantize_args(&v, &c, &dest, 0), Err(QuantError::Config { bits: 0 }));
    assert_eq!(check_bits(9), Err(QuantError::Config { bits: 9 }));
    assert_eq!(check_bits(4), Ok(()));
}

#[test]
fn quantize_args_reject_mismatched_lengths() {
    let v = vec![1i32, 2, 3];
    let short = vec![0i32, 0];
    let dest = vec![0u8; 3];
    assert_eq!(check_quantize_args(&v, &short, &dest, 4), Err(QuantError::DimensionMismatch { expected: 3, found: 2 }));
    let c = vec![0i32, 0, 0];
    let long_dest = vec![0u8; 4];
    assert_eq!(check_quantize_args(&v, &c, &long_dest, 4), Err(QuantError::DimensionMismatch { expected: 3, found: 4 }));
}
