use min_video::{
    dimension_join, dimension_split, get_coords_at_idx, get_idx_at_coords, VideoError,
    VIDEO_MAX_DIMENSION,
};

#[test]
fn encode_zero_is_all_zero() {
    assert_eq!(dimension_split(0).unwrap(), vec![0, 0, 0, 0, 0, 0, 0, 0]);
}

#[test]
fn encode_max_is_all_full() {
    assert_eq!(
        dimension_split(2040).unwrap(),
        vec![255, 255, 255, 255, 255, 255, 255, 255]
    );
}

#[test]
fn encode_256_uses_two_bytes() {
    assert_eq!(dimension_split(256).unwrap(), vec![128, 128, 0, 0, 0, 0, 0, 0]);
}

#[test]
fn encode_spreads_remainder_left_to_right() {
    assert_eq!(dimension_split(255).unwrap(), vec![255, 0, 0, 0, 0, 0, 0, 0]);
    assert_eq!(dimension_split(1).unwrap(), vec![1, 0, 0, 0, 0, 0, 0, 0]);
    assert_eq!(dimension_split(301).unwrap(), vec![151, 150, 0, 0, 0, 0, 0, 0]);
    assert_eq!(dimension_split(767).unwrap(), vec![192, 192, 192, 191, 0, 0, 0, 0]);
    assert_eq!(dimension_split(2039).unwrap(), vec![255, 255, 255, 255, 255, 255, 255, 254]);
}

#[test]
fn encode_too_large_is_refused() {
    assert_eq!(dimension_split(2041), Err(VideoError::DimensionTooLarge));
    assert_eq!(dimension_split(u32::MAX), Err(VideoError::DimensionTooLarge));
    assert_eq!(VIDEO_MAX_DIMENSION, 2040);
}

#[test]
fn decode_of_encode_is_identity() {
    for d in 0..=2040u32 {
        let bytes = dimension_split(d).unwrap();
        assert_eq!(bytes.len(), 8);
        assert_eq!(dimension_join(&bytes), d);
    }
}

#[test]
fn encoded_bytes_sum_to_dimension() {
    for d in 0..=2040u32 {
        let bytes = dimension_split(d).unwrap();
        let sum: u32 = bytes.iter().map(|b| *b as u32).sum();
        assert_eq!(sum, d);
        let max = *bytes.iter().max().unwrap() as u32;
        let min_used = bytes.iter().filter(|b| **b > 0).map(|b| *b as u32).min();
        if let Some(m) = min_used {
            assert!(max - m <= 1);
        }
    }
}

#[test]
fn decode_sums_any_header() {
    assert_eq!(dimension_join(&[1, 2, 3, 4, 5, 6, 7, 8]), 36);
    assert_eq!(dimension_join(&[255; 8]), 2040);
    assert_eq!(dimension_join(&[0; 8]), 0);
}

#[test]
fn coords_and_index() {
    assert_eq!(get_idx_at_coords(3, 1, 4), 7);
    assert_eq!(get_idx_at_coords(0, 0, 4), 0);
    assert_eq!(get_coords_at_idx(7, 4, 2), (3, 1));
    assert_eq!(get_coords_at_idx(9, 4, 2), (1, 0));
    for i in 0..8u32 {
        let (x, y) = get_coords_at_idx(i, 4, 2);
        assert_eq!(get_idx_at_coords(x, y, 4), i);
    }
}
