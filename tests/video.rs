use min_video::{Frame, Video, VideoError};

fn filled(width: u32, height: u32, value: u8) -> Frame {
    Frame::from_data(width, height, vec![value; (width * height * 3) as usize]).unwrap()
}

#[test]
fn fresh_video_has_no_frames() {
    let v = Video::new(4, 2).unwrap();
    assert_eq!(v.get_frame_amount(), 0);
    assert_eq!(v.get_data().len(), 16);
    assert_eq!(v.get_width(), 4);
    assert_eq!(v.get_height(), 2);
    assert_eq!(
        v.get_data(),
        vec![4, 0, 0, 0, 0, 0, 0, 0, 2, 0, 0, 0, 0, 0, 0, 0]
    );
}

#[test]
fn append_black_then_white() {
    let mut v = Video::new(4, 2).unwrap();
    v.add_frame(&filled(4, 2, 0)).unwrap();
    v.add_frame(&filled(4, 2, 255)).unwrap();
    assert_eq!(v.get_frame_amount(), 2);
    assert_eq!(v.get_frame(0).unwrap().get_color(0, 0), Ok((0, 0, 0)));
    assert_eq!(v.get_frame(1).unwrap().get_color(3, 1), Ok((255, 255, 255)));
    assert_eq!(v.get_data().len(), 16 + 2 * 24);
}

#[test]
fn empty_video_round_trip() {
    for (w, h) in [(1, 1), (1, 2040), (2040, 1), (2040, 2040), (4, 2), (128, 96)] {
        let data = Video::new(w, h).unwrap().get_data();
        let back = Video::from_data(&data).unwrap();
        assert_eq!(back.get_width(), w);
        assert_eq!(back.get_height(), h);
        assert_eq!(back.get_frame_amount(), 0);
    }
}

#[test]
fn new_video_refuses_bad_sizes() {
    assert!(matches!(Video::new(0, 2), Err(VideoError::InvalidDimension)));
    assert!(matches!(Video::new(4, 0), Err(VideoError::InvalidDimension)));
    assert!(matches!(Video::new(2041, 2), Err(VideoError::DimensionTooLarge)));
    assert!(matches!(Video::new(4, 2041), Err(VideoError::DimensionTooLarge)));
}

#[test]
fn append_mismatched_frame_is_refused() {
    let mut v = Video::new(4, 2).unwrap();
    v.add_frame(&filled(4, 2, 7)).unwrap();
    let before = v.get_data().len();
    assert_eq!(v.add_frame(&filled(2, 4, 0)), Err(VideoError::DimensionMismatch));
    assert_eq!(v.add_frame(&filled(4, 3, 0)), Err(VideoError::DimensionMismatch));
    assert_eq!(v.get_data().len(), before);
    assert_eq!(v.get_frame_amount(), 1);
}

#[test]
fn frame_one_past_the_end_is_refused() {
    let mut v = Video::new(4, 2).unwrap();
    assert!(matches!(v.get_frame(0), Err(VideoError::IndexOutOfRange)));
    v.add_frame(&filled(4, 2, 1)).unwrap();
    let n = v.get_frame_amount();
    assert!(matches!(v.get_frame(n), Err(VideoError::IndexOutOfRange)));
    assert!(v.get_frame(n - 1).is_ok());
}

#[test]
fn partial_trailing_frame_is_ignored() {
    let mut data = Video::new(2, 1).unwrap().get_data();
    data.extend_from_slice(&[1, 2, 3, 4, 5, 6]);
    data.extend_from_slice(&[9, 9, 9, 9]);
    let v = Video::from_data(&data).unwrap();
    assert_eq!(v.get_frame_amount(), 1);
    assert_eq!(Video::get_frame_amount_from_data(&data), 1);
    let last = v.get_frame(v.get_frame_amount() - 1).unwrap();
    assert_eq!(last.get_data(), &vec![1, 2, 3, 4, 5, 6]);
    assert_eq!(last.get_color(1, 0), Ok((4, 5, 6)));
    assert!(matches!(v.get_frame(1), Err(VideoError::IndexOutOfRange)));
}

#[test]
fn from_data_refuses_short_or_zero_headers() {
    assert!(matches!(Video::from_data(&vec![1; 15]), Err(VideoError::TruncatedHeader)));
    assert!(matches!(Video::from_data(&vec![]), Err(VideoError::TruncatedHeader)));
    let mut zero_width = vec![0u8; 16];
    zero_width[8] = 3;
    assert!(matches!(Video::from_data(&zero_width), Err(VideoError::InvalidDimension)));
    let mut zero_height = vec![0u8; 16];
    zero_height[0] = 3;
    assert!(matches!(Video::from_data(&zero_height), Err(VideoError::InvalidDimension)));
}

#[test]
fn from_data_reads_spread_headers() {
    let mut data = vec![1, 1, 1, 0, 0, 0, 0, 0, 0, 0, 0, 0, 0, 0, 0, 2];
    data.extend_from_slice(&[10; 18]);
    assert!(Video::is_data_valid(&data));
    assert_eq!(Video::get_width_from_data(&data), 3);
    assert_eq!(Video::get_height_from_data(&data), 2);
    let v = Video::from_data(&data).unwrap();
    assert_eq!(v.get_width(), 3);
    assert_eq!(v.get_height(), 2);
    assert_eq!(v.get_frame_amount(), 1);
    assert_eq!(v.get_data(), data);
}

#[test]
fn header_readers_on_short_data() {
    assert!(!Video::is_data_valid(&vec![5; 15]));
    assert!(Video::is_data_valid(&vec![5; 16]));
    assert_eq!(Video::get_width_from_data(&vec![5, 6, 7]), 18);
    assert_eq!(Video::get_height_from_data(&vec![1; 10]), 2);
    assert_eq!(Video::get_height_from_data(&vec![1; 5]), 0);
}

#[test]
fn put_frame_replaces_one_frame() {
    let mut v = Video::new(2, 2).unwrap();
    v.add_frame(&filled(2, 2, 1)).unwrap();
    v.add_frame(&filled(2, 2, 2)).unwrap();
    v.add_frame(&filled(2, 2, 3)).unwrap();
    let len = v.get_data().len();
    v.put_frame(&filled(2, 2, 9), 1).unwrap();
    assert_eq!(v.get_data().len(), len);
    assert_eq!(v.get_frame_amount(), 3);
    assert_eq!(v.get_frame(0).unwrap().get_data(), &vec![1; 12]);
    assert_eq!(v.get_frame(1).unwrap().get_data(), &vec![9; 12]);
    assert_eq!(v.get_frame(2).unwrap().get_data(), &vec![3; 12]);
    assert_eq!(v.put_frame(&filled(2, 2, 9), 3), Err(VideoError::IndexOutOfRange));
    assert_eq!(v.put_frame(&filled(1, 2, 9), 0), Err(VideoError::DimensionMismatch));
    assert_eq!(v.get_frame(0).unwrap().get_data(), &vec![1; 12]);
}

#[test]
fn frames_are_copies() {
    let mut v = Video::new(1, 1).unwrap();
    v.add_frame(&filled(1, 1, 4)).unwrap();
    let mut f = v.get_frame(0).unwrap();
    f.set_color(0, 0, (1, 2, 3)).unwrap();
    assert_eq!(v.get_frame(0).unwrap().get_color(0, 0), Ok((4, 4, 4)));
}

#[test]
fn pixel_set_then_get() {
    let mut f = Frame::new(4, 2).unwrap();
    assert_eq!(f.get_data(), &vec![0; 24]);
    f.set_color(3, 1, (10, 20, 30)).unwrap();
    f.set_color(1, 0, (7, 8, 9)).unwrap();
    assert_eq!(f.get_color(3, 1), Ok((10, 20, 30)));
    assert_eq!(f.get_color(1, 0), Ok((7, 8, 9)));
    assert_eq!(f.get_color(0, 0), Ok((0, 0, 0)));
    assert_eq!(&f.get_data()[21..24], &[10, 20, 30]);
    assert_eq!(&f.get_data()[3..6], &[7, 8, 9]);
}

#[test]
fn pixel_out_of_range_is_refused() {
    let mut f = Frame::new(4, 2).unwrap();
    assert_eq!(f.get_color(4, 0), Err(VideoError::PixelOutOfRange));
    assert_eq!(f.get_color(0, 2), Err(VideoError::PixelOutOfRange));
    assert_eq!(f.set_color(4, 1, (1, 1, 1)), Err(VideoError::PixelOutOfRange));
    assert_eq!(f.set_color(3, 2, (1, 1, 1)), Err(VideoError::PixelOutOfRange));
    assert_eq!(f.get_data(), &vec![0; 24]);
}

#[test]
fn frame_constructors_check_sizes() {
    assert!(matches!(Frame::new(0, 1), Err(VideoError::InvalidDimension)));
    assert!(matches!(Frame::new(1, 2041), Err(VideoError::DimensionTooLarge)));
    assert!(matches!(Frame::from_data(2, 2, vec![0; 11]), Err(VideoError::DimensionMismatch)));
    assert!(matches!(Frame::from_data(0, 2, vec![]), Err(VideoError::InvalidDimension)));
    let one = Frame::from_data(1, 1, vec![1, 2, 3]).unwrap();
    assert_eq!(one.get_color(0, 0), Ok((1, 2, 3)));
}

#[test]
fn swap_red_blue_swaps_every_pixel() {
    let mut f = Frame::from_data(2, 1, vec![1, 2, 3, 4, 5, 6]).unwrap();
    f.swap_red_blue();
    assert_eq!(f.get_data(), &vec![3, 2, 1, 6, 5, 4]);
    assert_eq!(f.get_color(1, 0), Ok((6, 5, 4)));
}
