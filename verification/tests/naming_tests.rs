use separating_image::naming::{digit_count, format_file_name, name_width, segment_file_name};
use separating_image::signatures::ImageType;

#[test]
fn digit_count_counts_decimal_digits() {
    assert_eq!(digit_count(0), 1);
    assert_eq!(digit_count(9), 1);
    assert_eq!(digit_count(10), 2);
    assert_eq!(digit_count(999), 3);
    assert_eq!(digit_count(1234), 4);
}

#[test]
fn width_is_at_least_three() {
    assert_eq!(name_width(0), 3);
    assert_eq!(name_width(5), 3);
    assert_eq!(name_width(999), 3);
    assert_eq!(name_width(1000), 4);
    assert_eq!(name_width(1234), 4);
}

#[test]
fn many_segments_widen_the_index() {
    assert_eq!(segment_file_name(1, 1234, ImageType::Png), b"image_0001.png".to_vec());
    assert_eq!(segment_file_name(1234, 1234, ImageType::Jpg), b"image_1234.jpg".to_vec());
}

#[test]
fn few_segments_pad_to_three_digits() {
    assert_eq!(segment_file_name(1, 5, ImageType::Unknown), b"image_001.bin".to_vec());
    assert_eq!(segment_file_name(5, 5, ImageType::Gif), b"image_005.gif".to_vec());
}

#[test]
fn two_image_carve_names() {
    assert_eq!(segment_file_name(1, 2, ImageType::Png), b"image_001.png".to_vec());
    assert_eq!(segment_file_name(2, 2, ImageType::Jpg), b"image_002.jpg".to_vec());
}

#[test]
fn single_type_names_are_unpadded() {
    assert_eq!(format_file_name(0, ImageType::Png), b"png_image_0.png".to_vec());
    assert_eq!(format_file_name(12, ImageType::Gif), b"gif_image_12.gif".to_vec());
}
