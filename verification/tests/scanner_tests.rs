use separating_image::scanner::{find_images, find_terminator, next_header, ScanMode, Segment};
use separating_image::signatures::{is_gif_header, is_jpg_header, is_png_header, ImageType};

const PNG_HEADER: &[u8] = b"\x89PNG\r\n\x1a\n";
const PNG_TERM: &[u8] = b"IEND\xaeB\x60\x82";

fn two_image_buffer() -> Vec<u8> {
    let mut buf: Vec<u8> = Vec::new();
    buf.extend_from_slice(PNG_HEADER);
    buf.extend_from_slice(&[0u8; 10]);
    buf.extend_from_slice(PNG_TERM);
    buf.extend_from_slice(b"\xFF\xD8");
    buf.extend_from_slice(&[0u8; 3]);
    buf.extend_from_slice(b"\xFF\xD9");
    buf
}

#[test]
fn full_partition_two_images() {
    let buf = two_image_buffer();
    assert_eq!(buf.len(), 33);
    let segs = find_images(&buf, ScanMode::FullPartition);
    assert_eq!(segs.len(), 2);
    assert_eq!(segs[0], Segment { image_type: ImageType::Png, start: 0, end: 26 });
    assert_eq!(segs[1], Segment { image_type: ImageType::Jpg, start: 26, end: 33 });
}

#[test]
fn empty_buffer_yields_no_segments() {
    let buf: Vec<u8> = Vec::new();
    assert_eq!(find_images(&buf, ScanMode::FullPartition).len(), 0);
    assert_eq!(find_images(&buf, ScanMode::SingleType).len(), 0);
}

#[test]
fn opaque_bytes_are_covered() {
    let mut buf: Vec<u8> = vec![1, 2, 3];
    buf.extend_from_slice(b"\xFF\xD8\x00\x00\xFF\xD9");
    buf.extend_from_slice(&[9, 9]);
    let segs = find_images(&buf, ScanMode::FullPartition);
    assert_eq!(segs.len(), 3);
    assert_eq!(segs[0], Segment { image_type: ImageType::Unknown, start: 0, end: 3 });
    assert_eq!(segs[1], Segment { image_type: ImageType::Jpg, start: 3, end: 9 });
    assert_eq!(segs[2], Segment { image_type: ImageType::Unknown, start: 9, end: 11 });
}

#[test]
fn unterminated_png_header_is_opaque() {
    let mut buf: Vec<u8> = Vec::new();
    buf.extend_from_slice(PNG_HEADER);
    buf.extend_from_slice(&[0u8; 12]);
    let segs = find_images(&buf, ScanMode::FullPartition);
    assert_eq!(segs.len(), 1);
    assert_eq!(segs[0], Segment { image_type: ImageType::Unknown, start: 0, end: 20 });
    let singles = find_images(&buf, ScanMode::SingleType);
    assert_eq!(singles.len(), 0);
}

#[test]
fn priority_png_consumes_embedded_jpg_markers() {
    let mut buf: Vec<u8> = Vec::new();
    buf.extend_from_slice(PNG_HEADER);
    buf.extend_from_slice(b"\xFF\xD8\x00\x00\x00\x00\xFF\xD9");
    buf.extend_from_slice(PNG_TERM);
    let segs = find_images(&buf, ScanMode::FullPartition);
    assert_eq!(segs.len(), 1);
    assert_eq!(segs[0], Segment { image_type: ImageType::Png, start: 0, end: 24 });
}

#[test]
fn single_type_passes_can_overlap() {
    let mut buf: Vec<u8> = Vec::new();
    buf.extend_from_slice(PNG_HEADER);
    buf.extend_from_slice(b"\xFF\xD8\x00\x00\x00\x00\xFF\xD9");
    buf.extend_from_slice(PNG_TERM);
    let segs = find_images(&buf, ScanMode::SingleType);
    assert_eq!(segs.len(), 2);
    assert_eq!(segs[0], Segment { image_type: ImageType::Png, start: 0, end: 24 });
    assert_eq!(segs[1], Segment { image_type: ImageType::Jpg, start: 8, end: 16 });
}

#[test]
fn gif_trailer_found_at_single_byte_stride() {
    let mut buf: Vec<u8> = Vec::new();
    buf.extend_from_slice(b"GIF89a");
    buf.extend_from_slice(&[1, 2, 3]);
    buf.extend_from_slice(b"\x00\x3B");
    let segs = find_images(&buf, ScanMode::FullPartition);
    assert_eq!(segs.len(), 1);
    assert_eq!(segs[0], Segment { image_type: ImageType::Gif, start: 0, end: 11 });
}

#[test]
fn gif87_variant_is_recognized() {
    let mut buf: Vec<u8> = Vec::new();
    buf.extend_from_slice(b"GIF87a\x00\x3B");
    let segs = find_images(&buf, ScanMode::FullPartition);
    assert_eq!(segs.len(), 1);
    assert_eq!(segs[0], Segment { image_type: ImageType::Gif, start: 0, end: 8 });
}

#[test]
fn find_terminator_respects_stride() {
    let aligned: Vec<u8> = vec![0, 0, 0xFF, 0xD9];
    assert_eq!(find_terminator(&aligned, 0, b"\xFF\xD9", 2), Some(2));
    let unaligned: Vec<u8> = vec![0, 0xFF, 0xD9, 0];
    assert_eq!(find_terminator(&unaligned, 0, b"\xFF\xD9", 2), None);
    assert_eq!(find_terminator(&unaligned, 0, b"\xFF\xD9", 1), Some(1));
    assert_eq!(find_terminator(&unaligned, 2, b"\xFF\xD9", 1), None);
}

#[test]
fn next_header_finds_the_following_signature() {
    let mut buf: Vec<u8> = vec![7, 7, 7];
    buf.extend_from_slice(b"\xFF\xD8");
    assert_eq!(next_header(&buf, 0), 3);
    assert_eq!(next_header(&buf, 4), 5);
}

#[test]
fn header_tests_match_magic_bytes() {
    let png = two_image_buffer();
    assert!(is_png_header(&png, 0));
    assert!(!is_jpg_header(&png, 0));
    assert!(!is_gif_header(&png, 0));
    assert!(is_jpg_header(&png, 26));
    assert!(!is_png_header(&png, 30));
    let short: Vec<u8> = vec![0x89];
    assert!(!is_png_header(&short, 0));
}
