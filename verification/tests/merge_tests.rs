use separating_image::merge::{merge_fragments, sort_fragments, Fragment};
use separating_image::naming::segment_file_name;
use separating_image::scanner::{find_images, ScanMode};

fn frag(name: &[u8], content: &[u8]) -> Fragment {
    Fragment { name: name.to_vec(), content: content.to_vec() }
}

#[test]
fn merge_concatenates_in_name_order() {
    let frags = vec![frag(b"image_002.jpg", &[4, 5]), frag(b"image_001.png", &[1, 2, 3])];
    assert_eq!(merge_fragments(frags), vec![1, 2, 3, 4, 5]);
}

#[test]
fn merge_of_nothing_is_empty() {
    let merged = merge_fragments(Vec::new());
    assert_eq!(merged.len(), 0);
}

#[test]
fn sort_orders_lexicographically() {
    let frags = vec![frag(b"b", &[2]), frag(b"ab", &[1]), frag(b"a", &[0])];
    let sorted = sort_fragments(frags);
    assert_eq!(sorted[0].name, b"a".to_vec());
    assert_eq!(sorted[1].name, b"ab".to_vec());
    assert_eq!(sorted[2].name, b"b".to_vec());
}

#[test]
fn carve_then_merge_reproduces_the_buffer() {
    let mut buf: Vec<u8> = Vec::new();
    buf.extend_from_slice(b"\x89PNG\r\n\x1a\n");
    buf.extend_from_slice(&[0u8; 10]);
    buf.extend_from_slice(b"IEND\xaeB\x60\x82");
    buf.extend_from_slice(b"\xFF\xD8");
    buf.extend_from_slice(&[0u8; 3]);
    buf.extend_from_slice(b"\xFF\xD9");

    let segs = find_images(&buf, ScanMode::FullPartition);
    let mut frags: Vec<Fragment> = Vec::new();
    // Hand the fragments over in reverse to exercise the sort.
    for (i, seg) in segs.iter().enumerate().rev() {
        frags.push(Fragment {
            name: segment_file_name(i + 1, segs.len(), seg.image_type),
            content: buf[seg.start..seg.end].to_vec(),
        });
    }
    assert_eq!(merge_fragments(frags), buf);
}
