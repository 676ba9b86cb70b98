//! Signature registry: the header and terminator byte patterns of the
//! recognized container formats, as spec-level predicates and as
//! executable tests over a byte buffer.

use vstd::prelude::*;

verus! {

/// The container format a span is classified as; `Unknown` marks an
/// opaque span that matches no recognized signature.
#[derive(Clone, Copy, Debug, PartialEq, Eq, Structural)]
pub enum ImageType {
    Png,
    Jpg,
    Gif,
    Unknown,
}

/// The pattern `p` occurs in `b` at offset `i`.
pub open spec fn pat_at(b: Seq<u8>, i: int, p: Seq<u8>) -> bool {
    &&& 0 <= i
    &&& i + p.len() <= b.len()
    &&& b.subrange(i, i + p.len()) == p
}

/// PNG trailer: the IEND chunk marker including its fixed CRC.
pub open spec fn png_term_seq() -> Seq<u8> {
    seq![0x49u8, 0x45, 0x4e, 0x44, 0xae, 0x42, 0x60, 0x82]
}

/// JPG trailer: the EOI marker.
pub open spec fn jpg_term_seq() -> Seq<u8> {
    seq![0xffu8, 0xd9]
}

/// GIF trailer byte followed by the semicolon that closes the stream.
pub open spec fn gif_term_seq() -> Seq<u8> {
    seq![0x00u8, 0x3b]
}

/// An 8-byte PNG signature starts at offset `i`.
pub open spec fn png_header_at(b: Seq<u8>, i: int) -> bool {
    &&& 0 <= i
    &&& i + 8 <= b.len()
    &&& b[i] == 0x89u8
    &&& b[i + 1] == 0x50u8
    &&& b[i + 2] == 0x4eu8
    &&& b[i + 3] == 0x47u8
    &&& b[i + 4] == 0x0du8
    &&& b[i + 5] == 0x0au8
    &&& b[i + 6] == 0x1au8
    &&& b[i + 7] == 0x0au8
}

/// A 2-byte JPG start-of-image marker starts at offset `i`.
pub open spec fn jpg_header_at(b: Seq<u8>, i: int) -> bool {
    &&& 0 <= i
    &&& i + 2 <= b.len()
    &&& b[i] == 0xffu8
    &&& b[i + 1] == 0xd8u8
}

/// A 6-byte GIF signature (either the 89a or the 87a variant) starts at
/// offset `i`.
pub open spec fn gif_header_at(b: Seq<u8>, i: int) -> bool {
    &&& 0 <= i
    &&& i + 6 <= b.len()
    &&& b[i] == 0x47u8
    &&& b[i + 1] == 0x49u8
    &&& b[i + 2] == 0x46u8
    &&& b[i + 3] == 0x38u8
    &&& (b[i + 4] == 0x39u8 || b[i + 4] == 0x37u8)
    &&& b[i + 5] == 0x61u8
}

/// Some recognized format's header starts at offset `i`.
pub open spec fn header_at(b: Seq<u8>, i: int) -> bool {
    png_header_at(b, i) || jpg_header_at(b, i) || gif_header_at(b, i)
}

/// Tests for the PNG header at offset `i`.
pub fn is_png_header(data: &[u8], i: usize) -> (r: bool)
    requires
        i <= data@.len(),
    ensures
        r == png_header_at(data@, i as int),
{
    if data.len() - i < 8 {
        return false;
    }
    data[i] == 0x89 && data[i + 1] == 0x50 && data[i + 2] == 0x4e && data[i + 3] == 0x47
        && data[i + 4] == 0x0d && data[i + 5] == 0x0a && data[i + 6] == 0x1a && data[i + 7] == 0x0a
}

/// Tests for the JPG header at offset `i`.
pub fn is_jpg_header(data: &[u8], i: usize) -> (r: bool)
    requires
        i <= data@.len(),
    ensures
        r == jpg_header_at(data@, i as int),
{
    if data.len() - i < 2 {
        return false;
    }
    data[i] == 0xff && data[i + 1] == 0xd8
}

/// Tests for either GIF header variant at offset `i`.
pub fn is_gif_header(data: &[u8], i: usize) -> (r: bool)
    requires
        i <= data@.len(),
    ensures
        r == gif_header_at(data@, i as int),
{
    if data.len() - i < 6 {
        return false;
    }
    data[i] == 0x47 && data[i + 1] == 0x49 && data[i + 2] == 0x46 && data[i + 3] == 0x38
        && (data[i + 4] == 0x39 || data[i + 4] == 0x37) && data[i + 5] == 0x61
}

/// Tests for any recognized header at offset `i`.
pub fn is_any_header(data: &[u8], i: usize) -> (r: bool)
    requires
        i <= data@.len(),
    ensures
        r == header_at(data@, i as int),
{
    is_png_header(data, i) || is_jpg_header(data, i) || is_gif_header(data, i)
}

/// The PNG terminator pattern as a buffer usable by the boundary search.
pub fn png_terminator_pattern() -> (r: Vec<u8>)
    ensures
        r@ == png_term_seq(),
{
    let mut v: Vec<u8> = Vec::new();
    v.push(0x49);
    v.push(0x45);
    v.push(0x4e);
    v.push(0x44);
    v.push(0xae);
    v.push(0x42);
    v.push(0x60);
    v.push(0x82);
    proof {
        assert(v@ =~= png_term_seq());
    }
    v
}

/// The JPG terminator pattern as a buffer usable by the boundary search.
pub fn jpg_terminator_pattern() -> (r: Vec<u8>)
    ensures
        r@ == jpg_term_seq(),
{
    let mut v: Vec<u8> = Vec::new();
    v.push(0xff);
    v.push(0xd9);
    proof {
        assert(v@ =~= jpg_term_seq());
    }
    v
}

/// The GIF terminator pattern as a buffer usable by the boundary search.
pub fn gif_terminator_pattern() -> (r: Vec<u8>)
    ensures
        r@ == gif_term_seq(),
{
    let mut v: Vec<u8> = Vec::new();
    v.push(0x00);
    v.push(0x3b);
    proof {
        assert(v@ =~= gif_term_seq());
    }
    v
}

} // verus!
