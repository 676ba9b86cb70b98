//! Deterministic output names for extracted segments.
//!
//! Full-partition mode names every segment `image_<index>.<ext>` with the
//! index one-based and zero-padded to `max(3, digits(total))` places, so
//! the names sort lexicographically in segment order. Single-type mode
//! names per-format outputs `<format>_image_<index>.<format>` with a
//! zero-based, unpadded index.

use vstd::prelude::*;
use crate::signatures::ImageType;

verus! {

/// How many decimal digits `n` prints with.
pub open spec fn spec_digit_count(n: nat) -> nat
    decreases n,
{
    if n < 10 {
        1
    } else {
        1 + spec_digit_count(n / 10)
    }
}

/// The padded index width for a scan of `count` segments: at least 3.
pub open spec fn spec_name_width(count: nat) -> nat {
    if spec_digit_count(count) < 3 {
        3
    } else {
        spec_digit_count(count)
    }
}

/// The ASCII digit for `d`.
pub open spec fn digit_ascii(d: nat) -> u8
    recommends
        d < 10,
{
    (0x30 + d) as u8
}

/// The low `w` decimal digits of `n` in ASCII, zero-padded to exactly
/// `w` places; the full zero-padded form whenever `n` has at most `w`
/// digits.
pub open spec fn spec_padded(n: nat, w: nat) -> Seq<u8>
    decreases w,
{
    if w == 0 {
        Seq::empty()
    } else {
        spec_padded(n / 10, (w - 1) as nat) + seq![digit_ascii(n % 10)]
    }
}

/// The unpadded decimal digits of `n` in ASCII.
pub open spec fn spec_digits(n: nat) -> Seq<u8> {
    spec_padded(n, spec_digit_count(n))
}

/// The file extension for a segment of type `t`.
pub open spec fn spec_extension(t: ImageType) -> Seq<u8> {
    match t {
        ImageType::Png => seq![0x70u8, 0x6e, 0x67],
        ImageType::Jpg => seq![0x6au8, 0x70, 0x67],
        ImageType::Gif => seq![0x67u8, 0x69, 0x66],
        ImageType::Unknown => seq![0x62u8, 0x69, 0x6e],
    }
}

/// "image_" as bytes.
pub open spec fn spec_image_prefix() -> Seq<u8> {
    seq![0x69u8, 0x6d, 0x61, 0x67, 0x65, 0x5f]
}

/// The full-partition output name of segment `index` (one-based) out of
/// `count`, of type `t`: `image_<padded index>.<ext>`.
pub open spec fn spec_segment_name(index: nat, count: nat, t: ImageType) -> Seq<u8> {
    spec_image_prefix() + spec_padded(index, spec_name_width(count)) + seq![0x2eu8]
        + spec_extension(t)
}

/// The single-type output name of the per-format segment `index`
/// (zero-based) of type `t`: `<ext>_image_<index>.<ext>`.
pub open spec fn spec_format_name(index: nat, t: ImageType) -> Seq<u8> {
    spec_extension(t) + seq![0x5fu8] + spec_image_prefix() + spec_digits(index) + seq![0x2eu8]
        + spec_extension(t)
}

/// Ten to the `w`.
pub open spec fn pow10(w: nat) -> nat
    decreases w,
{
    if w == 0 {
        1
    } else {
        10 * pow10((w - 1) as nat)
    }
}

/// A number is below ten to its digit count.
pub proof fn lemma_digit_count_bound(n: nat)
    ensures
        n < pow10(spec_digit_count(n)),
    decreases n,
{
    assert(pow10(0) == 1);
    assert(pow10(1) == 10 * pow10(0));
    if n >= 10 {
        lemma_digit_count_bound(n / 10);
        assert(n == 10 * (n / 10) + n % 10);
        assert(10 * (n / 10) + n % 10 < 10 * pow10(spec_digit_count(n / 10)))
            by (nonlinear_arith)
            requires
                n / 10 < pow10(spec_digit_count(n / 10)),
                n % 10 < 10,
        ;
        assert(spec_digit_count(n) == 1 + spec_digit_count(n / 10));
        assert(pow10(spec_digit_count(n)) == 10 * pow10(spec_digit_count(n / 10)));
    }
}

/// Digit counts never shrink as the number grows.
pub proof fn lemma_digit_count_mono(a: nat, b: nat)
    requires
        a <= b,
    ensures
        spec_digit_count(a) <= spec_digit_count(b),
    decreases b,
{
    if a >= 10 {
        vstd::arithmetic::div_mod::lemma_div_is_ordered(a as int, b as int, 10);
        lemma_digit_count_mono(a / 10, b / 10);
    }
}

pub proof fn lemma_pow10_mono(v: nat, w: nat)
    requires
        v <= w,
    ensures
        pow10(v) <= pow10(w),
    decreases w,
{
    if v < w {
        lemma_pow10_mono(v, (w - 1) as nat);
    }
}

/// A padded rendering is exactly `w` bytes long.
pub proof fn lemma_padded_len(n: nat, w: nat)
    ensures
        spec_padded(n, w).len() == w,
    decreases w,
{
    if w > 0 {
        lemma_padded_len(n / 10, (w - 1) as nat);
    }
}

pub proof fn lemma_digit_count_le(n: nat)
    ensures
        spec_digit_count(n) <= n + 1,
    decreases n,
{
    if n >= 10 {
        lemma_digit_count_le(n / 10);
    }
}

/// Counts the decimal digits of `n`.
pub fn digit_count(n: usize) -> (r: usize)
    ensures
        r == spec_digit_count(n as nat),
        1 <= r,
    decreases n,
{
    if n < 10 {
        1
    } else {
        proof {
            lemma_digit_count_le((n / 10) as nat);
        }
        1 + digit_count(n / 10)
    }
}

/// The padded index width used when `count` segments are written.
pub fn name_width(count: usize) -> (r: usize)
    ensures
        r == spec_name_width(count as nat),
{
    let d = digit_count(count);
    if d < 3 {
        3
    } else {
        d
    }
}

/// Appends the low `w` decimal digits of `n`, zero-padded to `w` places.
fn push_padded(n: usize, w: usize, out: &mut Vec<u8>)
    ensures
        final(out)@ == old(out)@ + spec_padded(n as nat, w as nat),
    decreases w,
{
    if w == 0 {
        proof {
            assert(out@ =~= out@ + spec_padded(n as nat, 0));
        }
    } else {
        push_padded(n / 10, w - 1, out);
        let d: u8 = (n % 10) as u8;
        out.push(0x30 + d);
        proof {
            assert(out@ =~= old(out)@ + spec_padded(n as nat, w as nat));
        }
    }
}

/// Appends the extension bytes for `t`.
fn push_extension(t: ImageType, out: &mut Vec<u8>)
    ensures
        final(out)@ == old(out)@ + spec_extension(t),
{
    match t {
        ImageType::Png => {
            out.push(0x70);
            out.push(0x6e);
            out.push(0x67);
        },
        ImageType::Jpg => {
            out.push(0x6a);
            out.push(0x70);
            out.push(0x67);
        },
        ImageType::Gif => {
            out.push(0x67);
            out.push(0x69);
            out.push(0x66);
        },
        ImageType::Unknown => {
            out.push(0x62);
            out.push(0x69);
            out.push(0x6e);
        },
    }
    proof {
        assert(out@ =~= old(out)@ + spec_extension(t));
    }
}

/// Appends "image_".
fn push_image_prefix(out: &mut Vec<u8>)
    ensures
        final(out)@ == old(out)@ + spec_image_prefix(),
{
    out.push(0x69);
    out.push(0x6d);
    out.push(0x61);
    out.push(0x67);
    out.push(0x65);
    out.push(0x5f);
    proof {
        assert(out@ =~= old(out)@ + spec_image_prefix());
    }
}

/// Builds the full-partition output name of segment `index` (one-based)
/// out of `count` segments, of type `t`.
pub fn segment_file_name(index: usize, count: usize, t: ImageType) -> (r: Vec<u8>)
    ensures
        r@ == spec_segment_name(index as nat, count as nat, t),
{
    let mut out: Vec<u8> = Vec::new();
    push_image_prefix(&mut out);
    let w = name_width(count);
    push_padded(index, w, &mut out);
    out.push(0x2e);
    push_extension(t, &mut out);
    proof {
        assert(out@ =~= spec_segment_name(index as nat, count as nat, t));
    }
    out
}

/// Builds the single-type output name of the per-format segment `index`
/// (zero-based) of type `t`.
pub fn format_file_name(index: usize, t: ImageType) -> (r: Vec<u8>)
    ensures
        r@ == spec_format_name(index as nat, t),
{
    let mut out: Vec<u8> = Vec::new();
    push_extension(t, &mut out);
    out.push(0x5f);
    push_image_prefix(&mut out);
    let d = digit_count(index);
    push_padded(index, d, &mut out);
    out.push(0x2e);
    push_extension(t, &mut out);
    proof {
        assert(out@ =~= spec_format_name(index as nat, t));
    }
    out
}

} // verus!
