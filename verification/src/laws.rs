//! The guarantees the library gives as a whole, stated and proved over
//! the scanner, naming, and merge models: partition coverage, header
//! priority, the skipping of unterminated headers, and the carve/merge
//! round trip.

use vstd::prelude::*;
use crate::signatures::{
    ImageType, pat_at, png_header_at, jpg_header_at, gif_header_at, png_term_seq,
};
use crate::scanner::{
    SegModel, scan_from, single_scan_from, tiles, concat_segs, matched_at, lemma_scan_from_tiles,
    lemma_tiles_properties, lemma_tiles_concat, lemma_step_bounds, lemma_find_from_none,
};
use crate::naming::{
    spec_segment_name, spec_padded, spec_digit_count, spec_name_width, spec_image_prefix,
    spec_extension, digit_ascii, pow10, lemma_digit_count_bound, lemma_digit_count_mono,
    lemma_pow10_mono, lemma_padded_len,
};
use crate::merge::{
    FragModel, bytes_lt, sort_fragments_spec, concat_contents, strictly_increasing_names,
    lemma_sort_identity,
};

verus! {

/// Partition coverage: in full-partition mode the emitted segments are
/// non-empty, in order, contiguous, and together cover exactly
/// `[0, b.len())` — no gaps and no overlaps.
pub proof fn lemma_partition_coverage(b: Seq<u8>)
    ensures
        tiles(scan_from(b, 0), 0, b.len() as int),
        scan_from(b, 0).len() == 0 ==> b.len() == 0,
        scan_from(b, 0).len() > 0 ==> scan_from(b, 0)[0].start == 0 && scan_from(b, 0)[scan_from(
            b,
            0,
        ).len() - 1].end == b.len(),
        forall|k: int|
            0 <= k < scan_from(b, 0).len() ==> 0 <= (#[trigger] scan_from(b, 0)[k]).start
                < scan_from(b, 0)[k].end <= b.len(),
        forall|k: int|
            0 <= k < scan_from(b, 0).len() - 1 ==> (#[trigger] scan_from(b, 0)[k]).end == scan_from(
                b,
                0,
            )[k + 1].start,
{
    lemma_scan_from_tiles(b, 0);
    lemma_tiles_properties(scan_from(b, 0), 0, b.len() as int);
}

/// Header priority: the header tests are mutually exclusive — the three
/// formats' magic bytes differ in their first byte — and when a span is
/// extracted at an offset, its tag is the format whose header starts
/// there, tested in order PNG, JPG, GIF with the first match winning.
pub proof fn lemma_header_priority(b: Seq<u8>, i: int)
    ensures
        png_header_at(b, i) ==> !jpg_header_at(b, i) && !gif_header_at(b, i),
        jpg_header_at(b, i) ==> !png_header_at(b, i) && !gif_header_at(b, i),
        gif_header_at(b, i) ==> !png_header_at(b, i) && !jpg_header_at(b, i),
        png_header_at(b, i) && matched_at(b, i) is Some ==> matched_at(b, i).unwrap().0
            == ImageType::Png,
        jpg_header_at(b, i) && matched_at(b, i) is Some ==> matched_at(b, i).unwrap().0
            == ImageType::Jpg,
        gif_header_at(b, i) && matched_at(b, i) is Some ==> matched_at(b, i).unwrap().0
            == ImageType::Gif,
{
}

/// Unterminated header skip, full-partition mode: when the PNG
/// terminator occurs nowhere in the buffer, no scanned segment is tagged
/// PNG — a PNG header without its IEND trailer is treated as a false
/// positive and its bytes fall into opaque segments.
proof fn lemma_scan_from_no_png(b: Seq<u8>, i: int)
    requires
        0 <= i,
        forall|t: int| !pat_at(b, t, png_term_seq()),
    ensures
        forall|k: int|
            0 <= k < scan_from(b, i).len() ==> (#[trigger] scan_from(b, i)[k]).tag
                != ImageType::Png,
    decreases b.len() - i,
{
    if i < b.len() {
        lemma_step_bounds(b, i);
        lemma_find_from_none(b, i, png_term_seq(), 1);
        let e = crate::scanner::step_of(b, i).end;
        lemma_scan_from_no_png(b, e);
        assert forall|k: int|
            0 <= k < scan_from(b, i).len() implies (#[trigger] scan_from(b, i)[k]).tag
            != ImageType::Png by {
            if k > 0 {
                assert(scan_from(b, i)[k] == scan_from(b, e)[k - 1]);
            }
        }
    }
}

/// Unterminated header skip, single-type mode: when the PNG terminator
/// occurs nowhere in the buffer, the PNG pass yields no segments at all.
proof fn lemma_single_scan_no_png(b: Seq<u8>, i: int)
    requires
        0 <= i,
        forall|t: int| !pat_at(b, t, png_term_seq()),
    ensures
        single_scan_from(b, ImageType::Png, i) == Seq::<SegModel>::empty(),
    decreases b.len() - i,
{
    if i < b.len() {
        lemma_find_from_none(b, i, png_term_seq(), 1);
        lemma_single_scan_no_png(b, i + 1);
    }
}

/// Unterminated header skip: a buffer holding a PNG header but no IEND
/// trailer yields zero PNG segments; in full-partition mode the bytes
/// land in opaque segments, in single-type mode they are simply omitted.
pub proof fn lemma_unterminated_header_skipped(b: Seq<u8>)
    requires
        forall|t: int| !pat_at(b, t, png_term_seq()),
    ensures
        forall|k: int|
            0 <= k < scan_from(b, 0).len() ==> (#[trigger] scan_from(b, 0)[k]).tag
                != ImageType::Png,
        single_scan_from(b, ImageType::Png, 0) == Seq::<SegModel>::empty(),
{
    lemma_scan_from_no_png(b, 0);
    lemma_single_scan_no_png(b, 0);
}

/// With a shared prefix, lexicographic order is decided by what follows.
proof fn lemma_lex_prefix(p: Seq<u8>, x: Seq<u8>, y: Seq<u8>)
    ensures
        bytes_lt(p + x, p + y) == bytes_lt(x, y),
    decreases p.len(),
{
    if p.len() == 0 {
        assert(p + x =~= x);
        assert(p + y =~= y);
    } else {
        assert((p + x).drop_first() =~= p.drop_first() + x);
        assert((p + y).drop_first() =~= p.drop_first() + y);
        lemma_lex_prefix(p.drop_first(), x, y);
    }
}

/// A strict difference inside two equally long strings decides the order
/// whatever follows them.
proof fn lemma_lex_extend(x: Seq<u8>, y: Seq<u8>, s: Seq<u8>, t: Seq<u8>)
    requires
        x.len() == y.len(),
        bytes_lt(x, y),
    ensures
        bytes_lt(x + s, y + t),
    decreases x.len(),
{
    if x.len() > 0 {
        if x[0] == y[0] {
            assert((x + s).drop_first() =~= x.drop_first() + s);
            assert((y + t).drop_first() =~= y.drop_first() + t);
            lemma_lex_extend(x.drop_first(), y.drop_first(), s, t);
        }
    }
}

/// Zero-padding to a common width preserves numeric order in the
/// lexicographic comparison of the rendered digits.
proof fn lemma_padded_lt(a: nat, b: nat, w: nat)
    requires
        a < b,
        b < pow10(w),
    ensures
        bytes_lt(spec_padded(a, w), spec_padded(b, w)),
    decreases w,
{
    if w == 0 {
        assert(false);
    } else {
        let w1 = (w - 1) as nat;
        let qa = a / 10;
        let qb = b / 10;
        assert(a == 10 * qa + a % 10);
        assert(b == 10 * qb + b % 10);
        vstd::arithmetic::div_mod::lemma_div_is_ordered(a as int, b as int, 10);
        assert(qb < pow10(w1));
        lemma_padded_len(qa, w1);
        lemma_padded_len(qb, w1);
        if qa < qb {
            lemma_padded_lt(qa, qb, w1);
            lemma_lex_extend(
                spec_padded(qa, w1),
                spec_padded(qb, w1),
                seq![digit_ascii(a % 10)],
                seq![digit_ascii(b % 10)],
            );
        } else {
            assert(qa == qb);
            assert(a % 10 < b % 10);
            lemma_lex_prefix(
                spec_padded(qa, w1),
                seq![digit_ascii(a % 10)],
                seq![digit_ascii(b % 10)],
            );
            assert(bytes_lt(seq![digit_ascii(a % 10)], seq![digit_ascii(b % 10)]));
            assert(spec_padded(b, w) =~= spec_padded(qa, w1) + seq![digit_ascii(b % 10)]);
        }
    }
}

/// Naming order: with a one-based index bounded by the segment count,
/// the full-partition names compare lexicographically exactly as their
/// indices compare numerically, whatever the segment types.
pub proof fn lemma_name_lt(i: nat, j: nat, count: nat, t: ImageType, u: ImageType)
    requires
        1 <= i < j <= count,
    ensures
        bytes_lt(spec_segment_name(i, count, t), spec_segment_name(j, count, u)),
{
    let w = spec_name_width(count);
    lemma_digit_count_mono(j, count);
    lemma_digit_count_bound(j);
    lemma_pow10_mono(spec_digit_count(j), w);
    lemma_padded_lt(i, j, w);
    lemma_padded_len(i, w);
    lemma_padded_len(j, w);
    let si = seq![0x2eu8] + spec_extension(t);
    let sj = seq![0x2eu8] + spec_extension(u);
    lemma_lex_extend(spec_padded(i, w), spec_padded(j, w), si, sj);
    lemma_lex_prefix(spec_image_prefix(), spec_padded(i, w) + si, spec_padded(j, w) + sj);
    assert(spec_segment_name(i, count, t) =~= spec_image_prefix() + (spec_padded(i, w) + si));
    assert(spec_segment_name(j, count, u) =~= spec_image_prefix() + (spec_padded(j, w) + sj));
}

/// The fragments a full-partition raw carve of `b` writes: segment `k`
/// under its deterministic name, holding its byte range of `b`.
pub open spec fn carve_fragments(b: Seq<u8>) -> Seq<FragModel> {
    Seq::new(
        scan_from(b, 0).len(),
        |k: int|
            FragModel {
                name: spec_segment_name(
                    (k + 1) as nat,
                    scan_from(b, 0).len() as nat,
                    scan_from(b, 0)[k].tag,
                ),
                content: b.subrange(scan_from(b, 0)[k].start, scan_from(b, 0)[k].end),
            },
    )
}

/// Fragment contents concatenate exactly as the segment ranges they were
/// cut from.
proof fn lemma_concat_contents_of_segments(b: Seq<u8>, fs: Seq<FragModel>, ss: Seq<SegModel>)
    requires
        fs.len() == ss.len(),
        forall|k: int|
            0 <= k < fs.len() ==> (#[trigger] fs[k]).content == b.subrange(
                ss[k].start,
                ss[k].end,
            ),
    ensures
        concat_contents(fs) == concat_segs(b, ss),
    decreases fs.len(),
{
    if fs.len() > 0 {
        let fr = fs.drop_first();
        let sr = ss.drop_first();
        assert forall|k: int|
            0 <= k < fr.len() implies (#[trigger] fr[k]).content == b.subrange(
            sr[k].start,
            sr[k].end,
        ) by {
            assert(fr[k] == fs[k + 1]);
            assert(sr[k] == ss[k + 1]);
        }
        lemma_concat_contents_of_segments(b, fr, sr);
        assert(fs[0].content == b.subrange(ss[0].start, ss[0].end));
    }
}

/// Round trip: carving a buffer in full-partition raw mode and merging
/// the written fragments back — ordered by name, as the reassembler
/// orders them — reproduces the original buffer byte for byte.
#[verifier::rlimit(100)]
pub proof fn lemma_carve_merge_round_trip(b: Seq<u8>)
    ensures
        concat_contents(sort_fragments_spec(carve_fragments(b))) == b,
{
    let segs = scan_from(b, 0);
    let frags = carve_fragments(b);
    lemma_scan_from_tiles(b, 0);
    lemma_tiles_properties(segs, 0, b.len() as int);
    assert forall|k: int, l: int| 0 <= k < l < frags.len() implies bytes_lt(
        frags[k].name,
        frags[l].name,
    ) by {
        lemma_name_lt((k + 1) as nat, (l + 1) as nat, segs.len() as nat, segs[k].tag, segs[l].tag);
    }
    assert(strictly_increasing_names(frags));
    lemma_sort_identity(frags);
    lemma_concat_contents_of_segments(b, frags, segs);
    lemma_tiles_concat(b, segs, 0, b.len() as int);
    assert(b.subrange(0, b.len() as int) =~= b);
}

} // verus!
