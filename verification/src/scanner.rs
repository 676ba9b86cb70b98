//! Boundary search and the carving scanner.
//!
//! The scanner walks the buffer once. At each cursor position it tests the
//! format headers in priority order PNG, JPG, GIF; on a match it searches
//! for that format's terminator and emits the closed span, and otherwise
//! (or when the terminator never occurs) it emits an opaque span running
//! to the next recognized header. Two modes exist: a full-partition pass
//! that covers every byte, and a legacy single-type pass per format that
//! drops unrecognized bytes.

use vstd::prelude::*;
use crate::signatures::{
    ImageType, pat_at, png_header_at, jpg_header_at, gif_header_at, header_at, png_term_seq,
    jpg_term_seq, gif_term_seq, is_png_header, is_jpg_header, is_gif_header, is_any_header,
    png_terminator_pattern, jpg_terminator_pattern, gif_terminator_pattern,
};

verus! {

/// The smallest offset of the form `pos + k * stride` at which `p` occurs
/// in `b`, scanning windows of `p.len()` bytes advanced by `stride`.
pub open spec fn find_from(b: Seq<u8>, pos: int, p: Seq<u8>, stride: int) -> Option<int>
    decreases b.len() - pos
        when 1 <= stride <= p.len()
{
    if pos < 0 || pos + p.len() > b.len() {
        None
    } else if pat_at(b, pos, p) {
        Some(pos)
    } else {
        find_from(b, pos + stride, p, stride)
    }
}

/// A found terminator lies at or after the search start, matches the
/// pattern, and fits inside the buffer.
pub proof fn lemma_find_from_some(b: Seq<u8>, pos: int, p: Seq<u8>, stride: int)
    requires
        1 <= stride <= p.len(),
        find_from(b, pos, p, stride) is Some,
    ensures
        pos <= find_from(b, pos, p, stride).unwrap(),
        pat_at(b, find_from(b, pos, p, stride).unwrap(), p),
        find_from(b, pos, p, stride).unwrap() + p.len() <= b.len(),
    decreases b.len() - pos,
{
    if !(pos < 0 || pos + p.len() > b.len()) && !pat_at(b, pos, p) {
        lemma_find_from_some(b, pos + stride, p, stride);
    }
}

/// When the pattern occurs nowhere in the buffer, the search fails.
pub proof fn lemma_find_from_none(b: Seq<u8>, pos: int, p: Seq<u8>, stride: int)
    requires
        1 <= stride <= p.len(),
        forall|t: int| !pat_at(b, t, p),
    ensures
        find_from(b, pos, p, stride) is None,
    decreases b.len() - pos,
{
    if !(pos < 0 || pos + p.len() > b.len()) {
        assert(!pat_at(b, pos, p));
        lemma_find_from_none(b, pos + stride, p, stride);
    }
}

/// The smallest offset at or after `j` where any recognized header starts,
/// or the buffer length when none follows.
pub open spec fn next_from(b: Seq<u8>, j: int) -> int
    decreases b.len() - j,
{
    if !(0 <= j < b.len()) {
        b.len() as int
    } else if header_at(b, j) {
        j
    } else {
        next_from(b, j + 1)
    }
}

pub proof fn lemma_next_from_bounds(b: Seq<u8>, j: int)
    requires
        0 <= j <= b.len(),
    ensures
        j <= next_from(b, j) <= b.len(),
    decreases b.len() - j,
{
    if j < b.len() && !header_at(b, j) {
        lemma_next_from_bounds(b, j + 1);
    }
}

/// The exclusive end of the span that a single-format test at offset `i`
/// would extract: the header of `t` must start at `i` and its terminator
/// must occur later in the buffer.
pub open spec fn single_end_at(b: Seq<u8>, i: int, t: ImageType) -> Option<int> {
    match t {
        ImageType::Png => if png_header_at(b, i) {
            match find_from(b, i, png_term_seq(), 1) {
                Some(tt) => Some(tt + 8),
                None => None,
            }
        } else {
            None
        },
        ImageType::Jpg => if jpg_header_at(b, i) {
            match find_from(b, i, jpg_term_seq(), 1) {
                Some(tt) => Some(tt + 2),
                None => None,
            }
        } else {
            None
        },
        ImageType::Gif => if gif_header_at(b, i) {
            match find_from(b, i, gif_term_seq(), 1) {
                Some(tt) => Some(tt + 2),
                None => None,
            }
        } else {
            None
        },
        ImageType::Unknown => None,
    }
}

pub proof fn lemma_single_end_bounds(b: Seq<u8>, i: int, t: ImageType)
    requires
        single_end_at(b, i, t) is Some,
    ensures
        i < single_end_at(b, i, t).unwrap() <= b.len(),
{
    match t {
        ImageType::Png => lemma_find_from_some(b, i, png_term_seq(), 1),
        ImageType::Jpg => lemma_find_from_some(b, i, jpg_term_seq(), 1),
        ImageType::Gif => lemma_find_from_some(b, i, gif_term_seq(), 1),
        ImageType::Unknown => (),
    }
}

/// The format and exclusive end extracted at offset `i`, testing headers
/// in priority order PNG, JPG, GIF; `None` when no header starts at `i`
/// or the matched header's terminator never occurs.
pub open spec fn matched_at(b: Seq<u8>, i: int) -> Option<(ImageType, int)> {
    if png_header_at(b, i) {
        match single_end_at(b, i, ImageType::Png) {
            Some(e) => Some((ImageType::Png, e)),
            None => None,
        }
    } else if jpg_header_at(b, i) {
        match single_end_at(b, i, ImageType::Jpg) {
            Some(e) => Some((ImageType::Jpg, e)),
            None => None,
        }
    } else if gif_header_at(b, i) {
        match single_end_at(b, i, ImageType::Gif) {
            Some(e) => Some((ImageType::Gif, e)),
            None => None,
        }
    } else {
        None
    }
}

/// A segment of the scan result: a classified, half-open byte range of
/// the source buffer.
pub ghost struct SegModel {
    pub tag: ImageType,
    pub start: int,
    pub end: int,
}

/// The segment the full-partition scanner emits at cursor position `i`:
/// the matched span, or an opaque span running to the next header.
pub open spec fn step_of(b: Seq<u8>, i: int) -> SegModel {
    match matched_at(b, i) {
        Some((t, e)) => SegModel { tag: t, start: i, end: e },
        None => SegModel { tag: ImageType::Unknown, start: i, end: next_from(b, i + 1) },
    }
}

pub proof fn lemma_step_bounds(b: Seq<u8>, i: int)
    requires
        0 <= i < b.len(),
    ensures
        step_of(b, i).start == i,
        i < step_of(b, i).end <= b.len(),
{
    match matched_at(b, i) {
        Some((t, e)) => {
            if png_header_at(b, i) {
                lemma_single_end_bounds(b, i, ImageType::Png);
            } else if jpg_header_at(b, i) {
                lemma_single_end_bounds(b, i, ImageType::Jpg);
            } else {
                lemma_single_end_bounds(b, i, ImageType::Gif);
            }
        },
        None => {
            lemma_next_from_bounds(b, i + 1);
        },
    }
}

/// The full-partition scan of `b` from cursor position `i` on: the
/// ordered sequence of segments covering `[i, b.len())`.
pub open spec fn scan_from(b: Seq<u8>, i: int) -> Seq<SegModel>
    decreases b.len() - i
        when 0 <= i
        via scan_from_decreases
{
    if i >= b.len() {
        Seq::empty()
    } else {
        seq![step_of(b, i)] + scan_from(b, step_of(b, i).end)
    }
}

#[via_fn]
proof fn scan_from_decreases(b: Seq<u8>, i: int) {
    if 0 <= i && i < b.len() {
        lemma_step_bounds(b, i);
    }
}

/// The single-type scan of `b` for format `t` from position `i` on: spans
/// of `t` alone, with unmatched bytes dropped.
pub open spec fn single_scan_from(b: Seq<u8>, t: ImageType, i: int) -> Seq<SegModel>
    decreases b.len() - i
        when 0 <= i
        via single_scan_from_decreases
{
    if i >= b.len() {
        Seq::empty()
    } else {
        match single_end_at(b, i, t) {
            Some(e) => seq![SegModel { tag: t, start: i, end: e }] + single_scan_from(b, t, e),
            None => single_scan_from(b, t, i + 1),
        }
    }
}

#[via_fn]
proof fn single_scan_from_decreases(b: Seq<u8>, t: ImageType, i: int) {
    if 0 <= i && i < b.len() && single_end_at(b, i, t) is Some {
        lemma_single_end_bounds(b, i, t);
    }
}

/// The segments that single-type mode emits over the whole buffer: one
/// independent pass per format, grouped in order PNG, JPG, GIF.
pub open spec fn single_scan_all(b: Seq<u8>) -> Seq<SegModel> {
    single_scan_from(b, ImageType::Png, 0) + single_scan_from(b, ImageType::Jpg, 0)
        + single_scan_from(b, ImageType::Gif, 0)
}

/// `segs` is a gapless, non-overlapping chain of non-empty ranges that
/// starts at `lo` and ends exactly at `hi`.
pub open spec fn tiles(segs: Seq<SegModel>, lo: int, hi: int) -> bool
    decreases segs.len(),
{
    if segs.len() == 0 {
        lo == hi
    } else {
        &&& segs[0].start == lo
        &&& lo < segs[0].end
        &&& tiles(segs.drop_first(), segs[0].end, hi)
    }
}

pub proof fn lemma_tiles_lo_le_hi(segs: Seq<SegModel>, lo: int, hi: int)
    requires
        tiles(segs, lo, hi),
    ensures
        lo <= hi,
    decreases segs.len(),
{
    if segs.len() > 0 {
        lemma_tiles_lo_le_hi(segs.drop_first(), segs[0].end, hi);
    }
}

/// What a tiling chain says of each segment: in-bounds non-empty ranges,
/// each starting where its predecessor ends, the first at `lo` and the
/// last ending at `hi`.
#[verifier::rlimit(50)]
pub proof fn lemma_tiles_properties(segs: Seq<SegModel>, lo: int, hi: int)
    requires
        tiles(segs, lo, hi),
    ensures
        segs.len() == 0 ==> lo == hi,
        segs.len() > 0 ==> segs[0].start == lo && segs[segs.len() - 1].end == hi,
        forall|k: int| 0 <= k < segs.len() ==> lo <= (#[trigger] segs[k]).start < segs[k].end <= hi,
        forall|k: int| 0 <= k < segs.len() - 1 ==> (#[trigger] segs[k]).end == segs[k + 1].start,
    decreases segs.len(),
{
    if segs.len() > 0 {
        let rest = segs.drop_first();
        lemma_tiles_properties(rest, segs[0].end, hi);
        lemma_tiles_lo_le_hi(rest, segs[0].end, hi);
        assert forall|k: int| 0 <= k < segs.len() implies lo <= (#[trigger] segs[k]).start
            < segs[k].end <= hi by {
            if k > 0 {
                assert(segs[k] == rest[k - 1]);
            } else {
                if rest.len() == 0 {
                } else {
                    assert(lo < segs[0].end <= hi);
                }
            }
        }
        assert forall|k: int| 0 <= k < segs.len() - 1 implies (#[trigger] segs[k]).end == segs[k
            + 1].start by {
            if k > 0 {
                assert(segs[k] == rest[k - 1]);
                assert(segs[k + 1] == rest[k]);
            } else {
                assert(segs[1] == rest[0]);
            }
        }
    }
}

/// The full-partition scan tiles the whole remaining buffer.
pub proof fn lemma_scan_from_tiles(b: Seq<u8>, i: int)
    requires
        0 <= i <= b.len(),
    ensures
        tiles(scan_from(b, i), i, b.len() as int),
    decreases b.len() - i,
{
    if i < b.len() {
        lemma_step_bounds(b, i);
        let e = step_of(b, i).end;
        lemma_scan_from_tiles(b, e);
        assert((seq![step_of(b, i)] + scan_from(b, e)).drop_first() =~= scan_from(b, e));
    }
}

/// The bytes of `segs`' ranges, in order.
pub open spec fn concat_segs(b: Seq<u8>, segs: Seq<SegModel>) -> Seq<u8>
    decreases segs.len(),
{
    if segs.len() == 0 {
        Seq::empty()
    } else {
        b.subrange(segs[0].start, segs[0].end) + concat_segs(b, segs.drop_first())
    }
}

/// Concatenating the ranges of a tiling chain yields exactly the bytes
/// the chain covers.
pub proof fn lemma_tiles_concat(b: Seq<u8>, segs: Seq<SegModel>, lo: int, hi: int)
    requires
        tiles(segs, lo, hi),
        0 <= lo,
        hi <= b.len(),
    ensures
        concat_segs(b, segs) == b.subrange(lo, hi),
    decreases segs.len(),
{
    if segs.len() == 0 {
        assert(b.subrange(lo, hi) =~= Seq::<u8>::empty());
    } else {
        let e = segs[0].end;
        lemma_tiles_lo_le_hi(segs.drop_first(), e, hi);
        lemma_tiles_concat(b, segs.drop_first(), e, hi);
        assert(b.subrange(lo, e) + b.subrange(e, hi) =~= b.subrange(lo, hi));
    }
}

/// An extracted segment: a classified half-open byte range `[start, end)`
/// of the source buffer. Segments never copy buffer bytes.
#[derive(Clone, Copy, Debug, PartialEq, Eq, Structural)]
pub struct Segment {
    pub image_type: ImageType,
    pub start: usize,
    pub end: usize,
}

impl View for Segment {
    type V = SegModel;

    open spec fn view(&self) -> SegModel {
        SegModel { tag: self.image_type, start: self.start as int, end: self.end as int }
    }
}

impl DeepView for Segment {
    type V = SegModel;

    open spec fn deep_view(&self) -> SegModel {
        self.view()
    }
}

/// How the scanner assigns bytes to segments: a full partition covering
/// every byte, or one independent pass per format.
#[derive(Clone, Copy, Debug, PartialEq, Eq, Structural)]
pub enum ScanMode {
    FullPartition,
    SingleType,
}

/// Boundary search: the smallest offset at or after `start` of the form
/// `start + k * stride` where `pattern` occurs in `data`, or `None` when
/// the pattern never occurs before the buffer ends.
pub fn find_terminator(data: &[u8], start: usize, pattern: &[u8], stride: usize) -> (r: Option<
    usize,
>)
    requires
        1 <= stride <= pattern@.len(),
    ensures
        ({
            let m = find_from(data@, start as int, pattern@, stride as int);
            match r {
                Some(t) => {
                    &&& m == Some(t as int)
                    &&& start <= t
                    &&& t + pattern@.len() <= data@.len()
                    &&& pat_at(data@, t as int, pattern@)
                },
                None => m is None,
            }
        }),
{
    if pattern.len() > data.len() {
        return None;
    }
    let last = data.len() - pattern.len();
    let mut pos = start;
    if pos > last {
        return None;
    }
    proof {
        assert(data@.len() == data.len());
    }
    while pos <= last
        invariant
            start <= pos,
            1 <= stride <= pattern@.len(),
            pattern@.len() + last == data@.len(),
            data@.len() <= usize::MAX,
            find_from(data@, start as int, pattern@, stride as int) == find_from(
                data@,
                pos as int,
                pattern@,
                stride as int,
            ),
        decreases data@.len() - pos,
    {
        if match_at(data, pos, pattern) {
            return Some(pos);
        }
        pos += stride;
    }
    proof {
        assert(find_from(data@, pos as int, pattern@, stride as int) is None);
    }
    None
}

/// Compares the window of `data` at `pos` against `pattern`.
fn match_at(data: &[u8], pos: usize, pattern: &[u8]) -> (r: bool)
    requires
        pos + pattern@.len() <= data@.len(),
    ensures
        r == pat_at(data@, pos as int, pattern@),
{
    let n = pattern.len();
    let mut k: usize = 0;
    proof {
        assert(data@.len() == data.len());
    }
    while k < n
        invariant
            k <= n,
            n == pattern@.len(),
            pos + n <= data@.len(),
            data@.len() <= usize::MAX,
            forall|m: int| 0 <= m < k ==> data@[pos + m] == pattern@[m],
        decreases n - k,
    {
        if data[pos + k] != pattern[k] {
            proof {
                assert(data@.subrange(pos as int, pos + n as int)[k as int] == data@[pos + k]);
            }
            return false;
        }
        k += 1;
    }
    proof {
        assert(data@.subrange(pos as int, pos + n as int) =~= pattern@);
    }
    true
}

/// The smallest offset at or after `from` where any recognized header
/// starts, or the buffer length.
pub fn next_header(data: &[u8], from: usize) -> (r: usize)
    requires
        from <= data@.len(),
    ensures
        r as int == next_from(data@, from as int),
        from <= r <= data@.len(),
{
    let mut j = from;
    while j < data.len()
        invariant
            from <= j <= data@.len(),
            next_from(data@, from as int) == next_from(data@, j as int),
        decreases data@.len() - j,
    {
        if is_any_header(data, j) {
            return j;
        }
        j += 1;
    }
    j
}

/// Attempts a single-format extraction at offset `i`: the header of `t`
/// must start there and its terminator must occur later.
fn single_try(data: &[u8], i: usize, t: ImageType) -> (r: Option<Segment>)
    requires
        i < data@.len(),
    ensures
        match r {
            Some(seg) => {
                &&& single_end_at(data@, i as int, t) == Some(seg.end as int)
                &&& seg.image_type == t
                &&& seg.start == i
                &&& i < seg.end <= data@.len()
            },
            None => single_end_at(data@, i as int, t) is None,
        },
{
    proof {
        assert(data@.len() == data.len());
    }
    match t {
        ImageType::Png => {
            if is_png_header(data, i) {
                let pat = png_terminator_pattern();
                match find_terminator(data, i, pat.as_slice(), 1) {
                    Some(tt) => Some(Segment { image_type: t, start: i, end: tt + 8 }),
                    None => None,
                }
            } else {
                None
            }
        },
        ImageType::Jpg => {
            if is_jpg_header(data, i) {
                let pat = jpg_terminator_pattern();
                match find_terminator(data, i, pat.as_slice(), 1) {
                    Some(tt) => Some(Segment { image_type: t, start: i, end: tt + 2 }),
                    None => None,
                }
            } else {
                None
            }
        },
        ImageType::Gif => {
            if is_gif_header(data, i) {
                let pat = gif_terminator_pattern();
                match find_terminator(data, i, pat.as_slice(), 1) {
                    Some(tt) => Some(Segment { image_type: t, start: i, end: tt + 2 }),
                    None => None,
                }
            } else {
                None
            }
        },
        ImageType::Unknown => None,
    }
}

/// Attempts an extraction at offset `i`, testing headers in priority
/// order PNG, JPG, GIF.
fn try_match(data: &[u8], i: usize) -> (r: Option<Segment>)
    requires
        i < data@.len(),
    ensures
        match r {
            Some(seg) => {
                &&& matched_at(data@, i as int) == Some((seg.image_type, seg.end as int))
                &&& seg.start == i
                &&& i < seg.end <= data@.len()
            },
            None => matched_at(data@, i as int) is None,
        },
{
    if is_png_header(data, i) {
        single_try(data, i, ImageType::Png)
    } else if is_jpg_header(data, i) {
        single_try(data, i, ImageType::Jpg)
    } else if is_gif_header(data, i) {
        single_try(data, i, ImageType::Gif)
    } else {
        None
    }
}

/// The full-partition scan: a single interleaved pass whose segments
/// cover every byte of the buffer exactly once.
pub fn scan_full(data: &[u8]) -> (r: Vec<Segment>)
    ensures
        r.deep_view() == scan_from(data@, 0),
{
    let mut segs: Vec<Segment> = Vec::new();
    let mut i: usize = 0;
    while i < data.len()
        invariant
            i <= data@.len(),
            segs.deep_view() + scan_from(data@, i as int) == scan_from(data@, 0),
        decreases data@.len() - i,
    {
        let seg = match try_match(data, i) {
            Some(s) => s,
            None => {
                let e = next_header(data, i + 1);
                Segment { image_type: ImageType::Unknown, start: i, end: e }
            },
        };
        proof {
            assert(seg@ == step_of(data@, i as int));
            assert(scan_from(data@, i as int) == seq![step_of(data@, i as int)] + scan_from(
                data@,
                seg.end as int,
            ));
        }
        let ghost pre = segs.deep_view();
        segs.push(seg);
        proof {
            assert(segs.deep_view() =~= pre + seq![seg@]);
            assert(segs.deep_view() + scan_from(data@, seg.end as int) =~= scan_from(data@, 0));
        }
        i = seg.end;
    }
    proof {
        assert(scan_from(data@, i as int) =~= Seq::<SegModel>::empty());
        assert(segs.deep_view() =~= scan_from(data@, 0));
    }
    segs
}

/// One single-type pass: scans the whole buffer independently for spans
/// of `t` alone.
pub fn scan_single(data: &[u8], t: ImageType) -> (r: Vec<Segment>)
    ensures
        r.deep_view() == single_scan_from(data@, t, 0),
{
    let mut segs: Vec<Segment> = Vec::new();
    let mut i: usize = 0;
    while i < data.len()
        invariant
            i <= data@.len(),
            segs.deep_view() + single_scan_from(data@, t, i as int) == single_scan_from(
                data@,
                t,
                0,
            ),
        decreases data@.len() - i,
    {
        match single_try(data, i, t) {
            Some(seg) => {
                proof {
                    assert(single_scan_from(data@, t, i as int) == seq![seg@] + single_scan_from(
                        data@,
                        t,
                        seg.end as int,
                    ));
                }
                let ghost pre = segs.deep_view();
                segs.push(seg);
                proof {
                    assert(segs.deep_view() =~= pre + seq![seg@]);
                    assert(segs.deep_view() + single_scan_from(data@, t, seg.end as int)
                        =~= single_scan_from(data@, t, 0));
                }
                i = seg.end;
            },
            None => {
                i += 1;
            },
        }
    }
    proof {
        assert(single_scan_from(data@, t, i as int) =~= Seq::<SegModel>::empty());
        assert(segs.deep_view() =~= single_scan_from(data@, t, 0));
    }
    segs
}

/// The carving scanner: emits the ordered segments of `data` under the
/// chosen mode. Full-partition mode partitions the whole buffer; single-
/// type mode runs one pass per format, grouped PNG, JPG, GIF.
pub fn find_images(data: &[u8], mode: ScanMode) -> (r: Vec<Segment>)
    ensures
        mode == ScanMode::FullPartition ==> r.deep_view() == scan_from(data@, 0),
        mode == ScanMode::SingleType ==> r.deep_view() == single_scan_all(data@),
{
    match mode {
        ScanMode::FullPartition => scan_full(data),
        ScanMode::SingleType => {
            let mut r = scan_single(data, ImageType::Png);
            let mut js = scan_single(data, ImageType::Jpg);
            let mut gs = scan_single(data, ImageType::Gif);
            let ghost d1 = r.deep_view();
            let ghost d2 = js.deep_view();
            let ghost d3 = gs.deep_view();
            r.append(&mut js);
            proof {
                assert(r.deep_view() =~= d1 + d2);
            }
            r.append(&mut gs);
            proof {
                assert(r.deep_view() =~= (d1 + d2) + d3);
                assert((d1 + d2) + d3 =~= single_scan_all(data@));
            }
            r
        },
    }
}

} // verus!
