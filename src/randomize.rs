use rand::rngs::StdRng;
use rand::{Rng, SeedableRng};
use vstd::prelude::*;

use crate::prepared::{
    row_view, segment_ranges, segment_view, segments_view, PreparedPixelSort,
    PreparedPixelSortImage, PreparedPixelSortRow, PreparedPixelSortSegment,
};
use crate::scanner::{covered, segments_well_formed};

verus! {

#[verifier::external_type_specification]
#[verifier::external_body]
pub struct ExStdRng(StdRng);

/// Relies on rand's `SeedableRng::seed_from_u64`: a generator seeded from `seed`.
#[verifier::external_body]
fn seeded_generator(seed: u64) -> StdRng {
    StdRng::seed_from_u64(seed)
}

/// Relies on rand's `Rng::random_range`: a value drawn uniformly from the
/// inclusive range `low..=high`; it panics only on an empty range.
#[verifier::external_body]
fn draw_in_range(rng: &mut StdRng, low: usize, high: usize) -> (r: usize)
    requires
        low <= high,
    ensures
        low <= r <= high,
    no_unwind
{
    rng.random_range(low..=high)
}

/// A source of sub-segment lengths for [`randomize_prepared_segments`].
pub trait SegmentLengthSource {
    /// Draws the length of the next sub-segment.
    fn next_segment_length(&mut self) -> usize;
}

/// Sub-segment lengths drawn uniformly from `low_inclusive..=high_inclusive`.
pub struct UniformSegmentLengths {
    rng: StdRng,
    low_inclusive: usize,
    high_inclusive: usize,
}

impl UniformSegmentLengths {
    #[verifier::type_invariant]
    spec fn inv(self) -> bool {
        self.low_inclusive <= self.high_inclusive
    }

    pub closed spec fn low(self) -> usize {
        self.low_inclusive
    }

    pub closed spec fn high(self) -> usize {
        self.high_inclusive
    }

    /// A source drawing from `low_inclusive..=high_inclusive`, seeded with `seed`.
    pub fn new(low_inclusive: usize, high_inclusive: usize, seed: u64) -> (r: UniformSegmentLengths)
        requires
            low_inclusive <= high_inclusive,
        ensures
            r.low() == low_inclusive,
            r.high() == high_inclusive,
    {
        UniformSegmentLengths { rng: seeded_generator(seed), low_inclusive, high_inclusive }
    }

    /// Draws one length.
    pub fn draw(&mut self) -> (r: usize)
        ensures
            final(self).low() == old(self).low(),
            final(self).high() == old(self).high(),
            old(self).low() <= r <= old(self).high(),
    {
        proof {
            use_type_invariant(&*self);
        }
        draw_in_range(&mut self.rng, self.low_inclusive, self.high_inclusive)
    }
}

impl SegmentLengthSource for UniformSegmentLengths {
    fn next_segment_length(&mut self) -> usize {
        self.draw()
    }
}

/// Where the sub-segment lengths of a randomization come from.
pub enum SegmentLengths<S> {
    /// Lengths drawn uniformly from a range.
    Uniform(UniformSegmentLengths),
    /// Lengths from a source of the caller's.
    Custom(S),
}

/// A drawn length is admitted by `bounds`: it lies in them when there are any.
pub open spec fn admits_length(bounds: Option<(usize, usize)>, length: usize) -> bool {
    match bounds {
        Some((low, high)) => low <= length <= high,
        None => true,
    }
}

impl<S: SegmentLengthSource> SegmentLengths<S> {
    /// The range every drawn length lies in, for a uniform source.
    pub open spec fn bounds(&self) -> Option<(usize, usize)> {
        match self {
            SegmentLengths::Uniform(u) => Some((u.low(), u.high())),
            SegmentLengths::Custom(_) => None,
        }
    }

    /// Draws the length of the next sub-segment.
    pub fn next_length(&mut self) -> (r: usize)
        ensures
            final(self).bounds() == old(self).bounds(),
            admits_length(old(self).bounds(), r),
    {
        match self {
            SegmentLengths::Uniform(u) => u.draw(),
            SegmentLengths::Custom(s) => s.next_segment_length(),
        }
    }
}

/// The sort keys of a sequence of segments, one after another.
pub open spec fn concatenated_contexts(pieces: Seq<(int, Seq<u32>)>) -> Seq<u32> {
    pieces.map_values(|p: (int, Seq<u32>)| p.1).flatten()
}

/// `pieces` cut `segment` into consecutive non-empty sub-segments: their sort keys,
/// one after another, are the segment's, and each begins where the ones before it
/// end.
pub open spec fn is_split_of(segment: (int, Seq<u32>), pieces: Seq<(int, Seq<u32>)>) -> bool {
    &&& concatenated_contexts(pieces) == segment.1
    &&& forall|i: int| 0 <= i < pieces.len() ==> 1 <= (#[trigger] pieces[i]).1.len()
    &&& forall|i: int|
        0 <= i < pieces.len() ==> (#[trigger] pieces[i]).0 == segment.0 + concatenated_contexts(
            pieces.take(i),
        ).len()
}

/// `pieces` cut `segment` as [`is_split_of`] says, and piece `i` is as long as the
/// drawn length `draws[i]` makes it for the pixels of the segment left at its start.
pub open spec fn is_drawn_split_of(
    segment: (int, Seq<u32>),
    pieces: Seq<(int, Seq<u32>)>,
    draws: Seq<usize>,
) -> bool {
    &&& is_split_of(segment, pieces)
    &&& draws.len() == pieces.len()
    &&& forall|i: int|
        0 <= i < pieces.len() ==> (#[trigger] pieces[i]).1.len() == sub_segment_length_spec(
            draws[i] as int,
            segment.1.len() - (pieces[i].0 - segment.0),
        )
}

/// The length of a sub-segment cut from `left` remaining pixels when `drawn` was
/// drawn: a drawn zero counts as one pixel, and a length beyond what is left is cut.
pub open spec fn sub_segment_length_spec(drawn: int, left: int) -> int {
    if drawn == 0 {
        1
    } else if drawn > left {
        left
    } else {
        drawn
    }
}

/// The length of the next sub-segment: the drawn length, at least one pixel and at
/// most the pixels left.
pub fn sub_segment_length(drawn: usize, left: usize) -> (r: usize)
    requires
        left >= 1,
    ensures
        1 <= r <= left,
        r == sub_segment_length_spec(drawn as int, left as int),
{
    if drawn == 0 {
        1
    } else if drawn > left {
        left
    } else {
        drawn
    }
}

proof fn lemma_concatenated_push(pieces: Seq<(int, Seq<u32>)>, p: (int, Seq<u32>))
    ensures
        concatenated_contexts(pieces.push(p)) == concatenated_contexts(pieces) + p.1,
{
    assert(pieces.push(p).map_values(|q: (int, Seq<u32>)| q.1) =~= pieces.map_values(
        |q: (int, Seq<u32>)| q.1,
    ).push(p.1));
    pieces.map_values(|q: (int, Seq<u32>)| q.1).lemma_flatten_push(p.1);
}

/// Cuts `segment` into sub-segments whose lengths come from `source` and appends
/// them to `out`; returns the lengths drawn, one per sub-segment. A drawn length of
/// zero counts as one pixel, and a length longer than what is left of the segment
/// is cut to it.
pub fn split_segment_into<S: SegmentLengthSource>(
    segment: &PreparedPixelSortSegment,
    source: &mut SegmentLengths<S>,
    out: &mut Vec<PreparedPixelSortSegment>,
    width: usize,
) -> (drawn: Vec<usize>)
    requires
        segment.start_column_index + segment.pixel_sorting_contexts@.len() <= width,
        segments_well_formed(segment_ranges(segments_view(old(out)@)), width as int),
        forall|k: int|
            0 <= k < old(out)@.len() ==> (#[trigger] old(out)@[k]).start_column_index
                + old(out)@[k].pixel_sorting_contexts@.len() <= segment.start_column_index,
    ensures
        final(out)@.len() >= old(out)@.len(),
        final(out)@.subrange(0, old(out)@.len() as int) == old(out)@,
        is_split_of(
            segment_view(*segment),
            segments_view(final(out)@.subrange(old(out)@.len() as int, final(out)@.len() as int)),
        ),
        segments_well_formed(segment_ranges(segments_view(final(out)@)), width as int),
        forall|k: int|
            0 <= k < final(out)@.len() ==> (#[trigger] final(out)@[k]).start_column_index
                + final(out)@[k].pixel_sorting_contexts@.len() <= segment.start_column_index
                + segment.pixel_sorting_contexts@.len(),
        is_drawn_split_of(
            segment_view(*segment),
            segments_view(final(out)@.subrange(old(out)@.len() as int, final(out)@.len() as int)),
            drawn@,
        ),
        final(source).bounds() == old(source).bounds(),
        forall|i: int| 0 <= i < drawn@.len() ==> admits_length(old(source).bounds(), #[trigger] drawn@[i]),
{
    let start = segment.start_column_index;
    let contexts = &segment.pixel_sorting_contexts;
    let n = contexts.len();
    let ghost base = old(out)@;
    let ghost base_len = base.len() as int;
    let mut offset: usize = 0;
    let mut draws: Vec<usize> = Vec::new();
    while offset < n
        invariant
            n == contexts@.len(),
            source.bounds() == old(source).bounds(),
            forall|i: int| 0 <= i < draws@.len() ==> admits_length(old(source).bounds(), #[trigger] draws@[i]),
            draws@.len() == out@.len() - base_len,
            forall|i: int|
                0 <= i < draws@.len() ==> (#[trigger] out@[base_len + i]).pixel_sorting_contexts@.len()
                    == sub_segment_length_spec(
                    draws@[i] as int,
                    n - (out@[base_len + i].start_column_index - start),
                ),
            start + n <= width,
            offset <= n,
            out@.len() >= base_len,
            base_len == base.len(),
            out@.subrange(0, base_len) == base,
            concatenated_contexts(segments_view(out@.subrange(base_len, out@.len() as int)))
                == contexts@.subrange(0, offset as int),
            forall|i: int|
                base_len <= i < out@.len() ==> 1 <= (#[trigger] out@[i]).pixel_sorting_contexts@.len(),
            forall|i: int|
                base_len <= i < out@.len() ==> (#[trigger] out@[i]).start_column_index == start
                    + concatenated_contexts(
                    segments_view(out@.subrange(base_len, i)),
                ).len(),
            segments_well_formed(segment_ranges(segments_view(out@)), width as int),
            forall|k: int|
                0 <= k < out@.len() ==> (#[trigger] out@[k]).start_column_index
                    + out@[k].pixel_sorting_contexts@.len() <= start + offset,
        decreases n - offset,
    {
        let drawn = source.next_length();
        let len = sub_segment_length(drawn, n - offset);
        let mut piece: Vec<u32> = Vec::new();
        let mut t: usize = 0;
        while t < len
            invariant
                n == contexts@.len(),
                offset + len <= n,
                t <= len,
                piece@.len() == t,
                forall|u: int| 0 <= u < t ==> piece@[u] == contexts@[offset + u],
            decreases len - t,
        {
            piece.push(contexts[offset + t]);
            t = t + 1;
        }
        assert(piece@ =~= contexts@.subrange(offset as int, offset + len));
        let ghost prev = out@;
        let ghost pieces_before = segments_view(prev.subrange(base_len, prev.len() as int));
        let new_segment = PreparedPixelSortSegment {
            start_column_index: start + offset,
            pixel_sorting_contexts: piece,
        };
        out.push(new_segment);
        draws.push(drawn);
        proof {
            assert forall|i: int| 0 <= i < draws@.len() implies (#[trigger] out@[base_len
                + i]).pixel_sorting_contexts@.len() == sub_segment_length_spec(
                draws@[i] as int,
                n - (out@[base_len + i].start_column_index - start),
            ) by {
                if i < draws@.len() - 1 {
                    assert(out@[base_len + i] == prev[base_len + i]);
                }
            }
            assert(out@.subrange(0, base_len) =~= prev.subrange(0, base_len));
            let pieces_after = segments_view(out@.subrange(base_len, out@.len() as int));
            assert(pieces_after =~= pieces_before.push(segment_view(new_segment)));
            lemma_concatenated_push(pieces_before, segment_view(new_segment));
            assert(contexts@.subrange(0, offset as int) + contexts@.subrange(
                offset as int,
                offset + len,
            ) =~= contexts@.subrange(0, offset + len));
            assert forall|i: int| base_len <= i < out@.len() implies (#[trigger] out@[i]).start_column_index
                == start + concatenated_contexts(segments_view(out@.subrange(base_len, i))).len() by {
                if i < out@.len() - 1 {
                    assert(out@.subrange(base_len, i) =~= prev.subrange(base_len, i));
                } else {
                    assert(out@.subrange(base_len, i) =~= prev.subrange(base_len, prev.len() as int));
                }
            }
            let ranges = segment_ranges(segments_view(out@));
            let prev_ranges = segment_ranges(segments_view(prev));
            assert forall|k: int| 0 <= k < prev.len() implies ranges[k] == prev_ranges[k] by {}
            assert(ranges[prev.len() as int] == (start + offset, len as int));
            assert forall|k: int, m: int| 0 <= k < m < ranges.len() implies (#[trigger] ranges[k]).0
                + ranges[k].1 <= (#[trigger] ranges[m]).0 by {
                if m < prev.len() {
                    assert(prev_ranges[k].0 + prev_ranges[k].1 <= prev_ranges[m].0);
                } else {
                    assert(prev[k].start_column_index + prev[k].pixel_sorting_contexts@.len() <= start
                        + offset);
                }
            }
        }
        offset = offset + len;
    }
    assert(contexts@.subrange(0, n as int) =~= contexts@);
    proof {
        let pieces = segments_view(out@.subrange(base_len, out@.len() as int));
        assert forall|i: int| 0 <= i < pieces.len() implies (#[trigger] pieces[i]).0 == start
            + concatenated_contexts(pieces.take(i)).len() by {
            assert(pieces.take(i) =~= segments_view(out@.subrange(base_len, base_len + i)));
            assert(pieces[i] == segment_view(out@[base_len + i]));
        }
        assert forall|i: int| 0 <= i < pieces.len() implies 1 <= (#[trigger] pieces[i]).1.len() by {
            assert(pieces[i] == segment_view(out@[base_len + i]));
        }
        assert forall|i: int| 0 <= i < pieces.len() implies (#[trigger] pieces[i]).1.len()
            == sub_segment_length_spec(
            draws@[i] as int,
            contexts@.len() - (pieces[i].0 - start),
        ) by {
            assert(pieces[i] == segment_view(out@[base_len + i]));
        }
    }
    draws
}

/// `new` is the row of segments `old` with each segment cut into sub-segments, in
/// order, as the drawn lengths `draws` (one per sub-segment, in order) make them.
pub open spec fn is_row_split_of(
    old: Seq<(int, Seq<u32>)>,
    new: Seq<(int, Seq<u32>)>,
    draws: Seq<usize>,
) -> bool {
    exists|parts: Seq<Seq<(int, Seq<u32>)>>, draw_parts: Seq<Seq<usize>>|
        #[trigger] splits_row(old, parts, draw_parts, new, draws)
}

/// `parts[k]` cuts `old[k]` with the drawn lengths `draw_parts[k]`; the parts one
/// after another are `new`, and their drawn lengths one after another are `draws`.
pub open spec fn splits_row(
    old: Seq<(int, Seq<u32>)>,
    parts: Seq<Seq<(int, Seq<u32>)>>,
    draw_parts: Seq<Seq<usize>>,
    new: Seq<(int, Seq<u32>)>,
    draws: Seq<usize>,
) -> bool {
    &&& parts.len() == old.len()
    &&& draw_parts.len() == old.len()
    &&& forall|k: int|
        0 <= k < old.len() ==> is_drawn_split_of(#[trigger] old[k], parts[k], draw_parts[k])
    &&& parts.flatten() == new
    &&& draw_parts.flatten() == draws
}

/// Cuts every segment of a scanline into sub-segments whose lengths come from
/// `source`; gives the new row and the lengths drawn, in order.
fn randomize_row<S: SegmentLengthSource>(
    row: &PreparedPixelSortRow,
    source: &mut SegmentLengths<S>,
    width: usize,
) -> (res: (PreparedPixelSortRow, Vec<usize>))
    requires
        segments_well_formed(segment_ranges(row_view(*row)), width as int),
    ensures
        segments_well_formed(segment_ranges(row_view(res.0)), width as int),
        is_row_split_of(row_view(*row), row_view(res.0), res.1@),
        final(source).bounds() == old(source).bounds(),
        forall|i: int| 0 <= i < res.1@.len() ==> admits_length(old(source).bounds(), #[trigger] res.1@[i]),
{
    let segments = &row.sorting_contexts_for_row;
    let ghost old_view = row_view(*row);
    let ghost ranges = segment_ranges(old_view);
    let mut out: Vec<PreparedPixelSortSegment> = Vec::new();
    let mut draws: Vec<usize> = Vec::new();
    let ghost mut parts: Seq<Seq<(int, Seq<u32>)>> = Seq::empty();
    let ghost mut draw_parts: Seq<Seq<usize>> = Seq::empty();
    let ghost mut bound: int = 0;
    let mut k: usize = 0;
    while k < segments.len()
        invariant
            old_view == segments_view(segments@),
            ranges == segment_ranges(old_view),
            segments_well_formed(ranges, width as int),
            k <= segments@.len(),
            parts.len() == k,
            draw_parts.len() == k,
            forall|m: int| 0 <= m < k ==> is_drawn_split_of(#[trigger] old_view[m], parts[m], draw_parts[m]),
            parts.flatten() == segments_view(out@),
            draw_parts.flatten() == draws@,
            source.bounds() == old(source).bounds(),
            forall|i: int| 0 <= i < draws@.len() ==> admits_length(old(source).bounds(), #[trigger] draws@[i]),
            segments_well_formed(segment_ranges(segments_view(out@)), width as int),
            forall|j: int|
                0 <= j < out@.len() ==> (#[trigger] out@[j]).start_column_index
                    + out@[j].pixel_sorting_contexts@.len() <= bound,
            k == 0 ==> bound == 0,
            k > 0 ==> bound == ranges[k - 1].0 + ranges[k - 1].1,
        decreases segments@.len() - k,
    {
        let segment = &segments[k];
        assert(old_view[k as int] == segment_view(*segment));
        assert(ranges[k as int] == (
            segment.start_column_index as int,
            segment.pixel_sorting_contexts@.len() as int,
        ));
        if k > 0 {
            assert(ranges[k - 1].0 + ranges[k - 1].1 <= ranges[k as int].0);
        }
        let ghost prev = out@;
        let ghost prev_draws = draws@;
        let mut drawn = split_segment_into(segment, source, &mut out, width);
        let ghost segment_draws = drawn@;
        draws.append(&mut drawn);
        proof {
            let pieces = segments_view(out@.subrange(prev.len() as int, out@.len() as int));
            assert(out@ =~= prev + out@.subrange(prev.len() as int, out@.len() as int));
            assert(segments_view(out@) =~= segments_view(prev) + pieces);
            parts.lemma_flatten_push(pieces);
            draw_parts.lemma_flatten_push(segment_draws);
            parts = parts.push(pieces);
            draw_parts = draw_parts.push(segment_draws);
            assert forall|i: int| 0 <= i < draws@.len() implies admits_length(
                old(source).bounds(),
                #[trigger] draws@[i],
            ) by {
                if i >= prev_draws.len() {
                    assert(draws@[i] == segment_draws[i - prev_draws.len()]);
                } else {
                    assert(draws@[i] == prev_draws[i]);
                }
            }
            bound = ranges[k as int].0 + ranges[k as int].1;
        }
        k = k + 1;
    }
    let r = PreparedPixelSortRow { sorting_contexts_for_row: out };
    assert(splits_row(old_view, parts, draw_parts, row_view(r), draws@));
    (r, draws)
}

/// Cuts every recorded segment into randomly sized sub-segments: lengths are drawn
/// from `source`, a drawn zero counts as one pixel, and a length longer than what
/// is left of the segment is cut to it. The image and the sort keys stay as they
/// are; only the segment layout becomes finer. Also gives, per scanline, the
/// lengths drawn, one per sub-segment in order; a uniform source draws them all
/// from its range.
pub fn randomize_prepared_segments<S: SegmentLengthSource>(
    prepared_pixel_sort: PreparedPixelSort,
    source: SegmentLengths<S>,
) -> (res: (PreparedPixelSort, Vec<Vec<usize>>))
    requires
        prepared_pixel_sort.wf(),
    ensures
        res.0.wf(),
        res.0.image == prepared_pixel_sort.image,
        res.0.rows_view().len() == prepared_pixel_sort.rows_view().len(),
        res.1@.len() == res.0.rows_view().len(),
        forall|y: int|
            0 <= y < res.0.rows_view().len() ==> is_row_split_of(
                #[trigger] prepared_pixel_sort.rows_view()[y],
                res.0.rows_view()[y],
                res.1@[y]@,
            ),
        forall|y: int, i: int|
            0 <= y < res.1@.len() && 0 <= i < res.1@[y]@.len() ==> admits_length(
                source.bounds(),
                #[trigger] res.1@[y]@[i],
            ),
{
    let ghost old_rows = prepared_pixel_sort.rows_view();
    let ghost scanned = prepared_pixel_sort.image.scanned();
    let ghost bounds = source.bounds();
    let mut source = source;
    let PreparedPixelSort { image, prepared_row_data } = prepared_pixel_sort;
    let width = match &image {
        PreparedPixelSortImage::PreparedHorizontal { image, .. } => image.width,
        PreparedPixelSortImage::PreparedVertical { rotated_image, .. } => {
            rotated_image.width
        },
    };
    let mut rows: Vec<PreparedPixelSortRow> = Vec::new();
    let mut drawn: Vec<Vec<usize>> = Vec::new();
    let mut y: usize = 0;
    while y < prepared_row_data.len()
        invariant
            scanned == image.scanned(),
            width == scanned.width,
            prepared_row_data@.len() == scanned.height,
            old_rows == prepared_row_data@.map_values(|r: PreparedPixelSortRow| row_view(r)),
            forall|k: int|
                0 <= k < scanned.height ==> segments_well_formed(
                    segment_ranges(row_view(#[trigger] prepared_row_data@[k])),
                    scanned.width as int,
                ),
            y <= prepared_row_data@.len(),
            rows@.len() == y,
            drawn@.len() == y,
            source.bounds() == bounds,
            forall|k: int|
                0 <= k < y ==> segments_well_formed(
                    segment_ranges(row_view(#[trigger] rows@[k])),
                    width as int,
                ),
            forall|k: int|
                0 <= k < y ==> is_row_split_of(old_rows[k], row_view(#[trigger] rows@[k]), drawn@[k]@),
            forall|k: int, i: int|
                0 <= k < y && 0 <= i < drawn@[k]@.len() ==> admits_length(bounds, #[trigger] drawn@[k]@[i]),
        decreases prepared_row_data@.len() - y,
    {
        let (row, row_draws) = randomize_row(&prepared_row_data[y], &mut source, width);
        rows.push(row);
        drawn.push(row_draws);
        y = y + 1;
    }
    let r = PreparedPixelSort { image, prepared_row_data: rows };
    assert forall|y: int| 0 <= y < r.rows_view().len() implies is_row_split_of(
        #[trigger] old_rows[y],
        r.rows_view()[y],
        drawn@[y]@,
    ) by {
        assert(r.rows_view()[y] == row_view(rows@[y]));
    }
    (r, drawn)
}

proof fn lemma_prefix_offsets(pieces: Seq<(int, Seq<u32>)>, j: int)
    requires
        0 <= j < pieces.len(),
    ensures
        concatenated_contexts(pieces.take(j + 1)).len() == concatenated_contexts(pieces.take(j)).len()
            + pieces[j].1.len(),
        concatenated_contexts(pieces.take(j + 1)).len() <= concatenated_contexts(pieces).len(),
{
    assert(pieces.take(j + 1) =~= pieces.take(j).push(pieces[j]));
    lemma_concatenated_push(pieces.take(j), pieces[j]);
    let f = |q: (int, Seq<u32>)| q.1;
    assert(pieces =~= pieces.take(j + 1) + pieces.skip(j + 1));
    assert(pieces.map_values(f) =~= pieces.take(j + 1).map_values(f) + pieces.skip(j + 1).map_values(f));
    vstd::seq_lib::lemma_flatten_concat(
        pieces.take(j + 1).map_values(f),
        pieces.skip(j + 1).map_values(f),
    );
}

proof fn lemma_offsets_cover(pieces: Seq<(int, Seq<u32>)>, m: int, t: int)
    requires
        0 <= m <= pieces.len(),
        0 <= t < concatenated_contexts(pieces.take(m)).len(),
    ensures
        exists|i: int|
            0 <= i < m && concatenated_contexts(pieces.take(i)).len() <= t
                < concatenated_contexts(pieces.take(i)).len() + (#[trigger] pieces[i]).1.len(),
    decreases m,
{
    if m == 0 {
        assert(pieces.take(0) =~= Seq::<(int, Seq<u32>)>::empty());
        assert(concatenated_contexts(pieces.take(0)) =~= Seq::<u32>::empty());
    } else {
        lemma_prefix_offsets(pieces, m - 1);
        if t < concatenated_contexts(pieces.take(m - 1)).len() {
            lemma_offsets_cover(pieces, m - 1, t);
        } else {
            assert(concatenated_contexts(pieces.take(m - 1)).len() <= t
                < concatenated_contexts(pieces.take(m - 1)).len() + pieces[m - 1].1.len());
        }
    }
}

/// The sub-segments of a segment cover exactly its positions: each lies inside the
/// segment, and each position of the segment lies in one of them.
pub proof fn lemma_split_covers_positions(segment: (int, Seq<u32>), pieces: Seq<(int, Seq<u32>)>)
    requires
        is_split_of(segment, pieces),
    ensures
        forall|i: int|
            0 <= i < pieces.len() ==> segment.0 <= (#[trigger] pieces[i]).0 && pieces[i].0
                + pieces[i].1.len() <= segment.0 + segment.1.len(),
        forall|j: int|
            segment.0 <= j < segment.0 + segment.1.len() ==> #[trigger] covered(
                segment_ranges(pieces),
                j,
            ),
{
    assert forall|i: int| 0 <= i < pieces.len() implies segment.0 <= (#[trigger] pieces[i]).0
        && pieces[i].0 + pieces[i].1.len() <= segment.0 + segment.1.len() by {
        lemma_prefix_offsets(pieces, i);
    }
    assert(pieces.take(pieces.len() as int) =~= pieces);
    assert forall|j: int| segment.0 <= j < segment.0 + segment.1.len() implies #[trigger] covered(
        segment_ranges(pieces),
        j,
    ) by {
        lemma_offsets_cover(pieces, pieces.len() as int, j - segment.0);
        let i = choose|i: int|
            0 <= i < pieces.len() && concatenated_contexts(pieces.take(i)).len() <= j - segment.0
                < concatenated_contexts(pieces.take(i)).len() + (#[trigger] pieces[i]).1.len();
        let ranges = segment_ranges(pieces);
        assert(ranges[i] == (pieces[i].0, pieces[i].1.len() as int));
        assert(ranges[i].0 <= j < ranges[i].0 + ranges[i].1);
    }
}

proof fn lemma_flatten_element_from_part(parts: Seq<Seq<(int, Seq<u32>)>>, t: int)
    requires
        0 <= t < parts.flatten().len(),
    ensures
        exists|k: int, i: int|
            0 <= k < parts.len() && 0 <= i < parts[k].len() && #[trigger] parts[k][i]
                == parts.flatten()[t],
    decreases parts.len(),
{
    if parts.len() == 0 {
        assert(parts.flatten().len() == 0);
    } else {
        let rest = parts.drop_first();
        assert(parts.flatten() == parts[0] + rest.flatten());
        if t < parts[0].len() {
            assert(parts[0][t] == parts.flatten()[t]);
        } else {
            lemma_flatten_element_from_part(rest, t - parts[0].len());
            let (k, i) = choose|k: int, i: int|
                0 <= k < rest.len() && 0 <= i < rest[k].len() && #[trigger] rest[k][i]
                    == rest.flatten()[t - parts[0].len()];
            assert(parts[k + 1][i] == parts.flatten()[t]);
        }
    }
}

proof fn lemma_flatten_element_of_part(parts: Seq<Seq<(int, Seq<u32>)>>, k: int, i: int)
    requires
        0 <= k < parts.len(),
        0 <= i < parts[k].len(),
    ensures
        exists|t: int| 0 <= t < parts.flatten().len() && #[trigger] parts.flatten()[t] == parts[k][i],
    decreases parts.len(),
{
    let rest = parts.drop_first();
    assert(parts.flatten() == parts[0] + rest.flatten());
    if k == 0 {
        assert(parts.flatten()[i] == parts[0][i]);
    } else {
        assert(rest[k - 1] == parts[k]);
        lemma_flatten_element_of_part(rest, k - 1, i);
        let t = choose|t: int| 0 <= t < rest.flatten().len() && #[trigger] rest.flatten()[t] == rest[k - 1][i];
        assert(parts.flatten()[t + parts[0].len()] == rest.flatten()[t]);
    }
}

/// Randomizing keeps a scanline's coverage: a position lies in one of the new
/// segments exactly when it lay in one of the old ones.
pub proof fn lemma_row_split_same_coverage(
    old: Seq<(int, Seq<u32>)>,
    new: Seq<(int, Seq<u32>)>,
    draws: Seq<usize>,
)
    requires
        is_row_split_of(old, new, draws),
    ensures
        forall|j: int| covered(segment_ranges(old), j) <==> #[trigger] covered(segment_ranges(new), j),
{
    let (parts, draw_parts) = choose|parts: Seq<Seq<(int, Seq<u32>)>>, draw_parts: Seq<Seq<usize>>|
        #[trigger] splits_row(old, parts, draw_parts, new, draws);
    let old_ranges = segment_ranges(old);
    let new_ranges = segment_ranges(new);
    assert forall|j: int| covered(old_ranges, j) <==> #[trigger] covered(new_ranges, j) by {
        if covered(old_ranges, j) {
            let k = choose|k: int|
                0 <= k < old_ranges.len() && #[trigger] old_ranges[k].0 <= j < old_ranges[k].0
                    + old_ranges[k].1;
            assert(old_ranges[k] == (old[k].0, old[k].1.len() as int));
            assert(is_drawn_split_of(old[k], parts[k], draw_parts[k]));
            lemma_split_covers_positions(old[k], parts[k]);
            let piece_ranges = segment_ranges(parts[k]);
            assert(covered(piece_ranges, j));
            let i = choose|i: int|
                0 <= i < piece_ranges.len() && #[trigger] piece_ranges[i].0 <= j < piece_ranges[i].0
                    + piece_ranges[i].1;
            assert(piece_ranges[i] == (parts[k][i].0, parts[k][i].1.len() as int));
            lemma_flatten_element_of_part(parts, k, i);
            let t = choose|t: int|
                0 <= t < parts.flatten().len() && #[trigger] parts.flatten()[t] == parts[k][i];
            assert(new_ranges[t] == (new[t].0, new[t].1.len() as int));
            assert(new_ranges[t].0 <= j < new_ranges[t].0 + new_ranges[t].1);
        }
        if covered(new_ranges, j) {
            let t = choose|t: int|
                0 <= t < new_ranges.len() && #[trigger] new_ranges[t].0 <= j < new_ranges[t].0
                    + new_ranges[t].1;
            assert(new_ranges[t] == (new[t].0, new[t].1.len() as int));
            lemma_flatten_element_from_part(parts, t);
            let (k, i) = choose|k: int, i: int|
                0 <= k < parts.len() && 0 <= i < parts[k].len() && #[trigger] parts[k][i]
                    == parts.flatten()[t];
            assert(is_drawn_split_of(old[k], parts[k], draw_parts[k]));
            lemma_split_covers_positions(old[k], parts[k]);
            assert(old[k].0 <= parts[k][i].0);
            assert(old_ranges[k] == (old[k].0, old[k].1.len() as int));
            assert(old_ranges[k].0 <= j < old_ranges[k].0 + old_ranges[k].1);
        }
    }
}

/// With every drawn length in `low..=high` (and `low` at least 1), every sub-segment
/// is at most `high` long, and every one but the last of its segment at least `low`.
pub proof fn lemma_uniform_piece_lengths(
    segment: (int, Seq<u32>),
    pieces: Seq<(int, Seq<u32>)>,
    draws: Seq<usize>,
    low: int,
    high: int,
)
    requires
        is_drawn_split_of(segment, pieces, draws),
        1 <= low <= high,
        forall|i: int| 0 <= i < draws.len() ==> low <= #[trigger] draws[i] <= high,
    ensures
        forall|i: int| 0 <= i < pieces.len() ==> 1 <= (#[trigger] pieces[i]).1.len() <= high,
        forall|i: int| 0 <= i < pieces.len() - 1 ==> low <= (#[trigger] pieces[i]).1.len(),
{
    assert forall|i: int| 0 <= i < pieces.len() implies 1 <= (#[trigger] pieces[i]).1.len()
        <= high by {
        assert(low <= draws[i] <= high);
    }
    assert forall|i: int| 0 <= i < pieces.len() - 1 implies low <= (#[trigger] pieces[i]).1.len() by {
        lemma_prefix_offsets(pieces, i);
        lemma_prefix_offsets(pieces, i + 1);
        assert(1 <= pieces[i + 1].1.len());
        assert(low <= draws[i] <= high);
    }
}

/// The total length of a sequence of segments.
pub open spec fn total_length(pieces: Seq<(int, Seq<u32>)>) -> int
    decreases pieces.len(),
{
    if pieces.len() == 0 {
        0
    } else {
        total_length(pieces.drop_last()) + pieces.last().1.len()
    }
}

/// Cutting a segment of length L into sub-segments loses and reorders nothing: their
/// sort keys, one after another, are exactly the segment's, and their lengths add
/// up to L.
pub proof fn lemma_split_covers_segment(segment: (int, Seq<u32>), pieces: Seq<(int, Seq<u32>)>)
    requires
        is_split_of(segment, pieces),
    ensures
        concatenated_contexts(pieces) == segment.1,
        total_length(pieces) == segment.1.len(),
{
    lemma_total_length(pieces);
}

proof fn lemma_total_length(pieces: Seq<(int, Seq<u32>)>)
    ensures
        total_length(pieces) == concatenated_contexts(pieces).len(),
    decreases pieces.len(),
{
    if pieces.len() > 0 {
        lemma_total_length(pieces.drop_last());
        assert(pieces =~= pieces.drop_last().push(pieces.last()));
        lemma_concatenated_push(pieces.drop_last(), pieces.last());
    } else {
        assert(concatenated_contexts(pieces) =~= Seq::<u32>::empty());
    }
}

} // verus!
