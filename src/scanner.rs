use vstd::prelude::*;

verus! {

/// A run of scanline positions `[start, start + len)`.
#[derive(Clone, Copy, Debug, PartialEq, Eq, Structural)]
pub struct SegmentSpan {
    pub start: usize,
    pub len: usize,
}

/// The state of the segment scanner.
#[derive(Clone, Copy, Debug, PartialEq, Eq, Structural)]
pub enum PixelSegmentScannerState {
    /// Not inside a segment.
    OutsideSortableSegment,
    /// Inside a segment that began at `segment_start_index`.
    CollectingSortableSegment { segment_start_index: usize },
}

/// Spans as pairs `(start, len)`.
pub open spec fn spans_view(spans: Seq<SegmentSpan>) -> Seq<(int, int)> {
    spans.map_values(|s: SegmentSpan| (s.start as int, s.len as int))
}

/// One step of the scanner at position `i`. A member opens a segment or extends
/// the open one. A non-member closes the open segment and is itself its last
/// position; outside a segment it is skipped.
pub open spec fn scan_step(
    state: (Seq<(int, int)>, Option<int>),
    i: int,
    member: bool,
) -> (Seq<(int, int)>, Option<int>) {
    let (segments, open) = state;
    if member {
        match open {
            None => (segments, Some(i)),
            Some(s) => (segments, Some(s)),
        }
    } else {
        match open {
            None => (segments, None),
            Some(s) => (segments.push((s, i + 1 - s)), None),
        }
    }
}

/// The segments closed after scanning the first `n` positions, and the start of
/// the segment still open then, if any.
pub open spec fn scan_prefix(members: Seq<bool>, n: nat) -> (Seq<(int, int)>, Option<int>)
    decreases n,
{
    if n == 0 {
        (Seq::empty(), None)
    } else {
        scan_step(scan_prefix(members, (n - 1) as nat), n - 1, members[n - 1])
    }
}

/// The segments `(start, len)` that the scanner emits for a scanline with the given
/// membership: at the end of the scanline a still open segment is emitted as it is.
pub open spec fn scan_segments(members: Seq<bool>) -> Seq<(int, int)> {
    let (segments, open) = scan_prefix(members, members.len());
    match open {
        None => segments,
        Some(s) => segments.push((s, members.len() - s)),
    }
}

/// Each segment is non-empty and inside `[0, len)`, and the segments come in
/// order without overlapping.
pub open spec fn segments_well_formed(segments: Seq<(int, int)>, len: int) -> bool {
    &&& forall|k: int|
        0 <= k < segments.len() ==> {
            &&& 0 <= (#[trigger] segments[k]).0
            &&& 1 <= segments[k].1
            &&& segments[k].0 + segments[k].1 <= len
        }
    &&& forall|k: int, m: int|
        0 <= k < m < segments.len() ==> (#[trigger] segments[k]).0 + segments[k].1
            <= (#[trigger] segments[m]).0
}

/// Position `j` lies in one of the segments.
pub open spec fn covered(segments: Seq<(int, int)>, j: int) -> bool {
    exists|k: int| 0 <= k < segments.len() && #[trigger] segments[k].0 <= j < segments[k].0 + segments[k].1
}

proof fn lemma_scan_prefix_well_formed(members: Seq<bool>, n: nat)
    requires
        n <= members.len(),
    ensures
        segments_well_formed(scan_prefix(members, n).0, n as int),
        scan_prefix(members, n).1 matches Some(s) ==> {
            &&& 0 <= s < n
            &&& forall|k: int|
                0 <= k < scan_prefix(members, n).0.len() ==> (#[trigger] scan_prefix(
                    members,
                    n,
                ).0[k]).0 + scan_prefix(members, n).0[k].1 <= s
        },
    decreases n,
{
    if n > 0 {
        lemma_scan_prefix_well_formed(members, (n - 1) as nat);
    }
}

/// The scanner emits well-formed segments.
pub proof fn lemma_scan_segments_well_formed(members: Seq<bool>)
    ensures
        segments_well_formed(scan_segments(members), members.len() as int),
{
    lemma_scan_prefix_well_formed(members, members.len());
}

proof fn lemma_scan_prefix_no_members(members: Seq<bool>, n: nat)
    requires
        n <= members.len(),
        forall|i: int| 0 <= i < n ==> !members[i],
    ensures
        scan_prefix(members, n) == (Seq::<(int, int)>::empty(), None::<int>),
    decreases n,
{
    if n > 0 {
        lemma_scan_prefix_no_members(members, (n - 1) as nat);
    }
}

/// A scanline without a single member yields no segment.
pub proof fn lemma_no_members_no_segments(members: Seq<bool>)
    requires
        forall|i: int| 0 <= i < members.len() ==> !members[i],
    ensures
        scan_segments(members).len() == 0,
{
    lemma_scan_prefix_no_members(members, members.len());
}

/// The segment `(start, len)` starts at a member that opens a run (at position 0 or
/// after a non-member), every position but its last is a member, and it ends at the
/// first non-member after the run, or with the run at the end of the scanline.
pub open spec fn segment_shape(members: Seq<bool>, segment: (int, int)) -> bool {
    let (s, l) = segment;
    &&& 0 <= s
    &&& 1 <= l
    &&& s + l <= members.len()
    &&& members[s]
    &&& (s == 0 || !members[s - 1])
    &&& forall|j: int| s <= j < s + l - 1 ==> #[trigger] members[j]
    &&& (members[s + l - 1] ==> s + l == members.len())
}

proof fn lemma_scan_prefix_shape(members: Seq<bool>, n: nat)
    requires
        n <= members.len(),
    ensures
        forall|k: int|
            0 <= k < scan_prefix(members, n).0.len() ==> {
                let (s, l) = #[trigger] scan_prefix(members, n).0[k];
                &&& segment_shape(members, (s, l))
                &&& !members[s + l - 1]
                &&& s + l <= n
            },
        scan_prefix(members, n).1 matches Some(o) ==> {
            &&& 0 <= o < n
            &&& members[o]
            &&& (o == 0 || !members[o - 1])
            &&& forall|j: int| o <= j < n ==> #[trigger] members[j]
        },
        forall|j: int|
            0 <= j < n && #[trigger] members[j] ==> covered(scan_prefix(members, n).0, j) || (scan_prefix(
                members,
                n,
            ).1 matches Some(o) && o <= j),
    decreases n,
{
    if n > 0 {
        let i = n - 1;
        lemma_scan_prefix_shape(members, (n - 1) as nat);
        let (segs0, open0) = scan_prefix(members, (n - 1) as nat);
        let (segs, open) = scan_prefix(members, n);
        if members[i] {
            if open0 is None && i > 0 && members[i - 1] {
                assert(covered(segs0, i - 1));
                let k = choose|k: int|
                    0 <= k < segs0.len() && #[trigger] segs0[k].0 <= i - 1 < segs0[k].0 + segs0[k].1;
                assert(segs0[k].0 + segs0[k].1 <= i);
            }
        } else if let Some(o) = open0 {
            assert(segs == segs0.push((o, i + 1 - o)));
            assert forall|j: int| 0 <= j < n && #[trigger] members[j] implies covered(segs, j) by {
                if j >= o {
                    let last = segs0.len() as int;
                    assert(segs[last] == (o, i + 1 - o));
                    assert(segs[last].0 <= j < segs[last].0 + segs[last].1);
                } else {
                    assert(covered(segs0, j));
                    let k = choose|k: int|
                        0 <= k < segs0.len() && #[trigger] segs0[k].0 <= j < segs0[k].0
                            + segs0[k].1;
                    assert(segs[k] == segs0[k]);
                    assert(segs[k].0 <= j < segs[k].0 + segs[k].1);
                }
            }
        }
    }
}

/// What the scanner emits, stated directly: every segment has the shape of
/// [`segment_shape`], and every member lies in a segment.
pub proof fn lemma_scan_segments_shape(members: Seq<bool>)
    ensures
        forall|k: int|
            0 <= k < scan_segments(members).len() ==> segment_shape(
                members,
                #[trigger] scan_segments(members)[k],
            ),
        forall|j: int|
            0 <= j < members.len() && #[trigger] members[j] ==> covered(scan_segments(members), j),
{
    let n = members.len();
    lemma_scan_prefix_shape(members, n);
    let (segs, open) = scan_prefix(members, n);
    if let Some(o) = open {
        let all = segs.push((o, n - o));
        assert(scan_segments(members) == all);
        assert forall|j: int| 0 <= j < n && #[trigger] members[j] implies covered(all, j) by {
            if j >= o {
                let last = segs.len() as int;
                assert(all[last] == (o, n - o));
                assert(all[last].0 <= j < all[last].0 + all[last].1);
            } else {
                let k = choose|k: int|
                    0 <= k < segs.len() && #[trigger] segs[k].0 <= j < segs[k].0 + segs[k].1;
                assert(all[k] == segs[k]);
                assert(all[k].0 <= j < all[k].0 + all[k].1);
            }
        }
        assert forall|k: int| 0 <= k < all.len() implies segment_shape(members, #[trigger] all[k]) by {
            if k < segs.len() {
                assert(all[k] == segs[k]);
            }
        }
    }
}

/// Runs the scanner over a scanline's membership flags and returns the segments
/// it emits, in order.
pub fn find_segments(members: &Vec<bool>) -> (r: Vec<SegmentSpan>)
    ensures
        spans_view(r@) == scan_segments(members@),
{
    let n = members.len();
    let mut segments: Vec<SegmentSpan> = Vec::new();
    let mut state = PixelSegmentScannerState::OutsideSortableSegment;
    let mut i: usize = 0;
    while i < n
        invariant
            n == members@.len(),
            i <= n,
            spans_view(segments@) == scan_prefix(members@, i as nat).0,
            match state {
                PixelSegmentScannerState::OutsideSortableSegment => scan_prefix(
                    members@,
                    i as nat,
                ).1 == None::<int>,
                PixelSegmentScannerState::CollectingSortableSegment { segment_start_index } => {
                    &&& scan_prefix(members@, i as nat).1 == Some(segment_start_index as int)
                    &&& segment_start_index < i
                },
            },
        decreases n - i,
    {
        if members[i] {
            if let PixelSegmentScannerState::OutsideSortableSegment = state {
                state =
                PixelSegmentScannerState::CollectingSortableSegment { segment_start_index: i };
            }
        } else {
            if let PixelSegmentScannerState::CollectingSortableSegment { segment_start_index } =
                state {
                let span = SegmentSpan { start: segment_start_index, len: i + 1 - segment_start_index };
                segments.push(span);
                assert(spans_view(segments@) =~= scan_prefix(members@, (i + 1) as nat).0);
                state = PixelSegmentScannerState::OutsideSortableSegment;
            }
        }
        i = i + 1;
    }
    if let PixelSegmentScannerState::CollectingSortableSegment { segment_start_index } = state {
        segments.push(SegmentSpan { start: segment_start_index, len: n - segment_start_index });
        assert(spans_view(segments@) =~= scan_segments(members@));
    }
    segments
}

/// Membership by an inclusive range of context values.
pub open spec fn range_members(contexts: Seq<u32>, low: u32, high: u32) -> Seq<bool> {
    contexts.map_values(|v: u32| low <= v && v <= high)
}

/// Membership by a binary edge mask: an edge pixel (255) is a member, and so is
/// position 0 when segments start on the image edge.
pub open spec fn edge_members(mask: Seq<u8>, segment_starts_on_image_edge: bool) -> Seq<bool> {
    Seq::new(mask.len(), |i: int| mask[i] == 255 || (i == 0 && segment_starts_on_image_edge))
}

/// Marks the positions whose context lies in `[low, high]`.
pub fn members_in_range(contexts: &Vec<u32>, low: u32, high: u32) -> (r: Vec<bool>)
    ensures
        r@ == range_members(contexts@, low, high),
{
    let mut out: Vec<bool> = Vec::new();
    let mut i: usize = 0;
    while i < contexts.len()
        invariant
            i <= contexts@.len(),
            out@.len() == i,
            forall|k: int| 0 <= k < i ==> out@[k] == (low <= contexts@[k] && contexts@[k] <= high),
        decreases contexts@.len() - i,
    {
        let v = contexts[i];
        out.push(low <= v && v <= high);
        i = i + 1;
    }
    assert(out@ =~= range_members(contexts@, low, high));
    out
}

/// Marks the edge positions of a binary edge mask (and position 0 when
/// `segment_starts_on_image_edge` is set).
pub fn members_on_edges(mask: &Vec<u8>, segment_starts_on_image_edge: bool) -> (r: Vec<bool>)
    ensures
        r@ == edge_members(mask@, segment_starts_on_image_edge),
{
    let mut out: Vec<bool> = Vec::new();
    let mut i: usize = 0;
    while i < mask.len()
        invariant
            i <= mask@.len(),
            out@.len() == i,
            forall|k: int|
                0 <= k < i ==> out@[k] == (mask@[k] == 255 || (k == 0
                    && segment_starts_on_image_edge)),
        decreases mask@.len() - i,
    {
        out.push(mask[i] == 255 || (i == 0 && segment_starts_on_image_edge));
        i = i + 1;
    }
    assert(out@ =~= edge_members(mask@, segment_starts_on_image_edge));
    out
}

} // verus!
