use vstd::prelude::*;
use vstd::seq_lib::{group_to_multiset_ensures, lemma_multiset_commutative, to_multiset_build};

use crate::pixel::{PixelWithContext, Rgba};

verus! {

/// The order in which a segment's pixels are arranged by their sort key.
#[derive(Clone, Copy, Debug, PartialEq, Eq, Structural)]
pub enum PixelSegmentSortDirection {
    Ascending,
    Descending,
}

/// The scan axis together with the order of the sort.
#[derive(Clone, Copy, Debug, PartialEq, Eq, Structural)]
pub enum ImageSortingDirection {
    /// Rows are scanned left to right.
    Horizontal(PixelSegmentSortDirection),
    /// Columns are scanned; the image is turned 90 degrees clockwise first, so a
    /// column is read from the bottom up.
    Vertical(PixelSegmentSortDirection),
}

/// Key `a` may stand before key `b` in the given order.
pub open spec fn in_order(a: u32, b: u32, direction: PixelSegmentSortDirection) -> bool {
    match direction {
        PixelSegmentSortDirection::Ascending => a <= b,
        PixelSegmentSortDirection::Descending => a >= b,
    }
}

/// The contexts of `s` are monotonic in the given order.
pub open spec fn is_sorted_by_context(
    s: Seq<PixelWithContext>,
    direction: PixelSegmentSortDirection,
) -> bool {
    forall|i: int, j: int|
        0 <= i < j < s.len() ==> in_order(#[trigger] s[i].context, #[trigger] s[j].context, direction)
}

/// The pixels of a sequence of contextualized pixels.
pub open spec fn pixels_of(s: Seq<PixelWithContext>) -> Seq<Rgba> {
    s.map_values(|p: PixelWithContext| p.pixel)
}

/// Pairs each pixel with the context at the same position.
pub open spec fn zip_contexts(pixels: Seq<Rgba>, contexts: Seq<u32>) -> Seq<PixelWithContext> {
    Seq::new(pixels.len(), |i: int| PixelWithContext { pixel: pixels[i], context: contexts[i] })
}

/// `q` is the stable sort of `pairs` by context, and its pixels are `out`.
pub open spec fn arranges(
    q: Seq<PixelWithContext>,
    pairs: Seq<PixelWithContext>,
    direction: PixelSegmentSortDirection,
    out: Seq<Rgba>,
) -> bool {
    &&& is_stable_sort_of(q, pairs, direction)
    &&& pixels_of(q) == out
}

/// `out` is what sorting `pairs` by context leaves of their pixels: the pixels of the
/// stable sort of the pairs (pairs with equal keys keep their order).
pub open spec fn is_sorted_arrangement(
    pairs: Seq<PixelWithContext>,
    direction: PixelSegmentSortDirection,
    out: Seq<Rgba>,
) -> bool {
    exists|q: Seq<PixelWithContext>| #[trigger] arranges(q, pairs, direction, out)
}

/// Holds of the pairs whose context is `key`.
pub open spec fn has_key(key: u32) -> spec_fn(PixelWithContext) -> bool {
    |p: PixelWithContext| p.context == key
}

/// The pairs of `s` whose context is `key`, in their order in `s`.
pub open spec fn with_key(s: Seq<PixelWithContext>, key: u32) -> Seq<PixelWithContext> {
    s.filter(has_key(key))
}

/// `q` is the stable sort of `p`: a rearrangement of `p`, sorted by context, in which
/// the pairs with any one key keep their order in `p`.
pub open spec fn is_stable_sort_of(
    q: Seq<PixelWithContext>,
    p: Seq<PixelWithContext>,
    direction: PixelSegmentSortDirection,
) -> bool {
    &&& q.to_multiset() == p.to_multiset()
    &&& is_sorted_by_context(q, direction)
    &&& forall|key: u32| #[trigger] with_key(q, key) == with_key(p, key)
}

proof fn lemma_with_key_push(s: Seq<PixelWithContext>, e: PixelWithContext, key: u32)
    ensures
        with_key(s.push(e), key) == if e.context == key {
            with_key(s, key).push(e)
        } else {
            with_key(s, key)
        },
{
    s.lemma_filter_push(e, has_key(key));
}

proof fn lemma_key_found(s: Seq<PixelWithContext>, key: u32)
    requires
        with_key(s, key).len() > 0,
    ensures
        exists|t: int| 0 <= t < s.len() && #[trigger] s[t].context == key,
    decreases s.len(),
{
    if s.len() == 0 {
        assert(with_key(s, key).len() == 0) by {
            assert(s =~= Seq::<PixelWithContext>::empty());
            reveal(Seq::filter);
        }
    } else {
        let rest = s.drop_last();
        assert(s =~= rest.push(s.last()));
        lemma_with_key_push(rest, s.last(), key);
        if s.last().context != key {
            lemma_key_found(rest, key);
            let t = choose|t: int| 0 <= t < rest.len() && #[trigger] rest[t].context == key;
            assert(s[t].context == key);
        } else {
            assert(s[s.len() - 1].context == key);
        }
    }
}

proof fn lemma_key_absent(s: Seq<PixelWithContext>, key: u32)
    requires
        forall|t: int| 0 <= t < s.len() ==> (#[trigger] s[t]).context != key,
    ensures
        with_key(s, key) == Seq::<PixelWithContext>::empty(),
{
    if with_key(s, key).len() > 0 {
        lemma_key_found(s, key);
    }
    assert(with_key(s, key) =~= Seq::<PixelWithContext>::empty());
}

/// A sequence has one stable sort: two stable sorts of the same pairs are equal.
pub proof fn lemma_stable_sort_unique(
    q1: Seq<PixelWithContext>,
    q2: Seq<PixelWithContext>,
    p: Seq<PixelWithContext>,
    direction: PixelSegmentSortDirection,
)
    requires
        is_stable_sort_of(q1, p, direction),
        is_stable_sort_of(q2, p, direction),
    ensures
        q1 == q2,
{
    lemma_same_keys_sorted_equal(q1, q2, direction);
}

proof fn lemma_same_keys_sorted_equal(
    q1: Seq<PixelWithContext>,
    q2: Seq<PixelWithContext>,
    direction: PixelSegmentSortDirection,
)
    requires
        q1.to_multiset() == q2.to_multiset(),
        is_sorted_by_context(q1, direction),
        is_sorted_by_context(q2, direction),
        forall|key: u32| #[trigger] with_key(q1, key) == with_key(q2, key),
    ensures
        q1 == q2,
    decreases q1.len(),
{
    broadcast use group_to_multiset_ensures;

    assert(q1.to_multiset().len() == q1.len());
    assert(q2.to_multiset().len() == q2.len());
    if q1.len() == 0 {
        assert(q1 =~= q2);
    } else {
        let x1 = q1.last();
        let x2 = q2.last();
        let r1 = q1.drop_last();
        let r2 = q2.drop_last();
        assert(q1 =~= r1.push(x1));
        assert(q2 =~= r2.push(x2));
        lemma_with_key_push(r1, x1, x1.context);
        lemma_with_key_push(r2, x2, x2.context);
        lemma_with_key_push(r2, x2, x1.context);
        lemma_with_key_push(r1, x1, x2.context);
        // Both last pairs carry the last key in sort order.
        assert(with_key(q2, x1.context).len() > 0);
        lemma_key_found(q2, x1.context);
        let t2 = choose|t: int| 0 <= t < q2.len() && #[trigger] q2[t].context == x1.context;
        if t2 < q2.len() - 1 {
            assert(in_order(q2[t2].context, q2[q2.len() - 1].context, direction));
        }
        assert(with_key(q1, x2.context).len() > 0);
        lemma_key_found(q1, x2.context);
        let t1 = choose|t: int| 0 <= t < q1.len() && #[trigger] q1[t].context == x2.context;
        if t1 < q1.len() - 1 {
            assert(in_order(q1[t1].context, q1[q1.len() - 1].context, direction));
        }
        assert(x1.context == x2.context);
        assert(with_key(q1, x1.context).last() == x1);
        assert(with_key(q2, x1.context).last() == x2);
        assert(x1 == x2);
        assert forall|key: u32| #[trigger] with_key(r1, key) == with_key(r2, key) by {
            lemma_with_key_push(r1, x1, key);
            lemma_with_key_push(r2, x2, key);
            if key == x1.context {
                assert(with_key(r1, key) =~= with_key(q1, key).drop_last());
                assert(with_key(r2, key) =~= with_key(q2, key).drop_last());
            }
        }
        assert(r1.to_multiset() =~= q1.to_multiset().remove(x1));
        assert(r2.to_multiset() =~= q2.to_multiset().remove(x2));
        lemma_same_keys_sorted_equal(r1, r2, direction);
    }
}

fn key_in_order(a: u32, b: u32, direction: PixelSegmentSortDirection) -> (r: bool)
    ensures
        r == in_order(a, b, direction),
{
    match direction {
        PixelSegmentSortDirection::Ascending => a <= b,
        PixelSegmentSortDirection::Descending => a >= b,
    }
}

/// Merges two sorted sequences into one sorted sequence holding the elements of both.
fn merge(
    a: &Vec<PixelWithContext>,
    b: &Vec<PixelWithContext>,
    direction: PixelSegmentSortDirection,
) -> (r: Vec<PixelWithContext>)
    requires
        is_sorted_by_context(a@, direction),
        is_sorted_by_context(b@, direction),
        a@.len() + b@.len() <= usize::MAX,
    ensures
        r@.to_multiset() == a@.to_multiset().add(b@.to_multiset()),
        r@.len() == a@.len() + b@.len(),
        is_sorted_by_context(r@, direction),
        forall|key: u32| #[trigger] with_key(r@, key) == with_key(a@, key) + with_key(b@, key),
{
    broadcast use group_to_multiset_ensures;

    let mut out: Vec<PixelWithContext> = Vec::new();
    let mut i: usize = 0;
    let mut j: usize = 0;
    while i < a.len() || j < b.len()
        invariant
            is_sorted_by_context(a@, direction),
            is_sorted_by_context(b@, direction),
            a@.len() + b@.len() <= usize::MAX,
            i <= a@.len(),
            j <= b@.len(),
            out@.len() == i + j,
            out@.to_multiset() == a@.subrange(0, i as int).to_multiset().add(
                b@.subrange(0, j as int).to_multiset(),
            ),
            is_sorted_by_context(out@, direction),
            forall|k: int, t: int|
                0 <= k < out@.len() && i <= t < a@.len() ==> in_order(
                    #[trigger] out@[k].context,
                    #[trigger] a@[t].context,
                    direction,
                ),
            forall|k: int, t: int|
                0 <= k < out@.len() && j <= t < b@.len() ==> in_order(
                    #[trigger] out@[k].context,
                    #[trigger] b@[t].context,
                    direction,
                ),
            forall|key: u32|
                #[trigger] with_key(out@, key) == with_key(a@.subrange(0, i as int), key) + with_key(
                    b@.subrange(0, j as int),
                    key,
                ),
            forall|t: int, s: int|
                0 <= t < j && i <= s < a@.len() ==> !in_order(
                    #[trigger] a@[s].context,
                    #[trigger] b@[t].context,
                    direction,
                ),
        decreases a@.len() + b@.len() - i - j,
    {
        let take_a = if i < a.len() && j < b.len() {
            key_in_order(a[i].context, b[j].context, direction)
        } else {
            i < a.len()
        };
        if take_a {
            let e = a[i];
            let ghost ma = a@.subrange(0, i as int).to_multiset();
            let ghost mb = b@.subrange(0, j as int).to_multiset();
            assert(a@.subrange(0, i + 1) =~= a@.subrange(0, i as int).push(e));
            assert(ma.insert(e).add(mb) =~= ma.add(mb).insert(e));
            let ghost before = out@;
            out.push(e);
            proof {
                to_multiset_build(before, e);
                to_multiset_build(a@.subrange(0, i as int), e);
                to_multiset_build(b@.subrange(0, j as int), e);
            }
            assert(out@ == before.push(e));
            assert(out@.to_multiset() == before.to_multiset().insert(e));
            proof {
                let sa = a@.subrange(0, i as int);
                let sb = b@.subrange(0, j as int);
                assert forall|t: int| 0 <= t < sb.len() implies (#[trigger] sb[t]).context
                    != e.context by {
                    assert(!in_order(a@[i as int].context, b@[t].context, direction));
                }
                lemma_key_absent(sb, e.context);
                assert forall|key: u32| #[trigger] with_key(out@, key) == with_key(
                    a@.subrange(0, i + 1),
                    key,
                ) + with_key(sb, key) by {
                    lemma_with_key_push(before, e, key);
                    lemma_with_key_push(sa, e, key);
                    if key == e.context {
                        assert(with_key(out@, key) =~= with_key(a@.subrange(0, i + 1), key)
                            + with_key(sb, key));
                    }
                }
            }
            i = i + 1;
        } else {
            let e = b[j];
            let ghost ma = a@.subrange(0, i as int).to_multiset();
            let ghost mb = b@.subrange(0, j as int).to_multiset();
            assert(b@.subrange(0, j + 1) =~= b@.subrange(0, j as int).push(e));
            assert(ma.add(mb.insert(e)) =~= ma.add(mb).insert(e));
            let ghost before = out@;
            out.push(e);
            proof {
                to_multiset_build(before, e);
                to_multiset_build(a@.subrange(0, i as int), e);
                to_multiset_build(b@.subrange(0, j as int), e);
            }
            assert(out@ == before.push(e));
            assert(out@.to_multiset() == before.to_multiset().insert(e));
            proof {
                let sa = a@.subrange(0, i as int);
                let sb = b@.subrange(0, j as int);
                assert forall|key: u32| #[trigger] with_key(out@, key) == with_key(sa, key)
                    + with_key(b@.subrange(0, j + 1), key) by {
                    lemma_with_key_push(before, e, key);
                    lemma_with_key_push(sb, e, key);
                    if key == e.context {
                        assert(with_key(out@, key) =~= with_key(sa, key) + with_key(
                            b@.subrange(0, j + 1),
                            key,
                        ));
                    }
                }
                assert forall|t: int, s: int| 0 <= t < j + 1 && i <= s < a@.len() implies !in_order(
                    #[trigger] a@[s].context,
                    #[trigger] b@[t].context,
                    direction,
                ) by {
                    if t == j {
                        assert(in_order(a@[i as int].context, a@[s].context, direction) || s
                            == i);
                    }
                }
            }
            j = j + 1;
        }
    }
    assert(a@.subrange(0, a@.len() as int) =~= a@);
    assert(b@.subrange(0, b@.len() as int) =~= b@);
    out
}

/// Sorts the pairs `v[lo..hi]` by context in the given order, into a new vector.
/// The sort is stable: pairs with equal keys keep their order.
pub fn sort_by_context(
    v: &Vec<PixelWithContext>,
    lo: usize,
    hi: usize,
    direction: PixelSegmentSortDirection,
) -> (r: Vec<PixelWithContext>)
    requires
        lo <= hi <= v@.len(),
    ensures
        is_stable_sort_of(r@, v@.subrange(lo as int, hi as int), direction),
        r@.to_multiset() == v@.subrange(lo as int, hi as int).to_multiset(),
        r@.len() == hi - lo,
        is_sorted_by_context(r@, direction),
    decreases hi - lo,
{
    broadcast use group_to_multiset_ensures;

    if hi - lo <= 1 {
        let mut out: Vec<PixelWithContext> = Vec::new();
        if hi > lo {
            out.push(v[lo]);
        }
        assert(out@ =~= v@.subrange(lo as int, hi as int));
        return out;
    }
    let mid = lo + (hi - lo) / 2;
    let left = sort_by_context(v, lo, mid, direction);
    let right = sort_by_context(v, mid, hi, direction);
    proof {
        assert(v@.subrange(lo as int, hi as int) =~= v@.subrange(lo as int, mid as int) + v@.subrange(
            mid as int,
            hi as int,
        ));
        lemma_multiset_commutative(
            v@.subrange(lo as int, mid as int),
            v@.subrange(mid as int, hi as int),
        );
    }
    let r = merge(&left, &right, direction);
    proof {
        assert forall|key: u32| #[trigger] with_key(r@, key) == with_key(
            v@.subrange(lo as int, hi as int),
            key,
        ) by {
            Seq::filter_distributes_over_add(
                v@.subrange(lo as int, mid as int),
                v@.subrange(mid as int, hi as int),
                has_key(key),
            );
        }
    }
    r
}

/// Two sequences of contextualized pixels with the same elements (counted with
/// multiplicity) carry the same pixels.
pub proof fn lemma_same_pairs_same_pixels(a: Seq<PixelWithContext>, b: Seq<PixelWithContext>)
    requires
        a.to_multiset() == b.to_multiset(),
    ensures
        pixels_of(a).to_multiset() == pixels_of(b).to_multiset(),
    decreases a.len(),
{
    broadcast use group_to_multiset_ensures;
    broadcast use vstd::multiset::group_multiset_axioms;

    if a.len() == 0 {
        assert(a.to_multiset().len() == a.len());
        assert(b.to_multiset().len() == b.len());
        assert(b.len() == 0);
        assert(pixels_of(a) =~= Seq::<Rgba>::empty());
        assert(pixels_of(b) =~= Seq::<Rgba>::empty());
    } else {
        let x = a.last();
        let rest = a.drop_last();
        assert(a =~= rest.push(x));
        assert(a.to_multiset() == rest.to_multiset().insert(x));
        assert(b.to_multiset().count(x) > 0);
        assert(b.contains(x));
        let i = choose|i: int| 0 <= i < b.len() && b[i] == x;
        let b_rest = b.remove(i);
        assert(b_rest.to_multiset() == b.to_multiset().remove(x));
        assert(rest.to_multiset() =~= rest.to_multiset().insert(x).remove(x));
        lemma_same_pairs_same_pixels(rest, b_rest);
        assert(pixels_of(a) =~= pixels_of(rest).push(x.pixel));
        assert(pixels_of(b_rest) =~= pixels_of(b).remove(i));
        assert(pixels_of(b)[i] == x.pixel);
        assert(pixels_of(b_rest).to_multiset() == pixels_of(b).to_multiset().remove(x.pixel));
        assert(pixels_of(b).to_multiset().count(x.pixel) > 0) by {
            assert(pixels_of(b).contains(x.pixel));
        }
        assert(pixels_of(b).to_multiset() =~= pixels_of(b).to_multiset().remove(x.pixel).insert(
            x.pixel,
        ));
    }
}

/// Sorting keeps the pixels: what a sorted arrangement writes holds the pixels of
/// the pairs it was given, each as often as before.
pub proof fn lemma_sorted_arrangement_keeps_pixels(
    pairs: Seq<PixelWithContext>,
    direction: PixelSegmentSortDirection,
    out: Seq<Rgba>,
)
    requires
        is_sorted_arrangement(pairs, direction, out),
    ensures
        out.to_multiset() == pixels_of(pairs).to_multiset(),
{
    let q = choose|q: Seq<PixelWithContext>| #[trigger] arranges(q, pairs, direction, out);
    lemma_same_pairs_same_pixels(q, pairs);
}

/// Sorting is a function of its input: the pixels it leaves are fixed by the pairs
/// and the direction.
pub proof fn lemma_sorted_arrangement_unique(
    pairs: Seq<PixelWithContext>,
    direction: PixelSegmentSortDirection,
    out1: Seq<Rgba>,
    out2: Seq<Rgba>,
)
    requires
        is_sorted_arrangement(pairs, direction, out1),
        is_sorted_arrangement(pairs, direction, out2),
    ensures
        out1 == out2,
{
    let q1 = choose|q: Seq<PixelWithContext>| #[trigger] arranges(q, pairs, direction, out1);
    let q2 = choose|q: Seq<PixelWithContext>| #[trigger] arranges(q, pairs, direction, out2);
    lemma_stable_sort_unique(q1, q2, pairs, direction);
}

/// Writes the pixels of `source`, one after another, over `target` from index `start` on.
pub fn copy_pixel_segment_onto_image(
    source: &Vec<PixelWithContext>,
    target: &mut Vec<Rgba>,
    start: usize,
)
    requires
        start + source@.len() <= old(target)@.len(),
    ensures
        final(target)@.len() == old(target)@.len(),
        final(target)@.subrange(start as int, start + source@.len()) == pixels_of(source@),
        forall|j: int|
            0 <= j < old(target)@.len() && !(start <= j < start + source@.len())
                ==> #[trigger] final(target)@[j] == old(target)@[j],
{
    let target_len = target.len();
    let mut k: usize = 0;
    while k < source.len()
        invariant
            start + source@.len() <= old(target)@.len(),
            target_len == old(target)@.len(),
            target@.len() == old(target)@.len(),
            k <= source@.len(),
            forall|t: int| 0 <= t < k ==> #[trigger] target@[start + t] == source@[t].pixel,
            forall|j: int|
                0 <= j < old(target)@.len() && !(start <= j < start + k) ==> #[trigger] target@[j]
                    == old(target)@[j],
        decreases source@.len() - k,
    {
        target.set(start + k, source[k].pixel);
        k = k + 1;
    }
    assert forall|t: int| 0 <= t < source@.len() implies #[trigger] target@.subrange(
        start as int,
        start + source@.len(),
    )[t] == pixels_of(source@)[t] by {
        assert(target@[start + t] == source@[t].pixel);
    }
    assert(target@.subrange(start as int, start + source@.len()) =~= pixels_of(source@));
}

/// Sorts `pixels` by context in the given order (stably: equal keys keep their
/// order) and writes their pixels over `target` from index `start` on.
pub fn sort_with_numeric_context_and_reapply_pixel_segment(
    pixels: &Vec<PixelWithContext>,
    sort_direction: PixelSegmentSortDirection,
    target: &mut Vec<Rgba>,
    start: usize,
)
    requires
        start + pixels@.len() <= old(target)@.len(),
    ensures
        final(target)@.len() == old(target)@.len(),
        is_sorted_arrangement(
            pixels@,
            sort_direction,
            final(target)@.subrange(start as int, start + pixels@.len()),
        ),
        forall|j: int|
            0 <= j < old(target)@.len() && !(start <= j < start + pixels@.len())
                ==> #[trigger] final(target)@[j] == old(target)@[j],
{
    let sorted = sort_by_context(pixels, 0, pixels.len(), sort_direction);
    assert(pixels@.subrange(0, pixels@.len() as int) =~= pixels@);
    copy_pixel_segment_onto_image(&sorted, target, start);
    assert(arranges(
        sorted@,
        pixels@,
        sort_direction,
        target@.subrange(start as int, start + pixels@.len()),
    ));
}

} // verus!
