//! The mathematical model of a character class: a sequence of inclusive
//! `(low, high)` ranges of code points, the set of code points it covers,
//! and the canonical (sorted, disjoint, non-adjacent) form.

use vstd::prelude::*;

verus! {

/// Smallest code point of the domain.
pub const DOMAIN_MIN: u32 = 0;

/// Largest code point of the domain.
pub const DOMAIN_MAX: u32 = 0x10FFFF;

/// Number of code points in the domain.
pub const DOMAIN_SIZE: u32 = 0x110000;

/// A stored range is an inclusive, non-empty pair of code points within the
/// domain.
pub open spec fn wf_range(r: (u32, u32)) -> bool {
    r.0 <= r.1 && r.1 <= DOMAIN_MAX
}

pub open spec fn all_wf(s: Seq<(u32, u32)>) -> bool {
    forall|i: int| 0 <= i < s.len() ==> wf_range(#[trigger] s[i])
}

/// Does the inclusive range `r` contain the code point `cp`?
pub open spec fn in_range(r: (u32, u32), cp: int) -> bool {
    r.0 <= cp && cp <= r.1
}

/// Is `cp` covered by at least one range of `s`?
pub open spec fn covers(s: Seq<(u32, u32)>, cp: int) -> bool {
    exists|i: int| 0 <= i < s.len() && in_range(#[trigger] s[i], cp)
}

/// Does the single range `r` contain the whole query range `[qlo, qhi]`?
pub open spec fn encloses(r: (u32, u32), qlo: int, qhi: int) -> bool {
    r.0 <= qlo && qhi <= r.1
}

/// Is the query range `[qlo, qhi]` fully contained in one single range of `s`?
pub open spec fn enclosed(s: Seq<(u32, u32)>, qlo: int, qhi: int) -> bool {
    exists|i: int| 0 <= i < s.len() && encloses(#[trigger] s[i], qlo, qhi)
}

/// Canonical form: every range well formed, ranges sorted ascending by their
/// low end, pairwise disjoint, and non-adjacent (at least one uncovered code
/// point between consecutive ranges).
pub open spec fn canonical(s: Seq<(u32, u32)>) -> bool {
    all_wf(s) && (forall|i: int, j: int|
        0 <= i < j < s.len() ==> (#[trigger] s[i]).1 + 1 < (#[trigger] s[j]).0)
}

/// Number of code points in a single inclusive range.
pub open spec fn range_size(r: (u32, u32)) -> int {
    r.1 - r.0 + 1
}

/// Number of code points covered by `s`; counts multiply-covered code points
/// once per range, so it equals the size of the covered set only when the
/// ranges are disjoint.
pub open spec fn total_size(s: Seq<(u32, u32)>) -> int
    decreases s.len(),
{
    if s.len() == 0 {
        0
    } else {
        range_size(s[0]) + total_size(s.drop_first())
    }
}

pub open spec fn in_domain(cp: int) -> bool {
    DOMAIN_MIN <= cp <= DOMAIN_MAX
}

/// The set of code points covered by `s`.
pub open spec fn covered_set(s: Seq<(u32, u32)>) -> Set<int> {
    Set::new(|cp: int| covers(s, cp))
}

/// Does `s` consist of one single range spanning the whole domain?
pub open spec fn covers_all(s: Seq<(u32, u32)>) -> bool {
    s.len() == 1 && s[0] == (0u32, DOMAIN_MAX)
}

/// Is `cp` a Unicode scalar value, i.e. the code point of some `char`?
pub open spec fn is_scalar(cp: u32) -> bool {
    cp <= DOMAIN_MAX && !(0xD800 <= cp <= 0xDFFF)
}

/// The rendering of one code point: a fixed table of escape sequences for
/// the bell, backspace, form-feed, newline, carriage-return, tab and
/// vertical-tab controls and the backslash; the character itself for any
/// other scalar value; and the replacement character for a code point with
/// no scalar value.
pub open spec fn render_code_point(cp: u32) -> Seq<char> {
    if cp == 0x07 {
        seq!['\\', 'a']
    } else if cp == 0x08 {
        seq!['\\', 'b']
    } else if cp == 0x0c {
        seq!['\\', 'f']
    } else if cp == 0x0a {
        seq!['\\', 'n']
    } else if cp == 0x0d {
        seq!['\\', 'r']
    } else if cp == 0x09 {
        seq!['\\', 't']
    } else if cp == 0x0b {
        seq!['\\', 'v']
    } else if cp == 0x5c {
        seq!['\\', '\\']
    } else if is_scalar(cp) {
        seq![cp as char]
    } else {
        seq!['\u{FFFD}']
    }
}

/// The rendering of one stored range: `lo-hi`, or `lo` alone when the range
/// is a single code point.
pub open spec fn render_range(r: (u32, u32)) -> Seq<char> {
    if r.0 < r.1 {
        render_code_point(r.0) + seq!['-'] + render_code_point(r.1)
    } else {
        render_code_point(r.0)
    }
}

/// The renderings of all stored ranges, in order, with no separators.
pub open spec fn render_ranges(s: Seq<(u32, u32)>) -> Seq<char>
    decreases s.len(),
{
    if s.len() == 0 {
        Seq::empty()
    } else {
        render_range(s[0]) + render_ranges(s.drop_first())
    }
}

/// The full rendering of a class: a lone `.` for the one-range class that
/// spans the whole domain, otherwise the bracketed range list. A pure
/// function of the stored ranges: equal classes render equally.
pub open spec fn render_class(s: Seq<(u32, u32)>) -> Seq<char> {
    if covers_all(s) {
        seq!['.']
    } else {
        seq!['['] + render_ranges(s) + seq![']']
    }
}

/// `render_ranges` distributes over concatenation.
pub proof fn lemma_render_ranges_concat(a: Seq<(u32, u32)>, b: Seq<(u32, u32)>)
    ensures
        render_ranges(a + b) == render_ranges(a) + render_ranges(b),
    decreases a.len(),
{
    if a.len() == 0 {
        assert(a + b =~= b);
        assert(render_ranges(a) + render_ranges(b) =~= render_ranges(b));
    } else {
        lemma_render_ranges_concat(a.drop_first(), b);
        assert((a + b).drop_first() =~= a.drop_first() + b);
        assert(render_range(a[0]) + (render_ranges(a.drop_first()) + render_ranges(b)) =~= (
        render_range(a[0]) + render_ranges(a.drop_first())) + render_ranges(b));
    }
}

/// The structural partial order on range lists: lists of different lengths
/// are incomparable; otherwise ranges are compared pairwise in order, an
/// earlier or lower boundary deciding first. This is a comparison of the
/// stored lists, not of the covered sets.
pub open spec fn structural_cmp(a: Seq<(u32, u32)>, b: Seq<(u32, u32)>) -> Option<
    core::cmp::Ordering,
>
    decreases a.len(),
{
    if a.len() != b.len() {
        None
    } else if a.len() == 0 {
        Some(core::cmp::Ordering::Equal)
    } else if b[0].1 > a[0].1 || b[0].0 > a[0].0 {
        Some(core::cmp::Ordering::Less)
    } else if b[0].1 < a[0].1 {
        Some(core::cmp::Ordering::Greater)
    } else {
        structural_cmp(a.drop_first(), b.drop_first())
    }
}

/// In canonical form the ranges are strictly ordered with a gap: any earlier
/// range ends at least two below where any later range starts.
pub proof fn lemma_canonical_ordered(s: Seq<(u32, u32)>, i: int, j: int)
    requires
        canonical(s),
        0 <= i < j < s.len(),
    ensures
        s[i].1 + 1 < s[j].0,
{
}

/// Canonical form is preserved by taking a contiguous slice.
pub proof fn lemma_canonical_subrange(s: Seq<(u32, u32)>, a: int, b: int)
    requires
        canonical(s),
        0 <= a <= b <= s.len(),
    ensures
        canonical(s.subrange(a, b)),
{
}

/// Every covered code point lies within the domain when all ranges are well
/// formed.
pub proof fn lemma_covers_in_domain(s: Seq<(u32, u32)>, cp: int)
    requires
        all_wf(s),
        covers(s, cp),
    ensures
        in_domain(cp),
{
}

/// `total_size` distributes over concatenation.
pub proof fn lemma_total_size_concat(a: Seq<(u32, u32)>, b: Seq<(u32, u32)>)
    ensures
        total_size(a + b) == total_size(a) + total_size(b),
    decreases a.len(),
{
    if a.len() == 0 {
        assert(a + b =~= b);
    } else {
        lemma_total_size_concat(a.drop_first(), b);
        assert((a + b).drop_first() =~= a.drop_first() + b);
    }
}

/// Appending one range to a list extends its coverage by exactly that range.
pub proof fn lemma_covers_push(s: Seq<(u32, u32)>, r: (u32, u32))
    ensures
        forall|cp: int| covers(s.push(r), cp) <==> (covers(s, cp) || in_range(r, cp)),
{
    assert forall|cp: int| covers(s.push(r), cp) implies (covers(s, cp) || in_range(r, cp)) by {
        let i = choose|i: int| 0 <= i < s.push(r).len() && in_range(#[trigger] s.push(r)[i], cp);
        if i < s.len() {
            assert(in_range(s[i], cp));
        }
    }
    assert forall|cp: int| covers(s, cp) implies covers(s.push(r), cp) by {
        let i = choose|i: int| 0 <= i < s.len() && in_range(#[trigger] s[i], cp);
        assert(in_range(s.push(r)[i], cp));
    }
    assert forall|cp: int| in_range(r, cp) implies covers(s.push(r), cp) by {
        assert(in_range(s.push(r)[s.len() as int], cp));
    }
}

/// Extending a slice of `s` by one range extends its coverage by exactly
/// that range.
pub proof fn lemma_covers_extend(s: Seq<(u32, u32)>, a: int, k: int)
    requires
        0 <= a <= k < s.len(),
    ensures
        forall|cp: int|
            covers(s.subrange(a, k + 1), cp) <==> (covers(s.subrange(a, k), cp) || in_range(
                s[k],
                cp,
            )),
{
    assert(s.subrange(a, k + 1) =~= s.subrange(a, k).push(s[k]));
    lemma_covers_push(s.subrange(a, k), s[k]);
}

/// Coverage of a slice splits at any interior point.
pub proof fn lemma_covers_split(s: Seq<(u32, u32)>, a: int, b: int, c: int)
    requires
        0 <= a <= b <= c <= s.len(),
    ensures
        forall|cp: int|
            covers(s.subrange(a, c), cp) <==> (covers(s.subrange(a, b), cp) || covers(
                s.subrange(b, c),
                cp,
            )),
{
    let whole = s.subrange(a, c);
    let left = s.subrange(a, b);
    let right = s.subrange(b, c);
    assert forall|cp: int| covers(whole, cp) implies (covers(left, cp) || covers(right, cp)) by {
        let i = choose|i: int| 0 <= i < whole.len() && in_range(#[trigger] whole[i], cp);
        if i < b - a {
            assert(in_range(left[i], cp));
        } else {
            assert(in_range(right[i - (b - a)], cp));
        }
    }
    assert forall|cp: int| covers(left, cp) implies covers(whole, cp) by {
        let i = choose|i: int| 0 <= i < left.len() && in_range(#[trigger] left[i], cp);
        assert(in_range(whole[i], cp));
    }
    assert forall|cp: int| covers(right, cp) implies covers(whole, cp) by {
        let i = choose|i: int| 0 <= i < right.len() && in_range(#[trigger] right[i], cp);
        assert(in_range(whole[i + (b - a)], cp));
    }
}

/// Coverage of a concatenation is the union of the coverages.
pub proof fn lemma_covers_concat(a: Seq<(u32, u32)>, b: Seq<(u32, u32)>)
    ensures
        forall|cp: int| covers(a + b, cp) <==> (covers(a, cp) || covers(b, cp)),
{
    let whole = a + b;
    assert forall|cp: int| covers(whole, cp) implies (covers(a, cp) || covers(b, cp)) by {
        let i = choose|i: int| 0 <= i < whole.len() && in_range(#[trigger] whole[i], cp);
        if i < a.len() {
            assert(in_range(a[i], cp));
        } else {
            assert(in_range(b[i - a.len()], cp));
        }
    }
    assert forall|cp: int| covers(a, cp) implies covers(whole, cp) by {
        let i = choose|i: int| 0 <= i < a.len() && in_range(#[trigger] a[i], cp);
        assert(in_range(whole[i], cp));
    }
    assert forall|cp: int| covers(b, cp) implies covers(whole, cp) by {
        let i = choose|i: int| 0 <= i < b.len() && in_range(#[trigger] b[i], cp);
        assert(in_range(whole[i + a.len()], cp));
    }
}

/// Coverage of a non-empty list splits into its first range and the rest.
pub proof fn lemma_covers_first(s: Seq<(u32, u32)>)
    requires
        s.len() > 0,
    ensures
        forall|cp: int| covers(s, cp) <==> (in_range(s[0], cp) || covers(s.drop_first(), cp)),
{
    let rest = s.drop_first();
    assert forall|cp: int| covers(s, cp) implies (in_range(s[0], cp) || covers(rest, cp)) by {
        let i = choose|i: int| 0 <= i < s.len() && in_range(#[trigger] s[i], cp);
        if i > 0 {
            assert(in_range(rest[i - 1], cp));
        }
    }
    assert forall|cp: int| covers(rest, cp) implies covers(s, cp) by {
        let i = choose|i: int| 0 <= i < rest.len() && in_range(#[trigger] rest[i], cp);
        assert(in_range(s[i + 1], cp));
    }
    assert forall|cp: int| in_range(s[0], cp) implies covers(s, cp) by {
        assert(in_range(s[0int], cp));
    }
}

/// Appending a well-formed range that starts beyond the last range's end,
/// with a gap, keeps the list canonical.
pub proof fn lemma_canonical_push(s: Seq<(u32, u32)>, r: (u32, u32))
    requires
        canonical(s),
        wf_range(r),
        s.len() > 0 ==> s.last().1 + 1 < r.0,
    ensures
        canonical(s.push(r)),
{
    let t = s.push(r);
    assert forall|i: int| 0 <= i < t.len() implies wf_range(#[trigger] t[i]) by {
        if i < s.len() {
            assert(wf_range(s[i]));
        }
    }
    assert forall|i: int| 0 <= i && i + 1 < t.len() implies (#[trigger] t[i]).1 + 1 < t[i + 1].0 by {
        if i + 1 < s.len() {
            assert(s[i].1 + 1 < s[i + 1].0);
        } else {
            assert(t[i] == s.last());
        }
    }
}

/// Below a cursor that every earlier range ends under, and left of range `i`,
/// a canonical list covers nothing.
pub proof fn lemma_gap_uncovered(s: Seq<(u32, u32)>, i: int, next: int)
    requires
        canonical(s),
        0 <= i < s.len(),
        forall|j: int| 0 <= j < i ==> (#[trigger] s[j]).1 < next,
    ensures
        forall|cp: int| next <= cp < s[i].0 ==> !(#[trigger] covers(s, cp)),
{
    assert forall|cp: int| next <= cp < s[i].0 implies !(#[trigger] covers(s, cp)) by {
        if covers(s, cp) {
            let j = choose|j: int| 0 <= j < s.len() && in_range(#[trigger] s[j], cp);
            if j > i {
                lemma_canonical_ordered(s, i, j);
            }
        }
    }
}

/// Any single range's code points are covered by the whole list.
pub proof fn lemma_range_covered(s: Seq<(u32, u32)>, i: int)
    requires
        0 <= i < s.len(),
    ensures
        forall|cp: int| s[i].0 <= cp <= s[i].1 ==> #[trigger] covers(s, cp),
{
    assert forall|cp: int| s[i].0 <= cp <= s[i].1 implies #[trigger] covers(s, cp) by {
        assert(in_range(s[i], cp));
    }
}

/// Pushing the merged range onto the untouched prefix yields a canonical list
/// whose coverage is the original's first `k2` ranges plus the inserted
/// range, and which keeps a gap before whatever ranges remain.
pub proof fn lemma_insert_merged(
    orig: Seq<(u32, u32)>,
    out_pre: Seq<(u32, u32)>,
    merged: (u32, u32),
    i0: int,
    k2: int,
    lo: u32,
    hi: u32,
)
    requires
        canonical(orig),
        0 <= i0 <= k2 <= orig.len(),
        out_pre == orig.subrange(0, i0),
        forall|j: int| 0 <= j < i0 ==> (#[trigger] orig[j]).1 + 1 < lo,
        merged.0 <= lo,
        hi <= merged.1 <= DOMAIN_MAX,
        lo <= hi,
        i0 < k2 ==> merged.0 == (if orig[i0].0 < lo {
            orig[i0].0
        } else {
            lo
        }),
        i0 == k2 ==> merged.0 == lo,
        forall|cp: int|
            in_range(merged, cp) <==> (lo <= cp <= hi || covers(orig.subrange(i0, k2), cp)),
    ensures
        canonical(out_pre.push(merged)),
        forall|cp: int|
            covers(out_pre.push(merged), cp) <==> (covers(orig.subrange(0, k2), cp) || (lo <= cp
                <= hi)),
{
    lemma_canonical_subrange(orig, 0, i0);
    if i0 > 0 {
        assert(out_pre.last() == orig[i0 - 1]);
        assert(orig[i0 - 1].1 + 1 < lo);
        if i0 < k2 {
            assert(orig[i0 - 1].1 + 1 < orig[i0].0);
        }
    }
    lemma_canonical_push(out_pre, merged);
    lemma_covers_push(out_pre, merged);
    lemma_covers_split(orig, 0, i0, k2);
    assert forall|cp: int|
        covers(out_pre.push(merged), cp) <==> (covers(orig.subrange(0, k2), cp) || (lo <= cp
            <= hi)) by {
        assert(covers(out_pre.push(merged), cp) <==> (covers(out_pre, cp) || in_range(merged, cp)));
        assert(covers(orig.subrange(0, k2), cp) <==> (covers(orig.subrange(0, i0), cp) || covers(
            orig.subrange(i0, k2),
            cp,
        )));
    }
}

/// One step of complement construction: the list after range `i` is handled,
/// with the gap before it (if any) emitted as a complement range.
pub open spec fn negate_step(out: Seq<(u32, u32)>, s: Seq<(u32, u32)>, i: int, next: u32) -> Seq<
    (u32, u32),
> {
    if next < s[i].0 {
        out.push((next, (s[i].0 - 1) as u32))
    } else {
        out
    }
}

/// Walking the complement cursor over range `i` preserves every invariant of
/// the complement list: canonical form, a gap before the cursor, and exact
/// complement coverage below the advanced cursor.
#[verifier::rlimit(50)]
pub proof fn lemma_negate_step(
    s: Seq<(u32, u32)>,
    out0: Seq<(u32, u32)>,
    out1: Seq<(u32, u32)>,
    i: int,
    next: u32,
)
    requires
        canonical(s),
        0 <= i < s.len(),
        next <= s[i].0,
        forall|j: int| 0 <= j < i ==> (#[trigger] s[j]).1 < next,
        canonical(out0),
        out0.len() > 0 ==> out0.last().1 + 1 < next,
        forall|cp: int| covers(out0, cp) ==> 0 <= cp < next,
        forall|cp: int| 0 <= cp < next ==> (covers(out0, cp) <==> !covers(s, cp)),
        out1 == negate_step(out0, s, i, next),
    ensures
        canonical(out1),
        out1.len() > 0 ==> out1.last().1 + 1 < s[i].1 + 1,
        forall|cp: int| covers(out1, cp) ==> 0 <= cp < s[i].1 + 1,
        forall|cp: int| 0 <= cp < s[i].1 + 1 ==> (covers(out1, cp) <==> !covers(s, cp)),
{
    let gap = (next, #[verifier::truncate] ((s[i].0 - 1) as u32));
    assert(wf_range(s[i]));
    lemma_gap_uncovered(s, i, next as int);
    lemma_range_covered(s, i);
    if next < s[i].0 {
        lemma_canonical_push(out0, gap);
        lemma_covers_push(out0, gap);
        assert(out1 == out0.push(gap));
    } else {
        assert(out1 == out0);
    }
    assert forall|cp: int| 0 <= cp < s[i].1 + 1 implies (covers(out1, cp) <==> !covers(s, cp)) by {
        if cp < next {
            if next < s[i].0 {
                assert(!in_range(gap, cp));
                assert(covers(out1, cp) <==> covers(out0, cp));
            }
            assert(covers(out0, cp) <==> !covers(s, cp));
        } else if cp < s[i].0 {
            assert(in_range(gap, cp));
            assert(covers(out1, cp));
            assert(!covers(s, cp));
        } else {
            assert(covers(s, cp));
            if covers(out0, cp) {
                assert(cp < next);
            }
            if next < s[i].0 {
                assert(!in_range(gap, cp));
            }
            assert(!covers(out1, cp));
        }
    }
    assert forall|cp: int| covers(out1, cp) implies 0 <= cp < s[i].1 + 1 by {
        if next < s[i].0 {
            assert(covers(out0, cp) || in_range(gap, cp));
        }
    }
}

/// In canonical form the covered count never exceeds the span from the first
/// low end to the last high end.
pub proof fn lemma_total_size_bound(s: Seq<(u32, u32)>)
    requires
        canonical(s),
    ensures
        total_size(s) >= 0,
        s.len() > 0 ==> total_size(s) <= s.last().1 + 1 - s[0].0,
        total_size(s) <= DOMAIN_SIZE,
    decreases s.len(),
{
    if s.len() > 0 {
        assert(s.drop_first() =~= s.subrange(1, s.len() as int));
        lemma_canonical_subrange(s, 1, s.len() as int);
        lemma_total_size_bound(s.drop_first());
        assert(wf_range(s[0]));
        if s.len() > 1 {
            assert(s[0].1 + 1 < s[1].0);
            assert(s.drop_first()[0] == s[1]);
            assert(s.drop_first().last() == s.last());
        }
        assert(wf_range(s.last()));
    }
}

} // verus!
