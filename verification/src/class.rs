//! The character-class engine itself: a `Vec` of inclusive code-point ranges
//! kept in canonical form by every operation.

use vstd::prelude::*;

use crate::model::{
    all_wf, canonical, covers, covers_all, enclosed, encloses, in_domain, in_range,
    lemma_canonical_ordered, lemma_canonical_push, lemma_canonical_subrange, lemma_covers_concat,
    lemma_covers_extend, lemma_covers_in_domain, lemma_covers_push, lemma_insert_merged,
    lemma_negate_step, lemma_render_ranges_concat, lemma_total_size_bound,
    lemma_total_size_concat, negate_step, range_size, render_class, render_code_point,
    render_range, render_ranges, structural_cmp, total_size, wf_range, DOMAIN_MAX,
};

verus! {

/// The range list of a predicate scan, with the run still in progress (if
/// any) closed off at its last matching code point `end`.
pub open spec fn scan_state(ranges: Seq<(u32, u32)>, in_run: bool, start: u32, end: u32) -> Seq<
    (u32, u32),
> {
    if in_run {
        ranges.push((start, end))
    } else {
        ranges
    }
}

/// Merge one well-formed inclusive range into a canonical range list,
/// keeping the list canonical and adding exactly the range's code points to
/// its coverage.
#[verifier::rlimit(100)]
fn insert_range(v: &mut Vec<(u32, u32)>, lo: u32, hi: u32)
    requires
        canonical(old(v)@),
        lo <= hi,
        hi <= DOMAIN_MAX,
    ensures
        canonical(final(v)@),
        forall|cp: int| covers(final(v)@, cp) <==> (covers(old(v)@, cp) || (lo <= cp <= hi)),
{
    let ghost orig = v@;
    let n = v.len();
    let mut out: Vec<(u32, u32)> = Vec::new();
    let mut k: usize = 0;
    // Copy the ranges that end at least two code points below `lo`: they
    // neither overlap nor touch the new range.
    while k < n && v[k].1 + 1 < lo
        invariant
            v@ == orig,
            canonical(orig),
            lo <= hi <= DOMAIN_MAX,
            n == orig.len(),
            0 <= k <= n,
            out@ =~= orig.subrange(0, k as int),
            forall|j: int| 0 <= j < k ==> (#[trigger] orig[j]).1 + 1 < lo,
        decreases n - k,
    {
        let r = v[k];
        out.push(r);
        proof {
            assert(out@ =~= orig.subrange(0, k + 1));
        }
        k = k + 1;
    }
    let ghost i0 = k as int;
    // Absorb every range that overlaps or is adjacent to the growing merged
    // range, widening it as needed.
    let mut new_lo = lo;
    let mut new_hi = hi;
    while k < n && v[k].0 <= new_hi + 1
        invariant
            v@ == orig,
            canonical(orig),
            lo <= hi <= DOMAIN_MAX,
            n == orig.len(),
            0 <= i0 <= k <= n,
            out@ =~= orig.subrange(0, i0),
            forall|j: int| 0 <= j < i0 ==> (#[trigger] orig[j]).1 + 1 < lo,
            i0 < n ==> orig[i0].1 + 1 >= lo,
            new_lo <= lo,
            hi <= new_hi <= DOMAIN_MAX,
            k as int == i0 ==> (new_lo == lo && new_hi == hi),
            k as int > i0 ==> new_lo == (if orig[i0].0 < lo {
                orig[i0].0
            } else {
                lo
            }),
            forall|cp: int|
                (new_lo <= cp <= new_hi) <==> (lo <= cp <= hi || covers(
                    orig.subrange(i0, k as int),
                    cp,
                )),
        decreases n - k,
    {
        let r = v[k];
        let ghost k0 = k as int;
        let ghost nl0 = new_lo;
        let ghost nh0 = new_hi;
        proof {
            // Every absorbed range overlaps or touches the merged interval,
            // so the union of the two intervals is itself one interval.
            assert(wf_range(orig[i0]));
            if k0 > i0 {
                lemma_canonical_ordered(orig, i0, k0);
            }
            assert(r.0 <= nh0 + 1);
            assert(r.1 + 1 >= nl0);
            lemma_covers_extend(orig, i0, k0);
        }
        if r.0 < new_lo {
            new_lo = r.0;
        }
        if r.1 > new_hi {
            new_hi = r.1;
        }
        k = k + 1;
        proof {
            assert forall|cp: int|
                (new_lo <= cp <= new_hi) <==> (lo <= cp <= hi || covers(
                    orig.subrange(i0, k as int),
                    cp,
                )) by {
                assert((new_lo <= cp <= new_hi) <==> (nl0 <= cp <= nh0 || in_range(r, cp)));
                assert(covers(orig.subrange(i0, k as int), cp) <==> (covers(
                    orig.subrange(i0, k0),
                    cp,
                ) || in_range(orig[k0], cp)));
            }
        }
    }
    let ghost k2 = k as int;
    proof {
        lemma_insert_merged(orig, out@, (new_lo, new_hi), i0, k2, lo, hi);
    }
    out.push((new_lo, new_hi));
    // Copy the remaining ranges; they all start beyond the merged range with
    // a gap.
    while k < n
        invariant
            v@ == orig,
            canonical(orig),
            lo <= hi <= DOMAIN_MAX,
            n == orig.len(),
            0 <= k2 <= k <= n,
            canonical(out@),
            out@.len() > 0,
            k < n ==> out@.last().1 + 1 < orig[k as int].0,
            forall|cp: int|
                covers(out@, cp) <==> (covers(orig.subrange(0, k as int), cp) || (lo <= cp <= hi)),
        decreases n - k,
    {
        let r = v[k];
        let ghost k0 = k as int;
        let ghost out0 = out@;
        proof {
            lemma_canonical_push(out@, r);
            lemma_covers_push(out@, r);
            lemma_covers_extend(orig, 0, k0);
        }
        out.push(r);
        k = k + 1;
        proof {
            assert forall|cp: int|
                covers(out@, cp) <==> (covers(orig.subrange(0, k as int), cp) || (lo <= cp
                    <= hi)) by {
                assert(covers(out@, cp) <==> (covers(out0, cp) || in_range(r, cp)));
                assert(covers(orig.subrange(0, k as int), cp) <==> (covers(
                    orig.subrange(0, k0),
                    cp,
                ) || in_range(orig[k0], cp)));
            }
        }
    }
    proof {
        assert(orig.subrange(0, n as int) =~= orig);
    }
    *v = out;
}

/// A character class: a set of Unicode code points, stored as a sorted list
/// of disjoint, non-adjacent inclusive `(low, high)` ranges over the domain
/// `[DOMAIN_MIN, DOMAIN_MAX]`.
#[derive(Clone, Hash, PartialEq, Eq)]
pub struct CharClass {
    ranges: Vec<(u32, u32)>,
}

impl View for CharClass {
    type V = Seq<(u32, u32)>;

    closed spec fn view(&self) -> Seq<(u32, u32)> {
        self.ranges@
    }
}

impl CharClass {
    /// The class invariant: the stored range list is in canonical form.
    /// Every constructor establishes it and every method preserves it.
    pub open spec fn inv(&self) -> bool {
        canonical(self@)
    }

    /// Create a new, empty character class.
    pub fn new() -> (r: Self)
        ensures
            r.inv(),
            r@ =~= Seq::<(u32, u32)>::empty(),
            forall|cp: int| !covers(r@, cp),
    {
        CharClass { ranges: Vec::new() }
    }

    /// Remove every range, leaving the class empty.
    pub fn clear(&mut self)
        ensures
            final(self).inv(),
            final(self)@ =~= Seq::<(u32, u32)>::empty(),
            forall|cp: int| !covers(final(self)@, cp),
    {
        self.ranges.clear();
    }

    /// Build a character class from a predicate by scanning the entire
    /// domain in ascending order and turning each maximal run of matching
    /// code points into one range. The result is canonical by construction.
    ///
    /// The contract is relational because the predicate may be any closure:
    /// every covered code point is one for which the call returned `true`,
    /// and every uncovered one is a code point for which it returned `false`.
    #[verifier::rlimit(100)]
    pub fn new_with_predicate<F: Fn(u32) -> bool>(pred: F) -> (r: Self)
        requires
            forall|cp: u32| cp <= DOMAIN_MAX ==> #[trigger] pred.requires((cp,)),
        ensures
            r.inv(),
            forall|cp: u32|
                cp <= DOMAIN_MAX && covers(r@, cp as int) ==> #[trigger] pred.ensures(
                    (cp,),
                    true,
                ),
            forall|cp: u32|
                cp <= DOMAIN_MAX && !covers(r@, cp as int) ==> #[trigger] pred.ensures(
                    (cp,),
                    false,
                ),
    {
        let mut ranges: Vec<(u32, u32)> = Vec::new();
        let ghost mut results: Seq<bool> = Seq::empty();
        let mut in_run: bool = false;
        let mut start: u32 = 0;
        let mut end: u32 = 0;
        let mut cp: u32 = 0;
        while cp <= DOMAIN_MAX
            invariant
                forall|c: u32| c <= DOMAIN_MAX ==> #[trigger] pred.requires((c,)),
                cp <= 0x110000,
                results.len() == cp,
                forall|c: u32| c < cp ==> #[trigger] pred.ensures((c,), results[c as int]),
                in_run ==> (start <= end && end + 1 == cp),
                end <= DOMAIN_MAX,
                canonical(scan_state(ranges@, in_run, start, end)),
                forall|c: int| covers(scan_state(ranges@, in_run, start, end), c) ==> 0 <= c < cp,
                forall|c: u32|
                    c < cp ==> (covers(scan_state(ranges@, in_run, start, end), c as int)
                        <==> results[c as int]),
                cp > 0 && !in_run ==> !results[cp - 1],
            decreases DOMAIN_MAX + 1 - cp,
        {
            let m = pred(cp);
            let ghost st0 = scan_state(ranges@, in_run, start, end);
            let ghost in_run0 = in_run;
            proof {
                results = results.push(m);
            }
            if m {
                if !in_run {
                    proof {
                        if ranges@.len() > 0 {
                            // The last closed range ends at least two below
                            // the new run: the code point before the run
                            // failed the predicate.
                            let last = ranges@[ranges@.len() - 1];
                            assert(wf_range(last));
                            assert(in_range(ranges@[ranges@.len() - 1], last.1 as int));
                            assert(covers(ranges@, last.1 as int));
                        }
                        lemma_canonical_push(ranges@, (cp, cp));
                        lemma_covers_push(ranges@, (cp, cp));
                    }
                    start = cp;
                    in_run = true;
                } else {
                    proof {
                        // The open run's virtual range grows by one; the
                        // closed ranges behind it are canonical on their own.
                        lemma_canonical_subrange(st0, 0, st0.len() - 1);
                        assert(st0.subrange(0, st0.len() - 1) =~= ranges@);
                        if ranges@.len() > 0 {
                            assert(st0[st0.len() - 2] == ranges@[ranges@.len() - 1]);
                            assert(st0[st0.len() - 2].1 + 1 < st0[st0.len() - 1].0);
                        }
                        lemma_canonical_push(ranges@, (start, cp));
                        lemma_covers_push(ranges@, (start, cp));
                        lemma_covers_push(ranges@, (start, end));
                    }
                }
                end = cp;
            } else {
                if in_run {
                    ranges.push((start, end));
                    in_run = false;
                    proof {
                        assert(ranges@ == st0);
                    }
                }
            }
            cp = cp + 1;
            proof {
                let st1 = scan_state(ranges@, in_run, start, end);
                assert forall|c: u32|
                    c < cp implies (covers(st1, c as int) <==> results[c as int]) by {
                    if m {
                        assert(st1 == ranges@.push((start, end)));
                        assert(covers(ranges@.push((start, end)), c as int) <==> (covers(
                            ranges@,
                            c as int,
                        ) || in_range((start, end), c as int)));
                        assert(covers(st1, c as int) <==> (covers(ranges@, c as int) || (
                        start <= c as int <= end)));
                        assert(covers(st0, c as int) <==> (covers(ranges@, c as int) || (in_run0
                            && start <= c as int <= end - 1)));
                    } else {
                        assert(st1 == st0);
                    }
                    if c + 1 < cp {
                        assert(covers(st0, c as int) <==> results[c as int]);
                    } else {
                        assert(results[c as int] == m);
                    }
                }
            }
        }
        if in_run {
            proof {
                assert(end == DOMAIN_MAX);
            }
            ranges.push((start, end));
        }
        let r = CharClass { ranges };
        proof {
            assert forall|c: u32|
                c <= DOMAIN_MAX && covers(r@, c as int) implies #[trigger] pred.ensures(
                (c,),
                true,
            ) by {
                assert(results[c as int]);
            }
            assert forall|c: u32|
                c <= DOMAIN_MAX && !covers(r@, c as int) implies #[trigger] pred.ensures(
                (c,),
                false,
            ) by {
                assert(!results[c as int]);
            }
        }
        r
    }

    /// Total number of code points covered by this class.
    pub fn len(&self) -> (n: u32)
        requires
            self.inv(),
        ensures
            n == total_size(self@),
    {
        let mut n: u32 = 0;
        let mut i: usize = 0;
        while i < self.ranges.len()
            invariant
                self.inv(),
                0 <= i <= self@.len(),
                n == total_size(self@.subrange(0, i as int)),
            decreases self@.len() - i,
        {
            let r = self.ranges[i];
            proof {
                let ghost pre = self@.subrange(0, i as int);
                let ghost one = seq![self@[i as int]];
                lemma_canonical_subrange(self@, 0, i as int);
                lemma_total_size_bound(pre);
                lemma_total_size_concat(pre, one);
                assert(self@.subrange(0, i + 1) =~= pre + one);
                assert(one.drop_first() =~= Seq::<(u32, u32)>::empty());
                assert(total_size(Seq::<(u32, u32)>::empty()) == 0);
                assert(one[0] == self@[i as int]);
                assert(total_size(one) == range_size(one[0]) + total_size(one.drop_first()));
                assert(total_size(self@.subrange(0, i + 1)) == total_size(pre) + range_size(
                    self@[i as int],
                ));
            }
            n = n + (r.1 - r.0 + 1);
            i = i + 1;
        }
        proof {
            assert(self@.subrange(0, self@.len() as int) =~= self@);
        }
        n
    }

    /// Add one inclusive range to the class, re-establishing canonical form,
    /// and return the net number of code points that were newly covered:
    /// less than the range's size wherever it overlaps existing coverage.
    ///
    /// An inverted pair (`lo > hi`) or one beyond the domain is a caller
    /// error, excluded by precondition rather than silently folded in.
    pub fn add(&mut self, lo: u32, hi: u32) -> (delta: u32)
        requires
            old(self).inv(),
            lo <= hi,
            hi <= DOMAIN_MAX,
        ensures
            final(self).inv(),
            forall|cp: int|
                covers(final(self)@, cp) <==> (covers(old(self)@, cp) || (lo <= cp <= hi)),
            total_size(old(self)@) <= total_size(final(self)@),
            delta == total_size(final(self)@) - total_size(old(self)@),
    {
        let before = self.len();
        insert_range(&mut self.ranges, lo, hi);
        proof {
            crate::laws::lemma_size_monotone(old(self)@, self@);
        }
        let after = self.len();
        after - before
    }

    /// Collapse the stored ranges into the unique canonical form covering the
    /// same code points: sorted, disjoint, non-adjacent. Idempotent: a class
    /// already in canonical form is left exactly as it is.
    pub fn normalize(&mut self)
        requires
            all_wf(old(self)@),
        ensures
            final(self).inv(),
            forall|cp: int| covers(final(self)@, cp) <==> covers(old(self)@, cp),
            canonical(old(self)@) ==> final(self)@ == old(self)@,
    {
        let ghost orig = self@;
        let n = self.ranges.len();
        let mut out: Vec<(u32, u32)> = Vec::new();
        let mut i: usize = 0;
        while i < n
            invariant
                self@ == orig,
                all_wf(orig),
                n == orig.len(),
                0 <= i <= n,
                canonical(out@),
                forall|cp: int| covers(out@, cp) <==> covers(orig.subrange(0, i as int), cp),
            decreases n - i,
        {
            let (lo, hi) = self.ranges[i];
            proof {
                assert(wf_range(orig[i as int]));
                lemma_covers_extend(orig, 0, i as int);
            }
            insert_range(&mut out, lo, hi);
            proof {
                assert forall|cp: int| covers(out@, cp) <==> covers(
                    orig.subrange(0, i + 1),
                    cp,
                ) by {
                    assert(covers(orig.subrange(0, i + 1), cp) <==> (covers(
                        orig.subrange(0, i as int),
                        cp,
                    ) || in_range(orig[i as int], cp)));
                }
            }
            i = i + 1;
        }
        proof {
            assert(orig.subrange(0, n as int) =~= orig);
        }
        self.ranges = out;
        proof {
            if canonical(orig) {
                crate::laws::lemma_canonical_unique(self@, orig);
            }
        }
    }

    /// Replace the class by its complement within the whole domain: the new
    /// class covers exactly the code points the old one did not.
    pub fn negate(self) -> (r: CharClass)
        requires
            self.inv(),
        ensures
            r.inv(),
            forall|cp: int| in_domain(cp) ==> (covers(r@, cp) <==> !covers(self@, cp)),
            forall|cp: int| covers(r@, cp) ==> in_domain(cp),
    {
        let ghost s = self@;
        let n = self.ranges.len();
        let mut out: Vec<(u32, u32)> = Vec::new();
        // `next` is the lowest code point whose membership in the complement
        // is still undecided; every gap below it has been emitted.
        let mut next: u32 = 0;
        let mut i: usize = 0;
        while i < n
            invariant
                self.inv(),
                self@ == s,
                n == s.len(),
                0 <= i <= n,
                next <= 0x110000,
                i < n ==> next <= s[i as int].0,
                forall|j: int| 0 <= j < i ==> (#[trigger] s[j]).1 < next,
                canonical(out@),
                out@.len() > 0 ==> out@.last().1 + 1 < next,
                forall|cp: int| covers(out@, cp) ==> 0 <= cp < next,
                forall|cp: int| 0 <= cp < next ==> (covers(out@, cp) <==> !covers(s, cp)),
            decreases n - i,
        {
            let (lo, hi) = self.ranges[i];
            let ghost out0 = out@;
            proof {
                assert(wf_range(s[i as int]));
                if i + 1 < n {
                    assert(s[i as int].1 + 1 < s[i + 1].0);
                }
            }
            if next < lo {
                out.push((next, lo - 1));
            }
            proof {
                assert(out@ == negate_step(out0, s, i as int, next));
                lemma_negate_step(s, out0, out@, i as int, next);
            }
            next = hi + 1;
            i = i + 1;
        }
        proof {
            // Everything at or beyond the cursor is uncovered by the class.
            assert forall|cp: int| next <= cp implies !covers(s, cp) by {
                if covers(s, cp) {
                    let j = choose|j: int| 0 <= j < s.len() && in_range(#[trigger] s[j], cp);
                }
            }
        }
        let ghost out_pre = out@;
        if next <= DOMAIN_MAX {
            proof {
                lemma_canonical_push(out@, (next, DOMAIN_MAX));
                lemma_covers_push(out@, (next, DOMAIN_MAX));
            }
            out.push((next, DOMAIN_MAX));
        }
        proof {
            assert forall|cp: int| in_domain(cp) implies (covers(out@, cp) <==> !covers(s, cp)) by {
                if next <= DOMAIN_MAX {
                    assert(covers(out@, cp) <==> (covers(out_pre, cp) || in_range(
                        (next, DOMAIN_MAX),
                        cp,
                    )));
                }
            }
            assert forall|cp: int| covers(out@, cp) implies in_domain(cp) by {
                lemma_covers_in_domain(out@, cp);
            }
        }
        CharClass { ranges: out }
    }

    /// Test whether the query range `[qlo, qhi]` is fully contained in one
    /// single stored range, by binary search over the canonical list.
    ///
    /// This is a conservative containment check: a query that straddles two
    /// stored ranges, or sticks out of one, reports `false` even if several
    /// ranges together cover it.
    pub fn test(&self, qlo: u32, qhi: u32) -> (r: bool)
        requires
            self.inv(),
            qlo <= qhi,
            qhi <= DOMAIN_MAX,
        ensures
            r == enclosed(self@, qlo as int, qhi as int),
    {
        let ghost s = self@;
        let mut low: usize = 0;
        let mut high: usize = self.ranges.len();
        while low < high
            invariant
                self.inv(),
                self@ == s,
                qlo <= qhi <= DOMAIN_MAX,
                0 <= low <= high <= s.len(),
                forall|j: int|
                    0 <= j < s.len() && encloses(#[trigger] s[j], qlo as int, qhi as int) ==> low
                        <= j < high,
            decreases high - low,
        {
            let mid = low + (high - low) / 2;
            let (rlo, rhi) = self.ranges[mid];
            proof {
                assert(low <= mid < high);
                assert(wf_range(s[mid as int]));
                assert(s[mid as int] == (rlo, rhi));
            }
            if rlo > qhi {
                // This range, and every later one, starts past the query.
                proof {
                    assert forall|j: int|
                        mid <= j < s.len() implies !encloses(#[trigger] s[j], qlo as int, qhi as int) by {
                        if encloses(s[j], qlo as int, qhi as int) {
                            if j > mid {
                                lemma_canonical_ordered(s, mid as int, j);
                                assert(s[j].0 > s[mid as int].1);
                            }
                            assert(s[j].0 <= qlo);
                            assert(false);
                        }
                    }
                }
                high = mid;
            } else if rhi < qlo {
                // This range, and every earlier one, ends before the query.
                proof {
                    assert forall|j: int|
                        0 <= j <= mid implies !encloses(#[trigger] s[j], qlo as int, qhi as int) by {
                        if j < mid {
                            lemma_canonical_ordered(s, j, mid as int);
                        }
                    }
                }
                low = mid + 1;
            } else if qlo >= rlo && qhi <= rhi {
                proof {
                    assert(encloses(s[mid as int], qlo as int, qhi as int));
                }
                return true;
            } else {
                // The range overlaps the query without enclosing it; no
                // earlier range can reach the query's high end either.
                proof {
                    assert forall|j: int|
                        0 <= j <= mid implies !encloses(#[trigger] s[j], qlo as int, qhi as int) by {
                        if j < mid {
                            lemma_canonical_ordered(s, j, mid as int);
                        }
                    }
                }
                low = mid + 1;
            }
        }
        false
    }

    /// Union in place: afterwards this class covers exactly the code points
    /// covered by either operand, in canonical form.
    pub fn union_with(&mut self, other: &CharClass)
        requires
            old(self).inv(),
            other.inv(),
        ensures
            final(self).inv(),
            forall|cp: int|
                #![trigger covers(final(self)@, cp)]
                covers(final(self)@, cp) <==> (covers(old(self)@, cp) || covers(other@, cp)),
    {
        let ghost orig = self@;
        let ghost o = other@;
        let n = other.ranges.len();
        let mut i: usize = 0;
        while i < n
            invariant
                other@ == o,
                canonical(orig),
                canonical(o),
                n == o.len(),
                0 <= i <= n,
                self@ == orig + o.subrange(0, i as int),
            decreases n - i,
        {
            let r = other.ranges[i];
            self.ranges.push(r);
            proof {
                assert(self@ =~= orig + o.subrange(0, i + 1));
            }
            i = i + 1;
        }
        proof {
            assert(o.subrange(0, n as int) =~= o);
            assert forall|idx: int| 0 <= idx < self@.len() implies wf_range(#[trigger] self@[idx]) by {
                if idx < orig.len() {
                    assert(wf_range(orig[idx]));
                } else {
                    assert(self@[idx] == o[idx - orig.len()]);
                    assert(wf_range(o[idx - orig.len()]));
                }
            }
            lemma_covers_concat(orig, o);
        }
        self.normalize();
    }

    /// Union by value: the combined class, in canonical form.
    pub fn unioned(self, other: Self) -> (r: Self)
        requires
            self.inv(),
            other.inv(),
        ensures
            r.inv(),
            forall|cp: int| covers(r@, cp) <==> (covers(self@, cp) || covers(other@, cp)),
    {
        let mut r = self;
        r.union_with(&other);
        r
    }

    /// Does this class cover the entire domain as one single range?
    pub fn is_any(&self) -> (r: bool)
        ensures
            r == covers_all(self@),
    {
        self.ranges.len() == 1 && self.ranges[0].0 == 0 && self.ranges[0].1 == DOMAIN_MAX
    }

    /// The structural partial order on classes: classes with different range
    /// counts are incomparable; otherwise ranges are compared pairwise in
    /// order. This does not mean subset or superset of the covered sets.
    pub fn compare(&self, other: &CharClass) -> (r: Option<core::cmp::Ordering>)
        ensures
            r == structural_cmp(self@, other@),
    {
        if self.ranges.len() != other.ranges.len() {
            return None;
        }
        let n = self.ranges.len();
        proof {
            assert(self@.skip(0) =~= self@);
            assert(other@.skip(0) =~= other@);
        }
        let mut i: usize = 0;
        while i < n
            invariant
                n == self@.len(),
                n == other@.len(),
                0 <= i <= n,
                structural_cmp(self@, other@) == structural_cmp(
                    self@.skip(i as int),
                    other@.skip(i as int),
                ),
            decreases n - i,
        {
            let a = self.ranges[i];
            let b = other.ranges[i];
            proof {
                assert(self@.skip(i as int)[0] == a);
                assert(other@.skip(i as int)[0] == b);
                assert(self@.skip(i as int).drop_first() =~= self@.skip(i + 1));
                assert(other@.skip(i as int).drop_first() =~= other@.skip(i + 1));
            }
            if b.1 > a.1 || b.0 > a.0 {
                return Some(core::cmp::Ordering::Less);
            } else if b.1 < a.1 {
                return Some(core::cmp::Ordering::Greater);
            }
            i = i + 1;
        }
        Some(core::cmp::Ordering::Equal)
    }

    /// Number of stored ranges.
    pub fn num_ranges(&self) -> (n: usize)
        ensures
            n == self@.len(),
    {
        self.ranges.len()
    }

    /// The stored range at a position of the canonical list.
    pub fn range_at(&self, i: usize) -> (r: (u32, u32))
        requires
            i < self@.len(),
        ensures
            r == self@[i as int],
    {
        self.ranges[i]
    }

    /// Build a class from a list of inclusive pairs by merging them one by
    /// one, ending in canonical form covering exactly their union.
    pub fn from_pairs(pairs: &Vec<(u32, u32)>) -> (r: Self)
        requires
            forall|i: int| 0 <= i < pairs@.len() ==> wf_range(#[trigger] pairs@[i]),
        ensures
            r.inv(),
            forall|cp: int| covers(r@, cp) <==> covers(pairs@, cp),
    {
        let p = pairs;
        let ghost ps = pairs@;
        let n = p.len();
        let mut out: Vec<(u32, u32)> = Vec::new();
        let mut i: usize = 0;
        while i < n
            invariant
                p@ == ps,
                forall|j: int| 0 <= j < ps.len() ==> wf_range(#[trigger] ps[j]),
                n == ps.len(),
                0 <= i <= n,
                canonical(out@),
                forall|cp: int| covers(out@, cp) <==> covers(ps.subrange(0, i as int), cp),
            decreases n - i,
        {
            let (lo, hi) = p[i];
            proof {
                assert(wf_range(ps[i as int]));
                lemma_covers_extend(ps, 0, i as int);
            }
            insert_range(&mut out, lo, hi);
            proof {
                assert forall|cp: int| covers(out@, cp) <==> covers(
                    ps.subrange(0, i + 1),
                    cp,
                ) by {
                    assert(covers(ps.subrange(0, i + 1), cp) <==> (covers(
                        ps.subrange(0, i as int),
                        cp,
                    ) || in_range(ps[i as int], cp)));
                }
            }
            i = i + 1;
        }
        proof {
            assert(ps.subrange(0, n as int) =~= ps);
        }
        CharClass { ranges: out }
    }

    /// Render the class compactly: a lone `.` when it covers the whole
    /// domain in one range, otherwise a bracketed list with each range shown
    /// as `lo-hi` (or just `lo` when the range is a single code point), a
    /// fixed table of control characters shown as escape sequences, and code
    /// points outside the scalar range shown as the replacement character.
    /// The result is exactly `render_class` of the stored ranges, so equal
    /// classes always render to equal strings.
    pub fn repr(&self) -> (r: String)
        ensures
            r@ == render_class(self@),
    {
        let ghost s = self@;
        let mut out = String::new();
        if self.is_any() {
            push_char(&mut out, '.');
            proof {
                assert(out@ =~= seq!['.']);
            }
            return out;
        }
        push_char(&mut out, '[');
        proof {
            assert(out@ =~= seq!['['] + render_ranges(s.subrange(0, 0)));
        }
        let n = self.ranges.len();
        let mut i: usize = 0;
        while i < n
            invariant
                self@ == s,
                0 <= i <= n,
                n == s.len(),
                out@ == seq!['['] + render_ranges(s.subrange(0, i as int)),
            decreases n - i,
        {
            let (lo, hi) = self.ranges[i];
            let ghost before = out@;
            if lo < hi {
                push_code_point(&mut out, lo);
                push_char(&mut out, '-');
                push_code_point(&mut out, hi);
                proof {
                    assert(out@ =~= before + render_range(s[i as int]));
                }
            } else {
                push_code_point(&mut out, lo);
                proof {
                    assert(out@ =~= before + render_range(s[i as int]));
                }
            }
            proof {
                lemma_render_ranges_concat(s.subrange(0, i as int), seq![s[i as int]]);
                assert(s.subrange(0, i + 1) =~= s.subrange(0, i as int) + seq![s[i as int]]);
                assert(seq![s[i as int]].drop_first() =~= Seq::<(u32, u32)>::empty());
                assert(render_ranges(Seq::<(u32, u32)>::empty()) =~= Seq::<char>::empty());
                assert(render_ranges(seq![s[i as int]]) =~= render_range(s[i as int]));
                assert(out@ =~= seq!['['] + render_ranges(s.subrange(0, i + 1)));
            }
            i = i + 1;
        }
        push_char(&mut out, ']');
        proof {
            assert(s.subrange(0, n as int) =~= s);
            assert(out@ =~= seq!['['] + render_ranges(s) + seq![']']);
        }
        out
    }
}

/// Append the rendering of one code point, exactly as `render_code_point`
/// states it: the fixed escape table, the character itself for any other
/// scalar value, and the replacement character for a code point with no
/// scalar value.
fn push_code_point(out: &mut String, cp: u32)
    ensures
        final(out)@ == old(out)@ + render_code_point(cp),
{
    if cp == 0x07 {
        push_char(out, '\\');
        push_char(out, 'a');
    } else if cp == 0x08 {
        push_char(out, '\\');
        push_char(out, 'b');
    } else if cp == 0x0c {
        push_char(out, '\\');
        push_char(out, 'f');
    } else if cp == 0x0a {
        push_char(out, '\\');
        push_char(out, 'n');
    } else if cp == 0x0d {
        push_char(out, '\\');
        push_char(out, 'r');
    } else if cp == 0x09 {
        push_char(out, '\\');
        push_char(out, 't');
    } else if cp == 0x0b {
        push_char(out, '\\');
        push_char(out, 'v');
    } else if cp == 0x5c {
        push_char(out, '\\');
        push_char(out, '\\');
    } else {
        match char_from_code(cp) {
            Some(c) => {
                proof {
                    vstd::utf8::char_u32_cast(c, cp);
                }
                push_char(out, c);
            },
            None => push_char(out, '\u{FFFD}'),
        }
    }
    proof {
        assert(final(out)@ =~= old(out)@ + render_code_point(cp));
    }
}

/// Relies on `String::push`: appends the given character to the end of the
/// string.
#[verifier::external_body]
fn push_char(s: &mut String, c: char)
    ensures
        final(s)@ == old(s)@ + seq![c],
{
    s.push(c);
}

/// Relies on `char::from_u32`: returns the character with the given code
/// point exactly when that code point is a Unicode scalar value (at most
/// 0x10FFFF and not a surrogate), and `None` otherwise.
#[verifier::external_body]
fn char_from_code(cp: u32) -> (r: Option<char>)
    ensures
        r is Some <==> (cp <= 0x10FFFF && !(0xD800 <= cp <= 0xDFFF)),
        r matches Some(c) ==> c as u32 == cp,
{
    char::from_u32(cp)
}

} // verus!
