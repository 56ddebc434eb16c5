//! Laws of the range-set engine, each stated and proved over the model:
//! canonical uniqueness, double negation, length additivity of negation,
//! single-value containment, union commutativity, and determinism of the
//! compact rendering.

use vstd::prelude::*;

use vstd::set_lib::{lemma_int_range, lemma_len_subset, lemma_set_disjoint_lens, set_int_range};

use crate::model::{
    canonical, covered_set, covers, enclosed, in_domain, in_range, lemma_canonical_ordered,
    lemma_canonical_subrange, lemma_covers_first, lemma_covers_in_domain, render_class,
    total_size, wf_range, DOMAIN_SIZE,
};

verus! {

/// For a canonical list the summed range sizes equal the cardinality of the
/// covered set: no code point is counted twice.
pub proof fn lemma_covered_set_card(s: Seq<(u32, u32)>)
    requires
        canonical(s),
    ensures
        covered_set(s).finite(),
        covered_set(s).len() == total_size(s),
    decreases s.len(),
{
    if s.len() == 0 {
        assert(covered_set(s) =~= Set::<int>::empty());
    } else {
        let first = set_int_range(s[0].0 as int, s[0].1 + 1);
        let rest = covered_set(s.drop_first());
        assert(s.drop_first() =~= s.subrange(1, s.len() as int));
        lemma_canonical_subrange(s, 1, s.len() as int);
        lemma_covered_set_card(s.drop_first());
        lemma_covers_first(s);
        assert(wf_range(s[0]));
        lemma_int_range(s[0].0 as int, s[0].1 + 1);
        // The first range is disjoint from the coverage of the rest: every
        // later range starts beyond a gap.
        assert forall|cp: int| rest.contains(cp) implies !first.contains(cp) by {
            let rst = s.drop_first();
            let i = choose|i: int| 0 <= i < rst.len() && in_range(#[trigger] rst[i], cp);
            lemma_canonical_ordered(s, 0, i + 1);
            assert(s[i + 1] == rst[i]);
        }
        assert(first.disjoint(rest));
        lemma_set_disjoint_lens(first, rest);
        assert(covered_set(s) =~= first + rest);
    }
}

/// Coverage inclusion implies a covered count no larger: a canonical list
/// covering a subset of another's code points has at most its size.
pub proof fn lemma_size_monotone(s: Seq<(u32, u32)>, t: Seq<(u32, u32)>)
    requires
        canonical(s),
        canonical(t),
        forall|cp: int| covers(s, cp) ==> covers(t, cp),
    ensures
        total_size(s) <= total_size(t),
{
    lemma_covered_set_card(s);
    lemma_covered_set_card(t);
    lemma_len_subset(covered_set(s), covered_set(t));
}

/// In a canonical list every covered code point lies at or above the first
/// range's low end.
pub proof fn lemma_low_bound(s: Seq<(u32, u32)>)
    requires
        canonical(s),
        s.len() > 0,
    ensures
        forall|cp: int| #[trigger] covers(s, cp) ==> cp >= s[0].0,
{
    assert forall|cp: int| #[trigger] covers(s, cp) implies cp >= s[0].0 by {
        let j = choose|j: int| 0 <= j < s.len() && in_range(#[trigger] s[j], cp);
        if j > 0 {
            lemma_canonical_ordered(s, 0, j);
        }
    }
}

/// The code point just past the first range of a canonical list is never
/// covered: the next range starts beyond a gap.
pub proof fn lemma_first_gap_uncovered(s: Seq<(u32, u32)>)
    requires
        canonical(s),
        s.len() > 0,
    ensures
        !covers(s, s[0].1 + 1),
{
    if covers(s, s[0].1 + 1) {
        let j = choose|j: int| 0 <= j < s.len() && in_range(#[trigger] s[j], s[0].1 + 1);
        if j > 0 {
            lemma_canonical_ordered(s, 0, j);
        }
    }
}

/// Canonical uniqueness: two canonical lists covering exactly the same code
/// points are the same list. Canonical form is a unique normal form of a
/// covered set.
pub proof fn lemma_canonical_unique(s: Seq<(u32, u32)>, t: Seq<(u32, u32)>)
    requires
        canonical(s),
        canonical(t),
        forall|cp: int| covers(s, cp) <==> covers(t, cp),
    ensures
        s == t,
    decreases s.len(),
{
    if s.len() == 0 && t.len() == 0 {
        assert(s =~= t);
    } else if s.len() == 0 {
        assert(wf_range(t[0]));
        assert(in_range(t[0], t[0].0 as int));
        assert(covers(t, t[0].0 as int));
        assert(false);
    } else if t.len() == 0 {
        assert(wf_range(s[0]));
        assert(in_range(s[0], s[0].0 as int));
        assert(covers(s, s[0].0 as int));
        assert(false);
    } else {
        assert(wf_range(s[0]));
        assert(wf_range(t[0]));
        // The first low ends agree: each is the least covered code point.
        assert(in_range(s[0], s[0].0 as int));
        assert(covers(s, s[0].0 as int));
        assert(in_range(t[0], t[0].0 as int));
        assert(covers(t, t[0].0 as int));
        lemma_low_bound(s);
        lemma_low_bound(t);
        assert(s[0].0 == t[0].0);
        // The first high ends agree: one past each is the least uncovered
        // code point after the shared low end.
        lemma_first_gap_uncovered(s);
        lemma_first_gap_uncovered(t);
        if s[0].1 < t[0].1 {
            assert(in_range(t[0], s[0].1 + 1));
            assert(covers(t, s[0].1 + 1));
            assert(false);
        }
        if t[0].1 < s[0].1 {
            assert(in_range(s[0], t[0].1 + 1));
            assert(covers(s, t[0].1 + 1));
            assert(false);
        }
        assert(s[0] == t[0]);
        // The tails cover the same code points: everything beyond the shared
        // first range.
        let sd = s.drop_first();
        let td = t.drop_first();
        assert(sd =~= s.subrange(1, s.len() as int));
        assert(td =~= t.subrange(1, t.len() as int));
        lemma_canonical_subrange(s, 1, s.len() as int);
        lemma_canonical_subrange(t, 1, t.len() as int);
        lemma_covers_first(s);
        lemma_covers_first(t);
        assert forall|cp: int| covers(sd, cp) implies covers(td, cp) by {
            if sd.len() > 0 {
                lemma_low_bound(sd);
                assert(sd[0] == s[1]);
                assert(cp >= s[1].0);
                assert(s[0].1 + 1 < s[1].0);
                assert(covers(s, cp));
                assert(!in_range(t[0], cp));
            }
        }
        assert forall|cp: int| covers(td, cp) implies covers(sd, cp) by {
            if td.len() > 0 {
                lemma_low_bound(td);
                assert(td[0] == t[1]);
                assert(cp >= t[1].0);
                assert(t[0].1 + 1 < t[1].0);
                assert(covers(t, cp));
                assert(!in_range(s[0], cp));
            }
        }
        lemma_canonical_unique(sd, td);
        assert forall|k: int| 0 <= k < s.len() implies s[k] == t[k] by {
            if k > 0 {
                assert(sd[k - 1] == td[k - 1]);
            }
        }
        assert(s =~= t);
    }
}

/// For a canonical class, a single-value query `[c, c]` is enclosed in one
/// stored range exactly when `c` is covered at all.
pub proof fn lemma_single_value_containment(s: Seq<(u32, u32)>, c: int)
    requires
        canonical(s),
    ensures
        enclosed(s, c, c) <==> covers(s, c),
{
}

/// Length additivity of negation: a canonical class and its complement
/// together count every code point of the domain exactly once.
pub proof fn lemma_negation_length(s: Seq<(u32, u32)>, t: Seq<(u32, u32)>)
    requires
        canonical(s),
        canonical(t),
        forall|cp: int| in_domain(cp) ==> (covers(t, cp) <==> !covers(s, cp)),
        forall|cp: int| covers(t, cp) ==> in_domain(cp),
    ensures
        total_size(t) + total_size(s) == DOMAIN_SIZE,
{
    lemma_covered_set_card(s);
    lemma_covered_set_card(t);
    lemma_int_range(0, DOMAIN_SIZE as int);
    let dom = set_int_range(0, DOMAIN_SIZE as int);
    assert forall|cp: int| covers(s, cp) implies in_domain(cp) by {
        lemma_covers_in_domain(s, cp);
    }
    assert forall|cp: int| covered_set(s).contains(cp) implies !covered_set(t).contains(cp) by {
        assert(covers(s, cp));
        assert(in_domain(cp));
    }
    assert(covered_set(s).disjoint(covered_set(t)));
    assert forall|cp: int| #[trigger] dom.contains(cp) implies (covered_set(s)
        + covered_set(t)).contains(cp) by {
        assert(in_domain(cp));
        if !covers(s, cp) {
            assert(covers(t, cp));
        }
    }
    assert forall|cp: int| #[trigger] (covered_set(s) + covered_set(t)).contains(cp) implies
        dom.contains(cp) by {
        assert(covers(s, cp) || covers(t, cp));
        if covers(s, cp) {
            assert(in_domain(cp));
        }
    }
    assert(covered_set(s) + covered_set(t) =~= dom);
    lemma_set_disjoint_lens(covered_set(s), covered_set(t));
}

/// Double negation: negating a canonical class twice covers exactly the
/// original code points, and by canonical uniqueness yields the very same
/// range list.
pub proof fn lemma_double_negation(s: Seq<(u32, u32)>, t: Seq<(u32, u32)>, u: Seq<(u32, u32)>)
    requires
        canonical(s),
        canonical(t),
        canonical(u),
        forall|cp: int| in_domain(cp) ==> (covers(t, cp) <==> !covers(s, cp)),
        forall|cp: int| covers(t, cp) ==> in_domain(cp),
        forall|cp: int| in_domain(cp) ==> (covers(u, cp) <==> !covers(t, cp)),
        forall|cp: int| covers(u, cp) ==> in_domain(cp),
    ensures
        forall|cp: int| covers(u, cp) <==> covers(s, cp),
        u == s,
{
    assert forall|cp: int| covers(u, cp) <==> covers(s, cp) by {
        if covers(s, cp) {
            lemma_covers_in_domain(s, cp);
        }
        if covers(u, cp) {
            lemma_covers_in_domain(u, cp);
        }
    }
    lemma_canonical_unique(u, s);
}

/// Rendering is deterministic in the covered set: two canonical classes
/// covering the same code points are the same list, so they render to the
/// same string.
pub proof fn lemma_render_deterministic(s: Seq<(u32, u32)>, t: Seq<(u32, u32)>)
    requires
        canonical(s),
        canonical(t),
        forall|cp: int| covers(s, cp) <==> covers(t, cp),
    ensures
        render_class(s) == render_class(t),
{
    lemma_canonical_unique(s, t);
}

/// Union commutativity: any two canonical classes covering the union of the
/// same two coverages, in either order, are the same list with the same
/// covered count.
pub proof fn lemma_union_commutative(
    a: Seq<(u32, u32)>,
    b: Seq<(u32, u32)>,
    u1: Seq<(u32, u32)>,
    u2: Seq<(u32, u32)>,
)
    requires
        canonical(u1),
        canonical(u2),
        forall|cp: int| covers(u1, cp) <==> (covers(a, cp) || covers(b, cp)),
        forall|cp: int| covers(u2, cp) <==> (covers(b, cp) || covers(a, cp)),
    ensures
        u1 == u2,
        total_size(u1) == total_size(u2),
{
    lemma_canonical_unique(u1, u2);
}

} // verus!
