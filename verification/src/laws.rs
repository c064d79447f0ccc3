//! Laws the two filters obey: subset, completeness, order preservation,
//! ascending match length, the empty boundary cases, the full-match
//! boundary, and the equivalence of the linear and sorted-probe results.

use crate::filter::{eq_probe, is_prefix_of, prefix_matches, prefix_pred, probe_matches_upto};
use vstd::multiset::Multiset;
use vstd::prelude::*;

verus! {

/// `a` holds elements of `b`, in the same relative order.
pub open spec fn is_subsequence_of(a: Seq<Seq<u8>>, b: Seq<Seq<u8>>) -> bool
    decreases b.len(),
{
    if a.len() == 0 {
        true
    } else if b.len() == 0 {
        false
    } else if a.last() == b.last() {
        is_subsequence_of(a.drop_last(), b.drop_last())
    } else {
        is_subsequence_of(a, b.drop_last())
    }
}

proof fn lemma_subsequence_drop_last(a: Seq<Seq<u8>>, b: Seq<Seq<u8>>)
    requires
        is_subsequence_of(a, b),
        a.len() > 0,
    ensures
        is_subsequence_of(a.drop_last(), b),
    decreases a.len(), b.len(), 0int,
{
    if a.last() == b.last() {
        lemma_subsequence_push_right(a.drop_last(), b.drop_last(), b.last());
        assert(b.drop_last().push(b.last()) =~= b);
    } else {
        lemma_subsequence_drop_last(a, b.drop_last());
        lemma_subsequence_push_right(a.drop_last(), b.drop_last(), b.last());
        assert(b.drop_last().push(b.last()) =~= b);
    }
}

proof fn lemma_subsequence_push_right(a: Seq<Seq<u8>>, b: Seq<Seq<u8>>, y: Seq<u8>)
    requires
        is_subsequence_of(a, b),
    ensures
        is_subsequence_of(a, b.push(y)),
    decreases a.len(), b.len(), 1int,
{
    if a.len() > 0 {
        if a.last() == y {
            lemma_subsequence_drop_last(a, b);
        }
        assert(b.push(y).drop_last() =~= b);
    }
}

proof fn lemma_filter_subsequence(cs: Seq<Seq<u8>>, p: spec_fn(Seq<u8>) -> bool)
    ensures
        is_subsequence_of(cs.filter(p), cs),
    decreases cs.len(),
{
    reveal(Seq::filter);
    if cs.len() > 0 {
        let d = cs.drop_last();
        lemma_filter_subsequence(d, p);
        if p(cs.last()) {
            assert((d.filter(p).push(cs.last())).drop_last() =~= d.filter(p));
        } else {
            lemma_subsequence_push_right(d.filter(p), d, cs.last());
            assert(d.push(cs.last()) =~= cs);
        }
    }
}

/// A predicate that fails on every element filters to the empty sequence.
proof fn lemma_filter_none(cs: Seq<Seq<u8>>, p: spec_fn(Seq<u8>) -> bool)
    requires
        forall|i: int| 0 <= i < cs.len() ==> !p(#[trigger] cs[i]),
    ensures
        cs.filter(p) == Seq::<Seq<u8>>::empty(),
    decreases cs.len(),
{
    reveal(Seq::filter);
    if cs.len() == 0 {
        assert(cs =~= Seq::<Seq<u8>>::empty());
    } else {
        assert(forall|i: int| 0 <= i < cs.drop_last().len() ==> #[trigger] cs.drop_last()[i]
            == cs[i]);
        lemma_filter_none(cs.drop_last(), p);
    }
}

/// Filtering keeps the multiplicity of every value the predicate accepts
/// and drops every value it rejects.
proof fn lemma_filter_count(cs: Seq<Seq<u8>>, p: spec_fn(Seq<u8>) -> bool, m: Seq<u8>)
    ensures
        p(m) ==> cs.filter(p).to_multiset().count(m) == cs.to_multiset().count(m),
        !p(m) ==> cs.filter(p).to_multiset().count(m) == 0,
    decreases cs.len(),
{
    reveal(Seq::filter);
    broadcast use vstd::seq_lib::group_to_multiset_ensures;

    if cs.len() > 0 {
        let d = cs.drop_last();
        lemma_filter_count(d, p, m);
        assert(cs =~= d.push(cs.last()));
    }
}

/// Subset law of the linear filter: every match is a candidate and a
/// prefix of the subject.
pub proof fn lemma_matches_subset(s: Seq<u8>, cs: Seq<Seq<u8>>)
    ensures
        forall|m: Seq<u8>| #[trigger] prefix_matches(s, cs).contains(m) ==> cs.contains(m)
            && is_prefix_of(m, s),
{
    broadcast use Seq::lemma_filter_contains_rev;
    broadcast use Seq::lemma_filter_pred;

    assert forall|m: Seq<u8>| #[trigger] prefix_matches(s, cs).contains(m) implies cs.contains(m)
        && is_prefix_of(m, s) by {
        let f = cs.filter(prefix_pred(s));
        let i = choose|i: int| 0 <= i < f.len() && f[i] == m;
        assert(prefix_pred(s)(f[i]));
    }
}

/// Completeness law of the linear filter: a candidate that is a prefix of
/// the subject appears among the matches with its full multiplicity.
pub proof fn lemma_matches_complete(s: Seq<u8>, cs: Seq<Seq<u8>>, m: Seq<u8>)
    requires
        is_prefix_of(m, s),
    ensures
        prefix_matches(s, cs).to_multiset().count(m) == cs.to_multiset().count(m),
{
    lemma_filter_count(cs, prefix_pred(s), m);
}

/// Order law of the linear filter: the matches stand in the same relative
/// order as in the candidate input.
pub proof fn lemma_matches_preserve_order(s: Seq<u8>, cs: Seq<Seq<u8>>)
    ensures
        is_subsequence_of(prefix_matches(s, cs), cs),
{
    lemma_filter_subsequence(cs, prefix_pred(s));
}

/// Subset law of the sorted-probe filter: every match is a candidate and
/// a prefix of the subject.
pub proof fn lemma_probe_matches_subset(s: Seq<u8>, cs: Seq<Seq<u8>>, n: int)
    requires
        n <= s.len(),
    ensures
        forall|m: Seq<u8>| #[trigger] probe_matches_upto(s, cs, n).contains(m) ==> cs.contains(m)
            && is_prefix_of(m, s),
    decreases n,
{
    broadcast use Seq::lemma_filter_contains_rev;
    broadcast use Seq::lemma_filter_pred;

    if n > 0 {
        lemma_probe_matches_subset(s, cs, n - 1);
        let prev = probe_matches_upto(s, cs, n - 1);
        let f = cs.filter(eq_probe(s, n));
        assert forall|m: Seq<u8>| #[trigger] probe_matches_upto(s, cs, n).contains(m) implies
            cs.contains(m) && is_prefix_of(m, s) by {
            let pm = probe_matches_upto(s, cs, n);
            let i = choose|i: int| 0 <= i < pm.len() && pm[i] == m;
            if i < prev.len() {
                assert(prev[i] == m);
                assert(prev.contains(m));
            } else {
                assert(f[i - prev.len()] == m);
                assert(eq_probe(s, n)(f[i - prev.len()]));
                assert(f.contains(m));
                assert(m =~= s.subrange(0, m.len() as int));
            }
        }
    }
}

/// Every sorted-probe match for probe lengths up to `n` has a length
/// between 1 and `n`.
proof fn lemma_probe_matches_len_bounds(s: Seq<u8>, cs: Seq<Seq<u8>>, n: int)
    requires
        n <= s.len(),
    ensures
        forall|i: int| 0 <= i < probe_matches_upto(s, cs, n).len() ==> 1 <= (
        #[trigger] probe_matches_upto(s, cs, n)[i]).len() <= n,
    decreases n,
{
    broadcast use Seq::lemma_filter_pred;

    if n > 0 {
        lemma_probe_matches_len_bounds(s, cs, n - 1);
        let prev = probe_matches_upto(s, cs, n - 1);
        let f = cs.filter(eq_probe(s, n));
        assert forall|i: int| 0 <= i < probe_matches_upto(s, cs, n).len() implies 1 <= (
        #[trigger] probe_matches_upto(s, cs, n)[i]).len() <= n by {
            if i >= prev.len() {
                assert(eq_probe(s, n)(f[i - prev.len()]));
            }
        }
    }
}

/// Order law of the sorted-probe filter: matches come out in ascending
/// match length.
pub proof fn lemma_probe_matches_ascending_length(s: Seq<u8>, cs: Seq<Seq<u8>>, n: int)
    requires
        n <= s.len(),
    ensures
        forall|i: int, j: int|
            0 <= i <= j < probe_matches_upto(s, cs, n).len() ==> (
            #[trigger] probe_matches_upto(s, cs, n)[i]).len() <= (
            #[trigger] probe_matches_upto(s, cs, n)[j]).len(),
    decreases n,
{
    broadcast use Seq::lemma_filter_pred;

    if n > 0 {
        lemma_probe_matches_ascending_length(s, cs, n - 1);
        lemma_probe_matches_len_bounds(s, cs, n - 1);
        let prev = probe_matches_upto(s, cs, n - 1);
        let f = cs.filter(eq_probe(s, n));
        assert forall|i: int, j: int|
            0 <= i <= j < probe_matches_upto(s, cs, n).len() implies (
        #[trigger] probe_matches_upto(s, cs, n)[i]).len() <= (
        #[trigger] probe_matches_upto(s, cs, n)[j]).len() by {
            if i >= prev.len() {
                assert(eq_probe(s, n)(f[i - prev.len()]));
            }
            if j >= prev.len() {
                assert(eq_probe(s, n)(f[j - prev.len()]));
            }
        }
    }
}

/// The probe filter over the empty candidate set yields nothing.
proof fn lemma_probe_matches_empty_candidates(s: Seq<u8>, n: int)
    ensures
        probe_matches_upto(s, Seq::empty(), n) == Seq::<Seq<u8>>::empty(),
    decreases n,
{
    reveal(Seq::filter);
    if n > 0 {
        lemma_probe_matches_empty_candidates(s, n - 1);
        assert(Seq::<Seq<u8>>::empty() + Seq::<Seq<u8>>::empty().filter(eq_probe(s, n))
            =~= Seq::<Seq<u8>>::empty());
    }
}

/// Empty-candidate boundary: both filters return the empty result.
pub proof fn lemma_empty_candidates(s: Seq<u8>)
    ensures
        prefix_matches(s, Seq::empty()) == Seq::<Seq<u8>>::empty(),
        probe_matches_upto(s, Seq::empty(), s.len() as int) == Seq::<Seq<u8>>::empty(),
{
    reveal(Seq::filter);
    assert(Seq::<Seq<u8>>::empty().filter(prefix_pred(s)) =~= Seq::<Seq<u8>>::empty());
    lemma_probe_matches_empty_candidates(s, s.len() as int);
}

/// Empty-subject boundary: with every candidate nonempty, both filters
/// return the empty result. (The empty candidate is a prefix of every
/// subject, the empty one included, and is reported by the linear filter;
/// the probe filter never tests the empty probe.)
pub proof fn lemma_empty_subject(cs: Seq<Seq<u8>>)
    requires
        forall|i: int| 0 <= i < cs.len() ==> (#[trigger] cs[i]).len() >= 1,
    ensures
        prefix_matches(Seq::empty(), cs) == Seq::<Seq<u8>>::empty(),
        probe_matches_upto(Seq::empty(), cs, 0) == Seq::<Seq<u8>>::empty(),
{
    assert forall|i: int| 0 <= i < cs.len() implies !prefix_pred(Seq::<u8>::empty())(
        #[trigger] cs[i],
    ) by {}
    lemma_filter_none(cs, prefix_pred(Seq::empty()));
}

/// Full-match boundary of the linear filter: a subject that is itself a
/// candidate appears among the matches.
pub proof fn lemma_full_match_linear(s: Seq<u8>, cs: Seq<Seq<u8>>)
    requires
        cs.contains(s),
    ensures
        prefix_matches(s, cs).contains(s),
{
    broadcast use Seq::lemma_filter_contains;

    assert(s =~= s.subrange(0, s.len() as int));
    let i = choose|i: int| 0 <= i < cs.len() && cs[i] == s;
    assert(prefix_pred(s)(cs[i]));
    assert(cs.filter(prefix_pred(s)).contains(cs[i]));
}

/// Full-match boundary of the sorted-probe filter: a nonempty subject
/// that is itself a candidate appears among the matches, because the
/// probe range reaches the subject's full length.
pub proof fn lemma_full_match_probe(s: Seq<u8>, cs: Seq<Seq<u8>>)
    requires
        cs.contains(s),
        s.len() >= 1,
    ensures
        probe_matches_upto(s, cs, s.len() as int).contains(s),
{
    broadcast use Seq::lemma_filter_contains;

    let n = s.len() as int;
    assert(s =~= s.subrange(0, n));
    let i = choose|i: int| 0 <= i < cs.len() && cs[i] == s;
    assert(eq_probe(s, n)(cs[i]));
    let f = cs.filter(eq_probe(s, n));
    assert(f.contains(cs[i]));
    let j = choose|j: int| 0 <= j < f.len() && f[j] == s;
    let pm = probe_matches_upto(s, cs, n);
    assert(pm[probe_matches_upto(s, cs, n - 1).len() + j] == s);
    assert(pm.contains(s));
}

/// Concatenating sequences adds their multisets.
proof fn lemma_to_multiset_add(a: Seq<Seq<u8>>, b: Seq<Seq<u8>>)
    ensures
        (a + b).to_multiset() == a.to_multiset().add(b.to_multiset()),
    decreases b.len(),
{
    broadcast use vstd::seq_lib::group_to_multiset_ensures;

    if b.len() == 0 {
        assert(a + b =~= a);
        assert forall|x: Seq<u8>| #[trigger] b.to_multiset().count(x) == 0 by {
            if b.to_multiset().count(x) > 0 {
                assert(b.contains(x));
            }
        }
        assert(b.to_multiset() =~= Multiset::<Seq<u8>>::empty());
        assert(a.to_multiset().add(b.to_multiset()) =~= a.to_multiset());
    } else {
        lemma_to_multiset_add(a, b.drop_last());
        assert(a + b =~= (a + b.drop_last()).push(b.last()));
        assert(b =~= b.drop_last().push(b.last()));
        assert(a.to_multiset().add(b.drop_last().to_multiset().insert(b.last()))
            =~= a.to_multiset().add(b.drop_last().to_multiset()).insert(b.last()));
    }
}

/// The candidates the probe filter can report up to probe length `n`:
/// nonempty prefixes of the subject no longer than `n`.
pub open spec fn bounded_prefix_pred(s: Seq<u8>, n: int) -> spec_fn(Seq<u8>) -> bool {
    |c: Seq<u8>| 1 <= c.len() <= n && c == s.subrange(0, c.len() as int)
}

/// Appending one candidate adds its match (with multiplicity one) to the
/// probe filter's result exactly when it is a nonempty prefix of the
/// subject no longer than `n`.
proof fn lemma_probe_matches_push(s: Seq<u8>, cs: Seq<Seq<u8>>, c: Seq<u8>, n: int)
    requires
        n <= s.len(),
    ensures
        probe_matches_upto(s, cs.push(c), n).to_multiset() == if bounded_prefix_pred(s, n)(c) {
            probe_matches_upto(s, cs, n).to_multiset().insert(c)
        } else {
            probe_matches_upto(s, cs, n).to_multiset()
        },
    decreases n,
{
    broadcast use vstd::seq_lib::group_to_multiset_ensures;

    if n > 0 {
        lemma_probe_matches_push(s, cs, c, n - 1);
        cs.lemma_filter_push(c, eq_probe(s, n));
        let prev_push = probe_matches_upto(s, cs.push(c), n - 1);
        let prev = probe_matches_upto(s, cs, n - 1);
        let f = cs.filter(eq_probe(s, n));
        lemma_to_multiset_add(prev_push, cs.push(c).filter(eq_probe(s, n)));
        lemma_to_multiset_add(prev, f);
        if c == s.subrange(0, n) {
            assert(c.len() == n);
            assert(bounded_prefix_pred(s, n)(c));
            assert(!bounded_prefix_pred(s, n - 1)(c));
            assert(prev_push.to_multiset() == prev.to_multiset());
            assert(prev.to_multiset().add(f.to_multiset().insert(c)) =~= prev.to_multiset().add(
                f.to_multiset(),
            ).insert(c));
        } else {
            if bounded_prefix_pred(s, n - 1)(c) {
                assert(bounded_prefix_pred(s, n)(c));
                assert(prev.to_multiset().insert(c).add(f.to_multiset()) =~= prev.to_multiset().add(
                    f.to_multiset(),
                ).insert(c));
            } else {
                if bounded_prefix_pred(s, n)(c) {
                    assert(c.len() < n ==> bounded_prefix_pred(s, n - 1)(c));
                    assert(c.len() == n ==> c =~= s.subrange(0, n));
                    assert(false);
                }
            }
        }
    }
}

/// As multisets, the probe filter's result up to probe length `n` is the
/// candidate set filtered to nonempty prefixes no longer than `n` — for
/// any candidate order, sorted or not.
pub proof fn lemma_probe_matches_multiset(s: Seq<u8>, cs: Seq<Seq<u8>>, n: int)
    requires
        0 <= n <= s.len(),
    ensures
        probe_matches_upto(s, cs, n).to_multiset() == cs.filter(bounded_prefix_pred(s, n))
            .to_multiset(),
    decreases cs.len(),
{
    reveal(Seq::filter);
    if cs.len() == 0 {
        lemma_probe_matches_empty_candidates(s, n);
        assert(cs =~= Seq::<Seq<u8>>::empty());
    } else {
        let d = cs.drop_last();
        let c = cs.last();
        lemma_probe_matches_multiset(s, d, n);
        lemma_probe_matches_push(s, d, c, n);
        d.lemma_filter_push(c, bounded_prefix_pred(s, n));
        assert(cs =~= d.push(c));
        broadcast use vstd::seq_lib::group_to_multiset_ensures;
    }
}

/// Completeness law of the sorted-probe filter: a nonempty candidate that
/// is a prefix of the subject appears among the probe matches with its
/// full multiplicity.
pub proof fn lemma_probe_matches_complete(s: Seq<u8>, cs: Seq<Seq<u8>>, m: Seq<u8>)
    requires
        is_prefix_of(m, s),
        m.len() >= 1,
    ensures
        probe_matches_upto(s, cs, s.len() as int).to_multiset().count(m) == cs.to_multiset().count(
            m,
        ),
{
    lemma_probe_matches_multiset(s, cs, s.len() as int);
    lemma_filter_count(cs, bounded_prefix_pred(s, s.len() as int), m);
}

proof fn lemma_filter_congruent(
    cs: Seq<Seq<u8>>,
    p1: spec_fn(Seq<u8>) -> bool,
    p2: spec_fn(Seq<u8>) -> bool,
)
    requires
        forall|i: int| 0 <= i < cs.len() ==> p1(#[trigger] cs[i]) == p2(cs[i]),
    ensures
        cs.filter(p1) == cs.filter(p2),
    decreases cs.len(),
{
    reveal(Seq::filter);
    if cs.len() > 0 {
        assert(forall|i: int| 0 <= i < cs.drop_last().len() ==> #[trigger] cs.drop_last()[i]
            == cs[i]);
        lemma_filter_congruent(cs.drop_last(), p1, p2);
    }
}

/// Equivalence law: on candidate sets whose members are all nonempty, the
/// linear and the sorted-probe filter return the same matches as
/// multisets — they can differ only in order. (An empty candidate is the
/// one exception: it is a prefix of every subject and the linear filter
/// reports it, while the probe range starts at length 1 and never finds
/// it.)
pub proof fn lemma_filters_equivalent(s: Seq<u8>, cs: Seq<Seq<u8>>)
    requires
        forall|i: int| 0 <= i < cs.len() ==> (#[trigger] cs[i]).len() >= 1,
    ensures
        probe_matches_upto(s, cs, s.len() as int).to_multiset() == prefix_matches(s, cs)
            .to_multiset(),
{
    let n = s.len() as int;
    lemma_probe_matches_multiset(s, cs, n);
    assert forall|i: int| 0 <= i < cs.len() implies bounded_prefix_pred(s, n)(#[trigger] cs[i])
        == prefix_pred(s)(cs[i]) by {}
    lemma_filter_congruent(cs, bounded_prefix_pred(s, n), prefix_pred(s));
}

} // verus!
