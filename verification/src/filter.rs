//! The two prefix filters and their functional models.

use crate::order::{
    lemma_lex_lt_asymmetric, lemma_lex_lt_irreflexive, lemma_lex_lt_transitive,
    lemma_lex_trichotomy, lex_cmp_probe, lex_le, lex_lt, sorted_lex, Rel,
};
use vstd::prelude::*;

verus! {

/// `p` is a prefix of `s`: it is no longer than `s` and equals the
/// leading bytes of `s`.
pub open spec fn is_prefix_of(p: Seq<u8>, s: Seq<u8>) -> bool {
    p.len() <= s.len() && p == s.subrange(0, p.len() as int)
}

/// The predicate the linear filter selects by: being a prefix of `s`.
pub open spec fn prefix_pred(s: Seq<u8>) -> spec_fn(Seq<u8>) -> bool {
    |c: Seq<u8>| is_prefix_of(c, s)
}

/// The candidates that are prefixes of the subject, in candidate order:
/// the model both filters are held to.
pub open spec fn prefix_matches(s: Seq<u8>, cs: Seq<Seq<u8>>) -> Seq<Seq<u8>> {
    cs.filter(prefix_pred(s))
}

/// Tests whether `p` is a prefix of `subject`, byte for byte.
pub fn is_prefix(p: &Vec<u8>, subject: &[u8]) -> (b: bool)
    ensures
        b == is_prefix_of(p@, subject@),
{
    if p.len() > subject.len() {
        return false;
    }
    let mut i: usize = 0;
    while i < p.len()
        invariant
            i <= p@.len() <= subject@.len(),
            forall|j: int| 0 <= j < i ==> p@[j] == subject@[j],
        decreases p@.len() - i,
    {
        if p[i] != subject[i] {
            assert(p@ != subject@.subrange(0, p@.len() as int)) by {
                assert(subject@.subrange(0, p@.len() as int)[i as int] == subject@[i as int]);
            }
            return false;
        }
        i = i + 1;
    }
    assert(p@ =~= subject@.subrange(0, p@.len() as int));
    true
}

/// Linear prefix filter: scans the candidates once, in order, and returns
/// those that are prefixes of the subject. The candidates need not be
/// sorted or deduplicated; the result preserves candidate order. An empty
/// candidate is a prefix of every subject, the empty subject included,
/// and is reported.
pub fn matching_prefixes(subject: &[u8], candidates: &Vec<Vec<u8>>) -> (matches: Vec<Vec<u8>>)
    ensures
        matches.deep_view() == prefix_matches(subject@, candidates.deep_view()),
{
    let ghost cds = candidates.deep_view();
    let mut matches: Vec<Vec<u8>> = Vec::new();
    let mut idx: usize = 0;
    while idx < candidates.len()
        invariant
            idx <= cds.len(),
            cds == candidates.deep_view(),
            matches.deep_view() == prefix_matches(subject@, cds.take(idx as int)),
        decreases cds.len() - idx,
    {
        let c = &candidates[idx];
        proof {
            assert(cds.take(idx + 1) =~= cds.take(idx as int).push(cds[idx as int]));
            cds.take(idx as int).lemma_filter_push(cds[idx as int], prefix_pred(subject@));
            assert(c.deep_view() =~= c@);
        }
        if is_prefix(c, subject) {
            let ghost before = matches.deep_view();
            let cc = c.clone();
            proof {
                assert forall|j: int| 0 <= j < c@.len() implies cc@[j] == c@[j] by {
                    assert(cloned::<u8>(c@[j], cc@[j]));
                }
                assert(cc@ =~= c@);
            }
            matches.push(cc);
            proof {
                assert(matches.deep_view() =~= before.push(cds[idx as int]));
            }
        }
        idx = idx + 1;
    }
    proof {
        assert(cds.take(cds.len() as int) =~= cds);
    }
    matches
}

/// The predicate the probe of length `n` selects by: equality with the
/// subject's prefix of that length.
pub open spec fn eq_probe(s: Seq<u8>, n: int) -> spec_fn(Seq<u8>) -> bool {
    |c: Seq<u8>| c == s.subrange(0, n)
}

/// The matches the sorted-probe filter produces for probe lengths 1 up
/// to `n` inclusive, in ascending probe-length order: for each length,
/// every candidate equal to that probe, in candidate order.
pub open spec fn probe_matches_upto(s: Seq<u8>, cs: Seq<Seq<u8>>, n: int) -> Seq<Seq<u8>>
    decreases n,
{
    if n <= 0 {
        Seq::empty()
    } else {
        probe_matches_upto(s, cs, n - 1) + cs.filter(eq_probe(s, n))
    }
}

/// Binary search over sorted candidates for the first one not below the
/// probe, the subject's prefix of length `len`.
#[verifier::loop_isolation(false)]
fn lower_bound(candidates: &Vec<Vec<u8>>, subject: &[u8], len: usize) -> (lo: usize)
    requires
        sorted_lex(candidates.deep_view()),
        len <= subject@.len(),
    ensures
        lo <= candidates.deep_view().len(),
        forall|j: int|
            0 <= j < lo ==> lex_lt(
                candidates.deep_view()[j],
                subject@.subrange(0, len as int),
            ),
        forall|j: int|
            lo <= j < candidates.deep_view().len() ==> !lex_lt(
                candidates.deep_view()[j],
                subject@.subrange(0, len as int),
            ),
{
    let ghost cds = candidates.deep_view();
    let ghost probe = subject@.subrange(0, len as int);
    let mut i1: usize = 0;
    let mut i2: usize = candidates.len();
    while i1 < i2
        invariant
            i1 <= i2 <= cds.len(),
            forall|j: int| 0 <= j < i1 ==> lex_lt(cds[j], probe),
            forall|j: int| i2 <= j < cds.len() ==> !lex_lt(cds[j], probe),
        decreases i2 - i1,
    {
        let mid = i1 + (i2 - i1) / 2;
        let c = &candidates[mid];
        proof {
            assert(c.deep_view() =~= c@);
        }
        match lex_cmp_probe(c, subject, len) {
            Rel::Less => {
                assert forall|j: int| 0 <= j < mid + 1 implies lex_lt(cds[j], probe) by {
                    if j < mid {
                        assert(lex_le(cds[j], cds[mid as int]));
                        if cds[j] != cds[mid as int] {
                            lemma_lex_lt_transitive(cds[j], cds[mid as int], probe);
                        }
                    }
                }
                i1 = mid + 1;
            },
            Rel::Equal => {
                proof {
                    lemma_lex_lt_irreflexive(probe);
                }
                assert forall|j: int| mid <= j < cds.len() implies !lex_lt(cds[j], probe) by {
                    assert(lex_le(cds[mid as int], cds[j]));
                    if cds[j] != cds[mid as int] && lex_lt(cds[j], probe) {
                        lemma_lex_lt_transitive(cds[mid as int], cds[j], probe);
                    }
                }
                i2 = mid;
            },
            Rel::Greater => {
                proof {
                    lemma_lex_lt_asymmetric(probe, cds[mid as int]);
                }
                assert forall|j: int| mid <= j < cds.len() implies !lex_lt(cds[j], probe) by {
                    assert(lex_le(cds[mid as int], cds[j]));
                    if cds[j] != cds[mid as int] && lex_lt(cds[j], probe) {
                        lemma_lex_lt_transitive(cds[mid as int], cds[j], probe);
                    }
                }
                i2 = mid;
            },
        }
    }
    i1
}

/// A predicate that holds exactly on a contiguous index range selects
/// exactly the subrange.
proof fn lemma_filter_eq_contiguous(cs: Seq<Seq<u8>>, s: Seq<u8>, n: int, lo: int, hi: int)
    requires
        0 <= lo <= hi <= cs.len(),
        forall|j: int| lo <= j < hi ==> cs[j] == s.subrange(0, n),
        forall|j: int| 0 <= j < lo ==> cs[j] != s.subrange(0, n),
        forall|j: int| hi <= j < cs.len() ==> cs[j] != s.subrange(0, n),
    ensures
        cs.filter(eq_probe(s, n)) == cs.subrange(lo, hi),
    decreases cs.len(),
{
    reveal(Seq::filter);
    let p = eq_probe(s, n);
    if cs.len() == 0 {
        assert(cs.filter(p) =~= cs.subrange(lo, hi));
    } else {
        let d = cs.drop_last();
        assert(forall|j: int| 0 <= j < d.len() ==> d[j] == cs[j]);
        if lo < hi && hi == cs.len() {
            lemma_filter_eq_contiguous(d, s, n, lo, hi - 1);
            assert(cs.subrange(lo, hi) =~= d.subrange(lo, hi - 1).push(cs.last()));
        } else if hi < cs.len() {
            lemma_filter_eq_contiguous(d, s, n, lo, hi);
            assert(d.subrange(lo, hi) =~= cs.subrange(lo, hi));
        } else {
            lemma_filter_eq_contiguous(d, s, n, cs.len() - 1, cs.len() - 1);
            assert(d.subrange(cs.len() - 1, cs.len() - 1) =~= cs.subrange(lo, hi));
        }
    }
}

/// Sorted-probe prefix filter. Precondition: the candidates are sorted
/// ascending in byte-lexicographic order. For each probe length from 1
/// to the subject's full length inclusive, binary-searches the
/// candidates for the subject's prefix of that length and emits every
/// candidate equal to it, so matches come out in ascending length order.
/// Probe lengths start at 1, so an empty candidate is never reported;
/// that is the one input on which this filter and the linear one differ.
#[verifier::loop_isolation(false)]
pub fn matching_prefixes_sorted(subject: &[u8], candidates: &Vec<Vec<u8>>) -> (matches: Vec<
    Vec<u8>,
>)
    requires
        sorted_lex(candidates.deep_view()),
    ensures
        matches.deep_view() == probe_matches_upto(
            subject@,
            candidates.deep_view(),
            subject@.len() as int,
        ),
{
    let ghost s = subject@;
    let ghost cds = candidates.deep_view();
    let mut matches: Vec<Vec<u8>> = Vec::new();
    let n = subject.len();
    let mut i: usize = 0;
    while i < n
        invariant
            i <= n,
            matches.deep_view() == probe_matches_upto(s, cds, i as int),
        decreases n - i,
    {
        let len = i + 1;
        let ghost probe = s.subrange(0, len as int);
        let lo = lower_bound(candidates, subject, len);
        let mut hi = lo;
        #[verifier::loop_isolation(true)]
        loop
            invariant
                lo <= hi <= cds.len(),
                cds == candidates.deep_view(),
                len <= subject@.len(),
                probe == subject@.subrange(0, len as int),
                forall|j: int| lo <= j < hi ==> cds[j] == probe,
            ensures
                lo <= hi <= cds.len(),
                forall|j: int| lo <= j < hi ==> cds[j] == probe,
                hi == cds.len() || cds[hi as int] != probe,
            decreases cds.len() - hi,
        {
            if hi >= candidates.len() {
                break;
            }
            let c = &candidates[hi];
            proof {
                assert(c.deep_view() =~= c@);
                lemma_lex_lt_irreflexive(probe);
            }
            match lex_cmp_probe(c, subject, len) {
                Rel::Equal => {
                    hi = hi + 1;
                },
                _ => {
                    break;
                },
            }
        }
        proof {
            lemma_lex_lt_irreflexive(probe);
            if hi < cds.len() {
                lemma_lex_trichotomy(cds[hi as int], probe);
                assert forall|j: int| hi <= j < cds.len() implies #[trigger] cds[j] != probe by {
                    assert(lex_le(cds[hi as int], cds[j]));
                    if cds[j] == probe {
                        if cds[hi as int] != cds[j] {
                            lemma_lex_lt_transitive(probe, cds[hi as int], cds[j]);
                        }
                        assert(false);
                    }
                }
            }
            lemma_filter_eq_contiguous(cds, s, len as int, lo as int, hi as int);
        }
        let ghost base = matches.deep_view();
        let mut k = lo;
        while k < hi
            invariant
                lo <= k <= hi,
                matches.deep_view() == base + cds.subrange(lo as int, k as int),
            decreases hi - k,
        {
            let c = &candidates[k];
            let ghost before = matches.deep_view();
            let cc = c.clone();
            proof {
                assert forall|j: int| 0 <= j < c@.len() implies cc@[j] == c@[j] by {
                    assert(cloned::<u8>(c@[j], cc@[j]));
                }
                assert(cc@ =~= c@);
                assert(c.deep_view() =~= c@);
            }
            matches.push(cc);
            proof {
                assert(matches.deep_view() =~= before.push(cds[k as int]));
                assert(base + cds.subrange(lo as int, k + 1) =~= (base + cds.subrange(
                    lo as int,
                    k as int,
                )).push(cds[k as int]));
            }
            k = k + 1;
        }
        proof {
            assert(matches.deep_view() == base + cds.filter(eq_probe(s, len as int)));
        }
        i = i + 1;
    }
    matches
}

} // verus!
