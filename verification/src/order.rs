//! Byte-lexicographic ordering of byte sequences: the order the
//! sorted-probe filter's precondition speaks of, with the comparison
//! lemmas the binary search rests on.

use vstd::prelude::*;

verus! {

/// Strict byte-lexicographic order: `a` comes before `b` when, at the
/// first position where they differ, `a` holds the smaller byte, or when
/// `a` is a proper prefix of `b`.
pub open spec fn lex_lt(a: Seq<u8>, b: Seq<u8>) -> bool
    decreases a.len(),
{
    if b.len() == 0 {
        false
    } else if a.len() == 0 {
        true
    } else if a[0] < b[0] {
        true
    } else if a[0] > b[0] {
        false
    } else {
        lex_lt(a.drop_first(), b.drop_first())
    }
}

/// Non-strict byte-lexicographic order.
pub open spec fn lex_le(a: Seq<u8>, b: Seq<u8>) -> bool {
    lex_lt(a, b) || a == b
}

/// The candidate sequence is sorted ascending in byte-lexicographic order.
pub open spec fn sorted_lex(cs: Seq<Seq<u8>>) -> bool {
    forall|i: int, j: int| 0 <= i <= j < cs.len() ==> lex_le(cs[i], cs[j])
}

pub proof fn lemma_lex_lt_irreflexive(a: Seq<u8>)
    ensures
        !lex_lt(a, a),
    decreases a.len(),
{
    if a.len() > 0 {
        lemma_lex_lt_irreflexive(a.drop_first());
    }
}

pub proof fn lemma_lex_trichotomy(a: Seq<u8>, b: Seq<u8>)
    ensures
        lex_lt(a, b) || lex_lt(b, a) || a == b,
    decreases a.len(),
{
    if a.len() == 0 && b.len() == 0 {
        assert(a =~= b);
    } else if a.len() > 0 && b.len() > 0 && a[0] == b[0] {
        lemma_lex_trichotomy(a.drop_first(), b.drop_first());
        if a.drop_first() == b.drop_first() {
            assert(a.len() == b.len());
            assert forall|i: int| 0 <= i < a.len() implies a[i] == b[i] by {
                if i >= 1 {
                    assert(a.drop_first()[i - 1] == b.drop_first()[i - 1]);
                }
            }
            assert(a =~= b);
        }
    }
}

pub proof fn lemma_lex_lt_transitive(a: Seq<u8>, b: Seq<u8>, c: Seq<u8>)
    requires
        lex_lt(a, b),
        lex_lt(b, c),
    ensures
        lex_lt(a, c),
    decreases a.len(),
{
    if a.len() > 0 && b.len() > 0 && c.len() > 0 && a[0] == b[0] && b[0] == c[0] {
        lemma_lex_lt_transitive(a.drop_first(), b.drop_first(), c.drop_first());
    }
}

pub proof fn lemma_lex_lt_asymmetric(a: Seq<u8>, b: Seq<u8>)
    requires
        lex_lt(a, b),
    ensures
        !lex_lt(b, a),
{
    if lex_lt(b, a) {
        lemma_lex_lt_transitive(a, b, a);
        lemma_lex_lt_irreflexive(a);
    }
}

/// How the order shows itself at the first position `k` where two
/// sequences that agree before `k` may differ.
pub proof fn lemma_lex_from_common_prefix(a: Seq<u8>, b: Seq<u8>, k: int)
    requires
        0 <= k <= a.len(),
        k <= b.len(),
        forall|j: int| 0 <= j < k ==> a[j] == b[j],
    ensures
        k < a.len() && k < b.len() && a[k] < b[k] ==> lex_lt(a, b),
        k < a.len() && k < b.len() && a[k] > b[k] ==> lex_lt(b, a),
        k == a.len() && k < b.len() ==> lex_lt(a, b),
        k == a.len() && k == b.len() ==> a == b,
    decreases k,
{
    if k == 0 {
        if a.len() == 0 && b.len() == 0 {
            assert(a =~= b);
        }
    } else {
        let at = a.drop_first();
        let bt = b.drop_first();
        assert(forall|j: int| 0 <= j < k - 1 ==> #[trigger] at[j] == bt[j]);
        lemma_lex_from_common_prefix(at, bt, k - 1);
        if k == a.len() && k == b.len() {
            assert(a =~= b);
        }
    }
}

/// Result of a three-way byte-lexicographic comparison.
pub enum Rel {
    Less,
    Equal,
    Greater,
}

/// Compares a candidate against the probe, the subject's prefix of
/// length `len`, in byte-lexicographic order.
pub fn lex_cmp_probe(c: &Vec<u8>, subject: &[u8], len: usize) -> (r: Rel)
    requires
        len <= subject@.len(),
    ensures
        ({
            let probe = subject@.subrange(0, len as int);
            match r {
                Rel::Less => lex_lt(c@, probe),
                Rel::Equal => c@ == probe,
                Rel::Greater => lex_lt(probe, c@),
            }
        }),
{
    let ghost probe = subject@.subrange(0, len as int);
    let shorter: usize = if c.len() < len {
        c.len()
    } else {
        len
    };
    let mut i: usize = 0;
    while i < shorter
        invariant
            i <= shorter,
            shorter <= c@.len(),
            shorter <= len <= subject@.len(),
            shorter == if c@.len() < len {
                c@.len() as int
            } else {
                len as int
            },
            probe == subject@.subrange(0, len as int),
            forall|j: int| 0 <= j < i ==> c@[j] == probe[j],
        decreases shorter - i,
    {
        let cb = c[i];
        let sb = subject[i];
        if cb < sb {
            proof {
                lemma_lex_from_common_prefix(c@, probe, i as int);
            }
            return Rel::Less;
        }
        if cb > sb {
            proof {
                lemma_lex_from_common_prefix(c@, probe, i as int);
            }
            return Rel::Greater;
        }
        i = i + 1;
    }
    proof {
        lemma_lex_from_common_prefix(c@, probe, shorter as int);
        lemma_lex_from_common_prefix(probe, c@, shorter as int);
    }
    if c.len() < len {
        Rel::Less
    } else if c.len() > len {
        Rel::Greater
    } else {
        Rel::Equal
    }
}

/// Sortedness of the whole sequence follows from sortedness of every
/// adjacent pair.
pub proof fn lemma_sorted_from_adjacent(cs: Seq<Seq<u8>>)
    requires
        forall|k: int| 0 <= k < cs.len() - 1 ==> #[trigger] lex_le(cs[k], cs[k + 1]),
    ensures
        sorted_lex(cs),
{
    assert forall|i: int, j: int| 0 <= i <= j < cs.len() implies lex_le(cs[i], cs[j]) by {
        lemma_lex_le_span(cs, i, j);
    }
}

proof fn lemma_lex_le_span(cs: Seq<Seq<u8>>, i: int, j: int)
    requires
        forall|k: int| 0 <= k < cs.len() - 1 ==> #[trigger] lex_le(cs[k], cs[k + 1]),
        0 <= i <= j < cs.len(),
    ensures
        lex_le(cs[i], cs[j]),
    decreases j - i,
{
    if i < j {
        lemma_lex_le_span(cs, i, j - 1);
        assert(lex_le(cs[j - 1], cs[j - 1 + 1]));
        assert(lex_le(cs[j - 1], cs[j]));
        if cs[i] != cs[j - 1] && cs[j - 1] != cs[j] {
            lemma_lex_lt_transitive(cs[i], cs[j - 1], cs[j]);
        }
    }
}

/// Validation pass for the sorted-probe filter's precondition: one scan
/// that decides whether the candidates are sorted ascending in
/// byte-lexicographic order.
#[verifier::loop_isolation(false)]
pub fn is_sorted_ascending(candidates: &Vec<Vec<u8>>) -> (b: bool)
    ensures
        b == sorted_lex(candidates.deep_view()),
{
    let ghost cds = candidates.deep_view();
    if candidates.len() <= 1 {
        return true;
    }
    let mut k: usize = 1;
    while k < candidates.len()
        invariant
            1 <= k <= cds.len(),
            forall|t: int| 0 <= t < k - 1 ==> #[trigger] lex_le(cds[t], cds[t + 1]),
        decreases cds.len() - k,
    {
        let prev = &candidates[k - 1];
        let cur = &candidates[k];
        proof {
            assert(prev.deep_view() =~= prev@);
            assert(cur.deep_view() =~= cur@);
            assert(cur@.subrange(0, cur@.len() as int) =~= cur@);
        }
        match lex_cmp_probe(prev, cur.as_slice(), cur.len()) {
            Rel::Greater => {
                proof {
                    assert(lex_lt(cds[k as int], cds[k - 1]));
                    if sorted_lex(cds) {
                        assert(lex_le(cds[k - 1], cds[k as int]));
                        lemma_lex_lt_asymmetric(cds[k as int], cds[k - 1]);
                        lemma_lex_lt_irreflexive(cds[k as int]);
                    }
                }
                return false;
            },
            _ => {},
        }
        k = k + 1;
    }
    proof {
        lemma_sorted_from_adjacent(cds);
    }
    true
}

} // verus!
