//! Small sequence helpers shared by the reconcilers: a transparent filter
//! (`keep`) together with the facts the reconcilers need about it.

use vstd::prelude::*;

verus! {

/// The subsequence of `s` whose elements satisfy `pred`, in order.
pub open spec fn keep<A>(s: Seq<A>, pred: spec_fn(A) -> bool) -> Seq<A>
    decreases s.len(),
{
    if s.len() == 0 {
        Seq::empty()
    } else {
        let rest = keep(s.drop_last(), pred);
        if pred(s.last()) {
            rest.push(s.last())
        } else {
            rest
        }
    }
}

/// Everything `keep` retains satisfies the predicate and came from `s`;
/// everything in `s` that satisfies the predicate is retained.
pub proof fn lemma_keep_properties<A>(s: Seq<A>, pred: spec_fn(A) -> bool)
    ensures
        keep(s, pred).len() <= s.len(),
        forall|i: int|
            0 <= i < keep(s, pred).len() ==> pred(#[trigger] keep(s, pred)[i]) && s.contains(
                keep(s, pred)[i],
            ),
        forall|i: int| 0 <= i < s.len() && pred(s[i]) ==> keep(s, pred).contains(#[trigger] s[i]),
    decreases s.len(),
{
    if s.len() > 0 {
        lemma_keep_properties(s.drop_last(), pred);
        let k = keep(s, pred);
        let kd = keep(s.drop_last(), pred);
        assert forall|i: int| 0 <= i < k.len() implies pred(#[trigger] k[i]) && s.contains(
            k[i],
        ) by {
            if i < kd.len() {
                assert(s.drop_last().contains(kd[i]));
                let j = choose|j: int| 0 <= j < s.drop_last().len() && s.drop_last()[j] == kd[i];
                assert(s[j] == kd[i]);
            } else {
                assert(s[s.len() - 1] == s.last());
            }
        }
        assert forall|i: int| 0 <= i < s.len() && pred(s[i]) implies keep(s, pred).contains(
            #[trigger] s[i],
        ) by {
            if i < s.len() - 1 {
                assert(s.drop_last()[i] == s[i]);
                assert(kd.contains(s[i]));
                let j = choose|j: int| 0 <= j < kd.len() && kd[j] == s[i];
                assert(k[j] == s[i]);
            } else {
                assert(k[k.len() - 1] == s[i]);
            }
        }
    }
}

/// Filtering what has already been filtered changes nothing.
pub proof fn lemma_keep_idempotent<A>(s: Seq<A>, pred: spec_fn(A) -> bool)
    ensures
        keep(keep(s, pred), pred) == keep(s, pred),
    decreases s.len(),
{
    if s.len() > 0 {
        lemma_keep_idempotent(s.drop_last(), pred);
        let kd = keep(s.drop_last(), pred);
        if pred(s.last()) {
            assert(kd.push(s.last()).drop_last() =~= kd);
            assert(keep(kd.push(s.last()), pred) =~= keep(kd, pred).push(s.last()));
        }
    }
}

/// `keep` distributes over concatenation.
pub proof fn lemma_keep_distributes<A>(a: Seq<A>, b: Seq<A>, pred: spec_fn(A) -> bool)
    ensures
        keep(a + b, pred) == keep(a, pred) + keep(b, pred),
    decreases b.len(),
{
    if b.len() == 0 {
        assert(a + b =~= a);
        assert(keep(a, pred) + keep(b, pred) =~= keep(a, pred));
    } else {
        lemma_keep_distributes(a, b.drop_last(), pred);
        assert((a + b).drop_last() =~= a + b.drop_last());
        assert((a + b).last() == b.last());
        if pred(b.last()) {
            assert(keep(a, pred) + keep(b, pred) =~= (keep(a, pred) + keep(b.drop_last(), pred)).push(
                b.last(),
            ));
        }
    }
}

/// A sequence whose elements all satisfy the predicate is kept whole.
pub proof fn lemma_keep_all<A>(s: Seq<A>, pred: spec_fn(A) -> bool)
    requires
        forall|i: int| 0 <= i < s.len() ==> pred(#[trigger] s[i]),
    ensures
        keep(s, pred) == s,
    decreases s.len(),
{
    if s.len() > 0 {
        assert(forall|i: int| 0 <= i < s.len() - 1 ==> s.drop_last()[i] == #[trigger] s[i]);
        lemma_keep_all(s.drop_last(), pred);
        assert(pred(s[s.len() - 1]));
        assert(keep(s, pred) =~= s);
    }
}

/// Unfolds `keep` one element at a time, the way a forward loop grows its
/// output.
pub proof fn lemma_keep_push<A>(s: Seq<A>, pred: spec_fn(A) -> bool, x: A)
    ensures
        keep(s.push(x), pred) == if pred(x) {
            keep(s, pred).push(x)
        } else {
            keep(s, pred)
        },
{
    assert(s.push(x).drop_last() =~= s);
    assert(s.push(x).last() == x);
}

} // verus!
