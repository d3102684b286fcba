//! General facts about sequence filtering that the scanner and the
//! grouper proofs share.

use vstd::prelude::*;
use vstd::seq_lib::*;

verus! {

/// Appending one element to a sequence appends it to the filtered
/// sequence exactly when it satisfies the predicate.
pub proof fn lemma_filter_push<A>(s: Seq<A>, x: A, pred: spec_fn(A) -> bool)
    ensures
        s.push(x).filter(pred) == if pred(x) {
            s.filter(pred).push(x)
        } else {
            s.filter(pred)
        },
{
    reveal(Seq::filter);
    assert(s.push(x).drop_last() =~= s);
    assert(s.push(x).last() == x);
}

/// A filtered sequence holds an element exactly when the original
/// sequence holds it and it satisfies the predicate.
pub proof fn lemma_filter_contains_iff<A>(s: Seq<A>, pred: spec_fn(A) -> bool, x: A)
    ensures
        s.filter(pred).contains(x) <==> s.contains(x) && pred(x),
    decreases s.len(),
{
    reveal(Seq::filter);
    if s.len() > 0 {
        lemma_filter_contains_iff(s.drop_last(), pred, x);
        assert(s.contains(x) <==> s.drop_last().contains(x) || s.last() == x) by {
            if s.contains(x) {
                let i = choose|i: int| 0 <= i < s.len() && s[i] == x;
                if i < s.len() - 1 {
                    assert(s.drop_last()[i] == x);
                }
            }
            if s.drop_last().contains(x) {
                let i = choose|i: int| 0 <= i < s.drop_last().len() && s.drop_last()[i] == x;
                assert(s[i] == x);
            }
        }
        if pred(s.last()) {
            assert(s.filter(pred).contains(x) <==> s.filter(pred).drop_last().contains(x)
                || s.filter(pred).last() == x) by {
                assert(s.filter(pred) == s.drop_last().filter(pred).push(s.last()));
                if s.filter(pred).contains(x) {
                    let i = choose|i: int| 0 <= i < s.filter(pred).len() && s.filter(pred)[i] == x;
                    if i < s.filter(pred).len() - 1 {
                        assert(s.filter(pred).drop_last()[i] == x);
                    }
                }
                if s.filter(pred).drop_last().contains(x) {
                    let i = choose|i: int|
                        0 <= i < s.filter(pred).drop_last().len() && s.filter(pred).drop_last()[i]
                            == x;
                    assert(s.filter(pred)[i] == x);
                }
            }
            assert(s.filter(pred).drop_last() =~= s.drop_last().filter(pred));
        }
    }
}

/// Filtering keeps a sequence whole when every element satisfies the
/// predicate.
pub proof fn lemma_filter_retains_all<A>(s: Seq<A>, pred: spec_fn(A) -> bool)
    requires
        forall|i: int| 0 <= i < s.len() ==> pred(#[trigger] s[i]),
    ensures
        s.filter(pred) == s,
    decreases s.len(),
{
    reveal(Seq::filter);
    if s.len() > 0 {
        lemma_filter_retains_all(s.drop_last(), pred);
        assert(pred(s[s.len() - 1]));
        assert(s.drop_last().push(s.last()) =~= s);
    }
}

} // verus!
