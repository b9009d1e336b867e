//! Facts about filtered lists.

use vstd::prelude::*;

verus! {

/// Appending to a list and splitting it by a condition.
pub proof fn filter_push<A>(s: Seq<A>, a: A, p: spec_fn(A) -> bool)
    ensures
        s.push(a).filter(p) == (if p(a) {
            s.filter(p).push(a)
        } else {
            s.filter(p)
        }),
{
    reveal(Seq::filter);
    assert(s.push(a).drop_last() =~= s);
}

/// What passes a filter comes from the list and meets the condition.
pub proof fn filter_origin<A>(s: Seq<A>, p: spec_fn(A) -> bool)
    ensures
        forall|i: int|
            0 <= i < s.filter(p).len() ==> p(#[trigger] s.filter(p)[i]) && s.contains(s.filter(p)[i]),
    decreases s.len(),
{
    reveal(Seq::filter);
    if s.len() > 0 {
        let head = s.drop_last();
        filter_origin(head, p);
        assert forall|i: int| 0 <= i < s.filter(p).len() implies p(#[trigger] s.filter(p)[i])
            && s.contains(s.filter(p)[i]) by {
            if i < head.filter(p).len() {
                assert(s.filter(p)[i] == head.filter(p)[i]);
                let k = choose|k: int| 0 <= k < head.len() && head[k] == head.filter(p)[i];
                assert(s[k] == head[k]);
            } else {
                assert(s[s.len() - 1] == s.filter(p)[i]);
            }
        }
    }
}

/// What is in a list and meets a condition passes a filter.
pub proof fn filter_keeps<A>(s: Seq<A>, p: spec_fn(A) -> bool, a: A)
    requires
        s.contains(a),
        p(a),
    ensures
        s.filter(p).contains(a),
    decreases s.len(),
{
    reveal(Seq::filter);
    let i = choose|i: int| 0 <= i < s.len() && s[i] == a;
    let head = s.drop_last();
    let kept = head.filter(p);
    if i < s.len() - 1 {
        assert(head[i] == a);
        filter_keeps(head, p, a);
        let k = choose|k: int| 0 <= k < kept.len() && kept[k] == a;
        assert(s.filter(p)[k] == a);
    } else {
        assert(s.filter(p)[kept.len() as int] == a);
    }
}

} // verus!
