//! Small facts about membership in joined sequences.
use vstd::prelude::*;

verus! {

/// What the left part of a join holds, the join holds.
pub proof fn lemma_contains_left<A>(x: Seq<A>, y: Seq<A>, v: A)
    requires
        x.contains(v),
    ensures
        (x + y).contains(v),
{
    let i: int = choose|i: int| 0 <= i < x.len() && x[i] == v;
    assert((x + y)[i] == v);
}

/// What the right part of a join holds, the join holds.
pub proof fn lemma_contains_right<A>(x: Seq<A>, y: Seq<A>, v: A)
    requires
        y.contains(v),
    ensures
        (x + y).contains(v),
{
    let i: int = choose|i: int| 0 <= i < y.len() && y[i] == v;
    assert((x + y)[x.len() + i] == v);
}

/// What a join holds, one of its parts holds.
pub proof fn lemma_contains_split<A>(x: Seq<A>, y: Seq<A>, v: A)
    requires
        (x + y).contains(v),
    ensures
        x.contains(v) || y.contains(v),
{
    let i: int = choose|i: int| 0 <= i < (x + y).len() && (x + y)[i] == v;
    if i < x.len() {
        assert(x[i] == v);
    } else {
        assert(y[i - x.len()] == v);
    }
}

} // verus!
