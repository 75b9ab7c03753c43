use vstd::prelude::*;

verus! {

/// A fold over the prefixes of `xs` that can stop early: `f` gives its result on a prefix,
/// and `stops` tells a result that ends it (an error, say). If every step from a stopped
/// prefix keeps its result, then once the result on a prefix stops, the result on the
/// whole sequence is that same result.
pub proof fn lemma_stop_carries<A, R>(f: spec_fn(Seq<A>) -> R, stops: spec_fn(R) -> bool, xs: Seq<A>, j: int)
    requires
        0 <= j <= xs.len(),
        stops(f(xs.take(j))),
        forall|k: int|
            0 <= k < xs.len() && stops(#[trigger] f(xs.take(k))) ==> f(xs.take(k + 1)) == f(xs.take(k)),
    ensures
        f(xs) == f(xs.take(j)),
    decreases xs.len() - j,
{
    if j < xs.len() {
        lemma_stop_carries(f, stops, xs, j + 1);
    } else {
        assert(xs.take(j) == xs);
    }
}

} // verus!
