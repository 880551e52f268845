//! The first position at which something holds.

use vstd::prelude::*;

verus! {

/// `i` is the least position below `n` at which `p` holds.
pub open spec fn is_first(n: int, p: spec_fn(int) -> bool, i: int) -> bool {
    &&& 0 <= i < n
    &&& p(i)
    &&& forall|j: int| 0 <= j < i ==> !#[trigger] p(j)
}

/// The least position below `n` at which `p` holds, if there is one.
pub open spec fn first(n: int, p: spec_fn(int) -> bool) -> Option<int> {
    if exists|i: int| is_first(n, p, i) {
        Some(choose|i: int| is_first(n, p, i))
    } else {
        None
    }
}

/// A position at which `p` holds, and below which it does not, is the first.
pub proof fn lemma_first_is(n: int, p: spec_fn(int) -> bool, i: int)
    requires
        is_first(n, p, i),
    ensures
        first(n, p) == Some(i),
{
    let c = choose|c: int| is_first(n, p, c);
    if c < i {
        assert(!p(c));
    } else if i < c {
        assert(!p(i));
    }
}

/// Where `p` holds nowhere below `n`, there is no first position.
pub proof fn lemma_first_none(n: int, p: spec_fn(int) -> bool)
    requires
        forall|j: int| 0 <= j < n ==> !#[trigger] p(j),
    ensures
        first(n, p) is None,
{
}

/// The first position is one at which `p` holds, and below which it does not.
pub proof fn lemma_first_some(n: int, p: spec_fn(int) -> bool)
    requires
        first(n, p) is Some,
    ensures
        is_first(n, p, first(n, p)->0),
{
}

/// Where `p` holds somewhere below `n`, there is a first position.
pub proof fn lemma_first_exists(n: int, p: spec_fn(int) -> bool, i: int)
    requires
        0 <= i < n,
        p(i),
    ensures
        first(n, p) is Some,
        first(n, p)->0 <= i,
    decreases i,
{
    if exists|j: int| 0 <= j < i && #[trigger] p(j) {
        let j = choose|j: int| 0 <= j < i && #[trigger] p(j);
        lemma_first_exists(n, p, j);
    } else {
        assert(is_first(n, p, i));
        lemma_first_is(n, p, i);
    }
}

} // verus!
