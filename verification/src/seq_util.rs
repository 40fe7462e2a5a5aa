//! Searching a sequence for the first element that satisfies a predicate.

use vstd::prelude::*;

verus! {

/// `i` is the position of the first element of `s` that satisfies `p`.
pub open spec fn is_first<T>(s: Seq<T>, p: spec_fn(T) -> bool, i: int) -> bool {
    &&& 0 <= i < s.len()
    &&& p(s[i])
    &&& forall|j: int| 0 <= j < i ==> !p(#[trigger] s[j])
}

/// The position of the first element of `s` that satisfies `p`, if any.
pub open spec fn first_index<T>(s: Seq<T>, p: spec_fn(T) -> bool) -> Option<int> {
    if exists|i: int| is_first(s, p, i) {
        Some(choose|i: int| is_first(s, p, i))
    } else {
        None
    }
}

/// A position that is first is the one that `first_index` gives.
pub proof fn lemma_first_index_is<T>(s: Seq<T>, p: spec_fn(T) -> bool, i: int)
    requires
        is_first(s, p, i),
    ensures
        first_index(s, p) == Some(i),
{
    let c = choose|i: int| is_first(s, p, i);
    assert(is_first(s, p, c));
    if c < i {
        assert(!p(s[c]));
    } else if i < c {
        assert(!p(s[i]));
    }
}

/// Nothing satisfies `p`, so there is no first position.
pub proof fn lemma_first_index_none<T>(s: Seq<T>, p: spec_fn(T) -> bool)
    requires
        forall|j: int| 0 <= j < s.len() ==> !p(#[trigger] s[j]),
    ensures
        first_index(s, p) is None,
{
}

} // verus!
