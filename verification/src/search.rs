//! Specifications of left-to-right and right-to-left searches over index
//! ranges, shared by the scans in this crate.
use vstd::prelude::*;

verus! {

/// The first index `k` in `i..n` with `p(k)`, if any.
pub open spec fn first_from(n: int, p: spec_fn(int) -> bool, i: int) -> Option<int>
    decreases n - i,
{
    if i >= n {
        None
    } else if p(i) {
        Some(i)
    } else {
        first_from(n, p, i + 1)
    }
}

/// The first index `k` in `0..n` with `p(k)`, if any.
pub open spec fn first_index(n: int, p: spec_fn(int) -> bool) -> Option<int> {
    first_from(n, p, 0)
}

/// The last index `k` in `0..i` with `p(k)`, if any.
pub open spec fn last_below(p: spec_fn(int) -> bool, i: int) -> Option<int>
    decreases i,
{
    if i <= 0 {
        None
    } else if p(i - 1) {
        Some(i - 1)
    } else {
        last_below(p, i - 1)
    }
}

/// What `first_from` finds: a hit with no earlier hit, or no hit at all.
pub proof fn lemma_first_from(n: int, p: spec_fn(int) -> bool, i: int)
    ensures
        match first_from(n, p, i) {
            Some(k) => i <= k < n && p(k) && forall|j: int| i <= j < k ==> !#[trigger] p(j),
            None => forall|j: int| i <= j < n ==> !#[trigger] p(j),
        },
    decreases n - i,
{
    if i < n && !p(i) {
        lemma_first_from(n, p, i + 1);
    }
}

/// A hit with no earlier hit is what `first_from` finds.
pub proof fn lemma_first_from_is(n: int, p: spec_fn(int) -> bool, i: int, k: int)
    requires
        i <= k < n,
        p(k),
        forall|j: int| i <= j < k ==> !#[trigger] p(j),
    ensures
        first_from(n, p, i) == Some(k),
    decreases k - i,
{
    if i < k {
        lemma_first_from_is(n, p, i + 1, k);
    }
}

/// Without any hit in `i..n`, `first_from` finds nothing.
pub proof fn lemma_first_from_none(n: int, p: spec_fn(int) -> bool, i: int)
    requires
        forall|j: int| i <= j < n ==> !#[trigger] p(j),
    ensures
        first_from(n, p, i) is None,
    decreases n - i,
{
    if i < n {
        lemma_first_from_none(n, p, i + 1);
    }
}

} // verus!
