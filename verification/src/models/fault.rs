//! The first fault of a list of checks made in order.
use vstd::prelude::*;

verus! {

/// The first fault of `f` at or after position `i`.
pub open spec fn first_fault_from<E>(f: Seq<Option<E>>, i: int) -> Option<E>
    decreases f.len() - i,
{
    if i < 0 || i >= f.len() {
        None
    } else if f[i] is Some {
        f[i]
    } else {
        first_fault_from(f, i + 1)
    }
}

/// The first fault of `f` in order, if any.
pub open spec fn first_fault<E>(f: Seq<Option<E>>) -> Option<E> {
    first_fault_from(f, 0)
}

/// Where the checks from `k` up to `i` pass and check `i` fails, the first
/// fault from `k` is that of check `i`.
pub proof fn lemma_first_fault_at<E>(f: Seq<Option<E>>, i: int, k: int)
    requires
        0 <= k <= i < f.len(),
        forall|j: int| k <= j < i ==> f[j] is None,
        f[i] is Some,
    ensures
        first_fault_from(f, k) == f[i],
    decreases i - k,
{
    if k < i {
        lemma_first_fault_at(f, i, k + 1);
    }
}

/// Where every check from `k` on passes, there is no fault from `k`.
pub proof fn lemma_first_fault_none<E>(f: Seq<Option<E>>, k: int)
    requires
        0 <= k,
        forall|j: int| k <= j < f.len() ==> f[j] is None,
    ensures
        first_fault_from(f, k) is None,
    decreases f.len() - k,
{
    if k < f.len() {
        lemma_first_fault_none(f, k + 1);
    }
}

/// Where there is no fault from `k`, every check from `k` on passes.
pub proof fn lemma_first_fault_none_all<E>(f: Seq<Option<E>>, k: int)
    requires
        0 <= k,
        first_fault_from(f, k) is None,
    ensures
        forall|j: int| k <= j < f.len() ==> f[j] is None,
    decreases f.len() - k,
{
    if k < f.len() {
        lemma_first_fault_none_all(f, k + 1);
    }
}

} // verus!
