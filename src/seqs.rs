//! Facts about sequences shared by the format readers and writers.
use vstd::prelude::*;

verus! {

/// The views of `v`'s elements, in order.
pub open spec fn views<T: View>(v: Seq<T>) -> Seq<T::V> {
    v.map_values(|e: T| e@)
}

/// `items` followed by what `rest` yields, or the error of `rest`.
pub open spec fn prepend<T, E>(items: Seq<T>, rest: Result<Seq<T>, E>) -> Result<Seq<T>, E> {
    match rest {
        Ok(r) => Ok(items + r),
        Err(e) => Err(e),
    }
}

pub proof fn lemma_prepend_assoc<T, E>(a: Seq<T>, b: Seq<T>, r: Result<Seq<T>, E>)
    ensures
        prepend(a, prepend(b, r)) == prepend(a + b, r),
{
    if let Ok(x) = r {
        assert(a + (b + x) =~= (a + b) + x);
    }
}

pub proof fn lemma_views_push<T: View>(v: Seq<T>, e: T)
    ensures
        views(v.push(e)) == views(v) + seq![e@],
{
    assert(views(v.push(e)) =~= views(v) + seq![e@]);
}

/// Where `r` lies in `s` at `k`, the part of `r` from `a` to `b` lies in `s` at
/// `k + a`.
pub proof fn lemma_sub(s: Seq<u8>, k: int, r: Seq<u8>, a: int, b: int)
    requires
        0 <= k,
        k + r.len() <= s.len(),
        s.subrange(k, k + r.len()) == r,
        0 <= a <= b <= r.len(),
    ensures
        s.subrange(k + a, k + b) == r.subrange(a, b),
{
    assert forall|i: int| 0 <= i < b - a implies s.subrange(k + a, k + b)[i] == r.subrange(
        a,
        b,
    )[i] by {
        assert(r[a + i] == s.subrange(k, k + r.len())[a + i]);
    }
    assert(s.subrange(k + a, k + b) =~= r.subrange(a, b));
}

} // verus!
