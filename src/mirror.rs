//! Mirror failover: which mirrors are tried, in which order, and which error is
//! reported when all of them fail. The caller performs each download.
use crate::codec::concat;
use crate::error::Error;
use vstd::prelude::*;

verus! {

/// An HTTP origin serving the patch list and patch files. An empty `url` means
/// the mirror is skipped; a lower `priority` is tried first.
#[derive(Debug, Clone, PartialEq, Eq)]
pub struct Mirror {
    pub name: String,
    pub url: String,
    pub priority: u32,
}

/// Mirror `a` is tried before mirror `b`: lower priority first, list order
/// between equal priorities.
pub open spec fn tried_before(m: Seq<Mirror>, a: int, b: int) -> bool {
    m[a].priority < m[b].priority || (m[a].priority == m[b].priority && a < b)
}

/// `order` lists each mirror with a non-empty URL once, in the order in which
/// mirrors are tried.
pub open spec fn is_attempt_order(m: Seq<Mirror>, order: Seq<usize>) -> bool {
    &&& forall|i: int| 0 <= i < order.len() ==> #[trigger] order[i] < m.len() && m[order[i] as int].url@.len() > 0
    &&& forall|i: int, j: int| 0 <= i < j < order.len() ==> tried_before(m, #[trigger] order[i] as int, #[trigger] order[j] as int)
    &&& forall|k: int| 0 <= k < m.len() && #[trigger] m[k].url@.len() > 0 ==> order.contains(k as usize)
}

/// The indices of the mirrors to try, in the order in which they are tried.
pub fn attempt_order(mirrors: &Vec<Mirror>) -> (r: Vec<usize>)
    ensures
        is_attempt_order(mirrors@, r@),
{
    let ghost m = mirrors@;
    let mut order: Vec<usize> = Vec::new();
    let mut k: usize = 0;
    while k < mirrors.len()
        invariant
            k <= m.len(),
            m == mirrors@,
            forall|i: int| 0 <= i < order@.len() ==> #[trigger] order@[i] < k && m[order@[i] as int].url@.len() > 0,
            forall|i: int, j: int| 0 <= i < j < order@.len() ==> tried_before(m, #[trigger] order@[i] as int, #[trigger] order@[j] as int),
            forall|x: int| 0 <= x < k && #[trigger] m[x].url@.len() > 0 ==> order@.contains(x as usize),
        decreases m.len() - k,
    {
        let ghost before = order@;
        if !mirrors[k].url.as_str().is_empty() {
            Failover::insert_in_order(mirrors, &mut order, k);
        }
        proof {
            assert forall|x: int| 0 <= x < k + 1 && #[trigger] m[x].url@.len() > 0 implies order@.contains(x as usize) by {
                if x < k {
                    assert(before.contains(x as usize));
                }
            }
        }
        k = k + 1;
    }
    order
}

impl Failover {
    /// Inserts mirror `k` into `order`, which lists mirrors before `k` in the
    /// order in which they are tried.
    fn insert_in_order(mirrors: &Vec<Mirror>, order: &mut Vec<usize>, k: usize)
        requires
            k < mirrors@.len(),
            mirrors@[k as int].url@.len() > 0,
            forall|i: int| 0 <= i < old(order)@.len() ==> #[trigger] old(order)@[i] < k && mirrors@[old(order)@[i] as int].url@.len() > 0,
            forall|i: int, j: int| 0 <= i < j < old(order)@.len() ==> tried_before(mirrors@, #[trigger] old(order)@[i] as int, #[trigger] old(order)@[j] as int),
        ensures
            forall|i: int| 0 <= i < final(order)@.len() ==> #[trigger] final(order)@[i] < k + 1 && mirrors@[final(order)@[i] as int].url@.len() > 0,
            forall|i: int, j: int| 0 <= i < j < final(order)@.len() ==> tried_before(mirrors@, #[trigger] final(order)@[i] as int, #[trigger] final(order)@[j] as int),
            forall|x: usize| #[trigger] final(order)@.contains(x) <==> (old(order)@.contains(x) || x == k),
    {
        let ghost m = mirrors@;
        let prio = mirrors[k].priority;
        let mut p: usize = 0;
        while p < order.len() && mirrors[order[p]].priority <= prio
            invariant
                p <= order@.len(),
                k < m.len(),
                m == mirrors@,
                order@ == old(order)@,
                forall|i: int| 0 <= i < order@.len() ==> #[trigger] order@[i] < k && m[order@[i] as int].url@.len() > 0,
                forall|i: int| 0 <= i < p ==> m[#[trigger] order@[i] as int].priority <= prio,
            decreases order@.len() - p,
        {
            p = p + 1;
        }
        let ghost before = order@;
        order.insert(p, k);
        proof {
            assert(order@ =~= before.subrange(0, p as int).push(k).add(before.subrange(p as int, before.len() as int)));
            assert forall|i: int| 0 <= i < order@.len() implies #[trigger] order@[i] < k + 1 && m[order@[i] as int].url@.len() > 0 by {
                if i < p {
                    assert(order@[i] == before[i]);
                } else if i > p {
                    assert(order@[i] == before[i - 1]);
                }
            }
            assert forall|i: int, j: int| 0 <= i < j < order@.len() implies tried_before(m, #[trigger] order@[i] as int, #[trigger] order@[j] as int) by {
                if j < p {
                    assert(order@[i] == before[i] && order@[j] == before[j]);
                } else if j == p {
                    assert(order@[i] == before[i]);
                } else if i < p {
                    assert(order@[i] == before[i] && order@[j] == before[j - 1]);
                } else if i == p {
                    assert(order@[j] == before[j - 1]);
                    assert(m[before[p as int] as int].priority > prio);
                    if j - 1 > p {
                        assert(tried_before(m, before[p as int] as int, before[j - 1] as int));
                    }
                } else {
                    assert(order@[i] == before[i - 1] && order@[j] == before[j - 1]);
                }
            }
            assert forall|x: usize| #[trigger] order@.contains(x) <==> (before.contains(x) || x == k) by {
                if order@.contains(x) {
                    let q = choose|q: int| 0 <= q < order@.len() && order@[q] == x;
                    if q < p {
                        assert(before[q] == x);
                    } else if q > p {
                        assert(before[q - 1] == x);
                    }
                }
                if x == k {
                    assert(order@[p as int] == k);
                }
                if before.contains(x) {
                    let q = choose|q: int| 0 <= q < before.len() && before[q] == x;
                    if q < p {
                        assert(order@[q] == x);
                    } else {
                        assert(order@[q + 1] == x);
                    }
                }
            }
        }
    }
}

/// Where a patch file lies on a mirror: `<base>/<filename>`.
pub fn mirror_url(base: &str, filename: &str) -> (r: String)
    ensures
        r@ == base@ + seq!['/'] + filename@,
{
    let with_slash = concat(base, "/");
    proof {
        reveal_strlit("/");
    }
    concat(with_slash.as_str(), filename)
}

/// Failover over the mirrors of one download: hands out the mirrors to try one
/// at a time and keeps the last failure.
pub struct Failover {
    order: Vec<usize>,
    next: usize,
    last_error: Option<Error>,
}

impl Failover {
    /// The mirrors in the order in which they are tried.
    pub closed spec fn order(&self) -> Seq<usize> {
        self.order@
    }

    /// How many mirrors were handed out.
    pub closed spec fn handed_out(&self) -> int {
        self.next as int
    }

    /// The failure recorded last.
    pub closed spec fn last_error(&self) -> Option<Error> {
        self.last_error
    }

    pub closed spec fn wf(&self) -> bool {
        self.next <= self.order@.len()
    }

    /// Failover over `mirrors`, with no mirror tried yet.
    pub fn new(mirrors: &Vec<Mirror>) -> (r: Failover)
        ensures
            r.wf(),
            is_attempt_order(mirrors@, r.order()),
            r.handed_out() == 0,
            r.last_error() is None,
    {
        Failover { order: attempt_order(mirrors), next: 0, last_error: None }
    }

    /// The next mirror to try, or `None` once every mirror was tried.
    pub fn next_mirror(&mut self) -> (r: Option<usize>)
        requires
            old(self).wf(),
        ensures
            final(self).wf(),
            final(self).order() == old(self).order(),
            final(self).last_error() == old(self).last_error(),
            old(self).handed_out() < old(self).order().len() ==> r == Some(old(self).order()[old(self).handed_out()])
                && final(self).handed_out() == old(self).handed_out() + 1,
            old(self).handed_out() == old(self).order().len() ==> r is None && final(self).handed_out()
                == old(self).handed_out(),
    {
        if self.next < self.order.len() {
            let i = self.order[self.next];
            self.next = self.next + 1;
            Some(i)
        } else {
            None
        }
    }

    /// Records that the mirror handed out last failed with `e`.
    pub fn record_failure(&mut self, e: Error)
        ensures
            final(self).order() == old(self).order(),
            final(self).handed_out() == old(self).handed_out(),
            final(self).wf() == old(self).wf(),
            final(self).last_error() == Some(e),
    {
        self.last_error = Some(e);
    }

    /// The error of a download in which every mirror failed: the last failure,
    /// or `DownloadFailed` where no mirror was tried.
    pub fn into_error(self) -> (r: Error)
        ensures
            self.last_error() matches Some(e) ==> r == e,
            self.last_error() is None ==> (r matches Error::DownloadFailed(m) && m@ == "All mirrors failed"@),
    {
        match self.last_error {
            Some(e) => e,
            None => {
                proof {
                    reveal_strlit("All mirrors failed");
                }
                Error::DownloadFailed("All mirrors failed".to_owned())
            },
        }
    }
}

/// Where the only mirror that succeeds is `s`: it is tried, after exactly those
/// mirrors that come before it in the attempt order, each once; each of those has
/// a priority no greater than that of `s`, and every mirror with a non-empty URL
/// and a lower priority than `s` is among them.
pub proof fn lemma_failover_reaches(m: Seq<Mirror>, order: Seq<usize>, s: int)
    requires
        is_attempt_order(m, order),
        m.len() <= usize::MAX,
        0 <= s < m.len(),
        m[s].url@.len() > 0,
    ensures
        exists|p: int|
            0 <= p < order.len() && order[p] == s && (forall|q: int| 0 <= q < p ==> m[#[trigger] order[q] as int].priority <= m[s].priority) && (forall|k: int| 0 <= k < m.len() && m[k].url@.len() > 0 && #[trigger] m[k].priority < m[s].priority ==> order.subrange(0, p).contains(k as usize)),
        order.no_duplicates(),
{
    assert(order.contains(s as usize));
    let p = choose|p: int| 0 <= p < order.len() && order[p] == s as usize;
    assert(order[p] as int == s);
    assert forall|q: int| 0 <= q < p implies m[#[trigger] order[q] as int].priority <= m[s].priority by {
        assert(tried_before(m, order[q] as int, order[p] as int));
    }
    assert forall|k: int| 0 <= k < m.len() && m[k].url@.len() > 0 && #[trigger] m[k].priority < m[s].priority implies order.subrange(0, p).contains(k as usize) by {
        assert(order.contains(k as usize));
        let q = choose|q: int| 0 <= q < order.len() && order[q] == k as usize;
        if q > p {
            assert(tried_before(m, order[p] as int, order[q] as int));
        }
        assert(q != p);
        assert(q < p);
        assert(order.subrange(0, p)[q] == k as usize);
    }
    assert forall|i: int, j: int| 0 <= i < order.len() && 0 <= j < order.len() && i != j implies order[i] != order[j] by {
        if i < j {
            assert(tried_before(m, order[i] as int, order[j] as int));
        } else {
            assert(tried_before(m, order[j] as int, order[i] as int));
        }
    }
}

} // verus!
