//! Interleavings: total orders over the operations of several thread
//! programs that respect each program's internal order.
//!
//! A schedule is described in two equivalent ways.  An *order* is the bare
//! sequence of thread identities, one entry per scheduled operation; the
//! operation index is implicit, since the k-th occurrence of a thread
//! schedules that thread's k-th operation.  An [`Interleaving`] spells the
//! index out: it is the sequence of (thread identity, operation index)
//! pairs, which is what the execution engine consumes and checks.

use vstd::prelude::*;

verus! {

/// How many entries of `s` equal `t`.
pub open spec fn occ(s: Seq<usize>, t: int) -> int
    decreases s.len(),
{
    if s.len() == 0 {
        0
    } else {
        (if s[0] == t {
            1int
        } else {
            0int
        }) + occ(s.drop_first(), t)
    }
}

/// `s` is a program-order-respecting total order for per-thread operation
/// counts `rem`: every entry names one of the `rem.len()` threads, and each
/// thread `t` is scheduled exactly `rem[t]` times.
pub open spec fn is_shuffle(s: Seq<usize>, rem: Seq<usize>) -> bool {
    &&& forall|k: int| 0 <= k < s.len() ==> (#[trigger] s[k]) < rem.len()
    &&& forall|t: int| 0 <= t < rem.len() ==> #[trigger] occ(s, t) == rem[t]
}

/// The thread identities of a pair sequence.
pub open spec fn threads_of(p: Seq<(usize, usize)>) -> Seq<usize> {
    p.map_values(|x: (usize, usize)| x.0)
}

/// The (thread, operation index) pairs of an order: the k-th occurrence of a
/// thread schedules that thread's operation k.
pub open spec fn pairs_of(s: Seq<usize>) -> Seq<(usize, usize)> {
    Seq::new(s.len(), |k: int| (s[k], occ(s.take(k), s[k] as int) as usize))
}

/// One total ordering of the operations of all thread programs, as (thread
/// identity, operation index) pairs.  It is consumed by one replay and is
/// well formed exactly when [`valid_interleaving`] holds of it.
#[derive(Clone, Debug, PartialEq, Eq)]
pub struct Interleaving {
    pub steps: Vec<(usize, usize)>,
}

impl View for Interleaving {
    type V = Seq<(usize, usize)>;

    open spec fn view(&self) -> Seq<(usize, usize)> {
        self.steps@
    }
}

/// `p` is a valid shuffle of thread programs with operation counts `counts`:
/// its thread identities form a shuffle of the counts, and each pair carries
/// the operation index its position implies.
pub open spec fn valid_interleaving(p: Seq<(usize, usize)>, counts: Seq<usize>) -> bool {
    &&& is_shuffle(threads_of(p), counts)
    &&& p == pairs_of(threads_of(p))
}

/// An occurrence count is never negative.
pub proof fn lemma_occ_nonneg(s: Seq<usize>, t: int)
    ensures
        occ(s, t) >= 0,
    decreases s.len(),
{
    if s.len() > 0 {
        lemma_occ_nonneg(s.drop_first(), t);
    }
}

/// An occurrence count never exceeds the sequence length.
pub proof fn lemma_occ_le_len(s: Seq<usize>, t: int)
    ensures
        occ(s, t) <= s.len(),
    decreases s.len(),
{
    if s.len() > 0 {
        lemma_occ_le_len(s.drop_first(), t);
    }
}

/// Prepending one entry raises exactly that thread's occurrence count.
pub proof fn lemma_occ_cons(h: usize, s: Seq<usize>, t: int)
    ensures
        occ(seq![h] + s, t) == (if h == t {
            1int
        } else {
            0int
        }) + occ(s, t),
{
    let c = seq![h] + s;
    assert(c.len() == s.len() + 1);
    assert(c[0] == h);
    assert(c.drop_first() =~= s);
}

/// Appending one entry raises exactly that thread's occurrence count.
pub proof fn lemma_occ_push(s: Seq<usize>, x: usize, t: int)
    ensures
        occ(s.push(x), t) == occ(s, t) + (if x == t {
            1int
        } else {
            0int
        }),
    decreases s.len(),
{
    if s.len() == 0 {
        assert(s.push(x).drop_first() =~= Seq::<usize>::empty());
        assert(occ(Seq::<usize>::empty(), t) == 0);
        assert(s.push(x)[0] == x);
    } else {
        assert(s.push(x).drop_first() =~= s.drop_first().push(x));
        lemma_occ_push(s.drop_first(), x, t);
        assert(s.push(x)[0] == s[0]);
    }
}

/// Occurrence counts add up over concatenation.
pub proof fn lemma_occ_concat(a: Seq<usize>, b: Seq<usize>, t: int)
    ensures
        occ(a + b, t) == occ(a, t) + occ(b, t),
    decreases a.len(),
{
    if a.len() == 0 {
        assert(a + b =~= b);
    } else {
        assert((a + b).drop_first() =~= a.drop_first() + b);
        assert((a + b)[0] == a[0]);
        lemma_occ_concat(a.drop_first(), b, t);
    }
}

/// A prefix and the matching suffix split an occurrence count.
pub proof fn lemma_occ_take_skip(s: Seq<usize>, k: int, t: int)
    requires
        0 <= k <= s.len(),
    ensures
        occ(s, t) == occ(s.take(k), t) + occ(s.skip(k), t),
{
    assert(s =~= s.take(k) + s.skip(k));
    lemma_occ_concat(s.take(k), s.skip(k), t);
}

/// The pairs of a shuffle are a valid interleaving of the same counts.
pub proof fn lemma_pairs_of_valid(s: Seq<usize>, counts: Seq<usize>)
    requires
        is_shuffle(s, counts),
    ensures
        valid_interleaving(pairs_of(s), counts),
        threads_of(pairs_of(s)) == s,
{
    assert(threads_of(pairs_of(s)) =~= s);
}

/// Builds the explicit (thread, operation index) pairs of an order of thread
/// identities, counting occurrences left to right.
pub fn interleaving_of_order(order: &Vec<usize>, nthreads: usize) -> (r: Interleaving)
    requires
        forall|k: int| 0 <= k < order@.len() ==> (#[trigger] order@[k]) < nthreads,
    ensures
        r@ == pairs_of(order@),
{
    let n = order.len();
    let mut next: Vec<usize> = Vec::new();
    let mut i: usize = 0;
    while i < nthreads
        invariant
            i <= nthreads,
            next@.len() == i,
            forall|t: int| 0 <= t < i ==> next@[t] == 0,
        decreases nthreads - i,
    {
        next.push(0);
        i = i + 1;
    }
    let mut steps: Vec<(usize, usize)> = Vec::new();
    let mut k: usize = 0;
    while k < n
        invariant
            k <= n,
            n == order@.len(),
            next@.len() == nthreads,
            forall|j: int| 0 <= j < order@.len() ==> (#[trigger] order@[j]) < nthreads,
            forall|t: int| 0 <= t < nthreads ==> #[trigger] next@[t] == occ(order@.take(k as int), t),
            steps@.len() == k,
            forall|j: int| 0 <= j < k ==> #[trigger] steps@[j] == pairs_of(order@)[j],
        decreases n - k,
    {
        let t = order[k];
        proof {
            lemma_occ_nonneg(order@.take(k as int), t as int);
            lemma_occ_le_len(order@.take(k as int), t as int);
        }
        let idx = next[t];
        steps.push((t, idx));
        next[t] = idx + 1;
        proof {
            assert(order@.take(k as int + 1) =~= order@.take(k as int).push(order@[k as int]));
            assert forall|tt: int| 0 <= tt < nthreads implies #[trigger] next@[tt] == occ(
                order@.take(k as int + 1),
                tt,
            ) by {
                lemma_occ_push(order@.take(k as int), order@[k as int], tt);
            }
        }
        k = k + 1;
    }
    proof {
        assert(steps@ =~= pairs_of(order@));
    }
    Interleaving { steps }
}

} // verus!
