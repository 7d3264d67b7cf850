//! The interleaving enumerator.
//!
//! Given per-thread operation counts, [`interleavings_of`] is the sequence
//! of all program-order-respecting total orders, produced by recursive
//! choice: at each step the next scheduled operation may come from any
//! thread that still has operations left.  The lemmas below state the core
//! correctness property of the whole verifier: the enumeration contains
//! every shuffle of the counts (`lemma_enumeration_complete`), nothing but
//! shuffles (`lemma_enumeration_sound`), and each exactly once
//! (`lemma_enumeration_distinct`).

use vstd::prelude::*;
use crate::interleave::{is_shuffle, lemma_occ_nonneg, occ};

verus! {

/// The sum of all entries: how many operations remain in total.
pub open spec fn seq_sum(s: Seq<usize>) -> int
    decreases s.len(),
{
    if s.len() == 0 {
        0
    } else {
        s[0] + seq_sum(s.drop_first())
    }
}

/// Every thread has run out of operations.
pub open spec fn all_zero(rem: Seq<usize>) -> bool {
    forall|t: int| 0 <= t < rem.len() ==> #[trigger] rem[t] == 0
}

/// The counts after thread `t` schedules one operation.
pub open spec fn dec_at(rem: Seq<usize>, t: int) -> Seq<usize> {
    rem.update(t, (rem[t] - 1) as usize)
}

/// Thread `t` prepended to every order in `ss`.
pub open spec fn prepend_all(t: usize, ss: Seq<Seq<usize>>) -> Seq<Seq<usize>> {
    ss.map_values(|s: Seq<usize>| seq![t] + s)
}

/// A sum of counts is never negative.
pub proof fn lemma_seq_sum_nonneg(s: Seq<usize>)
    ensures
        seq_sum(s) >= 0,
    decreases s.len(),
{
    if s.len() > 0 {
        lemma_seq_sum_nonneg(s.drop_first());
    }
}

/// Updating one entry moves the sum by the difference at that entry.
pub proof fn lemma_seq_sum_update(s: Seq<usize>, t: int, v: usize)
    requires
        0 <= t < s.len(),
    ensures
        seq_sum(s.update(t, v)) == seq_sum(s) - s[t] + v,
    decreases s.len(),
{
    if t == 0 {
        assert(s.update(0, v).drop_first() =~= s.drop_first());
        assert(s.update(0, v)[0] == v);
    } else {
        assert(s.update(t, v).drop_first() =~= s.drop_first().update(t - 1, v));
        assert(s.update(t, v)[0] == s[0]);
        lemma_seq_sum_update(s.drop_first(), t - 1, v);
    }
}

/// A count vector sums to zero exactly when every entry is zero.
pub proof fn lemma_seq_sum_zero(s: Seq<usize>)
    ensures
        all_zero(s) <==> seq_sum(s) == 0,
    decreases s.len(),
{
    if s.len() > 0 {
        lemma_seq_sum_zero(s.drop_first());
        assert(forall|t: int| 0 <= t < s.drop_first().len() ==> s.drop_first()[t] == s[t + 1]);
        lemma_seq_sum_nonneg(s.drop_first());
        if all_zero(s) {
            assert(s[0] == 0);
            assert(all_zero(s.drop_first()));
        }
        if seq_sum(s) == 0 {
            assert(s[0] == 0 && seq_sum(s.drop_first()) == 0);
            assert forall|t: int| 0 <= t < s.len() implies #[trigger] s[t] == 0 by {
                if t > 0 {
                    assert(s.drop_first()[t - 1] == 0);
                }
            }
        }
    }
}

/// Every total order of the remaining operations that respects program
/// order, in the order the recursive choice produces them.
pub open spec fn interleavings_of(rem: Seq<usize>) -> Seq<Seq<usize>>
    decreases seq_sum(rem), rem.len() + 1,
    via interleavings_of_decreases
{
    if all_zero(rem) {
        seq![Seq::<usize>::empty()]
    } else {
        interleavings_from(rem, 0)
    }
}

/// The orders whose first scheduled thread is `t` or later.
pub open spec fn interleavings_from(rem: Seq<usize>, t: int) -> Seq<Seq<usize>>
    decreases seq_sum(rem), rem.len() - t,
    via interleavings_from_decreases
{
    if t < 0 || t >= rem.len() {
        Seq::empty()
    } else {
        (if rem[t] > 0 {
            prepend_all(t as usize, interleavings_of(dec_at(rem, t)))
        } else {
            Seq::empty()
        }) + interleavings_from(rem, t + 1)
    }
}

#[via_fn]
proof fn interleavings_of_decreases(rem: Seq<usize>) {
    lemma_seq_sum_nonneg(rem);
}

#[via_fn]
proof fn interleavings_from_decreases(rem: Seq<usize>, t: int) {
    lemma_seq_sum_nonneg(rem);
    if 0 <= t < rem.len() && rem[t] > 0 {
        lemma_seq_sum_update(rem, t, (rem[t] - 1) as usize);
        lemma_seq_sum_nonneg(dec_at(rem, t));
    }
}

/// Attaching a thread with remaining operations to the front of a shuffle of
/// the decremented counts gives a shuffle of the full counts, and that is
/// the only way a nonempty shuffle arises.
pub proof fn lemma_shuffle_cons(h: usize, s: Seq<usize>, rem: Seq<usize>)
    requires
        (h as int) < rem.len(),
        rem[h as int] > 0,
    ensures
        is_shuffle(seq![h] + s, rem) <==> is_shuffle(s, dec_at(rem, h as int)),
{
    let c = seq![h] + s;
    let d = dec_at(rem, h as int);
    assert(c.drop_first() =~= s);
    assert(c[0] == h);
    assert forall|t: int| true implies occ(c, t) == (if h == t {
        1int
    } else {
        0int
    }) + occ(s, t) by {
        crate::interleave::lemma_occ_cons(h, s, t);
    }
    if is_shuffle(c, rem) {
        assert forall|k: int| 0 <= k < s.len() implies (#[trigger] s[k]) < d.len() by {
            assert(c[k + 1] == s[k]);
        }
        assert forall|t: int| 0 <= t < d.len() implies #[trigger] occ(s, t) == d[t] by {
            assert(occ(c, t) == rem[t]);
        }
    }
    if is_shuffle(s, d) {
        assert forall|k: int| 0 <= k < c.len() implies (#[trigger] c[k]) < rem.len() by {
            if k > 0 {
                assert(c[k] == s[k - 1]);
            }
        }
        assert forall|t: int| 0 <= t < rem.len() implies #[trigger] occ(c, t) == rem[t] by {
            assert(occ(s, t) == d[t]);
        }
    }
}

/// Everything the enumeration yields is a shuffle of the counts.
pub proof fn lemma_enumeration_sound(rem: Seq<usize>)
    requires
        rem.len() <= usize::MAX,
    ensures
        forall|x: Seq<usize>|
            #[trigger] interleavings_of(rem).contains(x) ==> is_shuffle(x, rem),
    decreases seq_sum(rem), rem.len() + 1,
{
    lemma_seq_sum_nonneg(rem);
    if all_zero(rem) {
        assert forall|x: Seq<usize>|
            #[trigger] interleavings_of(rem).contains(x) implies is_shuffle(x, rem) by {
            assert(interleavings_of(rem)[0] == Seq::<usize>::empty());
            assert(x =~= Seq::<usize>::empty());
            assert forall|t: int| 0 <= t < rem.len() implies #[trigger] occ(x, t) == rem[t] by {
                assert(occ(x, t) == 0);
            }
        }
    } else {
        lemma_enumeration_from_sound(rem, 0);
        assert forall|x: Seq<usize>|
            #[trigger] interleavings_of(rem).contains(x) implies is_shuffle(x, rem) by {
            assert(interleavings_from(rem, 0).contains(x));
        }
    }
}

/// Everything `interleavings_from(rem, t)` yields is a nonempty shuffle of
/// the counts whose first scheduled thread is `t` or later.
pub proof fn lemma_enumeration_from_sound(rem: Seq<usize>, t: int)
    requires
        rem.len() <= usize::MAX,
    ensures
        forall|x: Seq<usize>| #[trigger] interleavings_from(rem, t).contains(x) ==> {
            &&& x.len() > 0
            &&& t <= x[0] < rem.len()
            &&& rem[x[0] as int] > 0
            &&& is_shuffle(x, rem)
        },
    decreases seq_sum(rem), rem.len() - t,
{
    lemma_seq_sum_nonneg(rem);
    if t < 0 || t >= rem.len() {
        // the empty sequence yields nothing
    } else {
        let head = if rem[t] > 0 {
            prepend_all(t as usize, interleavings_of(dec_at(rem, t)))
        } else {
            Seq::<Seq<usize>>::empty()
        };
        let tail = interleavings_from(rem, t + 1);
        if rem[t] > 0 {
            lemma_seq_sum_update(rem, t, (rem[t] - 1) as usize);
            lemma_seq_sum_nonneg(dec_at(rem, t));
            lemma_enumeration_sound(dec_at(rem, t));
        }
        lemma_enumeration_from_sound(rem, t + 1);
        assert forall|x: Seq<usize>|
            #[trigger] interleavings_from(rem, t).contains(x) implies {
            &&& x.len() > 0
            &&& t <= x[0] < rem.len()
            &&& rem[x[0] as int] > 0
            &&& is_shuffle(x, rem)
        } by {
            let i = choose|i: int|
                0 <= i < interleavings_from(rem, t).len() && interleavings_from(rem, t)[i] == x;
            if i < head.len() {
                let s = interleavings_of(dec_at(rem, t))[i];
                assert(interleavings_of(dec_at(rem, t)).contains(s));
                assert(x == seq![t as usize] + s);
                assert(seq![t as usize].len() == 1);
                assert((seq![t as usize] + s)[0] == seq![t as usize][0]);
                assert(x[0] == t);
                lemma_shuffle_cons(t as usize, s, rem);
            } else {
                assert(tail[i - head.len()] == x);
                assert(tail.contains(x));
            }
        }
    }
}

/// Every shuffle of the counts appears in the enumeration.
pub proof fn lemma_enumeration_complete(rem: Seq<usize>, x: Seq<usize>)
    requires
        rem.len() <= usize::MAX,
        is_shuffle(x, rem),
    ensures
        interleavings_of(rem).contains(x),
    decreases seq_sum(rem), rem.len() + 1,
{
    lemma_seq_sum_nonneg(rem);
    if all_zero(rem) {
        if x.len() > 0 {
            assert((x[0] as int) < rem.len());
            lemma_occ_nonneg(x.drop_first(), x[0] as int);
            assert(occ(x, x[0] as int) >= 1);
            assert(rem[x[0] as int] == 0);
            assert(false);
        }
        assert(x =~= Seq::<usize>::empty());
        assert(interleavings_of(rem)[0] == x);
    } else {
        lemma_seq_sum_zero(rem);
        if x.len() == 0 {
            let t0 = choose|t: int| 0 <= t < rem.len() && rem[t] != 0;
            assert(occ(x, t0) == 0);
            assert(false);
        }
        let h = x[0];
        assert((h as int) < rem.len());
        lemma_occ_nonneg(x.drop_first(), h as int);
        assert(occ(x, h as int) >= 1);
        assert(rem[h as int] > 0);
        assert(x =~= seq![h] + x.drop_first());
        lemma_shuffle_cons(h, x.drop_first(), rem);
        lemma_seq_sum_update(rem, h as int, (rem[h as int] - 1) as usize);
        lemma_seq_sum_nonneg(dec_at(rem, h as int));
        lemma_enumeration_complete(dec_at(rem, h as int), x.drop_first());
        lemma_enumeration_from_complete(rem, 0, x);
    }
}

/// A shuffle whose first scheduled thread is `t` or later appears in
/// `interleavings_from(rem, t)`, provided its tail is already enumerated for
/// the decremented counts.
pub proof fn lemma_enumeration_from_complete(rem: Seq<usize>, t: int, x: Seq<usize>)
    requires
        rem.len() <= usize::MAX,
        x.len() > 0,
        0 <= t <= x[0],
        (x[0] as int) < rem.len(),
        rem[x[0] as int] > 0,
        interleavings_of(dec_at(rem, x[0] as int)).contains(x.drop_first()),
        x == seq![x[0]] + x.drop_first(),
    ensures
        interleavings_from(rem, t).contains(x),
    decreases rem.len() - t,
{
    let head = if rem[t] > 0 {
        prepend_all(t as usize, interleavings_of(dec_at(rem, t)))
    } else {
        Seq::<Seq<usize>>::empty()
    };
    let tail = interleavings_from(rem, t + 1);
    if t == x[0] {
        let i = choose|i: int|
            0 <= i < interleavings_of(dec_at(rem, t)).len() && interleavings_of(dec_at(rem, t))[i]
                == x.drop_first();
        assert(head[i] == seq![t as usize] + x.drop_first());
        assert(head[i] == x);
        assert(interleavings_from(rem, t)[i] == x);
    } else {
        lemma_enumeration_from_complete(rem, t + 1, x);
        let i = choose|i: int| 0 <= i < tail.len() && tail[i] == x;
        assert(interleavings_from(rem, t)[head.len() + i] == x);
    }
}

/// No order appears twice in the enumeration.
pub proof fn lemma_enumeration_distinct(rem: Seq<usize>)
    requires
        rem.len() <= usize::MAX,
    ensures
        forall|i: int, j: int|
            0 <= i < j < interleavings_of(rem).len() ==> interleavings_of(rem)[i]
                != interleavings_of(rem)[j],
    decreases seq_sum(rem), rem.len() + 1,
{
    lemma_seq_sum_nonneg(rem);
    if !all_zero(rem) {
        lemma_enumeration_from_distinct(rem, 0);
        assert(interleavings_of(rem) == interleavings_from(rem, 0));
    } else {
        assert(interleavings_of(rem).len() == 1);
    }
}

/// No order appears twice in `interleavings_from(rem, t)`.
pub proof fn lemma_enumeration_from_distinct(rem: Seq<usize>, t: int)
    requires
        rem.len() <= usize::MAX,
    ensures
        forall|i: int, j: int|
            0 <= i < j < interleavings_from(rem, t).len() ==> interleavings_from(rem, t)[i]
                != interleavings_from(rem, t)[j],
    decreases seq_sum(rem), rem.len() - t,
{
    lemma_seq_sum_nonneg(rem);
    if t < 0 || t >= rem.len() {
        // nothing to distinguish
    } else {
        let head = if rem[t] > 0 {
            prepend_all(t as usize, interleavings_of(dec_at(rem, t)))
        } else {
            Seq::<Seq<usize>>::empty()
        };
        let tail = interleavings_from(rem, t + 1);
        if rem[t] > 0 {
            lemma_seq_sum_update(rem, t, (rem[t] - 1) as usize);
            lemma_seq_sum_nonneg(dec_at(rem, t));
            lemma_enumeration_distinct(dec_at(rem, t));
        }
        lemma_enumeration_from_distinct(rem, t + 1);
        lemma_enumeration_from_sound(rem, t + 1);
        assert forall|i: int, j: int|
            0 <= i < j < interleavings_from(rem, t).len() implies interleavings_from(rem, t)[i]
            != interleavings_from(rem, t)[j] by {
            let a = interleavings_from(rem, t)[i];
            let b = interleavings_from(rem, t)[j];
            if j < head.len() {
                let sa = interleavings_of(dec_at(rem, t))[i];
                let sb = interleavings_of(dec_at(rem, t))[j];
                assert(a == seq![t as usize] + sa && b == seq![t as usize] + sb);
                if a == b {
                    assert(seq![t as usize].len() == 1);
                    assert(a.len() == 1 + sa.len() && b.len() == 1 + sb.len());
                    assert forall|k: int| 0 <= k < sa.len() implies sa[k] == sb[k] by {
                        assert(a[k + 1] == sa[k]);
                        assert(b[k + 1] == sb[k]);
                    }
                    assert(sa =~= sb);
                    assert(false);
                }
            } else if i >= head.len() {
                assert(tail[i - head.len()] == a && tail[j - head.len()] == b);
            } else {
                // `a` starts with thread `t`; `b` starts with a later thread.
                let sa = interleavings_of(dec_at(rem, t))[i];
                assert(a == seq![t as usize] + sa);
                assert(seq![t as usize].len() == 1);
                assert((seq![t as usize] + sa)[0] == seq![t as usize][0]);
                assert(a[0] == t);
                assert(tail[j - head.len()] == b);
                assert(tail.contains(b));
                assert(b[0] >= t + 1);
            }
        }
    }
}

/// The factorial of `n`.
pub open spec fn factorial(n: nat) -> nat
    decreases n,
{
    if n == 0 {
        1
    } else {
        n * factorial((n - 1) as nat)
    }
}

/// The product of the factorials of all per-thread operation counts.
pub open spec fn counts_factorial_product(rem: Seq<usize>) -> nat
    decreases rem.len(),
{
    if rem.len() == 0 {
        1
    } else {
        factorial(rem[0] as nat) * counts_factorial_product(rem.drop_first())
    }
}

/// The sum of the counts from thread `t` on.
pub open spec fn suffix_sum(rem: Seq<usize>, t: int) -> int
    decreases rem.len() - t,
{
    if t < 0 || t >= rem.len() {
        0
    } else {
        rem[t] + suffix_sum(rem, t + 1)
    }
}

/// The suffix sum from the first thread is the whole sum.
proof fn lemma_suffix_sum_all(rem: Seq<usize>, t: int)
    requires
        0 <= t <= rem.len(),
    ensures
        suffix_sum(rem, t) == seq_sum(rem.skip(t)),
    decreases rem.len() - t,
{
    if t == rem.len() {
        assert(rem.skip(t).len() == 0);
    } else {
        lemma_suffix_sum_all(rem, t + 1);
        assert(rem.skip(t)[0] == rem[t]);
        assert(rem.skip(t).drop_first() =~= rem.skip(t + 1));
    }
}

/// Zero counts contribute a factorial product of one.
proof fn lemma_prod_all_zero(rem: Seq<usize>)
    requires
        all_zero(rem),
    ensures
        counts_factorial_product(rem) == 1,
    decreases rem.len(),
{
    if rem.len() > 0 {
        assert(rem[0] == 0);
        assert forall|t: int| 0 <= t < rem.drop_first().len() implies #[trigger] rem.drop_first()[t]
            == 0 by {
            assert(rem[t + 1] == 0);
        }
        lemma_prod_all_zero(rem.drop_first());
        assert(factorial(0) == 1);
    }
}

/// Scheduling one of thread `t`'s operations divides the factorial product
/// by that thread's remaining count.
proof fn lemma_prod_dec(rem: Seq<usize>, t: int)
    requires
        0 <= t < rem.len(),
        rem[t] > 0,
    ensures
        counts_factorial_product(rem) == rem[t] * counts_factorial_product(dec_at(rem, t)),
    decreases rem.len(),
{
    let d = dec_at(rem, t);
    if t == 0 {
        assert(d.drop_first() =~= rem.drop_first());
        assert(d[0] == rem[0] - 1);
        assert(factorial(rem[0] as nat) == (rem[0] as nat) * factorial((rem[0] - 1) as nat));
        let a = rem[0] as nat;
        let b = factorial((rem[0] - 1) as nat);
        let c = counts_factorial_product(rem.drop_first());
        assert((a * b) * c == a * (b * c)) by (nonlinear_arith);
    } else {
        assert(d.drop_first() =~= rem.drop_first().update(t - 1, (rem[t] - 1) as usize));
        assert(d[0] == rem[0]);
        assert(rem.drop_first()[t - 1] == rem[t]);
        lemma_prod_dec(rem.drop_first(), t - 1);
        let a = factorial(rem[0] as nat);
        let n = rem[t] as nat;
        let p = counts_factorial_product(dec_at(rem.drop_first(), t - 1));
        assert(dec_at(rem.drop_first(), t - 1) =~= d.drop_first());
        assert(counts_factorial_product(rem.drop_first()) == n * p);
        assert(a * (n * p) == n * (a * p)) by (nonlinear_arith);
    }
}

/// The multinomial count: the number of enumerated interleavings times the
/// product of the per-thread count factorials is the factorial of the total
/// operation count — the enumeration realizes exactly
/// `(sum of counts)! / (product of count factorials)` interleavings.
pub proof fn lemma_enumeration_count(rem: Seq<usize>)
    ensures
        interleavings_of(rem).len() * counts_factorial_product(rem) == factorial(
            seq_sum(rem) as nat,
        ),
    decreases seq_sum(rem), rem.len() + 1,
{
    lemma_seq_sum_nonneg(rem);
    lemma_seq_sum_zero(rem);
    if all_zero(rem) {
        lemma_prod_all_zero(rem);
        assert(interleavings_of(rem).len() == 1);
        assert(factorial(0) == 1);
    } else {
        let s = seq_sum(rem);
        assert(s > 0);
        lemma_enumeration_count_from(rem, 0);
        lemma_suffix_sum_all(rem, 0);
        assert(rem.skip(0) =~= rem);
        assert(interleavings_of(rem).len() * counts_factorial_product(rem) == s * factorial(
            (s - 1) as nat,
        ));
        assert(factorial(s as nat) == (s as nat) * factorial((s - 1) as nat));
    }
}

/// The orders that start with thread `t` or later number the suffix sum of
/// remaining counts times `(total - 1)!`, scaled by the factorial product.
proof fn lemma_enumeration_count_from(rem: Seq<usize>, t: int)
    requires
        seq_sum(rem) > 0,
        0 <= t <= rem.len(),
    ensures
        interleavings_from(rem, t).len() * counts_factorial_product(rem) == suffix_sum(rem, t)
            * factorial((seq_sum(rem) - 1) as nat),
    decreases seq_sum(rem), rem.len() - t,
{
    lemma_seq_sum_nonneg(rem);
    let s = seq_sum(rem);
    let f1 = factorial((s - 1) as nat);
    let prod = counts_factorial_product(rem);
    if t == rem.len() {
        assert(interleavings_from(rem, t).len() == 0);
        assert(suffix_sum(rem, t) == 0);
    } else {
        let head_len: int = if rem[t] > 0 {
            prepend_all(t as usize, interleavings_of(dec_at(rem, t))).len() as int
        } else {
            0
        };
        let tail_len = interleavings_from(rem, t + 1).len() as int;
        assert(interleavings_from(rem, t).len() == head_len + tail_len);
        lemma_enumeration_count_from(rem, t + 1);
        if rem[t] > 0 {
            let d = dec_at(rem, t);
            lemma_seq_sum_update(rem, t, (rem[t] - 1) as usize);
            lemma_seq_sum_nonneg(d);
            assert(seq_sum(d) == s - 1);
            lemma_enumeration_count(d);
            lemma_prod_dec(rem, t);
            let sub = interleavings_of(d).len() as int;
            assert(head_len == sub);
            assert(sub * counts_factorial_product(d) == f1);
            let n = rem[t] as int;
            assert(prod == n * counts_factorial_product(d));
            assert(sub * (n * counts_factorial_product(d)) == n * (sub
                * counts_factorial_product(d))) by (nonlinear_arith);
            assert(head_len * prod == n * f1);
        } else {
            assert(head_len * prod == 0);
        }
        assert((head_len + tail_len) * prod == head_len * prod + tail_len * prod)
            by (nonlinear_arith);
        assert(suffix_sum(rem, t) == rem[t] + suffix_sum(rem, t + 1));
        assert((rem[t] + suffix_sum(rem, t + 1)) * f1 == rem[t] * f1 + suffix_sum(rem, t + 1)
            * f1) by (nonlinear_arith);
    }
}

/// The views of a vector of orders.
pub open spec fn order_views(v: Seq<Vec<usize>>) -> Seq<Seq<usize>> {
    v.map_values(|o: Vec<usize>| o@)
}

/// Whether every thread has run out of operations.
fn all_zero_exec(rem: &Vec<usize>) -> (r: bool)
    ensures
        r == all_zero(rem@),
{
    let mut t: usize = 0;
    while t < rem.len()
        invariant
            t <= rem@.len(),
            forall|i: int| 0 <= i < t ==> #[trigger] rem@[i] == 0,
        decreases rem@.len() - t,
    {
        if rem[t] != 0 {
            return false;
        }
        t = t + 1;
    }
    true
}

/// A fresh vector with the same entries.
fn copied(rem: &Vec<usize>) -> (r: Vec<usize>)
    ensures
        r@ == rem@,
{
    let mut r: Vec<usize> = Vec::new();
    let mut i: usize = 0;
    while i < rem.len()
        invariant
            i <= rem@.len(),
            r@ =~= rem@.take(i as int),
        decreases rem@.len() - i,
    {
        r.push(rem[i]);
        i = i + 1;
    }
    proof {
        assert(r@ =~= rem@);
    }
    r
}

/// A fresh order starting with thread `t` and continuing as `v`.
fn with_head(t: usize, v: &Vec<usize>) -> (r: Vec<usize>)
    ensures
        r@ == seq![t] + v@,
{
    let mut r: Vec<usize> = Vec::new();
    r.push(t);
    let mut i: usize = 0;
    while i < v.len()
        invariant
            i <= v@.len(),
            r@ =~= seq![t] + v@.take(i as int),
        decreases v@.len() - i,
    {
        r.push(v[i]);
        i = i + 1;
    }
    proof {
        assert(r@ =~= seq![t] + v@);
    }
    r
}

/// All program-order-respecting total orders for the remaining per-thread
/// operation counts, exactly as [`interleavings_of`] lists them.
pub fn enumerate_orders(rem: &Vec<usize>) -> (out: Vec<Vec<usize>>)
    ensures
        order_views(out@) == interleavings_of(rem@),
    decreases seq_sum(rem@), rem@.len() + 1,
{
    proof {
        lemma_seq_sum_nonneg(rem@);
    }
    if all_zero_exec(rem) {
        let mut out: Vec<Vec<usize>> = Vec::new();
        out.push(Vec::new());
        proof {
            assert(order_views(out@) =~= interleavings_of(rem@));
        }
        out
    } else {
        enumerate_orders_from(rem, 0)
    }
}

/// The orders whose first scheduled thread is `t` or later, exactly as
/// [`interleavings_from`] lists them.
fn enumerate_orders_from(rem: &Vec<usize>, t: usize) -> (out: Vec<Vec<usize>>)
    ensures
        order_views(out@) == interleavings_from(rem@, t as int),
    decreases seq_sum(rem@), rem@.len() - t,
{
    proof {
        lemma_seq_sum_nonneg(rem@);
    }
    if t >= rem.len() {
        let out: Vec<Vec<usize>> = Vec::new();
        proof {
            assert(order_views(out@) =~= interleavings_from(rem@, t as int));
        }
        out
    } else {
        let mut out: Vec<Vec<usize>> = Vec::new();
        if rem[t] > 0 {
            let mut rem2 = copied(rem);
            rem2[t] = rem2[t] - 1;
            proof {
                assert(rem2@ =~= dec_at(rem@, t as int));
                lemma_seq_sum_update(rem@, t as int, (rem@[t as int] - 1) as usize);
                lemma_seq_sum_nonneg(rem2@);
            }
            let sub = enumerate_orders(&rem2);
            let ghost subs = interleavings_of(dec_at(rem@, t as int));
            let mut i: usize = 0;
            while i < sub.len()
                invariant
                    i <= sub@.len(),
                    order_views(sub@) == subs,
                    out@.len() == i,
                    forall|j: int| 0 <= j < i ==> #[trigger] out@[j]@ == seq![t] + subs[j],
                decreases sub@.len() - i,
            {
                let v = with_head(t, &sub[i]);
                out.push(v);
                i = i + 1;
            }
            proof {
                assert(order_views(out@) =~= prepend_all(t, subs));
            }
        }
        let ghost head_views = order_views(out@);
        let mut rest = enumerate_orders_from(rem, t + 1);
        let ghost rest_views = order_views(rest@);
        out.append(&mut rest);
        proof {
            assert(order_views(out@) =~= head_views + rest_views);
            assert(order_views(out@) =~= interleavings_from(rem@, t as int));
        }
        out
    }
}

} // verus!
