use vstd::prelude::*;
use vstd::arithmetic::div_mod::{
    lemma_div_is_ordered, lemma_div_multiples_vanish, lemma_fundamental_div_mod, lemma_mod_bound,
    lemma_fundamental_div_mod_converse,
};
use crate::ledger::{Person, owed_seq, sum, fits_i64};

verus! {

/// Each member's part of the group's total: the mean balance, rounded down to
/// a whole minor unit.
pub open spec fn share(b: Seq<int>) -> int
    recommends
        b.len() > 0,
{
    sum(b) / (b.len() as int)
}

/// The minor units left over when the total is split into equal whole shares.
pub open spec fn remainder(b: Seq<int>) -> int
    recommends
        b.len() > 0,
{
    sum(b) % (b.len() as int)
}

/// One more minor unit of share for the first `r` members.
pub open spec fn extra(k: int, r: int) -> int {
    if k < r {
        1
    } else {
        0
    }
}

/// The balances rebased around the share. The leftover minor units go, one
/// each, to the first members' shares, so the result sums to exactly zero.
pub open spec fn rebased(b: Seq<int>) -> Seq<int> {
    Seq::new(b.len(), |k: int| b[k] - share(b) - extra(k, remainder(b)))
}

proof fn lemma_sum_take(b: Seq<int>, k: int)
    requires
        0 <= k < b.len(),
    ensures
        sum(b.take(k + 1)) == sum(b.take(k)) + b[k],
{
    assert(b.take(k + 1).drop_last() =~= b.take(k));
}

/// The share of the balances of `persons`, and the minor units left over.
pub fn share_of(persons: &Vec<Person>) -> (r: (i64, usize))
    requires
        persons.len() > 0,
    ensures
        r.0 == share(owed_seq(persons@)),
        r.1 == remainder(owed_seq(persons@)),
{
    let ghost b = owed_seq(persons@);
    let n = persons.len();
    let mut total: i128 = 0;
    let mut k: usize = 0;
    while k < n
        invariant
            k <= n,
            n == persons.len(),
            b == owed_seq(persons@),
            total == sum(b.take(k as int)),
            (k as int) * (i64::MIN as int) <= total <= (k as int) * (i64::MAX as int),
        decreases n - k,
    {
        proof {
            lemma_sum_take(b, k as int);
            assert((k as int) * (i64::MIN as int) + i64::MIN == (k + 1) * (i64::MIN as int))
                by (nonlinear_arith);
            assert((k as int) * (i64::MAX as int) + i64::MAX == (k + 1) * (i64::MAX as int))
                by (nonlinear_arith);
            assert((k as int) * (i64::MAX as int) <= (usize::MAX as int) * (i64::MAX as int))
                by (nonlinear_arith)
                requires
                    k <= usize::MAX,
            ;
            assert((k as int) * (i64::MIN as int) >= (usize::MAX as int) * (i64::MIN as int))
                by (nonlinear_arith)
                requires
                    k <= usize::MAX,
            ;
        }
        total = total + persons[k].owed as i128;
        k += 1;
    }
    proof {
        assert(b.take(n as int) =~= b);
        let d = n as int;
        lemma_div_is_ordered(d * (i64::MIN as int), sum(b), d);
        lemma_div_is_ordered(sum(b), d * (i64::MAX as int), d);
        lemma_div_multiples_vanish(i64::MIN as int, d);
        lemma_div_multiples_vanish(i64::MAX as int, d);
        lemma_mod_bound(sum(b), d);
    }
    let mean = total.checked_div_euclid(n as i128).unwrap();
    let left = total.checked_rem_euclid(n as i128).unwrap();
    (mean as i64, left as usize)
}

/// Rebases every member's balance around the group's share; names are kept.
/// The rebased balances sum to zero, and each is within one minor unit of the
/// exact `owed - total / size`.
pub fn adjust_for_share(persons: &mut Vec<Person>)
    requires
        old(persons).len() > 0,
        fits_i64(rebased(owed_seq(old(persons)@))),
    ensures
        final(persons).len() == old(persons).len(),
        owed_seq(final(persons)@) == rebased(owed_seq(old(persons)@)),
        forall|k: int| 0 <= k < old(persons).len() ==> #[trigger] final(persons)@[k].name == old(persons)@[k].name,
        sum(owed_seq(final(persons)@)) == 0,
        forall|k: int|
            0 <= k < old(persons).len() ==> -(old(persons).len() as int) < (old(persons).len() as int)
                * #[trigger] final(persons)@[k].owed - ((old(persons).len() as int) * old(persons)@[k].owed
                - sum(owed_seq(old(persons)@))) < old(persons).len() as int,
{
    let ghost b = owed_seq(persons@);
    let ghost names = persons@;
    let (s, r) = share_of(persons);
    let n = persons.len();
    let mut k: usize = 0;
    while k < n
        invariant
            k <= n,
            n == persons.len(),
            n == names.len(),
            s == share(b),
            r == remainder(b),
            b == owed_seq(names),
            fits_i64(rebased(b)),
            forall|m: int| 0 <= m < n ==> #[trigger] persons@[m].name == names[m].name,
            forall|m: int| 0 <= m < k ==> #[trigger] persons@[m].owed == rebased(b)[m],
            forall|m: int| k <= m < n ==> #[trigger] persons@[m].owed == b[m],
        decreases n - k,
    {
        let unit: i128 = if k < r {
            1
        } else {
            0
        };
        let p = &mut persons[k];
        let adjusted = p.owed as i128 - s as i128 - unit;
        proof {
            assert(rebased(b)[k as int] == adjusted);
        }
        p.owed = adjusted as i64;
        k += 1;
    }
    proof {
        assert(owed_seq(persons@) =~= rebased(b));
        lemma_rebased_sum(b);
        lemma_rebased_close(b);
    }
}

/// Rebasing a group whose balances already sum to zero changes nothing.
pub proof fn lemma_rebased_idempotent(b: Seq<int>)
    requires
        b.len() > 0,
        sum(b) == 0,
    ensures
        share(b) == 0,
        rebased(b) == b,
{
    lemma_mod_bound(sum(b), b.len() as int);
    assert(rebased(b) =~= b);
}

/// Rebasing twice gives what rebasing once gives.
pub proof fn lemma_rebased_twice(b: Seq<int>)
    requires
        b.len() > 0,
    ensures
        rebased(rebased(b)) == rebased(b),
{
    lemma_rebased_sum(b);
    lemma_rebased_idempotent(rebased(b));
}

proof fn lemma_sum_spread(b: Seq<int>, c: int, r: int)
    requires
        0 <= r,
    ensures
        sum(Seq::new(b.len(), |k: int| b[k] - c - extra(k, r))) == sum(b) - (b.len() as int) * c - (
        if r < b.len() {
            r
        } else {
            b.len() as int
        }),
    decreases b.len(),
{
    if b.len() > 0 {
        let u = Seq::new(b.len(), |k: int| b[k] - c - extra(k, r));
        lemma_sum_spread(b.drop_last(), c, r);
        assert(u.drop_last() =~= Seq::new(
            b.drop_last().len(),
            |k: int| b.drop_last()[k] - c - extra(k, r),
        ));
        assert((b.len() as int) * c == (b.len() - 1) * c + c) by (nonlinear_arith);
    }
}

/// The rebased balances always sum to zero.
pub proof fn lemma_rebased_sum(b: Seq<int>)
    requires
        b.len() > 0,
    ensures
        rebased(b).len() == b.len(),
        sum(rebased(b)) == 0,
        0 <= remainder(b) < b.len(),
{
    let n = b.len() as int;
    lemma_fundamental_div_mod(sum(b), n);
    lemma_mod_bound(sum(b), n);
    lemma_sum_spread(b, share(b), remainder(b));
    assert(rebased(b) =~= Seq::new(b.len(), |k: int| b[k] - share(b) - extra(k, remainder(b))));
}

/// Each rebased balance is within one minor unit of the exact difference
/// between the balance and the mean: `|n * rebased[k] - (n * b[k] - sum)| < n`.
pub proof fn lemma_rebased_close(b: Seq<int>)
    requires
        b.len() > 0,
    ensures
        forall|k: int|
            0 <= k < b.len() ==> -(b.len() as int) < (b.len() as int) * #[trigger] rebased(b)[k] - ((
            b.len() as int) * b[k] - sum(b)) < b.len() as int,
{
    let n = b.len() as int;
    let q = share(b);
    let r = remainder(b);
    lemma_fundamental_div_mod(sum(b), n);
    lemma_mod_bound(sum(b), n);
    assert forall|k: int| 0 <= k < b.len() implies -n < n * #[trigger] rebased(b)[k] - (n * b[k] - sum(b))
        < n by {
        let e = extra(k, r);
        assert(rebased(b)[k] == b[k] - q - e);
        assert(n * (b[k] - q - e) - (n * b[k] - (n * q + r)) == r - n * e) by (nonlinear_arith);
        assert(sum(b) == n * q + r);
    }
}

/// Adding the same amount to every balance changes nothing after rebasing.
pub proof fn lemma_rebased_shift(b: Seq<int>, c: int)
    requires
        b.len() > 0,
    ensures
        rebased(Seq::new(b.len(), |k: int| b[k] + c)) == rebased(b),
{
    let n = b.len() as int;
    let shifted = Seq::new(b.len(), |k: int| b[k] + c);
    lemma_sum_spread(b, -c, 0);
    assert(shifted =~= Seq::new(b.len(), |k: int| b[k] - (-c) - extra(k, 0)));
    assert(n * (-c) == -(c * n)) by (nonlinear_arith);
    assert(sum(shifted) == sum(b) + c * n);
    lemma_fundamental_div_mod(sum(b), n);
    lemma_mod_bound(sum(b), n);
    assert(sum(shifted) == (share(b) + c) * n + remainder(b)) by (nonlinear_arith)
        requires
            sum(shifted) == sum(b) + c * n,
            sum(b) == n * share(b) + remainder(b),
    ;
    lemma_fundamental_div_mod_converse(sum(shifted), n, share(b) + c, remainder(b));
    assert(rebased(shifted) =~= rebased(b));
}

} // verus!
