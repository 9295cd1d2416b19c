use vstd::prelude::*;
use vstd::arithmetic::div_mod::{lemma_div_multiples_vanish, lemma_mod_bound};
use crate::optimal::lemma_clearing_is_optimal;
use crate::share::{rebased, share, remainder, share_of, adjust_for_share, lemma_rebased_sum};
use crate::ledger::{
    Person, owed_seq, Transaction, ints, sum, all_zero, apply, apply_all, fits_i64, is_valid, settles,
    lemma_apply_keeps_sum, lemma_apply_all_keeps_sum, lemma_all_zero_sum,
};

verus! {

/// Index of the first nonzero balance at or after `k`, or the length when
/// there is none.
pub open spec fn first_open_from(b: Seq<int>, k: nat) -> nat
    decreases b.len() - k,
{
    if k >= b.len() {
        b.len()
    } else if b[k as int] != 0 {
        k
    } else {
        first_open_from(b, k + 1)
    }
}

/// Index of the first member whose balance is not settled, or the length
/// when every balance is zero.
pub open spec fn first_open(b: Seq<int>) -> int {
    first_open_from(b, 0) as int
}

/// Number of nonzero balances.
pub open spec fn count_open(b: Seq<int>) -> nat
    decreases b.len(),
{
    if b.len() == 0 {
        0
    } else {
        count_open(b.drop_last()) + if b.last() != 0 {
            1nat
        } else {
            0nat
        }
    }
}

pub open spec fn opposite(x: int, y: int) -> bool {
    (x > 0 && y < 0) || (x < 0 && y > 0)
}

/// The transfer that settles member `i` in full against member `j`: a creditor
/// `i` is paid by `j`, a debtor `i` pays `j`.
pub open spec fn clearing(b: Seq<int>, i: int, j: int) -> Transaction {
    if b[i] > 0 {
        Transaction { amount: b[i] as u64, from_index: j as usize, to_index: i as usize }
    } else {
        Transaction { amount: (-b[i]) as u64, from_index: i as usize, to_index: j as usize }
    }
}

/// The other party of `t`, seen from member `i`.
pub open spec fn counterpart(t: Transaction, i: int) -> int {
    if t.to_index as int == i {
        t.from_index as int
    } else {
        t.to_index as int
    }
}

/// `s` settles `b` the way the search builds settlements: each transfer
/// clears the first unsettled member in full against one member of the
/// opposite sign, and at the end every balance is zero.
pub open spec fn is_clearing_settlement(b: Seq<int>, s: Seq<Transaction>) -> bool
    decreases s.len(),
{
    if s.len() == 0 {
        all_zero(b)
    } else {
        let i = first_open(b);
        let j = counterpart(s[0], i);
        &&& i < b.len()
        &&& 0 <= j < b.len()
        &&& j != i
        &&& opposite(b[i], b[j])
        &&& s[0] == clearing(b, i, j)
        &&& is_clearing_settlement(apply(b, s[0]), s.drop_first())
    }
}

/// A length is acceptable under a bound; `None` is no bound at all.
pub open spec fn below(len: int, bound: Option<usize>) -> bool {
    match bound {
        None => true,
        Some(k) => len < k,
    }
}

/// `v` is `prev` followed by a clearing settlement of `b`.
pub open spec fn extends_with_settlement(v: Seq<Transaction>, prev: Seq<Transaction>, b: Seq<int>) -> bool {
    &&& prev.len() <= v.len()
    &&& v.subrange(0, prev.len() as int) == prev
    &&& is_clearing_settlement(b, v.skip(prev.len() as int))
}

/// `s1` comes no later than `s2` in the search's branch order: at the first
/// transfer where they part, `s1` clears against the lower-indexed member.
pub open spec fn comes_first(b: Seq<int>, s1: Seq<Transaction>, s2: Seq<Transaction>) -> bool
    decreases s1.len(),
{
    if s1.len() == 0 || s2.len() == 0 {
        true
    } else {
        let i = first_open(b);
        let j1 = counterpart(s1[0], i);
        let j2 = counterpart(s2[0], i);
        j1 < j2 || (j1 == j2 && comes_first(apply(b, s1[0]), s1.drop_first(), s2.drop_first()))
    }
}

/// Two clearing settlements that each come no later than the other are the
/// same: the branch order leaves no ties, so "the first shortest" is one
/// sequence, fixed by the balances alone.
pub proof fn lemma_first_shortest_unique(b: Seq<int>, s1: Seq<Transaction>, s2: Seq<Transaction>)
    requires
        is_clearing_settlement(b, s1),
        is_clearing_settlement(b, s2),
        comes_first(b, s1, s2),
        comes_first(b, s2, s1),
    ensures
        s1 == s2,
    decreases s1.len(),
{
    if s1.len() == 0 || s2.len() == 0 {
        lemma_first_open_from(b, 0);
        if s1.len() > 0 {
            assert(b[first_open(b)] != 0);
        }
        if s2.len() > 0 {
            assert(b[first_open(b)] != 0);
        }
        assert(s1 =~= s2);
    } else {
        assert(s1[0] == s2[0]);
        lemma_first_shortest_unique(apply(b, s1[0]), s1.drop_first(), s2.drop_first());
        assert(s1 =~= seq![s1[0]] + s1.drop_first());
        assert(s2 =~= seq![s2[0]] + s2.drop_first());
    }
}

pub(crate) proof fn lemma_first_open_from(b: Seq<int>, k: nat)
    requires
        k <= b.len(),
        forall|m: int| 0 <= m < k ==> b[m] == 0,
    ensures
        first_open_from(b, k) <= b.len(),
        first_open_from(b, k) < b.len() ==> b[first_open_from(b, k) as int] != 0,
        forall|m: int| 0 <= m < first_open_from(b, k) ==> b[m] == 0,
    decreases b.len() - k,
{
    if k < b.len() && b[k as int] == 0 {
        lemma_first_open_from(b, k + 1);
    }
}

/// `first_open` is the one index before which every balance is zero and at
/// which the balance is not.
pub(crate) proof fn lemma_first_open(b: Seq<int>, i: int)
    requires
        0 <= i <= b.len(),
        i < b.len() ==> b[i] != 0,
        forall|m: int| 0 <= m < i ==> b[m] == 0,
    ensures
        first_open(b) == i,
        i == b.len() <==> all_zero(b),
{
    lemma_first_open_from(b, 0);
    let f = first_open(b);
    if f < i {
        assert(b[f] == 0);
    }
    if i < f {
        assert(b[i] == 0);
    }
}

pub(crate) proof fn lemma_count_open_update(b: Seq<int>, k: int, v: int)
    requires
        0 <= k < b.len(),
    ensures
        count_open(b.update(k, v)) + (if b[k] != 0 { 1int } else { 0int }) == count_open(b) + (
        if v != 0 {
            1int
        } else {
            0int
        }),
    decreases b.len(),
{
    let u = b.update(k, v);
    if k == b.len() - 1 {
        assert(u.drop_last() =~= b.drop_last());
    } else {
        lemma_count_open_update(b.drop_last(), k, v);
        assert(u.drop_last() =~= b.drop_last().update(k, v));
    }
}

/// Clearing `i` against `j` zeroes `i` and moves its balance onto `j`.
pub(crate) proof fn lemma_clearing_effect(b: Seq<int>, i: int, j: int)
    requires
        0 <= i < b.len(),
        0 <= j < b.len(),
        i != j,
        opposite(b[i], b[j]),
        fits_i64(b),
        b.len() <= usize::MAX,
    ensures
        apply(b, clearing(b, i, j)) == b.update(j, b[j] + b[i]).update(i, 0),
        counterpart(clearing(b, i, j), i) == j,
        count_open(apply(b, clearing(b, i, j))) < count_open(b),
{
    let c = b.update(j, b[j] + b[i]).update(i, 0);
    assert(b[i] == b[i]);
    assert(b[j] == b[j]);
    assert(apply(b, clearing(b, i, j)) =~= c);
    lemma_count_open_update(b, j, b[j] + b[i]);
    lemma_count_open_update(b.update(j, b[j] + b[i]), i, 0);
}

/// Branch-and-bound search for a shortest clearing settlement of `balances`,
/// appended to the transfers already in `previous`.
///
/// A branch whose path has reached `current_best` transfers is abandoned.
/// Otherwise the first unsettled member is cleared in turn against each later
/// member of the opposite sign, each branch searched with the same bound, and
/// the shortest result kept (the first among equals).
pub fn search_best_transaction(
    balances: Vec<i64>,
    previous: Vec<Transaction>,
    current_best: Option<usize>,
) -> (r: Option<Vec<Transaction>>)
    ensures
        match r {
            Some(v) => {
                &&& extends_with_settlement(v@, previous@, ints(balances@))
                &&& below(v.len() as int, current_best)
                &&& forall|s: Seq<Transaction>|
                    #[trigger] is_clearing_settlement(ints(balances@), s) ==> v.len()
                        <= previous.len() + s.len()
                &&& forall|s: Seq<Transaction>|
                    #[trigger] is_clearing_settlement(ints(balances@), s) && v.len() == previous.len()
                        + s.len() ==> comes_first(ints(balances@), v@.skip(previous.len() as int), s)
            },
            None => forall|s: Seq<Transaction>|
                #[trigger] is_clearing_settlement(ints(balances@), s) ==> !below(
                    previous.len() + s.len(),
                    current_best,
                ),
        },
    decreases count_open(ints(balances@)),
{
    let ghost b = ints(balances@);
    let ghost p = previous@;
    if let Some(k) = current_best {
        if previous.len() >= k {
            return None;
        }
    }
    let n = balances.len();
    let mut i: usize = 0;
    while i < n && balances[i] == 0
        invariant
            i <= n,
            n == balances.len(),
            forall|m: int| 0 <= m < i ==> balances@[m] == 0,
        decreases n - i,
    {
        i += 1;
    }
    proof {
        lemma_first_open(b, i as int);
    }
    if i == n {
        proof {
            assert(previous@.subrange(0, p.len() as int) =~= p);
            assert(previous@.skip(p.len() as int) =~= Seq::<Transaction>::empty());
        }
        return Some(previous);
    }
    let owed_i = balances[i];
    let mut best: Option<Vec<Transaction>> = None;
    let mut j: usize = i;
    while j < n
        invariant
            i < n,
            i <= j <= n,
            n == balances.len(),
            b == ints(balances@),
            p == previous@,
            owed_i == balances@[i as int],
            owed_i != 0,
            first_open(b) == i,
            below(p.len() as int, current_best),
            forall|m: int| 0 <= m < i ==> b[m] == 0,
            match best {
                Some(v) => {
                    &&& extends_with_settlement(v@, p, b)
                    &&& below(v.len() as int, current_best)
                    &&& p.len() < v.len()
                    &&& counterpart(v@[p.len() as int], i as int) < j
                },
                None => true,
            },
            forall|s: Seq<Transaction>|
                #[trigger] is_clearing_settlement(b, s) && s.len() > 0 && counterpart(s[0], i as int)
                    < j ==> match best {
                    Some(v) => v.len() == p.len() + s.len() ==> comes_first(
                        b,
                        v@.skip(p.len() as int),
                        s,
                    ),
                    None => true,
                },
            forall|s: Seq<Transaction>|
                #[trigger] is_clearing_settlement(b, s) && s.len() > 0 && counterpart(s[0], i as int)
                    < j && below((p.len() + s.len()) as int, current_best) ==> match best {
                    Some(v) => v.len() <= p.len() + s.len(),
                    None => false,
                },
        decreases n - j,
    {
        let owed_j = balances[j];
        if j != i && ((owed_i > 0 && owed_j < 0) || (owed_i < 0 && owed_j > 0)) {
            let mut next = balances.clone();
            next.set(j, owed_j + owed_i);
            next.set(i, 0);
            let t = if owed_i > 0 {
                Transaction { amount: owed_i as u64, from_index: j, to_index: i }
            } else {
                Transaction { amount: (-(owed_i + 1)) as u64 + 1, from_index: i, to_index: j }
            };
            let mut path = previous.clone();
            path.push(t);
            let ghost c = ints(next@);
            proof {
                assert(balances@ =~= next@.update(i as int, owed_i).update(j as int, owed_j)) by {
                    assert(next@ =~= balances@.update(j as int, (owed_j + owed_i) as i64).update(
                        i as int,
                        0,
                    ));
                }
                assert(c =~= b.update(j as int, b[j as int] + b[i as int]).update(i as int, 0));
                lemma_clearing_effect(b, i as int, j as int);
                assert(t == clearing(b, i as int, j as int));
                assert(path@ =~= p.push(t));
            }
            let found = search_best_transaction(next, path, current_best);
            proof {
                assert forall|s: Seq<Transaction>|
                    #[trigger] is_clearing_settlement(b, s) && s.len() > 0 && counterpart(
                        s[0],
                        i as int,
                    ) == j implies is_clearing_settlement(c, s.drop_first()) && p.len() + s.len()
                    == path.len() + s.drop_first().len() by {
                    assert(s[0] == t);
                }
            }
            match found {
                Some(v) => {
                    proof {
                        let rest = v@.skip(path.len() as int);
                        assert(v@.subrange(0, path.len() as int)[p.len() as int] == t);
                        assert(v@[p.len() as int] == t);
                        assert(v@.skip(p.len() as int) =~= seq![t] + rest);
                        assert((seq![t] + rest).drop_first() =~= rest);
                        assert(v@.subrange(0, p.len() as int) =~= v@.subrange(
                            0,
                            path.len() as int,
                        ).subrange(0, p.len() as int));
                        let tail = v@.skip(p.len() as int);
                        assert(tail[0] == t);
                        assert(tail.drop_first() =~= rest);
                        assert(is_clearing_settlement(c, rest));
                        assert(is_clearing_settlement(b, tail));
                        assert(v@.subrange(0, p.len() as int) =~= p);
                    }
                    let better = match &best {
                        None => true,
                        Some(w) => v.len() < w.len(),
                    };
                    if better {
                        best = Some(v);
                    }
                },
                None => {},
            }
        }
        proof {
            assert forall|s: Seq<Transaction>|
                #[trigger] is_clearing_settlement(b, s) && s.len() > 0 && counterpart(s[0], i as int)
                    < j + 1 && below((p.len() + s.len()) as int, current_best) implies match best {
                Some(v) => v.len() <= p.len() + s.len(),
                None => false,
            } by {
                if counterpart(s[0], i as int) == j {
                    assert(opposite(b[i as int], b[j as int]));
                }
            }
        }
        j += 1;
    }
    proof {
        assert forall|s: Seq<Transaction>| #[trigger] is_clearing_settlement(b, s) implies s.len() > 0
            && counterpart(s[0], i as int) < j by {
            if s.len() == 0 {
                assert(b[i as int] != 0);
            }
        }
    }
    best
}

/// Clearing one member against another keeps every balance within `i64`.
pub(crate) proof fn lemma_clearing_fits(b: Seq<int>, i: int, j: int)
    requires
        0 <= i < b.len(),
        0 <= j < b.len(),
        i != j,
        opposite(b[i], b[j]),
        fits_i64(b),
        b.len() <= usize::MAX,
    ensures
        fits_i64(apply(b, clearing(b, i, j))),
        is_valid(clearing(b, i, j), b.len() as int),
        apply(b, clearing(b, i, j)).len() == b.len(),
{
    lemma_clearing_effect(b, i, j);
    let c = apply(b, clearing(b, i, j));
    assert forall|k: int| 0 <= k < c.len() implies i64::MIN <= #[trigger] c[k] <= i64::MAX by {
        if k != i && k != j {
            assert(c[k] == b[k]);
        }
    }
}

/// Every clearing settlement is a settlement: its transfers are well formed
/// and leave every balance at zero.
pub proof fn lemma_clearing_settlement_settles(b: Seq<int>, s: Seq<Transaction>)
    requires
        is_clearing_settlement(b, s),
        fits_i64(b),
        b.len() <= usize::MAX,
    ensures
        settles(b, s),
    decreases s.len(),
{
    if s.len() > 0 {
        let i = first_open(b);
        let j = counterpart(s[0], i);
        lemma_clearing_fits(b, i, j);
        let rest = s.drop_first();
        lemma_clearing_settlement_settles(apply(b, s[0]), rest);
        assert forall|k: int| 0 <= k < s.len() implies is_valid(#[trigger] s[k], b.len() as int) by {
            if k > 0 {
                assert(s[k] == rest[k - 1]);
            }
        }
    }
}

/// Only a group whose balances sum to zero can be settled.
pub proof fn lemma_settled_group_sums_to_zero(b: Seq<int>, s: Seq<Transaction>)
    requires
        settles(b, s),
    ensures
        sum(b) == 0,
{
    assert forall|k: int| 0 <= k < s.len() implies (#[trigger] s[k]).from_index < b.len()
        && s[k].to_index < b.len() by {
        assert(is_valid(s[k], b.len() as int));
    }
    lemma_apply_all_keeps_sum(b, s);
    lemma_all_zero_sum(apply_all(b, s));
}

pub(crate) proof fn lemma_nonneg_sum(b: Seq<int>, i: int)
    requires
        forall|k: int| 0 <= k < b.len() ==> b[k] >= 0,
    ensures
        sum(b) >= 0,
        0 <= i < b.len() ==> sum(b) >= b[i],
    decreases b.len(),
{
    if b.len() > 0 {
        lemma_nonneg_sum(b.drop_last(), i);
    }
}

pub(crate) proof fn lemma_nonpos_sum(b: Seq<int>, i: int)
    requires
        forall|k: int| 0 <= k < b.len() ==> b[k] <= 0,
    ensures
        sum(b) <= 0,
        0 <= i < b.len() ==> sum(b) <= b[i],
    decreases b.len(),
{
    if b.len() > 0 {
        lemma_nonpos_sum(b.drop_last(), i);
    }
}

/// A group whose balances sum to zero has a clearing settlement, of at most
/// as many transfers as it has unsettled members.
pub proof fn lemma_clearing_settlement_exists(b: Seq<int>) -> (s: Seq<Transaction>)
    requires
        sum(b) == 0,
        fits_i64(b),
        b.len() <= usize::MAX,
    ensures
        is_clearing_settlement(b, s),
        s.len() <= count_open(b),
    decreases count_open(b),
{
    lemma_first_open_from(b, 0);
    let i = first_open(b);
    if i == b.len() {
        Seq::empty()
    } else {
        if b[i] > 0 {
            if forall|k: int| 0 <= k < b.len() ==> b[k] >= 0 {
                lemma_nonneg_sum(b, i);
            }
        } else {
            if forall|k: int| 0 <= k < b.len() ==> b[k] <= 0 {
                lemma_nonpos_sum(b, i);
            }
        }
        let j = choose|j: int| 0 <= j < b.len() && opposite(b[i], b[j]);
        let t = clearing(b, i, j);
        lemma_clearing_effect(b, i, j);
        lemma_clearing_fits(b, i, j);
        lemma_apply_keeps_sum(b, t);
        let rest = lemma_clearing_settlement_exists(apply(b, t));
        let s = seq![t] + rest;
        assert(s[0] == t);
        assert(s.drop_first() =~= rest);
        s
    }
}

/// Every state the search passes through on the way to a clearing settlement
/// keeps the group's total: after any number of its transfers the balances
/// still sum to what they summed to at the start.
pub proof fn lemma_search_states_keep_sum(b: Seq<int>, s: Seq<Transaction>, k: int)
    requires
        is_clearing_settlement(b, s),
        fits_i64(b),
        b.len() <= usize::MAX,
        0 <= k <= s.len(),
    ensures
        sum(apply_all(b, s.take(k))) == sum(b),
{
    lemma_clearing_settlement_settles(b, s);
    let prefix = s.take(k);
    assert forall|m: int| 0 <= m < prefix.len() implies (#[trigger] prefix[m]).from_index < b.len()
        && prefix[m].to_index < b.len() by {
        assert(prefix[m] == s[m]);
        assert(is_valid(s[m], b.len() as int));
    }
    lemma_apply_all_keeps_sum(b, prefix);
}

/// Rebases the balances of `persons` around their share and finds a shortest
/// settlement of the result: no sequence of transfers, with any amounts between
/// any members, settles the rebased balances in fewer steps.
///
/// Of the shortest clearing settlements, the one returned is the first in
/// branch order (`comes_first`); by `lemma_first_shortest_unique` that fixes
/// it. There is none only when the group is empty or a rebased balance does
/// not fit an `i64`.
pub fn get_minimum_transactions(persons: Vec<Person>) -> (r: Option<Vec<Transaction>>)
    ensures
        r.is_none() <==> (persons.len() == 0 || !fits_i64(rebased(owed_seq(persons@)))),
        match r {
            Some(v) => {
                &&& is_clearing_settlement(rebased(owed_seq(persons@)), v@)
                &&& settles(rebased(owed_seq(persons@)), v@)
                &&& forall|s: Seq<Transaction>|
                    #[trigger] is_clearing_settlement(rebased(owed_seq(persons@)), s) ==> v.len()
                        <= s.len()
                &&& forall|s: Seq<Transaction>|
                    #[trigger] settles(rebased(owed_seq(persons@)), s) ==> v.len() <= s.len()
                &&& forall|s: Seq<Transaction>|
                    #[trigger] is_clearing_settlement(rebased(owed_seq(persons@)), s) && v.len()
                        == s.len() ==> comes_first(rebased(owed_seq(persons@)), v@, s)
            },
            None => true,
        },
        persons.len() > 0 && fits_i64(rebased(owed_seq(persons@))) && all_zero(
            rebased(owed_seq(persons@)),
        ) ==> r.is_some() && r.unwrap().len() == 0,
        persons.len() == 1 ==> r.is_some() && r.unwrap().len() == 0,
{
    let ghost b = owed_seq(persons@);
    let n = persons.len();
    if n == 0 {
        return None;
    }
    let (s, left) = share_of(&persons);
    let mut k: usize = 0;
    while k < n
        invariant
            k <= n,
            n == persons.len(),
            b == owed_seq(persons@),
            s == share(b),
            left == remainder(b),
            forall|m: int| 0 <= m < k ==> i64::MIN <= #[trigger] rebased(b)[m] <= i64::MAX,
        decreases n - k,
    {
        let unit: i128 = if k < left {
            1
        } else {
            0
        };
        let adjusted = persons[k].owed as i128 - s as i128 - unit;
        if adjusted < i64::MIN as i128 || adjusted > i64::MAX as i128 {
            proof {
                assert(rebased(b)[k as int] == adjusted);
                if n == 1 {
                    assert(b.drop_last() =~= Seq::<int>::empty());
                    assert(sum(b.drop_last()) == 0);
                    assert(sum(b) == b[0]);
                    assert(share(b) == b[0]) by {
                        lemma_div_multiples_vanish(b[0], 1);
                    }
                    lemma_mod_bound(sum(b), 1);
                    assert(rebased(b)[0] == 0);
                }
            }
            return None;
        }
        k += 1;
    }
    let mut persons = persons;
    adjust_for_share(&mut persons);
    let mut balances: Vec<i64> = Vec::new();
    let mut k: usize = 0;
    while k < n
        invariant
            k <= n,
            n == persons.len(),
            owed_seq(persons@) == rebased(b),
            balances@.len() == k,
            forall|m: int| 0 <= m < k ==> balances@[m] == rebased(b)[m],
        decreases n - k,
    {
        balances.push(persons[k].owed);
        k += 1;
    }
    let ghost nb = rebased(b);
    proof {
        assert(ints(balances@) =~= nb);
        lemma_rebased_sum(b);
    }
    let found = search_best_transaction(balances, Vec::new(), None);
    proof {
        if found is Some {
            let v = found->0;
            assert(v@.skip(0) =~= v@);
            lemma_clearing_settlement_settles(nb, v@);
            assert forall|s: Seq<Transaction>| #[trigger] settles(nb, s) implies v.len() <= s.len() by {
                let c = lemma_clearing_is_optimal(nb, s);
            }
        }
        let w = lemma_clearing_settlement_exists(nb);
        if all_zero(nb) {
            assert(is_clearing_settlement(nb, Seq::<Transaction>::empty()));
        }
        if n == 1 {
            assert(nb[0] == 0) by {
                assert(b.drop_last() =~= Seq::<int>::empty());
            }
            assert(all_zero(nb));
            assert(is_clearing_settlement(nb, Seq::<Transaction>::empty()));
        }
    }
    found
}

} // verus!
