use vstd::prelude::*;

verus! {

/// One member of the group.
#[derive(Clone, Debug)]
pub struct Person {
    /// Used for reporting only.
    pub name: String,
    /// Net balance in minor units: positive is owed, negative owes.
    pub owed: i64,
}

impl Person {
    pub fn new(name: &str, owed: i64) -> (r: Person)
        ensures
            r.name@ == name@,
            r.owed == owed,
    {
        Person { name: name.to_string(), owed }
    }
}

/// A transfer of `amount` from participant `from_index` to `to_index`.
#[derive(Clone, Copy, Debug, PartialEq, Eq, Structural)]
pub struct Transaction {
    pub amount: u64,
    pub from_index: usize,
    pub to_index: usize,
}

/// The balances of a group, as integers.
pub open spec fn owed_seq(persons: Seq<Person>) -> Seq<int> {
    Seq::new(persons.len(), |k: int| persons[k].owed as int)
}

/// The balances held in a vector of `i64`, as integers.
pub open spec fn ints(b: Seq<i64>) -> Seq<int> {
    Seq::new(b.len(), |k: int| b[k] as int)
}

pub open spec fn sum(b: Seq<int>) -> int
    decreases b.len(),
{
    if b.len() == 0 {
        0
    } else {
        sum(b.drop_last()) + b.last()
    }
}

pub open spec fn all_zero(b: Seq<int>) -> bool {
    forall|k: int| 0 <= k < b.len() ==> b[k] == 0
}

/// Every balance can be held in an `i64`.
pub open spec fn fits_i64(b: Seq<int>) -> bool {
    forall|k: int| 0 <= k < b.len() ==> i64::MIN <= #[trigger] b[k] <= i64::MAX
}

/// A transfer is well formed in a group of `n`: a positive amount between two
/// distinct members.
pub open spec fn is_valid(t: Transaction, n: int) -> bool {
    &&& t.amount > 0
    &&& t.from_index != t.to_index
    &&& t.from_index < n
    &&& t.to_index < n
}

/// The payer's balance rises by the amount and the payee's falls by it.
pub open spec fn apply(b: Seq<int>, t: Transaction) -> Seq<int> {
    let paid = b.update(t.from_index as int, b[t.from_index as int] + t.amount);
    paid.update(t.to_index as int, paid[t.to_index as int] - t.amount)
}

/// The balances after the transfers of `s`, in order.
pub open spec fn apply_all(b: Seq<int>, s: Seq<Transaction>) -> Seq<int>
    decreases s.len(),
{
    if s.len() == 0 {
        b
    } else {
        apply_all(apply(b, s[0]), s.drop_first())
    }
}

/// `s` is a sequence of well-formed transfers that brings every balance to zero.
pub open spec fn settles(b: Seq<int>, s: Seq<Transaction>) -> bool {
    &&& forall|k: int| 0 <= k < s.len() ==> is_valid(#[trigger] s[k], b.len() as int)
    &&& all_zero(apply_all(b, s))
}

/// The sum changes by `v - b[k]` when entry `k` becomes `v`.
pub proof fn lemma_sum_update(b: Seq<int>, k: int, v: int)
    requires
        0 <= k < b.len(),
    ensures
        sum(b.update(k, v)) == sum(b) - b[k] + v,
    decreases b.len(),
{
    let u = b.update(k, v);
    if k == b.len() - 1 {
        assert(u.drop_last() =~= b.drop_last());
    } else {
        lemma_sum_update(b.drop_last(), k, v);
        assert(u.drop_last() =~= b.drop_last().update(k, v));
    }
}

/// A single transfer between members leaves the group's total unchanged.
pub proof fn lemma_apply_keeps_sum(b: Seq<int>, t: Transaction)
    requires
        t.from_index < b.len(),
        t.to_index < b.len(),
    ensures
        apply(b, t).len() == b.len(),
        sum(apply(b, t)) == sum(b),
{
    let paid = b.update(t.from_index as int, b[t.from_index as int] + t.amount);
    lemma_sum_update(b, t.from_index as int, b[t.from_index as int] + t.amount);
    lemma_sum_update(paid, t.to_index as int, paid[t.to_index as int] - t.amount);
}

/// Transfers between members never change the group's total: every state
/// reached by any sequence of in-range transfers has the starting sum.
pub proof fn lemma_apply_all_keeps_sum(b: Seq<int>, s: Seq<Transaction>)
    requires
        forall|k: int|
            0 <= k < s.len() ==> (#[trigger] s[k]).from_index < b.len() && s[k].to_index
                < b.len(),
    ensures
        apply_all(b, s).len() == b.len(),
        sum(apply_all(b, s)) == sum(b),
    decreases s.len(),
{
    if s.len() > 0 {
        lemma_apply_keeps_sum(b, s[0]);
        let rest = s.drop_first();
        assert forall|k: int| 0 <= k < rest.len() implies (#[trigger] rest[k]).from_index < b.len()
            && rest[k].to_index < b.len() by {
            assert(rest[k] == s[k + 1]);
        }
        lemma_apply_all_keeps_sum(apply(b, s[0]), rest);
    }
}

/// A group whose balances are all zero sums to zero.
pub proof fn lemma_all_zero_sum(b: Seq<int>)
    requires
        all_zero(b),
    ensures
        sum(b) == 0,
    decreases b.len(),
{
    if b.len() > 0 {
        lemma_all_zero_sum(b.drop_last());
    }
}

} // verus!
