use vstd::prelude::*;
use vstd::set::axiom_set_remove_len;
use vstd::set::axiom_set_insert_len;
use vstd::set_lib::lemma_len_subset;
use vstd::seq_lib::seq_to_set_is_finite;
use crate::ledger::{
    Transaction, sum, all_zero, apply, apply_all, fits_i64, is_valid, settles, lemma_sum_update,
    lemma_all_zero_sum,
};
use crate::settle::{
    first_open, count_open, opposite, clearing, counterpart, is_clearing_settlement,
    lemma_first_open_from, lemma_first_open, lemma_count_open_update, lemma_clearing_effect,
    lemma_clearing_fits, lemma_nonneg_sum, lemma_nonpos_sum,
};

verus! {

/// The balances of the members that `lab` puts in group `h`; zero elsewhere.
pub open spec fn masked(b: Seq<int>, lab: Seq<int>, h: int) -> Seq<int> {
    Seq::new(b.len(), |x: int| if lab[x] == h { b[x] } else { 0 })
}

/// `lab` splits the members into groups that each sum to zero.
pub open spec fn is_grouping(b: Seq<int>, lab: Seq<int>) -> bool {
    &&& lab.len() == b.len()
    &&& forall|h: int| #[trigger] sum(masked(b, lab, h)) == 0
}

/// The groups of `lab` that hold at least one unsettled member.
pub open spec fn open_groups(b: Seq<int>, lab: Seq<int>) -> Set<int> {
    Set::new(|h: int| exists|x: int| 0 <= x < b.len() && b[x] != 0 && lab[x] == h)
}

spec fn label_bound(lab: Seq<int>) -> int
    decreases lab.len(),
{
    if lab.len() == 0 {
        0
    } else if lab.last() > label_bound(lab.drop_last()) {
        lab.last()
    } else {
        label_bound(lab.drop_last())
    }
}

proof fn lemma_label_bound(lab: Seq<int>)
    ensures
        forall|x: int| 0 <= x < lab.len() ==> lab[x] <= label_bound(lab),
    decreases lab.len(),
{
    if lab.len() > 0 {
        lemma_label_bound(lab.drop_last());
        assert forall|x: int| 0 <= x < lab.len() implies lab[x] <= label_bound(lab) by {
            if x < lab.len() - 1 {
                assert(lab[x] == lab.drop_last()[x]);
            }
        }
    }
}

proof fn lemma_open_groups_finite(b: Seq<int>, lab: Seq<int>)
    requires
        lab.len() == b.len(),
    ensures
        open_groups(b, lab).finite(),
{
    seq_to_set_is_finite(lab);
    assert forall|h: int| open_groups(b, lab).contains(h) implies lab.to_set().contains(h) by {
        let x = choose|x: int| 0 <= x < b.len() && b[x] != 0 && lab[x] == h;
        assert(lab.contains(h));
    }
    lemma_len_subset(open_groups(b, lab), lab.to_set());
}

proof fn lemma_count_open_all_zero(b: Seq<int>)
    requires
        all_zero(b),
    ensures
        count_open(b) == 0,
    decreases b.len(),
{
    if b.len() > 0 {
        lemma_count_open_all_zero(b.drop_last());
    }
}

proof fn lemma_sum_two_changes(u: Seq<int>, v: Seq<int>, f: int, g: int)
    requires
        u.len() == v.len(),
        0 <= f < u.len(),
        0 <= g < u.len(),
        f != g,
        forall|x: int| 0 <= x < u.len() && x != f && x != g ==> u[x] == v[x],
    ensures
        sum(u) == sum(v) + (u[f] - v[f]) + (u[g] - v[g]),
{
    let w = v.update(f, u[f]);
    lemma_sum_update(v, f, u[f]);
    lemma_sum_update(w, g, u[g]);
    assert(u =~= w.update(g, u[g]));
}

proof fn lemma_sum_add(u: Seq<int>, v: Seq<int>, w: Seq<int>)
    requires
        u.len() == v.len(),
        w.len() == u.len(),
        forall|x: int| 0 <= x < w.len() ==> w[x] == u[x] + v[x],
    ensures
        sum(w) == sum(u) + sum(v),
    decreases w.len(),
{
    if w.len() > 0 {
        lemma_sum_add(u.drop_last(), v.drop_last(), w.drop_last());
    }
}

/// Two balance lists that differ at `f` and `g` only, by amounts that cancel.
pub open spec fn differ_pair(b: Seq<int>, c: Seq<int>, f: int, g: int) -> bool {
    &&& b.len() == c.len()
    &&& 0 <= f < b.len()
    &&& 0 <= g < b.len()
    &&& f != g
    &&& forall|x: int| 0 <= x < b.len() && x != f && x != g ==> b[x] == c[x]
    &&& (b[f] - c[f]) + (b[g] - c[g]) == 0
}

/// A transfer inside one group keeps every group's sum.
proof fn lemma_regroup_same(b: Seq<int>, c: Seq<int>, lab: Seq<int>, f: int, g: int)
    requires
        differ_pair(b, c, f, g),
        lab.len() == b.len(),
        lab[f] == lab[g],
    ensures
        forall|h: int| #[trigger] sum(masked(b, lab, h)) == sum(masked(c, lab, h)),
{
    assert forall|h: int| #[trigger] sum(masked(b, lab, h)) == sum(masked(c, lab, h)) by {
        lemma_sum_two_changes(masked(b, lab, h), masked(c, lab, h), f, g);
    }
}

/// Given a split into zero-sum groups, the first unsettled member can always be
/// cleared inside its own group, so a clearing settlement needs at most one
/// transfer per unsettled member beyond one per open group.
pub proof fn lemma_clearing_within_groups(b: Seq<int>, lab: Seq<int>) -> (c: Seq<Transaction>)
    requires
        is_grouping(b, lab),
        fits_i64(b),
        b.len() <= usize::MAX,
    ensures
        is_clearing_settlement(b, c),
        c.len() + open_groups(b, lab).len() <= count_open(b),
    decreases count_open(b),
{
    lemma_open_groups_finite(b, lab);
    lemma_first_open_from(b, 0);
    let i = first_open(b);
    if i == b.len() {
        assert(open_groups(b, lab) =~= Set::<int>::empty());
        Seq::empty()
    } else {
        let grp = lab[i];
        let m = masked(b, lab, grp);
        assert(sum(m) == 0);
        assert(m[i] == b[i]);
        if b[i] > 0 {
            if forall|x: int| 0 <= x < m.len() ==> m[x] >= 0 {
                lemma_nonneg_sum(m, i);
            }
        } else {
            if forall|x: int| 0 <= x < m.len() ==> m[x] <= 0 {
                lemma_nonpos_sum(m, i);
            }
        }
        let x0 = choose|x: int| 0 <= x < m.len() && opposite(b[i], m[x]);
        assert(lab[x0] == grp && opposite(b[i], b[x0]));
        let j = choose|j: int| 0 <= j < b.len() && lab[j] == grp && opposite(b[i], b[j]);
        let t = clearing(b, i, j);
        lemma_clearing_effect(b, i, j);
        lemma_clearing_fits(b, i, j);
        let b2 = apply(b, t);
        assert(differ_pair(b2, b, i, j));
        lemma_regroup_same(b2, b, lab, i, j);
        assert(is_grouping(b2, lab));
        let c2 = lemma_clearing_within_groups(b2, lab);
        lemma_open_groups_finite(b2, lab);
        let s1 = open_groups(b, lab);
        let s2 = open_groups(b2, lab);
        lemma_count_open_update(b, j, b[j] + b[i]);
        lemma_count_open_update(b.update(j, b[j] + b[i]), i, 0);
        if b2[j] != 0 {
            assert forall|h: int| s1.contains(h) implies s2.contains(h) by {
                let x = choose|x: int| 0 <= x < b.len() && b[x] != 0 && lab[x] == h;
                if x != i && x != j {
                    assert(b2[x] == b[x]);
                }
            }
            lemma_len_subset(s1, s2);
        } else {
            assert forall|h: int| s1.remove(grp).contains(h) implies s2.contains(h) by {
                let x = choose|x: int| 0 <= x < b.len() && b[x] != 0 && lab[x] == h;
                assert(b2[x] == b[x]);
            }
            lemma_len_subset(s1.remove(grp), s2);
            axiom_set_remove_len(s1, grp);
        }
        let c = seq![t] + c2;
        assert(c[0] == t);
        assert(c.drop_first() =~= c2);
        lemma_first_open(b, i);
        c
    }
}

/// Any settlement, with any amounts between any members, splits the group into
/// zero-sum groups: members joined by a transfer share a group. It needs at
/// least one transfer per unsettled member beyond one per open group.
pub proof fn lemma_grouping_of_settlement(b: Seq<int>, s: Seq<Transaction>) -> (lab: Seq<int>)
    requires
        settles(b, s),
    ensures
        is_grouping(b, lab),
        count_open(b) <= s.len() + open_groups(b, lab).len(),
    decreases s.len(),
{
    if s.len() == 0 {
        let lab = Seq::new(b.len(), |x: int| 0int);
        assert forall|h: int| #[trigger] sum(masked(b, lab, h)) == 0 by {
            lemma_all_zero_sum(masked(b, lab, h));
        }
        lemma_count_open_all_zero(b);
        lab
    } else {
        let t = s[0];
        assert(is_valid(t, b.len() as int));
        let c = apply(b, t);
        let rest = s.drop_first();
        assert forall|k: int| 0 <= k < rest.len() implies is_valid(#[trigger] rest[k], c.len() as int) by {
            assert(rest[k] == s[k + 1]);
            assert(is_valid(s[k + 1], b.len() as int));
        }
        let lab2 = lemma_grouping_of_settlement(c, rest);
        let f = t.from_index as int;
        let g = t.to_index as int;
        assert(differ_pair(b, c, f, g));
        lemma_open_groups_finite(c, lab2);
        let s2 = open_groups(c, lab2);
        lemma_count_open_update(c, f, b[f]);
        lemma_count_open_update(c.update(f, b[f]), g, b[g]);
        assert(c.update(f, b[f]).update(g, b[g]) =~= b);
        if c[f] == 0 && c[g] == 0 {
            lemma_label_bound(lab2);
            let fresh = label_bound(lab2) + 1;
            let lab = lab2.update(f, fresh).update(g, fresh);
            assert forall|h: int| #[trigger] sum(masked(b, lab, h)) == 0 by {
                lemma_sum_two_changes(masked(b, lab, h), masked(c, lab2, h), f, g);
                assert(sum(masked(c, lab2, h)) == 0);
            }
            lemma_open_groups_finite(b, lab);
            let s1 = open_groups(b, lab);
            assert forall|h: int| s2.insert(fresh).contains(h) implies s1.contains(h) by {
                if h != fresh {
                    let x = choose|x: int| 0 <= x < c.len() && c[x] != 0 && lab2[x] == h;
                    assert(b[x] != 0 && lab[x] == h);
                } else {
                    assert(b[f] != 0 && lab[f] == h);
                }
            }
            assert(!s2.contains(fresh));
            lemma_len_subset(s2.insert(fresh), s1);
            axiom_set_insert_len(s2, fresh);
            lab
        } else if c[f] == 0 || c[g] == 0 {
            let (p, q) = if c[f] != 0 {
                (f, g)
            } else {
                (g, f)
            };
            let lab = lab2.update(q, lab2[p]);
            assert forall|h: int| #[trigger] sum(masked(b, lab, h)) == 0 by {
                lemma_sum_two_changes(masked(b, lab, h), masked(c, lab2, h), f, g);
                assert(sum(masked(c, lab2, h)) == 0);
            }
            lemma_open_groups_finite(b, lab);
            let s1 = open_groups(b, lab);
            assert forall|h: int| s2.contains(h) implies s1.contains(h) by {
                let x = choose|x: int| 0 <= x < c.len() && c[x] != 0 && lab2[x] == h;
                if x == p {
                    assert(b[q] != 0 && lab[q] == h);
                } else {
                    assert(b[x] != 0 && lab[x] == h);
                }
            }
            lemma_len_subset(s2, s1);
            lab
        } else {
            let ga = lab2[f];
            let gb = lab2[g];
            let lab = Seq::new(b.len(), |x: int| if lab2[x] == gb { ga } else { lab2[x] });
            assert forall|h: int| #[trigger] sum(masked(b, lab, h)) == 0 by {
                assert(sum(masked(c, lab2, h)) == 0);
                if h == ga && ga != gb {
                    let w = Seq::new(
                        b.len(),
                        |x: int| masked(c, lab2, ga)[x] + masked(c, lab2, gb)[x],
                    );
                    assert(sum(masked(c, lab2, ga)) == 0);
                    assert(sum(masked(c, lab2, gb)) == 0);
                    lemma_sum_add(masked(c, lab2, ga), masked(c, lab2, gb), w);
                    lemma_sum_two_changes(masked(b, lab, h), w, f, g);
                } else if h == gb && ga != gb {
                    lemma_all_zero_sum(masked(b, lab, h));
                } else {
                    lemma_sum_two_changes(masked(b, lab, h), masked(c, lab2, h), f, g);
                }
            }
            lemma_open_groups_finite(b, lab);
            let s1 = open_groups(b, lab);
            if s1.contains(ga) {
                assert forall|h: int| s2.remove(gb).contains(h) implies s1.contains(h) by {
                    if h != ga {
                        let x = choose|x: int| 0 <= x < c.len() && c[x] != 0 && lab2[x] == h;
                        assert(b[x] != 0 && lab[x] == h);
                    }
                }
                lemma_len_subset(s2.remove(gb), s1);
                axiom_set_remove_len(s2, gb);
            } else {
                assert(lab[f] == ga && lab[g] == ga);
                assert forall|h: int| s2.remove(ga).remove(gb).contains(h) implies s1.contains(h) by {
                    let x = choose|x: int| 0 <= x < c.len() && c[x] != 0 && lab2[x] == h;
                    assert(b[x] != 0 && lab[x] == h);
                }
                lemma_len_subset(s2.remove(ga).remove(gb), s1);
                axiom_set_remove_len(s2, ga);
                axiom_set_remove_len(s2.remove(ga), gb);
            }
            lab
        }
    }
}

/// No settlement of a group, with any amounts between any members, is shorter
/// than its shortest clearing settlement.
pub proof fn lemma_clearing_is_optimal(b: Seq<int>, s: Seq<Transaction>) -> (c: Seq<Transaction>)
    requires
        settles(b, s),
        fits_i64(b),
        b.len() <= usize::MAX,
    ensures
        is_clearing_settlement(b, c),
        c.len() <= s.len(),
{
    let lab = lemma_grouping_of_settlement(b, s);
    lemma_clearing_within_groups(b, lab)
}

} // verus!
