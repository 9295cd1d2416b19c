use settle_up::ledger::{Person, Transaction};
use settle_up::settle::{get_minimum_transactions, search_best_transaction};
use settle_up::share::{adjust_for_share, share_of};

fn group(entries: &[(&str, i64)]) -> Vec<Person> {
    entries.iter().map(|(name, owed)| Person::new(name, *owed)).collect()
}

fn owed(persons: &[Person]) -> Vec<i64> {
    persons.iter().map(|p| p.owed).collect()
}

fn replay(start: &[i64], transactions: &[Transaction]) -> Vec<i128> {
    let mut b: Vec<i128> = start.iter().map(|x| *x as i128).collect();
    for t in transactions {
        b[t.from_index] += t.amount as i128;
        b[t.to_index] -= t.amount as i128;
    }
    b
}

fn check_settles(start: &[i64], transactions: &[Transaction]) {
    for t in transactions {
        assert!(t.amount > 0);
        assert_ne!(t.from_index, t.to_index);
        assert!(t.from_index < start.len() && t.to_index < start.len());
    }
    assert!(replay(start, transactions).iter().all(|x| *x == 0));
}

#[test]
fn test_min_ddtdl() {
    let persons = group(&[("Dave", 10), ("Dieter", 35), ("Thorben", 100), ("Daniel", 0), ("Leon", 0)]);
    let result = get_minimum_transactions(persons);
    assert!(result.is_some());
    assert_eq!(result.unwrap().len(), 4);
}

#[test]
fn test_min_daniel() {
    let persons = group(&[
        ("Daniel", 13),
        ("Thorben", 7),
        ("Leon", 3),
        ("Patrick", 7),
        ("Michael", 0),
        ("Jonas", 0),
    ]);
    let result = get_minimum_transactions(persons);
    assert!(result.is_some());
    let transactions = result.unwrap();
    assert_eq!(transactions.len(), 4);
    check_settles(&[8, 2, -2, 2, -5, -5], &transactions);
}

#[test]
fn rebasing_first_group_gives_the_stated_balances() {
    let mut persons = group(&[("Dave", 10), ("Dieter", 35), ("Thorben", 100), ("Daniel", 0), ("Leon", 0)]);
    assert_eq!(share_of(&persons), (29, 0));
    adjust_for_share(&mut persons);
    assert_eq!(owed(&persons), vec![-19, 6, 71, -29, -29]);
    assert_eq!(persons[2].name, "Thorben");
}

#[test]
fn first_group_settlement_zeroes_rebased_balances() {
    let persons = group(&[("Dave", 10), ("Dieter", 35), ("Thorben", 100), ("Daniel", 0), ("Leon", 0)]);
    let transactions = get_minimum_transactions(persons).unwrap();
    check_settles(&[-19, 6, 71, -29, -29], &transactions);
}

#[test]
fn settled_pair_needs_no_transfer() {
    let persons = group(&[("A", 0), ("B", 0)]);
    let result = get_minimum_transactions(persons);
    assert_eq!(result, Some(vec![]));
}

#[test]
fn debtor_pays_creditor() {
    let persons = group(&[("A", 5), ("B", -5)]);
    let result = get_minimum_transactions(persons).unwrap();
    assert_eq!(result, vec![Transaction { amount: 5, from_index: 1, to_index: 0 }]);
}

#[test]
fn debtor_first_pays_creditor() {
    let persons = group(&[("A", -7), ("B", 7)]);
    let result = get_minimum_transactions(persons).unwrap();
    assert_eq!(result, vec![Transaction { amount: 7, from_index: 0, to_index: 1 }]);
}

#[test]
fn single_member_needs_no_transfer() {
    let persons = group(&[("Solo", 42)]);
    assert_eq!(get_minimum_transactions(persons), Some(vec![]));
}

#[test]
fn empty_group_has_no_result() {
    assert_eq!(get_minimum_transactions(Vec::new()), None);
}

#[test]
fn indivisible_total_is_settled() {
    // Three people splitting 100.00: the leftover cent goes to the first share.
    let mut persons = group(&[("A", 10000), ("B", 0), ("C", 0)]);
    assert_eq!(share_of(&persons), (3333, 1));
    adjust_for_share(&mut persons);
    assert_eq!(owed(&persons), vec![6666, -3333, -3333]);
    let persons = group(&[("A", 10000), ("B", 0), ("C", 0)]);
    let transactions = get_minimum_transactions(persons).unwrap();
    assert_eq!(
        transactions,
        vec![
            Transaction { amount: 6666, from_index: 1, to_index: 0 },
            Transaction { amount: 3333, from_index: 2, to_index: 1 },
        ]
    );
    check_settles(&[6666, -3333, -3333], &transactions);
}

#[test]
fn one_cent_left_over_is_absorbed() {
    let persons = group(&[("A", 1), ("B", 0)]);
    assert_eq!(get_minimum_transactions(persons), Some(vec![]));
}

#[test]
fn rebased_balance_out_of_range_has_no_result() {
    let persons = group(&[("A", i64::MAX), ("B", i64::MIN + 1)]);
    assert_eq!(share_of(&persons), (0, 0));
    let persons = group(&[("A", i64::MAX), ("B", i64::MIN), ("C", i64::MIN)]);
    assert_eq!(share_of(&persons), (-3074457345618258603, 0));
    assert_eq!(get_minimum_transactions(persons), None);
}

#[test]
fn wide_balances_with_leftover_fit_after_rebasing() {
    let mut persons = group(&[("A", i64::MAX), ("B", i64::MAX), ("C", i64::MIN), ("D", i64::MIN)]);
    assert_eq!(share_of(&persons), (-1, 2));
    adjust_for_share(&mut persons);
    assert_eq!(owed(&persons), vec![i64::MAX, i64::MAX, i64::MIN + 1, i64::MIN + 1]);
}

#[test]
fn extreme_balances_are_settled_exactly() {
    let persons = group(&[("A", i64::MIN), ("B", i64::MAX), ("C", 1)]);
    let transactions = get_minimum_transactions(persons).unwrap();
    assert_eq!(transactions.len(), 2);
    check_settles(&[i64::MIN, i64::MAX, 1], &transactions);
    assert_eq!(transactions[0], Transaction { amount: 1u64 << 63, from_index: 0, to_index: 1 });
}

#[test]
fn share_rounds_down_and_spreads_the_rest() {
    assert_eq!(share_of(&group(&[("A", 1), ("B", 2)])), (1, 1));
    assert_eq!(share_of(&group(&[("A", -1), ("B", -2)])), (-2, 1));
    assert_eq!(share_of(&group(&[("A", 6), ("B", 0), ("C", 0)])), (2, 0));
    let mut persons = group(&[("A", 1), ("B", 2)]);
    adjust_for_share(&mut persons);
    assert_eq!(owed(&persons), vec![-1, 1]);
    let mut persons = group(&[("A", 5), ("B", 0), ("C", 0), ("D", 0)]);
    adjust_for_share(&mut persons);
    assert_eq!(owed(&persons), vec![3, -1, -1, -1]);
}

#[test]
fn rebasing_twice_changes_nothing_more() {
    let mut persons = group(&[("A", 7), ("B", 3), ("C", 1)]);
    adjust_for_share(&mut persons);
    let once = owed(&persons);
    assert_eq!(once.iter().sum::<i64>(), 0);
    adjust_for_share(&mut persons);
    assert_eq!(owed(&persons), once);
}

#[test]
fn names_do_not_change_the_result() {
    let first = group(&[("A", 4), ("B", -4), ("C", -4), ("D", 4)]);
    let second = group(&[("W", 4), ("X", -4), ("Y", -4), ("Z", 4)]);
    assert_eq!(get_minimum_transactions(first), get_minimum_transactions(second));
}

#[test]
fn rebasing_zero_sum_group_changes_nothing() {
    let mut persons = group(&[("A", 4), ("B", -9), ("C", 5)]);
    adjust_for_share(&mut persons);
    assert_eq!(owed(&persons), vec![4, -9, 5]);
    adjust_for_share(&mut persons);
    assert_eq!(owed(&persons), vec![4, -9, 5]);
}

#[test]
fn matching_pairs_are_found() {
    // Two independent pairs settle in two transfers, not three.
    let balances = vec![3, 5, -3, -5];
    let transactions = search_best_transaction(balances.clone(), Vec::new(), None).unwrap();
    assert_eq!(transactions.len(), 2);
    check_settles(&balances, &transactions);
}

#[test]
fn first_shortest_branch_is_kept() {
    let balances = vec![4, -4, -4, 4];
    let transactions = search_best_transaction(balances, Vec::new(), None).unwrap();
    assert_eq!(
        transactions,
        vec![
            Transaction { amount: 4, from_index: 1, to_index: 0 },
            Transaction { amount: 4, from_index: 2, to_index: 3 },
        ]
    );
}

#[test]
fn search_keeps_previous_transfers() {
    let earlier = Transaction { amount: 9, from_index: 0, to_index: 1 };
    let result = search_best_transaction(vec![2, -2], vec![earlier], None).unwrap();
    assert_eq!(result, vec![earlier, Transaction { amount: 2, from_index: 1, to_index: 0 }]);
}

#[test]
fn search_gives_up_at_the_bound() {
    assert_eq!(search_best_transaction(vec![0, 0], Vec::new(), Some(0)), None);
    assert_eq!(search_best_transaction(vec![2, -2], Vec::new(), Some(1)), None);
    assert_eq!(search_best_transaction(vec![2, -2], Vec::new(), Some(2)).map(|v| v.len()), Some(1));
    assert_eq!(search_best_transaction(vec![3, 5, -3, -5], Vec::new(), Some(2)), None);
    assert_eq!(search_best_transaction(vec![3, 5, -3, -5], Vec::new(), Some(3)).map(|v| v.len()), Some(2));
}

#[test]
fn unbalanced_search_has_no_result() {
    assert_eq!(search_best_transaction(vec![3, -1], Vec::new(), None), None);
    assert_eq!(search_best_transaction(vec![2, 2], Vec::new(), None), None);
}

#[test]
fn larger_group_is_settled_minimally() {
    // {10,-10}, {7,-3,-4}, {1,-1}: three groups among seven members.
    let balances = vec![10, 7, 1, -3, -10, -4, -1];
    let transactions = search_best_transaction(balances.clone(), Vec::new(), None).unwrap();
    assert_eq!(transactions.len(), 4);
    check_settles(&balances, &transactions);
}

#[test]
fn shifting_every_balance_keeps_the_rebase() {
    let mut base = group(&[("A", 7), ("B", 3), ("C", 1)]);
    let mut shifted = group(&[("A", 17), ("B", 13), ("C", 11)]);
    adjust_for_share(&mut base);
    adjust_for_share(&mut shifted);
    assert_eq!(owed(&base), vec![3, -1, -2]);
    assert_eq!(owed(&shifted), owed(&base));
}
