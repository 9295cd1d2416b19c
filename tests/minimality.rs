use settle_up::settle::search_best_transaction;

/// Every vector of `n` balances in `lo..=hi` that sums to zero.
fn zero_sum_groups(n: usize, lo: i64, hi: i64) -> Vec<Vec<i64>> {
    let mut out = Vec::new();
    let mut current = vec![lo; n];
    loop {
        if current.iter().sum::<i64>() == 0 {
            out.push(current.clone());
        }
        let mut k = 0;
        while k < n && current[k] == hi {
            current[k] = lo;
            k += 1;
        }
        if k == n {
            return out;
        }
        current[k] += 1;
    }
}

/// Whether some sequence of at most `depth` transfers of 1..=`max_amount`
/// between distinct members brings every balance to zero.
fn settles_within(b: &mut Vec<i64>, depth: usize, max_amount: i64) -> bool {
    let open = b.iter().filter(|x| **x != 0).count();
    if open == 0 {
        return true;
    }
    if depth == 0 || open > 2 * depth {
        return false;
    }
    let n = b.len();
    for from in 0..n {
        for to in 0..n {
            if from == to {
                continue;
            }
            for amount in 1..=max_amount {
                b[from] += amount;
                b[to] -= amount;
                let found = settles_within(b, depth - 1, max_amount);
                b[from] -= amount;
                b[to] += amount;
                if found {
                    return true;
                }
            }
        }
    }
    false
}

/// The largest number of disjoint zero-sum groups that together hold every
/// nonzero member.
fn most_zero_sum_groups(b: &[i64]) -> usize {
    let members: Vec<i64> = b.iter().copied().filter(|x| *x != 0).collect();
    let m = members.len();
    let total = |mask: usize| -> i64 { (0..m).filter(|k| mask & (1 << k) != 0).map(|k| members[k]).sum() };
    let mut best: Vec<Option<usize>> = vec![None; 1 << m];
    best[0] = Some(0);
    for mask in 1..(1usize << m) {
        if total(mask) != 0 {
            continue;
        }
        let low = mask & mask.wrapping_neg();
        let rest = mask ^ low;
        let mut sub = rest;
        loop {
            let group = sub | low;
            if total(group) == 0 {
                if let Some(r) = best[mask ^ group] {
                    if best[mask].map_or(true, |cur| r + 1 > cur) {
                        best[mask] = Some(r + 1);
                    }
                }
            }
            if sub == 0 {
                break;
            }
            sub = (sub - 1) & rest;
        }
    }
    best[(1 << m) - 1].unwrap()
}

#[test]
fn no_shorter_arbitrary_settlement_for_four_members() {
    for b in zero_sum_groups(4, -3, 3) {
        let found = search_best_transaction(b.clone(), Vec::new(), None).unwrap();
        let positive: i64 = b.iter().filter(|x| **x > 0).sum();
        if !found.is_empty() {
            let mut work = b.clone();
            assert!(!settles_within(&mut work, found.len() - 1, positive), "{:?}", b);
        }
    }
}

#[test]
fn length_matches_zero_sum_grouping_for_five_members() {
    for b in zero_sum_groups(5, -3, 3) {
        let found = search_best_transaction(b.clone(), Vec::new(), None).unwrap();
        let open = b.iter().filter(|x| **x != 0).count();
        assert_eq!(found.len(), open - most_zero_sum_groups(&b), "{:?}", b);
    }
}

#[test]
fn length_matches_zero_sum_grouping_for_six_members() {
    for b in zero_sum_groups(6, -2, 2) {
        let found = search_best_transaction(b.clone(), Vec::new(), None).unwrap();
        let open = b.iter().filter(|x| **x != 0).count();
        assert_eq!(found.len(), open - most_zero_sum_groups(&b), "{:?}", b);
    }
}
