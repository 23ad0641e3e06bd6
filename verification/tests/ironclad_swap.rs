use tig_innovator::ironclad_swap::{
    apply_swap, greedy_keys, local_search_steepest_ascent, total_value, Hyperparameters, IroncladSearch,
};
use tig_innovator::knapsack_model::{Challenge, Move};

fn instance(weights: Vec<u32>, values: Vec<u32>, v: Vec<Vec<i32>>, max_weight: u32) -> Challenge {
    Challenge {
        num_items: weights.len(),
        weights,
        values,
        interaction_values: v,
        max_weight,
    }
}

/// Stable ordering by `key / weight`, largest first, as floating point.
fn ratio_order(keys: &[i64], weights: &[u32], items: &[usize]) -> Vec<usize> {
    let mut order = items.to_vec();
    order.sort_by(|&a, &b| {
        let ra = keys[a] as f64 / weights[a] as f64;
        let rb = keys[b] as f64 / weights[b] as f64;
        rb.partial_cmp(&ra).unwrap_or(std::cmp::Ordering::Equal)
    });
    order
}

/// Drives the search the way the solver does; returns every saved
/// solution, the best value and the kicks done.
fn run(ch: Challenge, hp: Hyperparameters) -> (Vec<Vec<usize>>, i64, usize) {
    let weights = ch.weights.clone();
    let n = ch.num_items;
    let keys = greedy_keys(&ch);
    let all: Vec<usize> = (0..n).collect();
    let order = ratio_order(&keys, &weights, &all);
    let mut search = IroncladSearch::new(ch, &hp, &order);
    let mut saves = vec![search.best_items()];
    loop {
        if search.descend() {
            saves.push(search.best_items());
        }
        match search.start_kick() {
            None => break,
            Some(req) => {
                let ord = ratio_order(&req.keys, &weights, &req.candidates);
                search.finish_kick(&ord);
            }
        }
    }
    saves.push(search.best_items());
    (saves, search.best_total(), search.kicks_done())
}

fn small() -> Challenge {
    instance(
        vec![2, 3, 4, 5],
        vec![3, 4, 5, 6],
        vec![vec![0, 1, 0, 2], vec![1, 0, 3, -1], vec![0, 3, 0, 4], vec![2, -1, 4, 0]],
        9,
    )
}

fn medium() -> Challenge {
    instance(
        vec![6, 3, 7, 1, 2, 9, 2, 6],
        vec![18, 1, 16, 6, 1, 2, 13, 13],
        vec![
            vec![0, -8, -3, -8, 7, 3, -9, 8],
            vec![-8, 0, -7, -3, 10, 10, 8, -9],
            vec![-3, -7, 0, 8, 8, 2, -9, -3],
            vec![-8, -3, 8, 0, -9, 7, -6, -1],
            vec![7, 10, 8, -9, 0, 3, -6, 7],
            vec![3, 10, 2, 7, 3, 0, -7, 8],
            vec![-9, 8, -9, -6, -6, -7, 0, -1],
            vec![8, -9, -3, -1, 7, 8, -1, 0],
        ],
        15,
    )
}

fn kicked() -> Challenge {
    instance(
        vec![7, 4, 2, 7, 5, 7, 5, 3, 8, 7],
        vec![8, 8, 11, 15, 4, 18, 1, 9, 15, 11],
        vec![
            vec![0, 9, 8, 9, 10, 3, 9, -1, 3, 9],
            vec![9, 0, 0, -10, -10, 7, -9, -5, 1, -3],
            vec![8, 0, 0, -5, -10, -3, 2, -7, 10, -10],
            vec![9, -10, -5, 0, 6, 4, 0, 4, -10, -1],
            vec![10, -10, -10, 6, 0, 6, -3, 6, -2, -10],
            vec![3, 7, -3, 4, 6, 0, 0, -8, 10, 7],
            vec![9, -9, 2, 0, -3, 0, 0, 8, 5, -8],
            vec![-1, -5, -7, 4, 6, -8, 8, 0, 5, -1],
            vec![3, 1, 10, -10, -2, 10, 5, 5, 0, 6],
            vec![9, -3, -10, -1, -10, 7, -8, -1, 6, 0],
        ],
        18,
    )
}

#[test]
fn total_value_counts_values_and_ordered_pairs() {
    let ch = small();
    // values 3 + 5 + 6, pairs V[0][2] + V[0][3] + V[2][3] = 0 + 2 + 4
    assert_eq!(total_value(&ch, &vec![0, 2, 3]), 20);
    assert_eq!(total_value(&ch, &vec![]), 0);
    assert_eq!(total_value(&ch, &vec![1]), 4);
}

#[test]
fn total_value_reads_pairs_in_list_order() {
    // an asymmetric matrix shows which entry of each pair is read
    let ch = instance(vec![1, 1], vec![0, 0], vec![vec![0, 5], vec![-2, 0]], 2);
    assert_eq!(total_value(&ch, &vec![0, 1]), 5);
    assert_eq!(total_value(&ch, &vec![1, 0]), -2);
}

#[test]
fn total_value_is_order_free_on_symmetric_instances() {
    let ch = medium();
    let a = total_value(&ch, &vec![4, 7, 0]);
    assert_eq!(a, total_value(&ch, &vec![0, 4, 7]));
    assert_eq!(a, total_value(&ch, &vec![7, 0, 4]));
    assert_eq!(a, 54);
}

#[test]
fn greedy_keys_add_the_whole_row() {
    let ch = small();
    assert_eq!(greedy_keys(&ch), vec![6, 7, 12, 11]);
}

#[test]
fn hyperparameter_defaults() {
    let hp = Hyperparameters::default();
    assert_eq!(hp.effective_kick_size(), 3);
    assert_eq!(hp.effective_max_kicks(), 32);
    let hp = Hyperparameters { kick_size: Some(0), max_kicks: Some(5) };
    assert_eq!(hp.effective_kick_size(), 1);
    assert_eq!(hp.effective_max_kicks(), 5);
    let hp = Hyperparameters { kick_size: Some(7), max_kicks: None };
    assert_eq!(hp.effective_kick_size(), 7);
    assert_eq!(hp.effective_max_kicks(), 32);
}

#[test]
fn well_formedness_check() {
    assert!(small().is_well_formed());
    let asym = instance(vec![1, 1], vec![0, 0], vec![vec![0, 5], vec![-2, 0]], 2);
    assert!(!asym.is_well_formed());
    let diag = instance(vec![1, 1], vec![0, 0], vec![vec![1, 0], vec![0, 0]], 2);
    assert!(!diag.is_well_formed());
    let short_row = instance(vec![1, 1], vec![0, 0], vec![vec![0, 0], vec![0]], 2);
    assert!(!short_row.is_well_formed());
    let mut wrong_count = small();
    wrong_count.num_items = 3;
    assert!(!wrong_count.is_well_formed());
}

#[test]
fn initial_greedy_fill_respects_capacity() {
    let ch = small();
    let keys = greedy_keys(&ch);
    let order = ratio_order(&keys, &ch.weights.clone(), &[0, 1, 2, 3]);
    assert_eq!(order, vec![0, 2, 1, 3]);
    let search = IroncladSearch::new(ch, &Hyperparameters::default(), &order);
    // 2 + 4 + 3 = 9 fits; item 3 (weight 5) does not
    assert_eq!(search.best_items(), vec![0, 2, 1]);
    assert_eq!(search.best_total(), 3 + 5 + 4 + 0 + 1 + 3);
}

#[test]
fn greedy_fill_skips_bad_entries() {
    let ch = small();
    // out-of-range and repeated entries are passed over
    let search = IroncladSearch::new(ch, &Hyperparameters::default(), &vec![9, 0, 0, 3, 1]);
    assert_eq!(search.best_items(), vec![0, 3]);
}

#[test]
fn small_instance_is_already_optimal() {
    let (saves, best, kicks) = run(small(), Hyperparameters::default());
    assert_eq!(saves, vec![vec![0, 2, 1], vec![0, 2, 1]]);
    assert_eq!(best, 16);
    // the first kick round brings nothing better, so the kicks stop
    assert_eq!(kicks, 1);
}

#[test]
fn medium_instance_descent_improves() {
    let hp = Hyperparameters { kick_size: Some(2), max_kicks: Some(3) };
    let (saves, best, kicks) = run(medium(), hp);
    assert_eq!(saves, vec![vec![4, 7, 2], vec![4, 7, 0], vec![4, 7, 0]]);
    assert_eq!(best, 54);
    assert_eq!(kicks, 1);
}

#[test]
fn kicks_find_better_optima() {
    let hp = Hyperparameters { kick_size: Some(2), max_kicks: Some(5) };
    let (saves, best, kicks) = run(kicked(), hp);
    assert_eq!(
        saves,
        vec![vec![0, 5, 7], vec![0, 5, 1], vec![7, 2, 8, 6], vec![7, 2, 8, 6]]
    );
    assert_eq!(best, 59);
    // the first kick round improves, the second does not and ends the run
    assert_eq!(kicks, 2);
}

#[test]
fn saved_values_strictly_increase_and_fit() {
    let ch = kicked();
    let hp = Hyperparameters { kick_size: Some(2), max_kicks: Some(5) };
    let (saves, _, _) = run(kicked(), hp);
    let values: Vec<i64> = saves.iter().map(|s| total_value(&ch, s)).collect();
    for w in values[..values.len() - 1].windows(2) {
        assert!(w[0] < w[1]);
    }
    for s in &saves {
        let w: u32 = s.iter().map(|&i| ch.weights[i]).sum();
        assert!(w <= ch.max_weight);
    }
}

#[test]
fn zero_kicks_stop_after_one_descent() {
    let hp = Hyperparameters { kick_size: None, max_kicks: Some(0) };
    let (saves, best, kicks) = run(medium(), hp);
    assert_eq!(saves.last().unwrap(), &vec![4, 7, 0]);
    assert_eq!(best, 54);
    assert_eq!(kicks, 0);
}

#[test]
fn descend_reports_improvement_once() {
    let ch = medium();
    let keys = greedy_keys(&ch);
    let order = ratio_order(&keys, &ch.weights.clone(), &(0..8).collect::<Vec<_>>());
    let mut search = IroncladSearch::new(ch, &Hyperparameters::default(), &order);
    assert_eq!(search.best_total(), 42);
    assert!(search.descend());
    assert_eq!(search.best_items(), vec![4, 7, 0]);
    assert_eq!(search.best_total(), 54);
    // a local optimum does not move again
    assert!(!search.descend());
    assert_eq!(search.best_items(), vec![4, 7, 0]);
}

#[test]
fn kick_evicts_weakest_and_offers_unselected() {
    let ch = medium();
    let mut search = IroncladSearch::new(ch, &Hyperparameters { kick_size: Some(2), max_kicks: None }, &vec![4, 7, 0]);
    // marginal values against {4, 7, 0}: item 4 -> 1 + 7 + 7 = 15,
    // item 7 -> 13 + 7 + 8 = 28, item 0 -> 18 + 7 + 8 = 33
    let req = search.start_kick().unwrap();
    assert_eq!(req.candidates, vec![1, 2, 3, 4, 5, 6, 7]);
    // keys are the marginal value against {0} plus the value again
    assert_eq!(req.keys[4], 1 + 7 + 1);
    assert_eq!(req.keys[7], 13 + 8 + 13);
    assert_eq!(req.keys[0], 18 + 18);
    assert_eq!(search.current_items(), vec![0]);
    // 9 and 1 are passed over: out of range, and not fitting after 4 (6 + 2 + 9 > 15 for item 5)
    search.finish_kick(&vec![9, 4, 5, 1]);
    assert_eq!(search.current_items(), vec![0, 4, 1]);
    assert_eq!(search.kicks_done(), 1);
    // a second refill without an eviction changes nothing
    search.finish_kick(&vec![7]);
    assert_eq!(search.kicks_done(), 1);
    assert_eq!(search.best_items(), vec![4, 7, 0]);
}

#[test]
fn kick_on_empty_selection_stops() {
    let ch = instance(vec![5, 6], vec![1, 1], vec![vec![0, 0], vec![0, 0]], 4);
    let mut search = IroncladSearch::new(ch, &Hyperparameters::default(), &vec![0, 1]);
    assert_eq!(search.best_items(), Vec::<usize>::new());
    assert!(!search.descend());
    assert!(search.start_kick().is_none());
    assert_eq!(search.best_total(), 0);
}

/// The working parts of a selection: flags, weight and marginal values
/// `values[x] + sum of V[x][s]` over the selected `s`.
fn parts(ch: &Challenge, selected: &[usize]) -> (Vec<bool>, u32, Vec<i64>) {
    let n = ch.num_items;
    let mut flags = vec![false; n];
    let mut tw: u32 = 0;
    let mut sums: Vec<i64> = (0..n).map(|x| ch.values[x] as i64).collect();
    for &s in selected {
        flags[s] = true;
        tw += ch.weights[s];
        for x in 0..n {
            sums[x] += ch.interaction_values[x][s] as i64;
        }
    }
    (flags, tw, sums)
}

#[test]
fn swap_and_swap_back_restores_the_parts() {
    let ch = medium();
    let start = vec![4usize, 7, 0];
    let (mut flags, mut tw, mut sums) = parts(&ch, &start);
    let mut selected = start.clone();
    let (flags0, tw0, sums0) = (flags.clone(), tw, sums.clone());
    // swap item 7 (position 1) out for item 3, then 3 (now last) out for 7
    apply_swap(&ch, Move::Swap { pos: 1, item: 3 }, &mut flags, &mut selected, &mut tw, &mut sums);
    assert_eq!(selected, vec![4, 0, 3]);
    assert_eq!(tw, 6 + 2 + 1);
    assert_ne!(sums, sums0);
    apply_swap(&ch, Move::Swap { pos: 2, item: 7 }, &mut flags, &mut selected, &mut tw, &mut sums);
    assert_eq!(selected, vec![4, 0, 7]);
    assert_eq!(flags, flags0);
    assert_eq!(tw, tw0);
    assert_eq!(sums, sums0);
}

#[test]
fn steepest_ascent_twice_changes_nothing_the_second_time() {
    let ch = medium();
    let (mut flags, mut tw, mut sums) = parts(&ch, &[1]);
    let mut selected = vec![1usize];
    let before = total_value(&ch, &selected);
    local_search_steepest_ascent(&ch, &mut flags, &mut selected, &mut tw, &mut sums);
    let after = total_value(&ch, &selected);
    assert!(after > before);
    let (f1, s1, t1, m1) = (flags.clone(), selected.clone(), tw, sums.clone());
    local_search_steepest_ascent(&ch, &mut flags, &mut selected, &mut tw, &mut sums);
    assert_eq!((flags.clone(), selected.clone(), tw, sums.clone()), (f1, s1, t1, m1));
    // the parts still agree with the list
    let (fx, tx, mx) = parts(&ch, &selected);
    assert_eq!(flags, fx);
    assert_eq!(tw, tx);
    assert_eq!(sums, mx);
}

#[test]
fn refill_over_all_candidates_leaves_nothing_that_fits() {
    let ch = kicked();
    let weights = ch.weights.clone();
    let n = ch.num_items;
    let all: Vec<usize> = (0..n).collect();
    let max_weight = ch.max_weight;
    let order = ratio_order(&greedy_keys(&ch), &weights, &all);
    let mut search = IroncladSearch::new(ch, &Hyperparameters::default(), &order);
    search.descend();
    let req = search.start_kick().unwrap();
    let ord = ratio_order(&req.keys, &weights, &req.candidates);
    search.finish_kick(&ord);
    let items = search.current_items();
    let tw: u32 = items.iter().map(|&i| weights[i]).sum();
    assert!(tw <= max_weight);
    for j in 0..n {
        if !items.contains(&j) {
            assert!(tw + weights[j] > max_weight);
        }
    }
}

#[test]
fn total_value_of_repeated_items_ignores_order() {
    let ch = medium();
    let a = total_value(&ch, &vec![0, 1, 0]);
    assert_eq!(a, total_value(&ch, &vec![1, 0, 0]));
    assert_eq!(a, total_value(&ch, &vec![0, 0, 1]));
    // 18 + 1 + 18, pairs V[0][1] + V[0][0] + V[1][0] = -8 + 0 - 8
    assert_eq!(a, 21);
}

#[test]
fn total_value_append_rule() {
    let ch = medium();
    let base = total_value(&ch, &vec![4, 7]);
    // appending 0 adds its value and V[4][0] + V[7][0]
    assert_eq!(total_value(&ch, &vec![4, 7, 0]), base + 18 + 7 + 8);
}

#[test]
fn unimproved_kick_round_ends_the_run() {
    let ch = small();
    let weights = ch.weights.clone();
    let mut search = IroncladSearch::new(ch, &Hyperparameters::default(), &vec![0, 2, 1]);
    assert!(!search.descend());
    // no kick yet: the first kick goes ahead although the climb found nothing
    let req = search.start_kick().unwrap();
    let ord = ratio_order(&req.keys, &weights, &req.candidates);
    search.finish_kick(&ord);
    assert!(!search.descend());
    // the round did not beat the best: no second kick, nothing changes
    let before = search.current_items();
    assert!(search.start_kick().is_none());
    assert_eq!(search.current_items(), before);
    assert_eq!(search.kicks_done(), 1);
}
