//! `ironclad_swap`: steepest-ascent local search with deterministic kicks
//! for the quadratic knapsack problem.
use vstd::prelude::*;
use crate::knapsack_laws::{
    law_ascent_equal_value_means_unmoved, law_ascent_fixed_point, law_climb_is_where_ascent_rests, law_ascent_never_worse,
    law_greedy_fill_complete, law_greedy_fill_feasible, law_greedy_fill_maximal,
    law_parts_determined_by_selection, law_weakest_unique, law_unselected_exact,
    law_initial_key_is_full_row, law_no_gain_means_closed,
};
use crate::knapsack_model::{
    all_items, apply_move, ascent, best_move, cache, climb, earlier, weakest_of, first_best, greedy_fill, initial_key,
    is_weakest, items_at, lemma_apply_effects, lemma_best_move_is, lemma_bounded_len,
    lemma_cache_bound, lemma_covers_len, lemma_list_values_bound, lemma_memval_bound,
    lemma_msum_empty, lemma_pair_rows_abs, lemma_pair_slots, pair_slots, lemma_push, lemma_push_effects, lemma_remove_effects,
    lemma_row_list_abs, lemma_row_prefix_abs, lemma_swap_removed, list_values, move_delta, move_ok,
    pair_rows, remove_listed, row_list, row_prefix, rowf, sel_ok, sel_value, swap_removed,
    total_value_of, unselected, valbound, weaker, weight, weightf, Challenge, Move, MAX_ITEMS,
};

verus! {

/// The working selection: membership flags, the item list, its weight and
/// the marginal value of every item against it agree with each other.
pub open spec fn parts_ok(
    ch: Challenge,
    is_sel: Seq<bool>,
    sel: Seq<usize>,
    tw: int,
    sums: Seq<i64>,
) -> bool {
    &&& ch.valid()
    &&& sel_ok(ch, sel)
    &&& is_sel.len() == ch.n()
    &&& forall|j: int| 0 <= j < ch.n() ==> #[trigger] is_sel[j] == sel.contains(j as usize)
    &&& tw == weight(ch, sel)
    &&& tw <= ch.max_weight
    &&& sums.len() == ch.n()
    &&& forall|y: int| 0 <= y < ch.n() ==> #[trigger] sums[y] == cache(ch, sel, y)
}

/// Adds `item` to the selection, keeping the parts in agreement.
fn add_item(
    ch: &Challenge,
    item: usize,
    is_selected: &mut Vec<bool>,
    selected: &mut Vec<usize>,
    total_weight: &mut u32,
    sums: &mut Vec<i64>,
)
    requires
        parts_ok(*ch, old(is_selected)@, old(selected)@, *old(total_weight) as int, old(sums)@),
        (item as int) < ch.n(),
        !old(selected)@.contains(item),
        weight(*ch, old(selected)@) + ch.w(item as int) <= ch.max_weight,
    ensures
        parts_ok(*ch, final(is_selected)@, final(selected)@, *final(total_weight) as int, final(sums)@),
        final(selected)@ == old(selected)@.push(item),
{
    let ghost s0 = selected@;
    proof {
        lemma_push_effects(*ch, s0, item);
    }
    let n = sums.len();
    let mut x: usize = 0;
    while x < n
        invariant
            n == sums@.len(),
            n == ch.n(),
            ch.valid(),
            (item as int) < ch.n(),
            0 <= x <= n,
            forall|y: int| 0 <= y < n ==> #[trigger] cache(*ch, s0.push(item), y) == cache(*ch, s0, y) + ch.v(y, item as int),
            forall|y: int| 0 <= y < n ==> #[trigger] sums@[y] == if y < x {
                cache(*ch, s0.push(item), y)
            } else {
                cache(*ch, s0, y)
            },
        decreases n - x,
    {
        proof {
            lemma_cache_bound(*ch, s0.push(item), x as int);
        }
        let d = ch.interaction_values[x][item] as i64;
        let cur = sums[x];
        sums.set(x, cur + d);
        x = x + 1;
    }
    is_selected.set(item, true);
    selected.push(item);
    *total_weight = *total_weight + ch.weights[item];
}

/// Removes `out` from the selection by `swap_remove` at its position `p`.
fn remove_item(
    ch: &Challenge,
    out: usize,
    is_selected: &mut Vec<bool>,
    selected: &mut Vec<usize>,
    total_weight: &mut u32,
    sums: &mut Vec<i64>,
) -> (p: usize)
    requires
        parts_ok(*ch, old(is_selected)@, old(selected)@, *old(total_weight) as int, old(sums)@),
        old(selected)@.contains(out),
    ensures
        parts_ok(*ch, final(is_selected)@, final(selected)@, *final(total_weight) as int, final(sums)@),
        (p as int) < old(selected)@.len(),
        old(selected)@[p as int] == out,
        final(selected)@ == swap_removed(old(selected)@, p as int),
{
    let ghost s0 = selected@;
    let n = sums.len();
    let mut x: usize = 0;
    let len = selected.len();
    let mut p: usize = 0;
    proof {
        let t = choose|t: int| 0 <= t < s0.len() && s0[t] == out;
        assert(s0[t] == out);
    }
    while selected[p] != out
        invariant
            0 <= p < s0.len(),
            len == s0.len(),
            s0 == selected@,
            s0.contains(out),
            forall|t: int| 0 <= t < p ==> s0[t] != out,
        decreases s0.len() - p,
    {
        proof {
            let t = choose|t: int| 0 <= t < s0.len() && s0[t] == out;
            assert(t > p);
        }
        p = p + 1;
    }
    let ghost s1 = swap_removed(s0, p as int);
    proof {
        lemma_remove_effects(*ch, s0, p as int);
    }
    while x < n
        invariant
            n == sums@.len(),
            n == ch.n(),
            ch.valid(),
            (out as int) < ch.n(),
            0 <= x <= n,
            forall|y: int| 0 <= y < n ==> #[trigger] cache(*ch, s1, y) == cache(*ch, s0, y) - ch.v(y, out as int),
            forall|y: int| 0 <= y < n ==> #[trigger] sums@[y] == if y < x {
                cache(*ch, s1, y)
            } else {
                cache(*ch, s0, y)
            },
        decreases n - x,
    {
        proof {
            lemma_cache_bound(*ch, s1, x as int);
        }
        let d = ch.interaction_values[x][out] as i64;
        let cur = sums[x];
        sums.set(x, cur - d);
        x = x + 1;
    }
    is_selected.set(out, false);
    selected.swap_remove(p);
    *total_weight = *total_weight - ch.weights[out];
    p
}

/// After scanning the moves before `cursor`, `best` is the first of the
/// largest positive gain among them, and `bd` its gain (0 when none).
pub open spec fn scanned_best(
    ch: Challenge,
    s: Seq<usize>,
    cursor: Move,
    best: Option<Move>,
    bd: int,
) -> bool {
    &&& bd >= 0
    &&& match best {
        None => bd == 0,
        Some(b) => move_ok(ch, s, b) && earlier(b, cursor) && move_delta(ch, s, b) == bd && bd > 0,
    }
    &&& forall|m: Move|
        #[trigger] move_ok(ch, s, m) && earlier(m, cursor) ==> move_delta(ch, s, m) <= bd
    &&& forall|m: Move|
        #[trigger] move_ok(ch, s, m) && earlier(m, cursor) && (match best {
            Some(b) => earlier(m, b),
            None => false,
        }) ==> move_delta(ch, s, m) < bd
}

/// Scans every swap and then every addition, keeping the first move of
/// largest positive gain.
fn best_improving_move(
    ch: &Challenge,
    is_selected: &Vec<bool>,
    selected: &Vec<usize>,
    total_weight: u32,
    sums: &Vec<i64>,
) -> (r: Option<Move>)
    requires
        parts_ok(*ch, is_selected@, selected@, total_weight as int, sums@),
    ensures
        r matches Some(m) ==> first_best(*ch, selected@, m),
        r is None ==> best_move(*ch, selected@) is None,
        r is None ==> forall|m: Move| #[trigger] move_ok(*ch, selected@, m) ==> move_delta(*ch, selected@, m) <= 0,
{
    let ghost s = selected@;
    let n = ch.num_items;
    let len = selected.len();
    let slack: i64 = ch.max_weight as i64 - total_weight as i64;
    let mut best_delta: i64 = 0;
    let mut best: Option<Move> = None;
    let mut p: usize = 0;
    while p < len
        invariant
            parts_ok(*ch, is_selected@, s, total_weight as int, sums@),
            s == selected@,
            len == s.len(),
            n == ch.n(),
            slack == ch.max_weight - weight(*ch, s),
            0 <= p <= len,
            scanned_best(*ch, s, Move::Swap { pos: p, item: 0 }, best, best_delta as int),
        decreases len - p,
    {
        let out = selected[p];
        let mut i: usize = 0;
        while i < n
            invariant
                parts_ok(*ch, is_selected@, s, total_weight as int, sums@),
                s == selected@,
                len == s.len(),
                n == ch.n(),
                slack == ch.max_weight - weight(*ch, s),
                0 <= p < len,
                out == s[p as int],
                0 <= i <= n,
                scanned_best(*ch, s, Move::Swap { pos: p, item: i }, best, best_delta as int),
            decreases n - i,
        {
            let ghost cur = Move::Swap { pos: p, item: i };
            if !is_selected[i] {
                let dw: i64 = ch.weights[i] as i64 - ch.weights[out] as i64;
                if dw <= slack {
                    proof {
                        lemma_cache_bound(*ch, s, i as int);
                        lemma_cache_bound(*ch, s, out as int);
                    }
                    let delta: i64 = sums[i] - sums[out] - ch.interaction_values[i][out] as i64;
                    if delta > best_delta {
                        best_delta = delta;
                        best = Some(Move::Swap { pos: p, item: i });
                    }
                }
            }
            proof {
                let next = Move::Swap { pos: p, item: (i + 1) as usize };
                assert forall|m: Move| #[trigger]
                    move_ok(*ch, s, m) && earlier(m, next) implies move_delta(*ch, s, m) <= best_delta by {
                    if m != cur {
                        assert(earlier(m, cur));
                    }
                }
                assert forall|m: Move|
                    #[trigger] move_ok(*ch, s, m) && earlier(m, next) && (match best {
                        Some(b) => earlier(m, b),
                        None => false,
                    }) implies move_delta(*ch, s, m) < best_delta by {
                    if m != cur {
                        assert(earlier(m, cur));
                    }
                }
            }
            i = i + 1;
        }
        proof {
            let next = Move::Swap { pos: (p + 1) as usize, item: 0 };
            let here = Move::Swap { pos: p, item: i };
            assert forall|m: Move| #[trigger]
                move_ok(*ch, s, m) && earlier(m, next) implies move_delta(*ch, s, m) <= best_delta by {
                assert(earlier(m, here));
            }
            assert forall|m: Move|
                #[trigger] move_ok(*ch, s, m) && earlier(m, next) && (match best {
                    Some(b) => earlier(m, b),
                    None => false,
                }) implies move_delta(*ch, s, m) < best_delta by {
                assert(earlier(m, here));
            }
        }
        p = p + 1;
    }
    proof {
        let here = Move::Swap { pos: p, item: 0 };
        let next = Move::Add { item: 0 };
        assert forall|m: Move| #[trigger]
            move_ok(*ch, s, m) && earlier(m, next) implies move_delta(*ch, s, m) <= best_delta by {
            assert(earlier(m, here));
        }
        assert forall|m: Move|
            #[trigger] move_ok(*ch, s, m) && earlier(m, next) && (match best {
                Some(b) => earlier(m, b),
                None => false,
            }) implies move_delta(*ch, s, m) < best_delta by {
            assert(earlier(m, here));
        }
    }
    let mut i: usize = 0;
    while i < n
        invariant
            parts_ok(*ch, is_selected@, s, total_weight as int, sums@),
            s == selected@,
            n == ch.n(),
            slack == ch.max_weight - weight(*ch, s),
            0 <= i <= n,
            scanned_best(*ch, s, Move::Add { item: i }, best, best_delta as int),
        decreases n - i,
    {
        let ghost cur = Move::Add { item: i };
        if !is_selected[i] {
            if (ch.weights[i] as i64) <= slack {
                proof {
                    lemma_cache_bound(*ch, s, i as int);
                }
                let delta: i64 = sums[i];
                if delta > best_delta {
                    best_delta = delta;
                    best = Some(Move::Add { item: i });
                }
            }
        }
        proof {
            let next = Move::Add { item: (i + 1) as usize };
            assert forall|m: Move| #[trigger]
                move_ok(*ch, s, m) && earlier(m, next) implies move_delta(*ch, s, m) <= best_delta by {
                if m != cur {
                    assert(earlier(m, cur));
                }
            }
            assert forall|m: Move|
                #[trigger] move_ok(*ch, s, m) && earlier(m, next) && (match best {
                    Some(b) => earlier(m, b),
                    None => false,
                }) implies move_delta(*ch, s, m) < best_delta by {
                if m != cur {
                    assert(earlier(m, cur));
                }
            }
        }
        i = i + 1;
    }
    proof {
        let end = Move::Add { item: n };
        assert forall|m: Move| #[trigger] move_ok(*ch, s, m) implies earlier(m, end) by {}
        match best {
            Some(b) => {
                assert(first_best(*ch, s, b));
            },
            None => {
                if exists|m: Move| first_best(*ch, s, m) {
                    let m = choose|m: Move| first_best(*ch, s, m);
                    assert(move_ok(*ch, s, m));
                }
            },
        }
    }
    best
}

/// Performs an allowed move: the outgoing item leaves by `swap_remove`,
/// the incoming item is pushed.
pub fn apply_swap(
    ch: &Challenge,
    m: Move,
    is_selected: &mut Vec<bool>,
    selected: &mut Vec<usize>,
    total_weight: &mut u32,
    sums: &mut Vec<i64>,
)
    requires
        parts_ok(*ch, old(is_selected)@, old(selected)@, *old(total_weight) as int, old(sums)@),
        move_ok(*ch, old(selected)@, m),
    ensures
        parts_ok(*ch, final(is_selected)@, final(selected)@, *final(total_weight) as int, final(sums)@),
        final(selected)@ == apply_move(old(selected)@, m),
{
    let ghost s0 = selected@;
    match m {
        Move::Swap { pos, item } => {
            let out = selected[pos];
            proof {
                lemma_remove_effects(*ch, s0, pos as int);
                assert(s0.contains(out));
            }
            let p = remove_item(ch, out, is_selected, selected, total_weight, sums);
            proof {
                if p != pos {
                    assert(s0.no_duplicates());
                }
            }
            add_item(ch, item, is_selected, selected, total_weight, sums);
        },
        Move::Add { item } => {
            add_item(ch, item, is_selected, selected, total_weight, sums);
        },
    }
}

/// Repeats the best improving move until none is left. When the total
/// value ends where it started, or no move improved to begin with, nothing
/// has changed.
pub fn local_search_steepest_ascent(
    ch: &Challenge,
    is_selected: &mut Vec<bool>,
    selected: &mut Vec<usize>,
    total_weight: &mut u32,
    sums: &mut Vec<i64>,
)
    requires
        parts_ok(*ch, old(is_selected)@, old(selected)@, *old(total_weight) as int, old(sums)@),
        ch.symmetric(),
    ensures
        parts_ok(*ch, final(is_selected)@, final(selected)@, *final(total_weight) as int, final(sums)@),
        exists|k: nat| final(selected)@ == ascent(*ch, old(selected)@, k),
        final(selected)@ == climb(*ch, old(selected)@),
        best_move(*ch, final(selected)@) is None,
        forall|m: Move| #[trigger] move_ok(*ch, final(selected)@, m) ==> move_delta(*ch, final(selected)@, m) <= 0,
        forall|i: usize|
            (i as int) < ch.n() && !final(selected)@.contains(i) && weight(*ch, final(selected)@) + ch.w(i as int)
                <= ch.max_weight ==> #[trigger] cache(*ch, final(selected)@, i as int) <= 0,
        forall|i: usize|
            (i as int) < ch.n() && !final(selected)@.contains(i) && weight(*ch, final(selected)@) + ch.w(i as int)
                <= ch.max_weight ==> #[trigger] total_value_of(*ch, final(selected)@.push(i)) <= total_value_of(
                *ch,
                final(selected)@,
            ),
        forall|p: usize, i: usize|
            (p as int) < final(selected)@.len() && (i as int) < ch.n() && !final(selected)@.contains(i) && weight(
                *ch,
                final(selected)@,
            ) - ch.w(final(selected)@[p as int] as int) + ch.w(i as int) <= ch.max_weight ==> #[trigger] total_value_of(
                *ch,
                swap_removed(final(selected)@, p as int).push(i),
            ) <= total_value_of(*ch, final(selected)@),
        total_value_of(*ch, final(selected)@) >= total_value_of(*ch, old(selected)@),
        (total_value_of(*ch, final(selected)@) == total_value_of(*ch, old(selected)@) || best_move(
            *ch,
            old(selected)@,
        ) is None) ==> {
            &&& final(selected)@ == old(selected)@
            &&& final(is_selected)@ == old(is_selected)@
            &&& *final(total_weight) == *old(total_weight)
            &&& final(sums)@ == old(sums)@
        },
{
    let ghost s0 = selected@;
    let ghost is0 = is_selected@;
    let ghost tw0 = *total_weight;
    let ghost sums0 = sums@;
    let ghost mut k: nat = 0;
    loop
        invariant
            parts_ok(*ch, is_selected@, selected@, *total_weight as int, sums@),
            ch.symmetric(),
            selected@ == ascent(*ch, s0, k),
        ensures
            parts_ok(*ch, is_selected@, selected@, *total_weight as int, sums@),
            selected@ == ascent(*ch, s0, k),
            best_move(*ch, selected@) is None,
            forall|m: Move| #[trigger] move_ok(*ch, selected@, m) ==> move_delta(*ch, selected@, m) <= 0,
        decreases valbound(*ch, ch.n() as nat) - sel_value(*ch, selected@),
    {
        let ghost before = selected@;
        let found = best_improving_move(ch, is_selected, selected, *total_weight, sums);
        match found {
            None => {
                break;
            },
            Some(m) => {
                proof {
                    lemma_best_move_is(*ch, before, m);
                    lemma_apply_effects(*ch, before, m);
                    lemma_memval_bound(*ch, before, ch.n() as nat);
                    lemma_memval_bound(*ch, apply_move(before, m), ch.n() as nat);
                }
                apply_swap(ch, m, is_selected, selected, total_weight, sums);
                proof {
                    k = k + 1;
                }
            },
        }
    }
    proof {
        let k0 = choose|k: nat| selected@ == ascent(*ch, s0, k);
        law_ascent_never_worse(*ch, s0, k0);
        law_climb_is_where_ascent_rests(*ch, s0, k0);
        law_no_gain_means_closed(*ch, selected@);
        law_ascent_equal_value_means_unmoved(*ch, s0, k0);
        if best_move(*ch, s0) is None {
            law_ascent_fixed_point(*ch, s0, k0);
        }
        if selected@ == s0 {
            law_parts_determined_by_selection(*ch, s0, is0, tw0 as int, sums0, is_selected@, *total_weight as int, sums@);
        }
    }
}

/// Value of a list of items: their values plus the interaction of every
/// pair of list positions `a < b`, read as `V[items[a]][items[b]]`.
pub fn total_value(ch: &Challenge, items: &Vec<usize>) -> (r: i64)
    requires
        ch.valid(),
        items@.len() <= MAX_ITEMS,
        forall|t: int| 0 <= t < items@.len() ==> (#[trigger] items@[t] as int) < ch.n(),
    ensures
        r == total_value_of(*ch, items@),
{
    let ghost s = items@;
    let len = items.len();
    let mut sum: i64 = 0;
    let mut t: usize = 0;
    while t < len
        invariant
            s == items@,
            len == s.len(),
            len <= MAX_ITEMS,
            ch.valid(),
            forall|u: int| 0 <= u < s.len() ==> (#[trigger] s[u] as int) < ch.n(),
            0 <= t <= len,
            sum == list_values(*ch, s.subrange(0, t as int)),
        decreases len - t,
    {
        proof {
            assert(s.subrange(0, t + 1).drop_last() =~= s.subrange(0, t as int));
            lemma_list_values_bound(*ch, s.subrange(0, t + 1));
            assert((t + 1) * 0xffff_ffff <= 0x10000 * 0xffff_ffff) by (nonlinear_arith)
                requires
                    t + 1 <= 0x10000,
            ;
        }
        sum = sum + ch.values[items[t]] as i64;
        t = t + 1;
    }
    proof {
        assert(s.subrange(0, len as int) =~= s);
        lemma_list_values_bound(*ch, s);
        assert(len * 0xffff_ffff <= 0x10000 * 0xffff_ffff) by (nonlinear_arith)
            requires
                len <= 0x10000,
        ;
    }
    let ghost lv = sum as int;
    let mut a: usize = 0;
    while a < len
        invariant
            s == items@,
            len == s.len(),
            len <= MAX_ITEMS,
            ch.valid(),
            forall|u: int| 0 <= u < s.len() ==> (#[trigger] s[u] as int) < ch.n(),
            lv == list_values(*ch, s),
            0 <= lv <= 0x10000 * 0xffff_ffff,
            0 <= a <= len,
            sum == lv + pair_rows(*ch, s, a as nat),
        decreases len - a,
    {
        let x = items[a];
        let mut b: usize = a + 1;
        let ghost base = sum as int;
        proof {
            lemma_pair_rows_abs(*ch, s, a as nat);
            lemma_pair_slots(len as int, a as nat);
            lemma_pair_slots(len as int, (a + 1) as nat);
            assert(s.subrange(a + 1, a + 1).len() == 0);
        }
        while b < len
            invariant
                s == items@,
                len == s.len(),
                len <= MAX_ITEMS,
                ch.valid(),
                forall|u: int| 0 <= u < s.len() ==> (#[trigger] s[u] as int) < ch.n(),
                0 <= a < len,
                x == s[a as int],
                a + 1 <= b <= len,
                0 <= lv <= 0x10000 * 0xffff_ffff,
                base == lv + pair_rows(*ch, s, a as nat),
                -(pair_slots(len as int, a as nat) * 0x8000_0000) <= pair_rows(*ch, s, a as nat)
                    <= pair_slots(len as int, a as nat) * 0x8000_0000,
                pair_slots(len as int, (a + 1) as nat) == pair_slots(len as int, a as nat) + len
                    - a - 1,
                pair_slots(len as int, (a + 1) as nat) <= 2147450880,
                sum == base + row_list(*ch, x as int, s.subrange(a + 1, b as int)),
            decreases len - b,
        {
            proof {
                assert(s.subrange(a + 1, b + 1).drop_last() =~= s.subrange(a + 1, b as int));
                lemma_row_list_abs(*ch, x as int, s.subrange(a + 1, b + 1));
            }
            sum = sum + ch.interaction_values[x][items[b]] as i64;
            b = b + 1;
        }
        proof {
            assert(s.subrange(a + 1, len as int) =~= s.subrange((a + 1) as int, s.len() as int));
        }
        a = a + 1;
    }
    sum
}

/// Goes through `order` and adds every item that is unselected and still
/// fits; other entries, including indices past the last item, are passed
/// over.
fn fill_greedily(
    ch: &Challenge,
    order: &Vec<usize>,
    is_selected: &mut Vec<bool>,
    selected: &mut Vec<usize>,
    total_weight: &mut u32,
    sums: &mut Vec<i64>,
)
    requires
        parts_ok(*ch, old(is_selected)@, old(selected)@, *old(total_weight) as int, old(sums)@),
    ensures
        parts_ok(*ch, final(is_selected)@, final(selected)@, *final(total_weight) as int, final(sums)@),
        final(selected)@ == greedy_fill(*ch, old(selected)@, order@),
{
    let ghost s0 = selected@;
    let n = ch.num_items;
    let len = order.len();
    let mut t: usize = 0;
    while t < len
        invariant
            parts_ok(*ch, is_selected@, selected@, *total_weight as int, sums@),
            n == ch.n(),
            len == order@.len(),
            0 <= t <= len,
            selected@ == greedy_fill(*ch, s0, order@.subrange(0, t as int)),
        decreases len - t,
    {
        let c = order[t];
        proof {
            assert(order@.subrange(0, t + 1).drop_last() =~= order@.subrange(0, t as int));
        }
        if c < n && !is_selected[c] && (*total_weight as u64) + (ch.weights[c] as u64) <= ch.max_weight as u64 {
            add_item(ch, c, is_selected, selected, total_weight, sums);
        }
        t = t + 1;
    }
    proof {
        assert(order@.subrange(0, len as int) =~= order@);
    }
}

/// Initial sort keys: each item's value plus its whole interaction row.
pub fn greedy_keys(ch: &Challenge) -> (keys: Vec<i64>)
    requires
        ch.valid(),
    ensures
        keys@.len() == ch.n(),
        forall|a: int| 0 <= a < ch.n() ==> #[trigger] keys@[a] == initial_key(*ch, a),
        forall|a: int|
            0 <= a < ch.n() ==> #[trigger] keys@[a] == ch.val(a) + row_list(*ch, a, all_items(ch.n() as nat)),
        forall|a: int| 0 <= a < ch.n() ==> #[trigger] keys@[a] == cache(*ch, all_items(ch.n() as nat), a),
{
    let n = ch.num_items;
    let mut keys: Vec<i64> = Vec::with_capacity(n);
    let mut a: usize = 0;
    while a < n
        invariant
            ch.valid(),
            n == ch.n(),
            0 <= a <= n,
            keys@.len() == a,
            forall|b: int| 0 <= b < a ==> #[trigger] keys@[b] == initial_key(*ch, b),
        decreases n - a,
    {
        let mut k: i64 = ch.values[a] as i64;
        let mut j: usize = 0;
        while j < n
            invariant
                ch.valid(),
                n == ch.n(),
                0 <= a < n,
                0 <= j <= n,
                k == ch.val(a as int) + row_prefix(*ch, a as int, j as nat),
            decreases n - j,
        {
            proof {
                lemma_row_prefix_abs(*ch, a as int, (j + 1) as nat);
                assert((j + 1) * 0x8000_0000 <= 0x10000 * 0x8000_0000) by (nonlinear_arith)
                    requires
                        j + 1 <= 0x10000,
                ;
            }
            k = k + ch.interaction_values[a][j] as i64;
            j = j + 1;
        }
        keys.push(k);
        a = a + 1;
    }
    proof {
        assert forall|b: int| 0 <= b < ch.n() implies #[trigger] keys@[b] == ch.val(b) + row_list(
            *ch,
            b,
            all_items(ch.n() as nat),
        ) && keys@[b] == cache(*ch, all_items(ch.n() as nat), b) by {
            law_initial_key_is_full_row(*ch, b);
        }
    }
    keys
}

/// Lists the unselected items in increasing order.
fn unselected_items(ch: &Challenge, is_selected: &Vec<bool>, selected: &Vec<usize>) -> (r: Vec<usize>)
    requires
        ch.valid(),
        is_selected@.len() == ch.n(),
        forall|j: int| 0 <= j < ch.n() ==> #[trigger] is_selected@[j] == selected@.contains(j as usize),
    ensures
        r@ == unselected(selected@, ch.n() as nat),
{
    let n = ch.num_items;
    let mut r: Vec<usize> = Vec::new();
    let mut i: usize = 0;
    while i < n
        invariant
            n == ch.n(),
            is_selected@.len() == n,
            forall|j: int| 0 <= j < n ==> #[trigger] is_selected@[j] == selected@.contains(j as usize),
            0 <= i <= n,
            r@ == unselected(selected@, i as nat),
        decreases n - i,
    {
        if !is_selected[i] {
            r.push(i);
        }
        i = i + 1;
    }
    r
}

/// Positions of the `k` weakest selected items (or of all, if fewer),
/// weakest first.
fn weakest_positions(ch: &Challenge, selected: &Vec<usize>, sums: &Vec<i64>, k: usize) -> (pos: Vec<usize>)
    requires
        ch.valid(),
        sel_ok(*ch, selected@),
        sums@.len() == ch.n(),
        forall|y: int| 0 <= y < ch.n() ==> #[trigger] sums@[y] == cache(*ch, selected@, y),
    ensures
        pos@.len() == if k < selected@.len() { k as int } else { selected@.len() as int },
        is_weakest(*ch, selected@, pos@),
{
    let ghost s = selected@;
    let len = selected.len();
    let kk = if k < len { k } else { len };
    let mut chosen: Vec<bool> = vec![false; len];
    let mut pos: Vec<usize> = Vec::new();
    let mut t: usize = 0;
    while t < kk
        invariant
            s == selected@,
            len == s.len(),
            kk <= len,
            sel_ok(*ch, s),
            sums@.len() == ch.n(),
            forall|y: int| 0 <= y < ch.n() ==> #[trigger] sums@[y] == cache(*ch, s, y),
            0 <= t <= kk,
            pos@.len() == t,
            chosen@.len() == len,
            forall|q: int| 0 <= q < len ==> (#[trigger] chosen@[q] <==> pos@.contains(q as usize)),
            is_weakest(*ch, s, pos@),
        decreases kk - t,
    {
        let mut best: usize = len;
        let mut q: usize = 0;
        while q < len
            invariant
                s == selected@,
                len == s.len(),
                sel_ok(*ch, s),
                sums@.len() == ch.n(),
                forall|y: int| 0 <= y < ch.n() ==> #[trigger] sums@[y] == cache(*ch, s, y),
                chosen@.len() == len,
                0 <= q <= len,
                best == len || (best < q && !chosen@[best as int]),
                best == len ==> forall|u: int| 0 <= u < q ==> #[trigger] chosen@[u],
                best < len ==> forall|u: int|
                    0 <= u < q && !chosen@[u] && u != best ==> #[trigger] weaker(*ch, s, best as int, u),
            decreases len - q,
        {
            if !chosen[q] {
                if best == len {
                    best = q;
                } else if sums[selected[q]] < sums[selected[best]] {
                    proof {
                        assert forall|u: int|
                            0 <= u < q + 1 && !chosen@[u] && u != q implies #[trigger] weaker(*ch, s, q as int, u) by {
                            if u != best {
                                assert(weaker(*ch, s, best as int, u));
                            }
                        }
                    }
                    best = q;
                }
            }
            q = q + 1;
        }
        proof {
            if best == len {
                // fewer than `len` positions are chosen, so one is free
                assert forall|u: int| 0 <= u < len implies #[trigger] pos@.contains(u as usize) by {
                    assert(chosen@[u]);
                }
                lemma_covers_len(pos@, len as nat);
            }
        }
        let ghost old_pos = pos@;
        chosen.set(best, true);
        pos.push(best);
        proof {
            lemma_push(old_pos, best);
            assert forall|u: int, q: int|
                0 <= u < pos@.len() && 0 <= q < len && !pos@.subrange(0, u + 1).contains(q as usize)
                implies #[trigger] weaker(*ch, s, pos@[u] as int, q) by {
                if u < t {
                    assert(pos@.subrange(0, u + 1) =~= old_pos.subrange(0, u + 1));
                    assert(pos@[u] == old_pos[u]);
                } else {
                    assert(pos@.subrange(0, u + 1) =~= pos@);
                    assert(!chosen@[q]);
                }
            }
            assert forall|u: int| 0 <= u < pos@.len() implies (#[trigger] pos@[u] as int) < s.len() by {
                if u < t {
                    assert(pos@[u] == old_pos[u]);
                }
            }
        }
        t = t + 1;
    }
    pos
}

/// Removes the listed items one after the other.
fn remove_items(
    ch: &Challenge,
    outs: &Vec<usize>,
    is_selected: &mut Vec<bool>,
    selected: &mut Vec<usize>,
    total_weight: &mut u32,
    sums: &mut Vec<i64>,
)
    requires
        parts_ok(*ch, old(is_selected)@, old(selected)@, *old(total_weight) as int, old(sums)@),
        outs@.no_duplicates(),
        forall|t: int| 0 <= t < outs@.len() ==> old(selected)@.contains(#[trigger] outs@[t]),
    ensures
        parts_ok(*ch, final(is_selected)@, final(selected)@, *final(total_weight) as int, final(sums)@),
        final(selected)@ == remove_listed(old(selected)@, outs@),
{
    let ghost s0 = selected@;
    let len = outs.len();
    let mut t: usize = 0;
    while t < len
        invariant
            parts_ok(*ch, is_selected@, selected@, *total_weight as int, sums@),
            len == outs@.len(),
            outs@.no_duplicates(),
            forall|u: int| 0 <= u < outs@.len() ==> s0.contains(#[trigger] outs@[u]),
            0 <= t <= len,
            selected@ == remove_listed(s0, outs@.subrange(0, t as int)),
            forall|j: usize| #[trigger] selected@.contains(j) <==> (s0.contains(j) && !outs@.subrange(0, t as int).contains(j)),
        decreases len - t,
    {
        let out = outs[t];
        let ghost prev = selected@;
        proof {
            assert(outs@.subrange(0, t + 1).drop_last() =~= outs@.subrange(0, t as int));
            assert(outs@.subrange(0, t + 1).last() == out);
            if outs@.subrange(0, t as int).contains(out) {
                let i = choose|i: int| 0 <= i < t && outs@.subrange(0, t as int)[i] == out;
                assert(outs@[i] == outs@[t as int]);
            }
            assert(s0.contains(outs@[t as int]));
            assert(prev.contains(out));
        }
        let p = remove_item(ch, out, is_selected, selected, total_weight, sums);
        proof {
            let c = prev.index_of(out);
            assert(prev[c] == out);
            assert(c == p);
            lemma_swap_removed(prev, p as int);
            let sub0 = outs@.subrange(0, t as int);
            let sub1 = outs@.subrange(0, t + 1);
            assert forall|j: usize| #[trigger] selected@.contains(j) <==> (s0.contains(j) && !sub1.contains(j)) by {
                if sub1.contains(j) && !sub0.contains(j) {
                    let i = choose|i: int| 0 <= i < sub1.len() && sub1[i] == j;
                    if i < t {
                        assert(sub0[i] == j);
                    }
                }
                if sub0.contains(j) {
                    let i = choose|i: int| 0 <= i < sub0.len() && sub0[i] == j;
                    assert(sub1[i] == j);
                }
                if j == out {
                    assert(sub1[t as int] == j);
                }
            }
        }
        t = t + 1;
    }
    proof {
        assert(outs@.subrange(0, len as int) =~= outs@);
    }
}

/// Settings of the search: items evicted per kick (default 3, at least 1)
/// and the number of kicks (default 32).
pub struct Hyperparameters {
    pub kick_size: Option<usize>,
    pub max_kicks: Option<usize>,
}

impl Default for Hyperparameters {
    fn default() -> (r: Self)
        ensures
            r.kick_size is None,
            r.max_kicks is None,
    {
        Hyperparameters { kick_size: None, max_kicks: None }
    }
}

pub open spec fn effective_kick_size_of(h: Hyperparameters) -> int {
    match h.kick_size {
        Some(k) => if k >= 1 { k as int } else { 1 },
        None => 3,
    }
}

pub open spec fn effective_max_kicks_of(h: Hyperparameters) -> int {
    match h.max_kicks {
        Some(k) => k as int,
        None => 32,
    }
}

impl Hyperparameters {
    /// Items evicted per kick: the setting, 3 when absent, at least 1.
    pub fn effective_kick_size(&self) -> (r: usize)
        ensures
            r == match self.kick_size {
                Some(k) => if k == 0 { 1 } else { k },
                None => 3,
            },
            r == effective_kick_size_of(*self),
    {
        match self.kick_size {
            Some(k) => if k >= 1 { k } else { 1 },
            None => 3,
        }
    }

    /// Number of kicks: the setting, 32 when absent.
    pub fn effective_max_kicks(&self) -> (r: usize)
        ensures
            r == match self.max_kicks {
                Some(k) => k,
                None => 32,
            },
            r == effective_max_kicks_of(*self),
    {
        match self.max_kicks {
            Some(k) => k,
            None => 32,
        }
    }
}

/// A copy of a list of items.
fn copy_items(v: &Vec<usize>) -> (r: Vec<usize>)
    ensures
        r@ == v@,
{
    let mut r: Vec<usize> = Vec::with_capacity(v.len());
    let mut i: usize = 0;
    while i < v.len()
        invariant
            0 <= i <= v@.len(),
            r@ == v@.subrange(0, i as int),
        decreases v@.len() - i,
    {
        r.push(v[i]);
        i = i + 1;
    }
    proof {
        assert(v@.subrange(0, v@.len() as int) =~= v@);
    }
    r
}

/// What a kick hands out for re-ranking: the ranking key of every item
/// (its marginal value plus its value again) and the unselected items in
/// increasing order.
pub struct RefillRequest {
    pub keys: Vec<i64>,
    pub candidates: Vec<usize>,
}

/// What the search state is, as far as its results depend on it: the
/// instance, the current and the best selection, the kicks done, the
/// settings, whether an eviction waits for its refill and whether a climb
/// since the last refill beat the best.
#[verifier::ext_equal]
pub struct SearchState {
    pub instance: Challenge,
    pub selection: Seq<usize>,
    pub best_selection: Seq<usize>,
    pub kicks: int,
    pub kick_size: int,
    pub max_kicks: int,
    pub awaiting_refill: bool,
    pub round_improved: bool,
}

/// The state `IroncladSearch::new` starts from.
pub open spec fn initial_state(ch: Challenge, h: Hyperparameters, order: Seq<usize>) -> SearchState {
    let s = greedy_fill(ch, Seq::<usize>::empty(), order);
    SearchState {
        instance: ch,
        selection: s,
        best_selection: s,
        kicks: 0,
        kick_size: effective_kick_size_of(h),
        max_kicks: effective_max_kicks_of(h),
        awaiting_refill: false,
        round_improved: true,
    }
}

/// The climb from the current selection ends above the best so far.
pub open spec fn climb_beats_best(st: SearchState) -> bool {
    total_value_of(st.instance, climb(st.instance, st.selection)) > total_value_of(
        st.instance,
        st.best_selection,
    )
}

/// The state after `descend`: the selection climbs to its local optimum,
/// which becomes the best when it beats it.
pub open spec fn after_descend(st: SearchState) -> SearchState {
    let c = climb(st.instance, st.selection);
    let better = climb_beats_best(st);
    SearchState {
        instance: st.instance,
        selection: c,
        best_selection: if better {
            c
        } else {
            st.best_selection
        },
        kicks: st.kicks,
        kick_size: st.kick_size,
        max_kicks: st.max_kicks,
        awaiting_refill: st.awaiting_refill,
        round_improved: st.round_improved || better,
    }
}

/// No further kick: the budget is spent, nothing is selected, or the
/// last kick round brought no improvement.
pub open spec fn kick_stops(st: SearchState) -> bool {
    ||| st.kicks >= st.max_kicks
    ||| st.selection.len() == 0
    ||| (st.kicks >= 1 && !st.round_improved)
}

/// How many items a kick evicts: `kick_size`, or all of them if fewer.
pub open spec fn evict_count(st: SearchState) -> int {
    if st.kick_size < st.selection.len() {
        st.kick_size
    } else {
        st.selection.len() as int
    }
}

/// The state after `start_kick`: unless the kicks stop, the weakest
/// items leave and a refill is awaited.
pub open spec fn after_start_kick(st: SearchState) -> SearchState {
    if kick_stops(st) {
        st
    } else {
        SearchState {
            instance: st.instance,
            selection: remove_listed(
                st.selection,
                items_at(st.selection, weakest_of(st.instance, st.selection, evict_count(st))),
            ),
            best_selection: st.best_selection,
            kicks: st.kicks,
            kick_size: st.kick_size,
            max_kicks: st.max_kicks,
            awaiting_refill: true,
            round_improved: st.round_improved,
        }
    }
}

/// The state after `finish_kick` with `order`: an awaited refill fills
/// greedily in `order`, counts the kick and opens a new round.
pub open spec fn after_finish_kick(st: SearchState, order: Seq<usize>) -> SearchState {
    if st.awaiting_refill {
        SearchState {
            instance: st.instance,
            selection: greedy_fill(st.instance, st.selection, order),
            best_selection: st.best_selection,
            kicks: st.kicks + 1,
            kick_size: st.kick_size,
            max_kicks: st.max_kicks,
            awaiting_refill: false,
            round_improved: false,
        }
    } else {
        st
    }
}

/// The best selections a run saves from `st` on, one for each climb that
/// beats the best: climb, then kick and refill in the order `rank` gives
/// the state after eviction, until the kicks stop.
pub open spec fn run_saves(st: SearchState, rank: spec_fn(SearchState) -> Seq<usize>) -> Seq<Seq<usize>>
    decreases st.max_kicks - st.kicks,
{
    let d = after_descend(st);
    let here = if climb_beats_best(st) {
        seq![d.best_selection]
    } else {
        Seq::<Seq<usize>>::empty()
    };
    if kick_stops(d) {
        here
    } else {
        let k = after_start_kick(d);
        here + run_saves(after_finish_kick(k, rank(k)), rank)
    }
}

/// The state a run from `st` ends in.
pub open spec fn run_end(st: SearchState, rank: spec_fn(SearchState) -> Seq<usize>) -> SearchState
    decreases st.max_kicks - st.kicks,
{
    let d = after_descend(st);
    if kick_stops(d) {
        d
    } else {
        let k = after_start_kick(d);
        run_end(after_finish_kick(k, rank(k)), rank)
    }
}

/// Every selection a whole solve saves, in order: the greedy start, each
/// improvement, and the best once more at the end.
pub open spec fn solve_saves(
    ch: Challenge,
    h: Hyperparameters,
    order: Seq<usize>,
    rank: spec_fn(SearchState) -> Seq<usize>,
) -> Seq<Seq<usize>> {
    let st = initial_state(ch, h, order);
    seq![st.best_selection] + run_saves(st, rank) + seq![run_end(st, rank).best_selection]
}

/// State of the `ironclad_swap` search on one instance.
///
/// The search runs in phases: `descend` climbs to a local optimum and
/// keeps the best selection seen; `start_kick` evicts the weakest items
/// and asks for the unselected items to be ranked; `finish_kick` refills
/// greedily in that ranking. Kicks go on until `max_kicks` are done or a
/// kick round brings no improvement.
pub struct IroncladSearch {
    challenge: Challenge,
    kick_size: usize,
    max_kicks: usize,
    is_selected: Vec<bool>,
    selected: Vec<usize>,
    total_weight: u32,
    interaction_sum: Vec<i64>,
    best_items: Vec<usize>,
    best_total: i64,
    kicks_done: usize,
    refill_pending: bool,
    round_improved: bool,
}

impl View for IroncladSearch {
    type V = SearchState;

    closed spec fn view(&self) -> SearchState {
        SearchState {
            instance: self.challenge,
            selection: self.selected@,
            best_selection: self.best_items@,
            kicks: self.kicks_done as int,
            kick_size: self.kick_size as int,
            max_kicks: self.max_kicks as int,
            awaiting_refill: self.refill_pending,
            round_improved: self.round_improved,
        }
    }
}

impl IroncladSearch {
    pub open spec fn instance(&self) -> Challenge {
        self@.instance
    }

    /// The current selection, in list order.
    pub open spec fn selection(&self) -> Seq<usize> {
        self@.selection
    }

    /// The best selection recorded so far.
    pub open spec fn best_selection(&self) -> Seq<usize> {
        self@.best_selection
    }

    pub closed spec fn best_value(&self) -> int {
        self.best_total as int
    }

    pub open spec fn kicks(&self) -> int {
        self@.kicks
    }

    pub open spec fn kick_size_setting(&self) -> int {
        self@.kick_size
    }

    pub open spec fn max_kicks_setting(&self) -> int {
        self@.max_kicks
    }

    /// An eviction waits for its refill.
    pub open spec fn awaiting_refill(&self) -> bool {
        self@.awaiting_refill
    }

    /// Whether a climb since the last refill beat the best so far (true
    /// before any kick).
    pub open spec fn round_improved(&self) -> bool {
        self@.round_improved
    }

    /// The membership flag of every item.
    pub closed spec fn membership(&self) -> Seq<bool> {
        self.is_selected@
    }

    /// The weight of the current selection as the search holds it.
    pub closed spec fn held_weight(&self) -> int {
        self.total_weight as int
    }

    /// The marginal value of every item against the current selection, as
    /// the search holds it.
    pub closed spec fn marginals(&self) -> Seq<i64> {
        self.interaction_sum@
    }

    pub closed spec fn inv(&self) -> bool {
        &&& parts_ok(
            self.challenge,
            self.is_selected@,
            self.selected@,
            self.total_weight as int,
            self.interaction_sum@,
        )
        &&& self.challenge.symmetric()
        &&& sel_ok(self.challenge, self.best_items@)
        &&& weight(self.challenge, self.best_items@) <= self.challenge.max_weight
        &&& self.best_total == total_value_of(self.challenge, self.best_items@)
        &&& self.kick_size >= 1
        &&& self.refill_pending ==> self.kicks_done < self.max_kicks
    }

    /// Both the current and the best selection list distinct items and fit
    /// the capacity, and the flags, weight and marginal values held for the
    /// current selection agree with it.
    pub proof fn lemma_inv_feasible(&self)
        requires
            self.inv(),
        ensures
            self.instance().valid(),
            self.instance().symmetric(),
            sel_ok(self.instance(), self.selection()),
            weight(self.instance(), self.selection()) <= self.instance().max_weight,
            sel_ok(self.instance(), self.best_selection()),
            weight(self.instance(), self.best_selection()) <= self.instance().max_weight,
            self.best_value() == total_value_of(self.instance(), self.best_selection()),
            self.kick_size_setting() >= 1,
            parts_ok(self.instance(), self.membership(), self.selection(), self.held_weight(), self.marginals()),
    {
    }

    /// A search state is fixed by its instance, selection and best
    /// selection: the membership flags, the total weight, the marginal
    /// values and the best value follow from them.
    pub proof fn law_state_determined(&self, other: &Self)
        requires
            self.inv(),
            other.inv(),
            self.instance() == other.instance(),
            self.selection() == other.selection(),
            self.best_selection() == other.best_selection(),
        ensures
            self.membership() == other.membership(),
            self.held_weight() == other.held_weight(),
            self.marginals() == other.marginals(),
            self.best_value() == other.best_value(),
    {
        law_parts_determined_by_selection(
            self.challenge,
            self.selected@,
            self.is_selected@,
            self.total_weight as int,
            self.interaction_sum@,
            other.is_selected@,
            other.total_weight as int,
            other.interaction_sum@,
        );
    }

    /// Two searches in the same state hold the same flags, weight,
    /// marginal values and best value, and every step takes them, on the
    /// same input, to the same state and the same answer: `descend`,
    /// `start_kick` and `finish_kick` each produce `after_*` of the state
    /// before.
    pub proof fn law_equal_states_agree(&self, other: &Self, order: Seq<usize>)
        requires
            self.inv(),
            other.inv(),
            self@ == other@,
        ensures
            self.membership() == other.membership(),
            self.held_weight() == other.held_weight(),
            self.marginals() == other.marginals(),
            self.best_value() == other.best_value(),
            after_descend(self@) == after_descend(other@),
            climb_beats_best(self@) == climb_beats_best(other@),
            after_start_kick(self@) == after_start_kick(other@),
            kick_stops(self@) == kick_stops(other@),
            after_finish_kick(self@, order) == after_finish_kick(other@, order),
    {
        self.law_state_determined(other);
    }

    /// Starts the search: fills greedily in `order` (normally every item,
    /// ranked by `greedy_keys` over weight) and records the result as the
    /// best so far.
    pub fn new(challenge: Challenge, hyperparameters: &Hyperparameters, order: &Vec<usize>) -> (r: Self)
        requires
            challenge.valid(),
            challenge.symmetric(),
        ensures
            r.inv(),
            r.instance() == challenge,
            r.selection() == greedy_fill(challenge, Seq::<usize>::empty(), order@),
            r.best_selection() == r.selection(),
            r.best_value() == total_value_of(challenge, r.selection()),
            r.kicks() == 0,
            r.kick_size_setting() == effective_kick_size_of(*hyperparameters),
            r.max_kicks_setting() == effective_max_kicks_of(*hyperparameters),
            !r.awaiting_refill(),
            r.round_improved(),
            r@ == initial_state(challenge, *hyperparameters, order@),
            weight(challenge, r.selection()) <= challenge.max_weight,
            forall|j: usize|
                (j as int) < challenge.n() && order@.contains(j) && !r.selection().contains(j) ==> weight(
                    challenge,
                    r.selection(),
                ) + challenge.w(j as int) > challenge.max_weight,
    {
        let n = challenge.num_items;
        let mut is_selected: Vec<bool> = vec![false; n];
        let mut selected: Vec<usize> = Vec::new();
        let mut total_weight: u32 = 0;
        let mut sums: Vec<i64> = Vec::with_capacity(n);
        let mut x: usize = 0;
        proof {
            lemma_msum_empty(weightf(challenge), n as nat);
        }
        while x < n
            invariant
                challenge.valid(),
                n == challenge.n(),
                0 <= x <= n,
                sums@.len() == x,
                forall|y: int| 0 <= y < x ==> #[trigger] sums@[y] == cache(challenge, Seq::<usize>::empty(), y),
            decreases n - x,
        {
            proof {
                lemma_msum_empty(rowf(challenge, x as int), n as nat);
            }
            sums.push(challenge.values[x] as i64);
            x = x + 1;
        }
        proof {
            assert(selected@ =~= Seq::<usize>::empty());
            assert forall|j: int| 0 <= j < n implies #[trigger] is_selected@[j] == selected@.contains(j as usize) by {}
        }
        fill_greedily(&challenge, order, &mut is_selected, &mut selected, &mut total_weight, &mut sums);
        proof {
            assert forall|j: usize|
                (j as int) < challenge.n() && order@.contains(j) && !selected@.contains(j) implies weight(
                    challenge,
                    selected@,
                ) + challenge.w(j as int) > challenge.max_weight by {
                law_greedy_fill_maximal(challenge, Seq::<usize>::empty(), order@, j);
            }
        }
        let best_items = copy_items(&selected);
        proof {
            lemma_bounded_len(selected@, n as nat);
        }
        let best_total = total_value(&challenge, &best_items);
        IroncladSearch {
            challenge,
            kick_size: hyperparameters.effective_kick_size(),
            max_kicks: hyperparameters.effective_max_kicks(),
            is_selected,
            selected,
            total_weight,
            interaction_sum: sums,
            best_items,
            best_total,
            kicks_done: 0,
            refill_pending: false,
            round_improved: true,
        }
    }

    /// Climbs by steepest ascent to a local optimum, then records it as
    /// the best when its value beats the best so far; tells whether it did.
    pub fn descend(&mut self) -> (improved: bool)
        requires
            old(self).inv(),
        ensures
            final(self).inv(),
            final(self)@ == after_descend(old(self)@),
            improved == climb_beats_best(old(self)@),
            forall|i: usize|
                (i as int) < final(self).instance().n() && !final(self).selection().contains(i) && weight(
                    final(self).instance(),
                    final(self).selection(),
                ) + final(self).instance().w(i as int) <= final(self).instance().max_weight ==> #[trigger] cache(
                    final(self).instance(),
                    final(self).selection(),
                    i as int,
                ) <= 0,
            forall|p: usize, i: usize|
                (p as int) < final(self).selection().len() && (i as int) < final(self).instance().n()
                    && !final(self).selection().contains(i) && weight(final(self).instance(), final(self).selection())
                    - final(self).instance().w(final(self).selection()[p as int] as int) + final(self).instance().w(
                    i as int,
                ) <= final(self).instance().max_weight ==> #[trigger] total_value_of(
                    final(self).instance(),
                    swap_removed(final(self).selection(), p as int).push(i),
                ) <= total_value_of(final(self).instance(), final(self).selection()),
            final(self).instance() == old(self).instance(),
            final(self).kicks() == old(self).kicks(),
            final(self).kick_size_setting() == old(self).kick_size_setting(),
            final(self).max_kicks_setting() == old(self).max_kicks_setting(),
            final(self).awaiting_refill() == old(self).awaiting_refill(),
            exists|k: nat| final(self).selection() == ascent(old(self).instance(), old(self).selection(), k),
            final(self).selection() == climb(old(self).instance(), old(self).selection()),
            best_move(final(self).instance(), final(self).selection()) is None,
            forall|m: Move| #[trigger]
                move_ok(final(self).instance(), final(self).selection(), m) ==> move_delta(
                    final(self).instance(),
                    final(self).selection(),
                    m,
                ) <= 0,
            improved == (total_value_of(final(self).instance(), final(self).selection())
                > old(self).best_value()),
            improved ==> final(self).best_selection() == final(self).selection(),
            !improved ==> final(self).best_selection() == old(self).best_selection(),
            final(self).best_value() == total_value_of(final(self).instance(), final(self).best_selection()),
            final(self).best_value() >= old(self).best_value(),
            final(self).best_value() >= total_value_of(final(self).instance(), final(self).selection()),
            total_value_of(final(self).instance(), final(self).selection()) >= total_value_of(
                old(self).instance(),
                old(self).selection(),
            ),
            (total_value_of(final(self).instance(), final(self).selection()) == total_value_of(
                old(self).instance(),
                old(self).selection(),
            ) || best_move(old(self).instance(), old(self).selection()) is None)
                ==> final(self).selection() == old(self).selection(),
    {
        local_search_steepest_ascent(
            &self.challenge,
            &mut self.is_selected,
            &mut self.selected,
            &mut self.total_weight,
            &mut self.interaction_sum,
        );
        proof {
            lemma_bounded_len(self.selected@, self.challenge.num_items as nat);
            let k = choose|k: nat| self.selected@ == ascent(self.challenge, old(self).selected@, k);
            assert(self.selection() == ascent(old(self).instance(), old(self).selection(), k));
            law_ascent_never_worse(self.challenge, old(self).selected@, k);
        }
        let cur_total = total_value(&self.challenge, &self.selected);
        if cur_total > self.best_total {
            self.best_total = cur_total;
            self.best_items = copy_items(&self.selected);
            self.round_improved = true;
            true
        } else {
            false
        }
    }

    /// First half of a kick. Once `max_kicks` kicks are done, when the
    /// selection is empty, or when the climbs since the last refill did
    /// not beat the best, answers `None` and changes nothing. Otherwise
    /// evicts the `kick_size` weakest selected items (all of them if
    /// fewer), weakest first, and asks for the unselected items to be
    /// ranked.
    pub fn start_kick(&mut self) -> (r: Option<RefillRequest>)
        requires
            old(self).inv(),
        ensures
            final(self).inv(),
            final(self).instance() == old(self).instance(),
            final(self).kicks() == old(self).kicks(),
            final(self).kick_size_setting() == old(self).kick_size_setting(),
            final(self).max_kicks_setting() == old(self).max_kicks_setting(),
            final(self).best_selection() == old(self).best_selection(),
            final(self).best_value() == old(self).best_value(),
            final(self)@ == after_start_kick(old(self)@),
            r is None <==> kick_stops(old(self)@),
            kick_stops(old(self)@) ==> {
                &&& r is None
                &&& final(self).selection() == old(self).selection()
                &&& final(self).awaiting_refill() == old(self).awaiting_refill()
            },
            !kick_stops(old(self)@) ==> {
                &&& r is Some
                &&& final(self).awaiting_refill()
                &&& exists|pos: Seq<usize>|
                    {
                        &&& pos.len() == if old(self).kick_size_setting() < old(self).selection().len() {
                            old(self).kick_size_setting()
                        } else {
                            old(self).selection().len() as int
                        }
                        &&& is_weakest(old(self).instance(), old(self).selection(), pos)
                        &&& final(self).selection() == remove_listed(
                            old(self).selection(),
                            items_at(old(self).selection(), pos),
                        )
                    }
                &&& r->0.keys@.len() == old(self).instance().n()
                &&& forall|i: int|
                    0 <= i < old(self).instance().n() ==> #[trigger] r->0.keys@[i] == cache(
                        old(self).instance(),
                        final(self).selection(),
                        i,
                    ) + old(self).instance().val(i)
                &&& r->0.candidates@ == unselected(final(self).selection(), old(self).instance().n() as nat)
                &&& forall|i: usize|
                    (i as int) < old(self).instance().n() ==> (#[trigger] r->0.candidates@.contains(i)
                        <==> !final(self).selection().contains(i))
                &&& forall|t: int|
                    0 <= t < r->0.candidates@.len() ==> (#[trigger] r->0.candidates@[t] as int) < old(
                        self,
                    ).instance().n()
                &&& forall|a: int, b: int|
                    0 <= a < b < r->0.candidates@.len() ==> #[trigger] r->0.candidates@[a]
                        < #[trigger] r->0.candidates@[b]
            },
            r is Some <==> (old(self).kicks() < old(self).max_kicks_setting() && old(self).selection().len() > 0
                && (old(self).kicks() == 0 || old(self).round_improved())),
    {
        if self.kicks_done >= self.max_kicks || self.selected.len() == 0 || (self.kicks_done >= 1
            && !self.round_improved) {
            return None;
        }
        let ghost s0 = self.selected@;
        let ghost kk: int = if self.kick_size < s0.len() { self.kick_size as int } else { s0.len() as int };
        let pos = weakest_positions(&self.challenge, &self.selected, &self.interaction_sum, self.kick_size);
        let mut outs: Vec<usize> = Vec::new();
        let mut t: usize = 0;
        while t < pos.len()
            invariant
                s0 == self.selected@,
                sel_ok(self.challenge, s0),
                is_weakest(self.challenge, s0, pos@),
                0 <= t <= pos@.len(),
                outs@ == items_at(s0, pos@.subrange(0, t as int)),
            decreases pos@.len() - t,
        {
            outs.push(self.selected[pos[t]]);
            proof {
                assert(items_at(s0, pos@.subrange(0, t + 1)) =~= items_at(s0, pos@.subrange(0, t as int)).push(
                    s0[pos@[t as int] as int],
                ));
            }
            t = t + 1;
        }
        proof {
            assert(pos@.subrange(0, pos@.len() as int) =~= pos@);
            assert forall|a: int, b: int| 0 <= a < outs@.len() && 0 <= b < outs@.len() && a != b implies outs@[a]
                != outs@[b] by {
                assert(outs@[a] == s0[pos@[a] as int]);
                assert(outs@[b] == s0[pos@[b] as int]);
                assert(pos@[a] != pos@[b]);
            }
            assert forall|u: int| 0 <= u < outs@.len() implies s0.contains(#[trigger] outs@[u]) by {
                assert(outs@[u] == s0[pos@[u] as int]);
            }
        }
        remove_items(
            &self.challenge,
            &outs,
            &mut self.is_selected,
            &mut self.selected,
            &mut self.total_weight,
            &mut self.interaction_sum,
        );
        let n = self.challenge.num_items;
        let mut keys: Vec<i64> = Vec::with_capacity(n);
        let mut i: usize = 0;
        while i < n
            invariant
                parts_ok(
                    self.challenge,
                    self.is_selected@,
                    self.selected@,
                    self.total_weight as int,
                    self.interaction_sum@,
                ),
                n == self.challenge.n(),
                0 <= i <= n,
                keys@.len() == i,
                forall|y: int| 0 <= y < i ==> #[trigger] keys@[y] == cache(self.challenge, self.selected@, y)
                    + self.challenge.val(y),
            decreases n - i,
        {
            proof {
                lemma_cache_bound(self.challenge, self.selected@, i as int);
            }
            keys.push(self.interaction_sum[i] + self.challenge.values[i] as i64);
            i = i + 1;
        }
        let candidates = unselected_items(&self.challenge, &self.is_selected, &self.selected);
        self.refill_pending = true;
        proof {
            assert(pos@.len() == kk);
            assert(is_weakest(self.challenge, s0, pos@));
            assert(self.selected@ == remove_listed(s0, items_at(s0, pos@)));
            assert(self.selection() == remove_listed(old(self).selection(), items_at(old(self).selection(), pos@)));
            assert(is_weakest(old(self).instance(), old(self).selection(), pos@));
            let w = weakest_of(self.challenge, s0, kk);
            assert(pos@.len() == kk && is_weakest(self.challenge, s0, pos@));
            law_weakest_unique(self.challenge, s0, pos@, w);
            assert(self@ =~= after_start_kick(old(self)@));
            law_unselected_exact(self.selected@, n as nat);
            assert forall|t: int| 0 <= t < candidates@.len() implies (#[trigger] candidates@[t] as int)
                < self.challenge.n() by {
                assert(candidates@.contains(candidates@[t]));
            }
        }
        Some(RefillRequest { keys, candidates })
    }

    /// Second half of a kick: adds, in `order`, every unselected item that
    /// still fits, and counts the kick; when `order` lists every unselected
    /// item, no item left out would still fit. The refill opens a new
    /// round, which the next climbs must win for the kicks to go on. Does
    /// nothing unless an eviction waits for it.
    pub fn finish_kick(&mut self, order: &Vec<usize>)
        requires
            old(self).inv(),
        ensures
            final(self).inv(),
            final(self).instance() == old(self).instance(),
            final(self).kick_size_setting() == old(self).kick_size_setting(),
            final(self).max_kicks_setting() == old(self).max_kicks_setting(),
            final(self).best_selection() == old(self).best_selection(),
            final(self).best_value() == old(self).best_value(),
            !final(self).awaiting_refill(),
            final(self)@ == after_finish_kick(old(self)@, order@),
            old(self).awaiting_refill() ==> {
                &&& final(self).selection() == greedy_fill(old(self).instance(), old(self).selection(), order@)
                &&& final(self).kicks() == old(self).kicks() + 1
            },
            old(self).awaiting_refill() ==> forall|j: usize|
                #![trigger order@.contains(j), final(self).selection().contains(j)]
                (j as int) < old(self).instance().n() && order@.contains(j)
                    && !final(self).selection().contains(j)
                    ==> weight(old(self).instance(), final(self).selection())
                    + old(self).instance().w(j as int) > old(self).instance().max_weight,
            (old(self).awaiting_refill() && forall|i: usize|
                #![trigger old(self).selection().contains(i)]
                (i as int) < old(self).instance().n() && !old(self).selection().contains(i)
                    ==> order@.contains(i)) ==> forall|j: usize|
                #![trigger final(self).selection().contains(j)]
                (j as int) < old(self).instance().n() && !final(self).selection().contains(j)
                    ==> weight(old(self).instance(), final(self).selection())
                    + old(self).instance().w(j as int) > old(self).instance().max_weight,
            !old(self).awaiting_refill() ==> {
                &&& final(self).selection() == old(self).selection()
                &&& final(self).kicks() == old(self).kicks()
            },
    {
        if self.refill_pending {
            fill_greedily(
                &self.challenge,
                order,
                &mut self.is_selected,
                &mut self.selected,
                &mut self.total_weight,
                &mut self.interaction_sum,
            );
            self.kicks_done = self.kicks_done + 1;
            self.refill_pending = false;
            self.round_improved = false;
            proof {
                assert forall|j: usize|
                    #![trigger order@.contains(j), self.selected@.contains(j)]
                    (j as int) < self.challenge.n() && order@.contains(j) && !self.selected@.contains(j)
                    implies weight(self.challenge, self.selected@) + self.challenge.w(j as int)
                    > self.challenge.max_weight by {
                    law_greedy_fill_maximal(self.challenge, old(self).selected@, order@, j);
                }
                let covered = forall|i: usize|
                    #![trigger old(self).selection().contains(i)]
                    (i as int) < old(self).instance().n() && !old(self).selection().contains(i)
                        ==> order@.contains(i);
                assert forall|j: usize|
                    #![trigger self.selection().contains(j)]
                    covered && (j as int) < old(self).instance().n() && !self.selection().contains(j)
                    implies weight(old(self).instance(), self.selection()) + old(self).instance().w(j as int)
                    > old(self).instance().max_weight by {
                    assert forall|i: usize|
                        #![trigger old(self).selected@.contains(i)]
                        (i as int) < self.challenge.n() && !old(self).selected@.contains(i)
                        implies order@.contains(i) by {
                        assert(old(self).selection().contains(i) == old(self).selected@.contains(i));
                    }
                    law_greedy_fill_complete(self.challenge, old(self).selected@, order@, j);
                }
            }
        }
    }

    /// The best selection recorded so far.
    pub fn best_items(&self) -> (r: Vec<usize>)
        ensures
            r@ == self.best_selection(),
    {
        copy_items(&self.best_items)
    }

    /// The current selection, in list order.
    pub fn current_items(&self) -> (r: Vec<usize>)
        ensures
            r@ == self.selection(),
    {
        copy_items(&self.selected)
    }

    /// Kicks completed so far.
    pub fn kicks_done(&self) -> (r: usize)
        ensures
            r == self.kicks(),
    {
        self.kicks_done
    }

    /// Its value.
    pub fn best_total(&self) -> (r: i64)
        ensures
            r == self.best_value(),
    {
        self.best_total
    }
}

} // verus!
