//! Properties of the `ironclad_swap` search that hold on every instance.
use vstd::prelude::*;
use crate::ironclad_swap::{
    after_descend, after_finish_kick, climb_beats_best, effective_kick_size_of, effective_max_kicks_of,
    initial_state, kick_stops, parts_ok, run_end, run_saves, solve_saves, Hyperparameters, SearchState,
    after_start_kick,
};
use crate::knapsack_model::{
    admissible, apply_move, ascent, ascent_step, best_move, cache, climb, col_prefix, first_best,
    greedy_fill, is_weakest, lemma_apply_effects, lemma_col_is_row, lemma_pair_rows_push, lemma_push,
    lemma_push_effects, lemma_remove_effects, lemma_swap_removed, lemma_total_value_is_sel_value,
    list_values, move_delta, move_ok, pair_rows, row_list, sel_ok, sel_value, swap_removed,
    total_value_of, weaker, weight, Challenge, Move, lemma_bounded_len, unselected, all_items,
    initial_key, row_prefix, msum, rowf, earlier,
};

verus! {

/// The gain the search computes for an allowed move from the marginal
/// values, `Δ = sum[in] − sum[out] − V[in][out]` for a swap and
/// `Δ = sum[in]` for an addition, is exactly the change of the total value
/// of the item list; the moved-to selection still fits.
pub proof fn law_move_gain_is_value_change(ch: Challenge, s: Seq<usize>, m: Move)
    requires
        ch.valid(),
        ch.symmetric(),
        sel_ok(ch, s),
        weight(ch, s) <= ch.max_weight,
        move_ok(ch, s, m),
    ensures
        total_value_of(ch, apply_move(s, m)) == total_value_of(ch, s) + move_delta(ch, s, m),
        sel_ok(ch, apply_move(s, m)),
        weight(ch, apply_move(s, m)) <= ch.max_weight,
{
    lemma_apply_effects(ch, s, m);
    lemma_total_value_is_sel_value(ch, s);
    lemma_total_value_is_sel_value(ch, apply_move(s, m));
}

/// A step of steepest ascent that moves strictly raises the total value
/// and keeps the selection within capacity.
pub proof fn law_ascent_step_improves(ch: Challenge, s: Seq<usize>)
    requires
        ch.valid(),
        ch.symmetric(),
        sel_ok(ch, s),
        weight(ch, s) <= ch.max_weight,
        best_move(ch, s) is Some,
    ensures
        total_value_of(ch, ascent_step(ch, s)) > total_value_of(ch, s),
        sel_ok(ch, ascent_step(ch, s)),
        weight(ch, ascent_step(ch, s)) <= ch.max_weight,
{
    let m = best_move(ch, s)->0;
    assert(exists|m2: Move| first_best(ch, s, m2));
    assert(first_best(ch, s, m));
    law_move_gain_is_value_change(ch, s, m);
}

/// Any number of steepest-ascent steps keeps the selection within
/// capacity and never lowers its total value.
pub proof fn law_ascent_never_worse(ch: Challenge, s: Seq<usize>, k: nat)
    requires
        ch.valid(),
        ch.symmetric(),
        sel_ok(ch, s),
        weight(ch, s) <= ch.max_weight,
    ensures
        total_value_of(ch, ascent(ch, s, k)) >= total_value_of(ch, s),
        sel_ok(ch, ascent(ch, s, k)),
        weight(ch, ascent(ch, s, k)) <= ch.max_weight,
    decreases k,
{
    if k > 0 {
        law_ascent_never_worse(ch, s, (k - 1) as nat);
        let prev = ascent(ch, s, (k - 1) as nat);
        if best_move(ch, prev) is Some {
            law_ascent_step_improves(ch, prev);
        }
    }
}

/// The greedy fill keeps what is selected, in place, and never exceeds
/// the capacity.
pub proof fn law_greedy_fill_feasible(ch: Challenge, s: Seq<usize>, order: Seq<usize>)
    requires
        ch.valid(),
        sel_ok(ch, s),
        weight(ch, s) <= ch.max_weight,
    ensures
        sel_ok(ch, greedy_fill(ch, s, order)),
        weight(ch, greedy_fill(ch, s, order)) <= ch.max_weight,
        greedy_fill(ch, s, order).len() >= s.len(),
        greedy_fill(ch, s, order).subrange(0, s.len() as int) == s,
    decreases order.len(),
{
    if order.len() > 0 {
        law_greedy_fill_feasible(ch, s, order.drop_last());
        let prev = greedy_fill(ch, s, order.drop_last());
        let c = order.last();
        if admissible(ch, prev, c) {
            lemma_push_effects(ch, prev, c);
            assert(prev.push(c).subrange(0, s.len() as int) =~= prev.subrange(0, s.len() as int));
        }
    }
}

/// The evicted items are the weakest: none of them has a larger marginal
/// value than an item that stays, and they come weakest first; among
/// equal marginal values the earlier list position goes first.
pub proof fn law_evicted_are_weakest(ch: Challenge, s: Seq<usize>, pos: Seq<usize>, t: int, q: int)
    requires
        is_weakest(ch, s, pos),
        0 <= t < pos.len(),
        0 <= q < s.len(),
        !pos.contains(q as usize),
    ensures
        cache(ch, s, s[pos[t] as int] as int) <= cache(ch, s, s[q] as int),
        cache(ch, s, s[pos[t] as int] as int) == cache(ch, s, s[q] as int) ==> pos[t] < q,
        t + 1 < pos.len() ==> cache(ch, s, s[pos[t] as int] as int) <= cache(
            ch,
            s,
            s[pos[t + 1] as int] as int,
        ),
        t + 1 < pos.len() && cache(ch, s, s[pos[t] as int] as int) == cache(ch, s, s[pos[t + 1] as int] as int)
            ==> pos[t] < pos[t + 1],
{
    let head = pos.subrange(0, t + 1);
    if head.contains(q as usize) {
        let i = choose|i: int| 0 <= i < head.len() && head[i] == q as usize;
        assert(pos[i] == q as usize);
    }
    assert(weaker(ch, s, pos[t] as int, q));
    if t + 1 < pos.len() {
        let q2 = pos[t + 1] as int;
        if head.contains(q2 as usize) {
            let i = choose|i: int| 0 <= i < head.len() && head[i] == q2 as usize;
            assert(pos[i] == pos[t + 1]);
        }
        assert(weaker(ch, s, pos[t] as int, q2));
    }
}

proof fn lemma_weakest_agree(ch: Challenge, s: Seq<usize>, pos1: Seq<usize>, pos2: Seq<usize>, t: nat)
    requires
        is_weakest(ch, s, pos1),
        is_weakest(ch, s, pos2),
        pos1.len() == pos2.len(),
        t <= pos1.len(),
    ensures
        pos1.subrange(0, t as int) == pos2.subrange(0, t as int),
    decreases t,
{
    if t > 0 {
        let u = (t - 1) as int;
        lemma_weakest_agree(ch, s, pos1, pos2, (t - 1) as nat);
        let a = pos1[u];
        let b = pos2[u];
        if a != b {
            assert(!pos1.subrange(0, u + 1).contains(b)) by {
                if pos1.subrange(0, u + 1).contains(b) {
                    let i = choose|i: int| 0 <= i < u + 1 && #[trigger] pos1.subrange(0, u + 1)[i] == b;
                    assert(pos1[i] == b);
                    if i < u {
                        assert(pos1.subrange(0, u)[i] == pos2.subrange(0, u)[i]);
                        assert(pos2[i] == pos2[u]);
                    }
                }
            }
            assert(!pos2.subrange(0, u + 1).contains(a)) by {
                if pos2.subrange(0, u + 1).contains(a) {
                    let i = choose|i: int| 0 <= i < u + 1 && #[trigger] pos2.subrange(0, u + 1)[i] == a;
                    assert(pos2[i] == a);
                    if i < u {
                        assert(pos1.subrange(0, u)[i] == pos2.subrange(0, u)[i]);
                        assert(pos1[i] == pos1[u]);
                    }
                }
            }
            assert(weaker(ch, s, pos1[u] as int, b as int));
            assert(weaker(ch, s, pos2[u] as int, a as int));
        }
        assert(pos1.subrange(0, t as int) =~= pos2.subrange(0, t as int)) by {
            assert forall|i: int| 0 <= i < t implies pos1.subrange(0, t as int)[i] == pos2.subrange(0, t as int)[i] by {
                if i < u {
                    assert(pos1.subrange(0, u)[i] == pos2.subrange(0, u)[i]);
                }
            }
        }
    }
}

/// The weakest positions of a selection are unique for each count: two
/// lists of the same length that each name the weakest positions, weakest
/// first, are the same list, so a kick evicts exactly one set of items.
pub proof fn law_weakest_unique(ch: Challenge, s: Seq<usize>, pos1: Seq<usize>, pos2: Seq<usize>)
    requires
        is_weakest(ch, s, pos1),
        is_weakest(ch, s, pos2),
        pos1.len() == pos2.len(),
    ensures
        pos1 == pos2,
{
    lemma_weakest_agree(ch, s, pos1, pos2, pos1.len());
    assert(pos1.subrange(0, pos1.len() as int) =~= pos1);
    assert(pos2.subrange(0, pos2.len() as int) =~= pos2);
}

/// Appending item `j` to a list adds its value and `V[s[i]][j]` for every
/// listed `s[i]`; the empty list has value 0.
pub proof fn law_total_value_append(ch: Challenge, s: Seq<usize>, j: usize)
    ensures
        total_value_of(ch, s.push(j)) == total_value_of(ch, s) + ch.val(j as int) + col_prefix(
            ch,
            s,
            j as int,
            s.len(),
        ),
        total_value_of(ch, Seq::<usize>::empty()) == 0,
{
    let t = s.push(j);
    assert(t.drop_last() =~= s);
    lemma_pair_rows_push(ch, s, j, s.len());
    assert(t.subrange(t.len() as int, t.len() as int).len() == 0);
    assert(pair_rows(ch, t, t.len()) == pair_rows(ch, t, s.len()) + row_list(
        ch,
        t[s.len() as int] as int,
        t.subrange(t.len() as int, t.len() as int),
    ));
}

/// Removing position `p` takes `V[x][s[p]]` out of a row sum.
pub proof fn lemma_row_list_remove(ch: Challenge, x: int, s: Seq<usize>, p: int)
    requires
        0 <= p < s.len(),
    ensures
        row_list(ch, x, s) == row_list(ch, x, s.remove(p)) + ch.v(x, s[p] as int),
    decreases s.len(),
{
    if p == s.len() - 1 {
        assert(s.remove(p) =~= s.drop_last());
    } else {
        let u = s.drop_last();
        let y = s.last();
        assert(s.remove(p) =~= u.remove(p).push(y));
        assert((u.remove(p).push(y)).drop_last() =~= u.remove(p));
        lemma_row_list_remove(ch, x, u, p);
        assert(u[p] == s[p]);
    }
}

/// A row sum depends only on the multiset of listed items.
pub proof fn lemma_row_list_perm(ch: Challenge, x: int, s1: Seq<usize>, s2: Seq<usize>)
    requires
        s1.to_multiset() == s2.to_multiset(),
    ensures
        row_list(ch, x, s1) == row_list(ch, x, s2),
    decreases s1.len(),
{
    broadcast use vstd::seq_lib::group_to_multiset_ensures;
    broadcast use vstd::multiset::group_multiset_axioms;

    if s1.len() == 0 {
        assert(s2.to_multiset().len() == 0);
        assert(s2.len() == 0);
        assert(s1 =~= s2);
    } else {
        let y = s1.last();
        let d = s1.drop_last();
        assert(d.push(y) =~= s1);
        assert(s1.to_multiset() =~= d.to_multiset().insert(y));
        assert(s2.to_multiset().count(y) > 0);
        assert(s2.contains(y));
        let q = choose|q: int| 0 <= q < s2.len() && s2[q] == y;
        let r = s2.remove(q);
        assert(r.to_multiset() =~= s2.to_multiset().remove(y));
        assert(r.to_multiset() =~= d.to_multiset());
        lemma_row_list_perm(ch, x, d, r);
        lemma_row_list_remove(ch, x, s2, q);
    }
}

/// On a symmetric instance, removing position `p` from a list takes out
/// that item's value and its interaction with every other listed item.
pub proof fn lemma_total_value_remove(ch: Challenge, s: Seq<usize>, p: int)
    requires
        ch.valid(),
        ch.symmetric(),
        forall|t: int| 0 <= t < s.len() ==> (#[trigger] s[t] as int) < ch.n(),
        0 <= p < s.len(),
    ensures
        total_value_of(ch, s) == total_value_of(ch, s.remove(p)) + ch.val(s[p] as int) + row_list(
            ch,
            s[p] as int,
            s.remove(p),
        ),
    decreases s.len(),
{
    let u = s.drop_last();
    let y = s.last();
    assert(u.push(y) =~= s);
    assert forall|t: int| 0 <= t < u.len() implies (#[trigger] u[t] as int) < ch.n() by {
        assert(u[t] == s[t]);
    }
    assert(s[s.len() - 1] == y);
    law_total_value_append(ch, u, y);
    lemma_col_is_row(ch, u, y as int);
    if p == s.len() - 1 {
        assert(s.remove(p) =~= u);
    } else {
        let r = u.remove(p);
        assert(s.remove(p) =~= r.push(y));
        assert forall|t: int| 0 <= t < r.len() implies (#[trigger] r[t] as int) < ch.n() by {
            if t < p {
                assert(r[t] == u[t]);
            } else {
                assert(r[t] == u[t + 1]);
            }
        }
        lemma_total_value_remove(ch, u, p);
        law_total_value_append(ch, r, y);
        lemma_col_is_row(ch, r, y as int);
        lemma_row_list_remove(ch, y as int, u, p);
        assert(u[p] == s[p]);
        assert((r.push(y)).drop_last() =~= r);
        assert(ch.v(y as int, s[p] as int) == ch.v(s[p] as int, y as int));
    }
}

/// On a symmetric instance the total value of a list, repeated items
/// included, depends only on which items it lists how often, not on their
/// order.
pub proof fn law_total_value_permutation(ch: Challenge, s1: Seq<usize>, s2: Seq<usize>)
    requires
        ch.valid(),
        ch.symmetric(),
        forall|t: int| 0 <= t < s1.len() ==> (#[trigger] s1[t] as int) < ch.n(),
        forall|t: int| 0 <= t < s2.len() ==> (#[trigger] s2[t] as int) < ch.n(),
        s1.to_multiset() == s2.to_multiset(),
    ensures
        total_value_of(ch, s1) == total_value_of(ch, s2),
    decreases s1.len(),
{
    broadcast use vstd::seq_lib::group_to_multiset_ensures;
    broadcast use vstd::multiset::group_multiset_axioms;

    if s1.len() == 0 {
        assert(s2.to_multiset().len() == 0);
        assert(s2.len() == 0);
        assert(s1 =~= s2);
    } else {
        let y = s1.last();
        let d = s1.drop_last();
        assert(d.push(y) =~= s1);
        assert(s1.to_multiset() =~= d.to_multiset().insert(y));
        assert(s2.to_multiset().count(y) > 0);
        assert(s2.contains(y));
        let q = choose|q: int| 0 <= q < s2.len() && s2[q] == y;
        let r = s2.remove(q);
        assert(r.to_multiset() =~= s2.to_multiset().remove(y));
        assert(r.to_multiset() =~= d.to_multiset());
        assert forall|t: int| 0 <= t < d.len() implies (#[trigger] d[t] as int) < ch.n() by {
            assert(d[t] == s1[t]);
        }
        assert forall|t: int| 0 <= t < r.len() implies (#[trigger] r[t] as int) < ch.n() by {
            if t < q {
                assert(r[t] == s2[t]);
            } else {
                assert(r[t] == s2[t + 1]);
            }
        }
        law_total_value_permutation(ch, d, r);
        lemma_row_list_perm(ch, y as int, d, r);
        lemma_total_value_remove(ch, s1, s1.len() - 1);
        assert(s1.remove(s1.len() - 1) =~= d);
        lemma_total_value_remove(ch, s2, q);
    }
}

/// A selection with no improving move is a fixed point of steepest ascent:
/// climbing again from a local optimum changes nothing.
pub proof fn law_ascent_fixed_point(ch: Challenge, s: Seq<usize>, k: nat)
    requires
        best_move(ch, s) is None,
    ensures
        ascent(ch, s, k) == s,
    decreases k,
{
    if k > 0 {
        law_ascent_fixed_point(ch, s, (k - 1) as nat);
    }
}

/// Once steepest ascent reaches a local optimum it stays there.
proof fn lemma_ascent_stays(ch: Challenge, s: Seq<usize>, k1: nat, k2: nat)
    requires
        k1 <= k2,
        best_move(ch, ascent(ch, s, k1)) is None,
    ensures
        ascent(ch, s, k2) == ascent(ch, s, k1),
    decreases k2,
{
    if k2 > k1 {
        lemma_ascent_stays(ch, s, k1, (k2 - 1) as nat);
    }
}

/// Steepest ascent from a selection reaches one local optimum only: any
/// two step counts that both end where no move improves end at the same
/// selection, so a climb is determined by where it starts.
pub proof fn law_ascent_end_unique(ch: Challenge, s: Seq<usize>, k1: nat, k2: nat)
    requires
        best_move(ch, ascent(ch, s, k1)) is None,
        best_move(ch, ascent(ch, s, k2)) is None,
    ensures
        ascent(ch, s, k1) == ascent(ch, s, k2),
{
    if k1 <= k2 {
        lemma_ascent_stays(ch, s, k1, k2);
    } else {
        lemma_ascent_stays(ch, s, k2, k1);
    }
}

/// Any run of steepest ascent that ends where no move improves ends at
/// `climb`.
pub proof fn law_climb_is_where_ascent_rests(ch: Challenge, s: Seq<usize>, k: nat)
    requires
        best_move(ch, ascent(ch, s, k)) is None,
    ensures
        climb(ch, s) == ascent(ch, s, k),
{
    let k2 = choose|k: nat| best_move(ch, #[trigger] ascent(ch, s, k)) is None;
    law_ascent_end_unique(ch, s, k, k2);
}

/// Steepest ascent either leaves the selection as it was or ends at a
/// strictly larger total value: an equal value means nothing moved.
pub proof fn law_ascent_equal_value_means_unmoved(ch: Challenge, s: Seq<usize>, k: nat)
    requires
        ch.valid(),
        ch.symmetric(),
        sel_ok(ch, s),
        weight(ch, s) <= ch.max_weight,
    ensures
        ascent(ch, s, k) == s || total_value_of(ch, ascent(ch, s, k)) > total_value_of(ch, s),
    decreases k,
{
    if k > 0 {
        law_ascent_equal_value_means_unmoved(ch, s, (k - 1) as nat);
        law_ascent_never_worse(ch, s, (k - 1) as nat);
        let prev = ascent(ch, s, (k - 1) as nat);
        if best_move(ch, prev) is Some {
            law_ascent_step_improves(ch, prev);
        }
    }
}

/// The flags, the weight and the marginal values of the search state are
/// fixed by the selection list: two states with the same list agree on
/// all of them.
pub proof fn law_parts_determined_by_selection(
    ch: Challenge,
    s: Seq<usize>,
    is1: Seq<bool>,
    tw1: int,
    sums1: Seq<i64>,
    is2: Seq<bool>,
    tw2: int,
    sums2: Seq<i64>,
)
    requires
        parts_ok(ch, is1, s, tw1, sums1),
        parts_ok(ch, is2, s, tw2, sums2),
    ensures
        is1 == is2,
        tw1 == tw2,
        sums1 == sums2,
{
    assert(is1 =~= is2);
    assert(sums1 =~= sums2);
}

/// Greedy fill leaves no item of `order` outside the selection that would
/// still fit: when `order` lists every unselected item, the result is
/// maximal.
pub proof fn law_greedy_fill_maximal(ch: Challenge, s: Seq<usize>, order: Seq<usize>, j: usize)
    requires
        ch.valid(),
        sel_ok(ch, s),
        weight(ch, s) <= ch.max_weight,
        order.contains(j),
        (j as int) < ch.n(),
        !greedy_fill(ch, s, order).contains(j),
    ensures
        weight(ch, greedy_fill(ch, s, order)) + ch.w(j as int) > ch.max_weight,
    decreases order.len(),
{
    let prev = greedy_fill(ch, s, order.drop_last());
    let c = order.last();
    law_greedy_fill_feasible(ch, s, order.drop_last());
    if admissible(ch, prev, c) {
        lemma_push_effects(ch, prev, c);
    }
    assert(!prev.contains(j));
    if order.drop_last().contains(j) {
        law_greedy_fill_maximal(ch, s, order.drop_last(), j);
    } else {
        let i = choose|i: int| 0 <= i < order.len() && order[i] == j;
        if i < order.len() - 1 {
            assert(order.drop_last()[i] == j);
        }
        assert(c == j);
    }
}

/// When `order` lists every item outside the starting selection, greedy
/// fill ends maximal: no item outside the result would still fit.
pub proof fn law_greedy_fill_complete(ch: Challenge, s: Seq<usize>, order: Seq<usize>, j: usize)
    requires
        ch.valid(),
        sel_ok(ch, s),
        weight(ch, s) <= ch.max_weight,
        forall|i: usize| #![trigger s.contains(i)] (i as int) < ch.n() && !s.contains(i) ==> order.contains(i),
        (j as int) < ch.n(),
        !greedy_fill(ch, s, order).contains(j),
    ensures
        weight(ch, greedy_fill(ch, s, order)) + ch.w(j as int) > ch.max_weight,
{
    let g = greedy_fill(ch, s, order);
    law_greedy_fill_feasible(ch, s, order);
    if s.contains(j) {
        let i = choose|i: int| 0 <= i < s.len() && s[i] == j;
        assert(g.subrange(0, s.len() as int)[i] == g[i]);
        assert(g.contains(j));
    }
    law_greedy_fill_maximal(ch, s, order, j);
}

/// Swapping an item `a` for an outside item `b` and then `b` back for `a`
/// gives the same items again, in a possibly different order, with the
/// same weight and the same marginal values.
pub proof fn law_swap_round_trip(ch: Challenge, s: Seq<usize>, p: usize, b: usize)
    requires
        ch.valid(),
        sel_ok(ch, s),
        (p as int) < s.len(),
        (b as int) < ch.n(),
        !s.contains(b),
    ensures
        ({
            let s1 = apply_move(s, Move::Swap { pos: p, item: b });
            let s2 = apply_move(s1, Move::Swap { pos: (s1.len() - 1) as usize, item: s[p as int] });
            &&& s2.to_multiset() == s.to_multiset()
            &&& s2.len() == s.len()
            &&& forall|j: usize| #[trigger] s2.contains(j) <==> s.contains(j)
            &&& weight(ch, s2) == weight(ch, s)
            &&& forall|y: int| 0 <= y < ch.n() ==> #[trigger] cache(ch, s2, y) == cache(ch, s, y)
        }),
{
    broadcast use vstd::seq_lib::group_to_multiset_ensures;
    broadcast use vstd::multiset::group_multiset_axioms;

    let a = s[p as int];
    lemma_bounded_len(s, ch.n() as nat);
    let mid = swap_removed(s, p as int);
    lemma_remove_effects(ch, s, p as int);
    assert(!mid.contains(b));
    lemma_push_effects(ch, mid, b);
    let s1 = mid.push(b);
    assert(apply_move(s, Move::Swap { pos: p, item: b }) == s1);
    let q = s1.len() - 1;
    assert(swap_removed(s1, q) =~= mid);
    assert(!mid.contains(a));
    lemma_push_effects(ch, mid, a);
    let s2 = mid.push(a);
    assert(apply_move(s1, Move::Swap { pos: q as usize, item: a }) == s2);
    lemma_swap_removed(s, p as int);
    assert(s.contains(a));
    assert forall|j: usize| #[trigger] s2.contains(j) <==> s.contains(j) by {}
    s.lemma_multiset_has_no_duplicates();
    s2.lemma_multiset_has_no_duplicates();
    assert forall|x: usize| #[trigger] s2.to_multiset().count(x) == s.to_multiset().count(x) by {
        if s.contains(x) {
            assert(s2.contains(x));
        }
    }
    assert(s2.to_multiset() =~= s.to_multiset());
}

/// The run depends on the settings only through their effective values:
/// an absent kick size acts as 3 and a zero one as 1, an absent kick
/// budget acts as 32.
pub proof fn law_settings_normalised(h: Hyperparameters)
    ensures
        effective_kick_size_of(h) >= 1,
        h.kick_size is None ==> effective_kick_size_of(h) == effective_kick_size_of(
            Hyperparameters { kick_size: Some(3), max_kicks: h.max_kicks },
        ),
        h.kick_size == Some(0usize) ==> effective_kick_size_of(h) == effective_kick_size_of(
            Hyperparameters { kick_size: Some(1), max_kicks: h.max_kicks },
        ),
        h.max_kicks is None ==> effective_max_kicks_of(h) == effective_max_kicks_of(
            Hyperparameters { kick_size: h.kick_size, max_kicks: Some(32) },
        ),
        h.kick_size is None ==> effective_kick_size_of(h) == 3,
        forall|k: usize| h.kick_size == Some(k) && k >= 1 ==> effective_kick_size_of(h) == k,
        h.kick_size == Some(0usize) ==> effective_kick_size_of(h) == 1,
        h.max_kicks is None ==> effective_max_kicks_of(h) == 32,
        forall|k: usize| h.max_kicks == Some(k) ==> effective_max_kicks_of(h) == k,
{
}

/// Swapping `a = s[p]` out for an outside item `b` and then `b` back out
/// for `a` restores the working state exactly: the same membership flags,
/// the same weight and the same marginal values, with the same items
/// listed in a possibly different order.
pub proof fn law_swap_round_trip_restores_parts(
    ch: Challenge,
    s: Seq<usize>,
    p: usize,
    b: usize,
    is0: Seq<bool>,
    tw0: int,
    sums0: Seq<i64>,
    is2: Seq<bool>,
    tw2: int,
    sums2: Seq<i64>,
)
    requires
        parts_ok(ch, is0, s, tw0, sums0),
        (p as int) < s.len(),
        (b as int) < ch.n(),
        !s.contains(b),
        parts_ok(
            ch,
            is2,
            apply_move(
                apply_move(s, Move::Swap { pos: p, item: b }),
                Move::Swap { pos: (s.len() - 1) as usize, item: s[p as int] },
            ),
            tw2,
            sums2,
        ),
    ensures
        is2 == is0,
        tw2 == tw0,
        sums2 == sums0,
        apply_move(
            apply_move(s, Move::Swap { pos: p, item: b }),
            Move::Swap { pos: (s.len() - 1) as usize, item: s[p as int] },
        ).to_multiset() == s.to_multiset(),
{
    law_swap_round_trip(ch, s, p, b);
    let s1 = apply_move(s, Move::Swap { pos: p, item: b });
    assert(s1.len() == s.len());
    let s2 = apply_move(s1, Move::Swap { pos: (s.len() - 1) as usize, item: s[p as int] });
    assert forall|j: int| 0 <= j < ch.n() implies #[trigger] is2[j] == is0[j] by {
        assert(s2.contains(j as usize) <==> s.contains(j as usize));
    }
    assert(is2 =~= is0);
    assert(sums2 =~= sums0);
}

/// A kick round that brings no improvement ends the run: after a refill,
/// a climb that does not beat the best leaves the kicks stopped.
pub proof fn law_unimproved_round_stops(st: SearchState, order: Seq<usize>)
    requires
        st.kicks >= 0,
        st.awaiting_refill,
        !climb_beats_best(after_finish_kick(st, order)),
    ensures
        kick_stops(after_descend(after_finish_kick(st, order))),
{
}

/// A run from `st` saves at most once per climb, and climbs at most once
/// more than the kicks it has left.
pub proof fn law_run_saves_bounded(st: SearchState, rank: spec_fn(SearchState) -> Seq<usize>)
    requires
        0 <= st.kicks <= st.max_kicks,
    ensures
        run_saves(st, rank).len() <= st.max_kicks - st.kicks + 1,
    decreases st.max_kicks - st.kicks,
{
    let d = after_descend(st);
    if !kick_stops(d) {
        let k = after_start_kick(d);
        law_run_saves_bounded(after_finish_kick(k, rank(k)), rank);
    }
}

/// A whole solve saves at least twice (the greedy start and the best at
/// the end) and at most `max_kicks + 3` times.
pub proof fn law_solve_saves_bounded(
    ch: Challenge,
    h: Hyperparameters,
    order: Seq<usize>,
    rank: spec_fn(SearchState) -> Seq<usize>,
)
    ensures
        2 <= solve_saves(ch, h, order, rank).len() <= effective_max_kicks_of(h) + 3,
{
    let st = initial_state(ch, h, order);
    law_run_saves_bounded(st, rank);
}

/// A solve is determined by its input: the same instance, start order and
/// ranking, with settings of the same effect, save the same selections in
/// the same order. The settings count only through their effective values,
/// so an absent or zero kick size and an absent budget act as their
/// normalised values.
pub proof fn law_solve_determined(
    ch1: Challenge,
    ch2: Challenge,
    h1: Hyperparameters,
    h2: Hyperparameters,
    order1: Seq<usize>,
    order2: Seq<usize>,
    rank: spec_fn(SearchState) -> Seq<usize>,
)
    requires
        ch1 == ch2,
        order1 == order2,
        effective_kick_size_of(h1) == effective_kick_size_of(h2),
        effective_max_kicks_of(h1) == effective_max_kicks_of(h2),
    ensures
        solve_saves(ch1, h1, order1, rank) == solve_saves(ch2, h2, order2, rank),
        run_end(initial_state(ch1, h1, order1), rank) == run_end(initial_state(ch2, h2, order2), rank),
{
    assert(initial_state(ch1, h1, order1) == initial_state(ch2, h2, order2));
}

/// The items a kick offers for refill are exactly the items below `k`
/// outside the selection, each once, in increasing order.
pub proof fn law_unselected_exact(s: Seq<usize>, k: nat)
    requires
        k <= usize::MAX,
    ensures
        forall|i: usize| #[trigger] unselected(s, k).contains(i) <==> ((i as int) < k && !s.contains(i)),
        forall|a: int, b: int|
            0 <= a < b < unselected(s, k).len() ==> #[trigger] unselected(s, k)[a] < #[trigger] unselected(
                s,
                k,
            )[b],
    decreases k,
{
    if k > 0 {
        let prev = unselected(s, (k - 1) as nat);
        law_unselected_exact(s, (k - 1) as nat);
        let c = (k - 1) as usize;
        if !s.contains(c) {
            let cur = prev.push(c);
            assert(unselected(s, k) == cur);
            assert forall|i: usize| #[trigger] cur.contains(i) <==> ((i as int) < k && !s.contains(i)) by {
                if cur.contains(i) {
                    let t = choose|t: int| 0 <= t < cur.len() && cur[t] == i;
                    if t < prev.len() {
                        assert(prev[t] == i);
                        assert(prev.contains(i));
                    }
                }
                if (i as int) < k && !s.contains(i) {
                    if i == c {
                        assert(cur[prev.len() as int] == c);
                    } else {
                        assert(prev.contains(i));
                        let t = choose|t: int| 0 <= t < prev.len() && prev[t] == i;
                        assert(cur[t] == i);
                    }
                }
            }
            assert forall|a: int, b: int| 0 <= a < b < cur.len() implies #[trigger] cur[a] < #[trigger] cur[b] by {
                if b == prev.len() {
                    assert(prev[a] == cur[a]);
                    assert(prev.contains(prev[a]));
                    assert((prev[a] as int) < k - 1);
                    assert(cur[b] == c);
                } else {
                    assert(prev[a] == cur[a] && prev[b] == cur[b]);
                }
            }
        }
    }
}

proof fn lemma_row_prefix_as_list(ch: Challenge, a: int, k: nat)
    requires
        k <= usize::MAX,
    ensures
        row_prefix(ch, a, k) == row_list(ch, a, all_items(k)),
    decreases k,
{
    if k > 0 {
        lemma_row_prefix_as_list(ch, a, (k - 1) as nat);
        assert(all_items(k).drop_last() =~= all_items((k - 1) as nat));
        assert(all_items(k).last() == (k - 1) as usize);
    }
}

proof fn lemma_row_prefix_as_msum(ch: Challenge, a: int, n: nat, k: nat)
    requires
        k <= n <= usize::MAX,
    ensures
        row_prefix(ch, a, k) == msum(rowf(ch, a), all_items(n), k),
    decreases k,
{
    if k > 0 {
        lemma_row_prefix_as_msum(ch, a, n, (k - 1) as nat);
        assert(all_items(n)[k - 1] == (k - 1) as usize);
        assert(all_items(n).contains((k - 1) as usize));
    }
}

/// The initial ranking key of an item is its value plus its whole
/// interaction row: the row summed entry by entry over the list of all
/// items, which is also its marginal value against the selection of
/// every item.
pub proof fn law_initial_key_is_full_row(ch: Challenge, a: int)
    requires
        ch.valid(),
    ensures
        initial_key(ch, a) == ch.val(a) + row_list(ch, a, all_items(ch.n() as nat)),
        initial_key(ch, a) == cache(ch, all_items(ch.n() as nat), a),
{
    lemma_row_prefix_as_list(ch, a, ch.n() as nat);
    lemma_row_prefix_as_msum(ch, a, ch.n() as nat, ch.n() as nat);
}

/// Where no allowed move gains, the selection is closed under both kinds
/// of move: no outside item that fits in the spare capacity has a
/// positive marginal value or raises the total value when added, and no
/// swap of a listed item for an outside one that fits raises it.
pub proof fn law_no_gain_means_closed(ch: Challenge, s: Seq<usize>)
    requires
        ch.valid(),
        ch.symmetric(),
        sel_ok(ch, s),
        weight(ch, s) <= ch.max_weight,
        forall|m: Move| #[trigger] move_ok(ch, s, m) ==> move_delta(ch, s, m) <= 0,
    ensures
        forall|i: usize|
            (i as int) < ch.n() && !s.contains(i) && weight(ch, s) + ch.w(i as int) <= ch.max_weight
                ==> #[trigger] cache(ch, s, i as int) <= 0,
        forall|i: usize|
            (i as int) < ch.n() && !s.contains(i) && weight(ch, s) + ch.w(i as int) <= ch.max_weight
                ==> #[trigger] total_value_of(ch, s.push(i)) <= total_value_of(ch, s),
        forall|p: usize, i: usize|
            #![trigger swap_removed(s, p as int).push(i)]
            (p as int) < s.len() && (i as int) < ch.n() && !s.contains(i) && weight(ch, s) - ch.w(
                s[p as int] as int,
            ) + ch.w(i as int) <= ch.max_weight ==> total_value_of(ch, swap_removed(s, p as int).push(i))
                <= total_value_of(ch, s),
{
    assert forall|i: usize|
        (i as int) < ch.n() && !s.contains(i) && weight(ch, s) + ch.w(i as int) <= ch.max_weight implies
        #[trigger] cache(ch, s, i as int) <= 0 && total_value_of(ch, s.push(i)) <= total_value_of(ch, s) by {
        let m = Move::Add { item: i };
        assert(move_ok(ch, s, m));
        law_move_gain_is_value_change(ch, s, m);
    }
    assert forall|i: usize|
        (i as int) < ch.n() && !s.contains(i) && weight(ch, s) + ch.w(i as int) <= ch.max_weight implies
        #[trigger] total_value_of(ch, s.push(i)) <= total_value_of(ch, s) by {
        assert(cache(ch, s, i as int) <= 0);
    }
    assert forall|p: usize, i: usize|
        #![trigger swap_removed(s, p as int).push(i)]
        (p as int) < s.len() && (i as int) < ch.n() && !s.contains(i) && weight(ch, s) - ch.w(s[p as int] as int)
            + ch.w(i as int) <= ch.max_weight implies total_value_of(ch, swap_removed(s, p as int).push(i))
        <= total_value_of(ch, s) by {
        let m = Move::Swap { pos: p, item: i };
        assert(move_ok(ch, s, m));
        law_move_gain_is_value_change(ch, s, m);
    }
}

/// The move steepest ascent takes is allowed, strictly gains, gains at
/// least as much as every allowed move, and among moves of equal gain it
/// comes first in scan order: swaps before additions, swaps by list
/// position and then by incoming item, additions by item.
pub proof fn law_best_move_is_steepest(ch: Challenge, s: Seq<usize>, m: Move, m2: Move)
    requires
        best_move(ch, s) == Some(m),
        move_ok(ch, s, m2),
    ensures
        move_ok(ch, s, m),
        move_delta(ch, s, m) > 0,
        move_delta(ch, s, m2) <= move_delta(ch, s, m),
        m2 != m && move_delta(ch, s, m2) == move_delta(ch, s, m) ==> match (m, m2) {
            (Move::Swap { pos: p1, item: i1 }, Move::Swap { pos: p2, item: i2 }) => p1 < p2 || (p1 == p2 && i1
                < i2),
            (Move::Swap { .. }, Move::Add { .. }) => true,
            (Move::Add { .. }, Move::Swap { .. }) => false,
            (Move::Add { item: i1 }, Move::Add { item: i2 }) => i1 < i2,
        },
{
    assert(exists|m3: Move| first_best(ch, s, m3));
    assert(first_best(ch, s, m));
    if m2 != m && move_delta(ch, s, m2) == move_delta(ch, s, m) {
        assert(!earlier(m2, m));
        match (m, m2) {
            (Move::Swap { pos: p1, item: i1 }, Move::Swap { pos: p2, item: i2 }) => {
                assert(p1 != p2 || i1 != i2);
            },
            (Move::Add { item: i1 }, Move::Add { item: i2 }) => {
                assert(i1 != i2);
            },
            _ => {},
        }
    }
}

/// Greedy fill goes through `order` one item at a time: an item joins
/// exactly when it is a real item, not yet selected, and fits in what is
/// left of the capacity; nothing else joins, and nothing leaves.
pub proof fn law_greedy_fill_step(ch: Challenge, s: Seq<usize>, order: Seq<usize>, t: int)
    requires
        0 <= t < order.len(),
    ensures
        ({
            let before = greedy_fill(ch, s, order.take(t));
            let after = greedy_fill(ch, s, order.take(t + 1));
            let c = order[t];
            if (c as int) < ch.n() && !before.contains(c) && weight(ch, before) + ch.w(c as int)
                <= ch.max_weight {
                after == before.push(c)
            } else {
                after == before
            }
        }),
        greedy_fill(ch, s, order.take(0)) == s,
        greedy_fill(ch, s, order.take(order.len() as int)) == greedy_fill(ch, s, order),
{
    assert(order.take(t + 1).drop_last() =~= order.take(t));
    assert(order.take(0) =~= Seq::<usize>::empty());
    assert(order.take(order.len() as int) =~= order);
}

/// The value of a short list written out: each item's value, plus
/// `V[first][second]` for every pair taken in list order.
pub proof fn law_total_value_short_lists(ch: Challenge, a: usize, b: usize, c: usize)
    ensures
        total_value_of(ch, seq![a]) == ch.val(a as int),
        total_value_of(ch, seq![a, b]) == ch.val(a as int) + ch.val(b as int) + ch.v(a as int, b as int),
        total_value_of(ch, seq![a, b, c]) == ch.val(a as int) + ch.val(b as int) + ch.val(c as int) + ch.v(
            a as int,
            b as int,
        ) + ch.v(a as int, c as int) + ch.v(b as int, c as int),
{
    let s1 = seq![a];
    let s2 = seq![a, b];
    let s3 = seq![a, b, c];
    assert(s1.drop_last() =~= Seq::<usize>::empty());
    assert(s2.drop_last() =~= s1);
    assert(s3.drop_last() =~= s2);
    assert(s1.subrange(1, 1) =~= Seq::<usize>::empty());
    assert(s2.subrange(2, 2) =~= Seq::<usize>::empty());
    assert(s2.subrange(1, 2) =~= seq![b]);
    assert(seq![b].drop_last() =~= Seq::<usize>::empty());
    assert(s3.subrange(3, 3) =~= Seq::<usize>::empty());
    assert(s3.subrange(2, 3) =~= seq![c]);
    assert(seq![c].drop_last() =~= Seq::<usize>::empty());
    assert(s3.subrange(1, 3) =~= seq![b, c]);
    assert(seq![b, c].drop_last() =~= seq![b]);
    let e = Seq::<usize>::empty();
    assert(list_values(ch, e) == 0);
    assert(list_values(ch, s1) == ch.val(a as int));
    assert(list_values(ch, s2) == ch.val(a as int) + ch.val(b as int));
    assert(list_values(ch, s3) == ch.val(a as int) + ch.val(b as int) + ch.val(c as int));
    assert(row_list(ch, a as int, e) == 0);
    assert(row_list(ch, b as int, e) == 0);
    assert(row_list(ch, a as int, seq![b]) == ch.v(a as int, b as int));
    assert(row_list(ch, b as int, seq![c]) == ch.v(b as int, c as int));
    assert(row_list(ch, a as int, seq![b, c]) == ch.v(a as int, b as int) + ch.v(a as int, c as int));
    assert(pair_rows(ch, s1, 0) == 0);
    assert(pair_rows(ch, s1, 1) == 0);
    assert(total_value_of(ch, s1) == ch.val(a as int));
    assert(pair_rows(ch, s2, 0) == 0);
    assert(pair_rows(ch, s2, 1) == ch.v(a as int, b as int));
    assert(pair_rows(ch, s3, 0) == 0);
    assert(pair_rows(ch, s2, 2) == ch.v(a as int, b as int));
    assert(pair_rows(ch, s3, 1) == ch.v(a as int, b as int) + ch.v(a as int, c as int));
    assert(pair_rows(ch, s3, 2) == ch.v(a as int, b as int) + ch.v(a as int, c as int) + ch.v(b as int, c as int));
    assert(pair_rows(ch, s3, 3) == pair_rows(ch, s3, 2));
}

} // verus!
