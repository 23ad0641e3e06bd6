//! Mathematical model of a quadratic knapsack instance and of selections.
use vstd::prelude::*;

verus! {

/// Largest number of items handled; it keeps every sum of the search
/// inside an `i64`.
pub const MAX_ITEMS: usize = 65536;

/// A quadratic knapsack instance: item weights and values, the pairwise
/// interaction values, and the weight capacity.
pub struct Challenge {
    pub num_items: usize,
    pub weights: Vec<u32>,
    pub values: Vec<u32>,
    pub interaction_values: Vec<Vec<i32>>,
    pub max_weight: u32,
}

impl Challenge {
    pub open spec fn n(&self) -> int {
        self.num_items as int
    }

    pub open spec fn w(&self, i: int) -> int {
        self.weights@[i] as int
    }

    pub open spec fn val(&self, i: int) -> int {
        self.values@[i] as int
    }

    pub open spec fn v(&self, i: int, j: int) -> int {
        self.interaction_values@[i]@[j] as int
    }

    /// Shapes agree with `num_items`, which is at most `MAX_ITEMS`.
    pub open spec fn valid(&self) -> bool {
        &&& self.num_items <= MAX_ITEMS
        &&& self.weights@.len() == self.n()
        &&& self.values@.len() == self.n()
        &&& self.interaction_values@.len() == self.n()
        &&& forall|i: int| 0 <= i < self.n() ==> #[trigger] self.interaction_values@[i]@.len() == self.n()
    }

    /// Tells whether the instance is `valid` and `symmetric`, the inputs on
    /// which the search is defined.
    pub fn is_well_formed(&self) -> (r: bool)
        ensures
            r == (self.valid() && self.symmetric()),
    {
        let n = self.num_items;
        if n > MAX_ITEMS || self.weights.len() != n || self.values.len() != n
            || self.interaction_values.len() != n {
            return false;
        }
        let mut i: usize = 0;
        while i < n
            invariant
                n == self.n(),
                self.interaction_values@.len() == n,
                0 <= i <= n,
                forall|a: int| 0 <= a < i ==> #[trigger] self.interaction_values@[a]@.len() == n,
            decreases n - i,
        {
            if self.interaction_values[i].len() != n {
                return false;
            }
            i = i + 1;
        }
        let mut a: usize = 0;
        while a < n
            invariant
                self.valid(),
                n == self.n(),
                0 <= a <= n,
                forall|x: int, y: int| 0 <= x < a && 0 <= y < n ==> #[trigger] self.v(x, y) == self.v(y, x),
                forall|x: int| 0 <= x < a ==> #[trigger] self.v(x, x) == 0,
            decreases n - a,
        {
            if self.interaction_values[a][a] != 0 {
                assert(self.v(a as int, a as int) != 0);
                return false;
            }
            let mut b: usize = 0;
            while b < n
                invariant
                    self.valid(),
                    n == self.n(),
                    0 <= a < n,
                    0 <= b <= n,
                    forall|y: int| 0 <= y < b ==> #[trigger] self.v(a as int, y) == self.v(y, a as int),
                decreases n - b,
            {
                if self.interaction_values[a][b] != self.interaction_values[b][a] {
                    assert(self.v(a as int, b as int) != self.v(b as int, a as int));
                    return false;
                }
                b = b + 1;
            }
            a = a + 1;
        }
        proof {
            assert forall|x: int, y: int| 0 <= x < n && 0 <= y < n implies #[trigger] self.v(x, y) == self.v(y, x) by {}
        }
        true
    }

    /// The interaction matrix is symmetric with a zero diagonal.
    pub open spec fn symmetric(&self) -> bool {
        &&& forall|i: int, j: int|
            0 <= i < self.n() && 0 <= j < self.n() ==> #[trigger] self.v(i, j) == self.v(j, i)
        &&& forall|i: int| 0 <= i < self.n() ==> #[trigger] self.v(i, i) == 0
    }
}

/// Row `x` of the interaction matrix as a function of the column.
pub open spec fn rowf(ch: Challenge, x: int) -> spec_fn(int) -> int {
    |j: int| ch.v(x, j)
}

/// Item weight as a function of the item.
pub open spec fn weightf(ch: Challenge) -> spec_fn(int) -> int {
    |j: int| ch.w(j)
}

/// `f(j)` summed over the items `j < k` that occur in `s`.
pub open spec fn msum(f: spec_fn(int) -> int, s: Seq<usize>, k: nat) -> int
    decreases k,
{
    if k == 0 {
        0
    } else {
        msum(f, s, (k - 1) as nat) + if s.contains((k - 1) as usize) {
            f(k - 1)
        } else {
            0
        }
    }
}

/// `s2` holds exactly the items of `s1` below `k`, plus `x`.
pub open spec fn inserts(s1: Seq<usize>, s2: Seq<usize>, x: int, k: int) -> bool {
    forall|j: int|
        0 <= j < k ==> (#[trigger] s2.contains(j as usize) <==> (s1.contains(j as usize) || j == x))
}

pub proof fn lemma_msum_insert(f: spec_fn(int) -> int, s1: Seq<usize>, s2: Seq<usize>, x: int, k: nat)
    requires
        0 <= x,
        inserts(s1, s2, x, k as int),
        x < k ==> !s1.contains(x as usize),
    ensures
        msum(f, s2, k) == msum(f, s1, k) + if x < k { f(x) } else { 0 },
    decreases k,
{
    if k > 0 {
        lemma_msum_insert(f, s1, s2, x, (k - 1) as nat);
        assert(s2.contains((k - 1) as usize) <==> (s1.contains((k - 1) as usize) || k - 1 == x));
    }
}

/// Value of the items of `s` below `k`: their values plus the interaction
/// of every pair of them.
pub open spec fn memval(ch: Challenge, s: Seq<usize>, k: nat) -> int
    decreases k,
{
    if k == 0 {
        0
    } else {
        memval(ch, s, (k - 1) as nat) + if s.contains((k - 1) as usize) {
            ch.val(k - 1) + msum(rowf(ch, k - 1), s, (k - 1) as nat)
        } else {
            0
        }
    }
}

/// Adding an item `x` raises the value by its value plus its interaction
/// with the items already there.
pub proof fn lemma_memval_insert(ch: Challenge, s1: Seq<usize>, s2: Seq<usize>, x: int, k: nat)
    requires
        ch.valid(),
        ch.symmetric(),
        0 <= x < ch.n(),
        k <= ch.n(),
        inserts(s1, s2, x, ch.n()),
        !s1.contains(x as usize),
    ensures
        memval(ch, s2, k) == memval(ch, s1, k) + if x < k {
            ch.val(x) + msum(rowf(ch, x), s1, k)
        } else {
            0
        },
    decreases k,
{
    if k > 0 {
        let i = k - 1;
        lemma_memval_insert(ch, s1, s2, x, (k - 1) as nat);
        assert(s2.contains(i as usize) <==> (s1.contains(i as usize) || i == x));
        assert(inserts(s1, s2, x, i));
        lemma_msum_insert(rowf(ch, i), s1, s2, x, i as nat);
        if x < k {
            assert(inserts(s1, s2, x, k as int));
            if i != x {
                assert(ch.v(x, i) == ch.v(i, x));
            }
        }
    }
}

/// Sum of `|V[i][j]|` over `j < k`.
pub open spec fn absrow(ch: Challenge, i: int, k: nat) -> int
    decreases k,
{
    if k == 0 {
        0
    } else {
        absrow(ch, i, (k - 1) as nat) + if ch.v(i, k - 1) >= 0 {
            ch.v(i, k - 1)
        } else {
            -ch.v(i, k - 1)
        }
    }
}

/// An upper bound of `memval` over all selections.
pub open spec fn valbound(ch: Challenge, k: nat) -> int
    decreases k,
{
    if k == 0 {
        0
    } else {
        valbound(ch, (k - 1) as nat) + ch.val(k - 1) + absrow(ch, k - 1, (k - 1) as nat)
    }
}

pub proof fn lemma_msum_row_bound(ch: Challenge, i: int, s: Seq<usize>, k: nat)
    ensures
        msum(rowf(ch, i), s, k) <= absrow(ch, i, k),
        0 <= absrow(ch, i, k),
    decreases k,
{
    if k > 0 {
        lemma_msum_row_bound(ch, i, s, (k - 1) as nat);
    }
}

pub proof fn lemma_memval_bound(ch: Challenge, s: Seq<usize>, k: nat)
    requires
        ch.valid(),
        k <= ch.n(),
    ensures
        memval(ch, s, k) <= valbound(ch, k),
    decreases k,
{
    if k > 0 {
        lemma_memval_bound(ch, s, (k - 1) as nat);
        lemma_msum_row_bound(ch, k - 1, s, (k - 1) as nat);
    }
}

/// The list after `Vec::swap_remove(p)`: the last element takes slot `p`.
pub open spec fn swap_removed(s: Seq<usize>, p: int) -> Seq<usize> {
    s.update(p, s.last()).drop_last()
}

pub proof fn lemma_swap_removed(s: Seq<usize>, p: int)
    requires
        s.no_duplicates(),
        0 <= p < s.len(),
    ensures
        swap_removed(s, p).len() == s.len() - 1,
        swap_removed(s, p).no_duplicates(),
        forall|i: int|
            0 <= i < s.len() - 1 ==> #[trigger] swap_removed(s, p)[i] == if i == p {
                s[s.len() - 1]
            } else {
                s[i]
            },
        forall|j: usize| #[trigger]
            swap_removed(s, p).contains(j) <==> (s.contains(j) && j != s[p]),
{
    let r = swap_removed(s, p);
    let n = s.len() as int;
    assert forall|i: int| 0 <= i < n - 1 implies #[trigger] r[i] == if i == p {
        s[n - 1]
    } else {
        s[i]
    } by {}
    assert forall|a: int, b: int| 0 <= a < r.len() && 0 <= b < r.len() && a != b implies r[a] != r[b] by {
        let ia = if a == p { n - 1 } else { a };
        let ib = if b == p { n - 1 } else { b };
        assert(r[a] == s[ia]);
        assert(r[b] == s[ib]);
    }
    assert forall|j: usize| #[trigger] r.contains(j) <==> (s.contains(j) && j != s[p]) by {
        if r.contains(j) {
            let i = choose|i: int| 0 <= i < r.len() && r[i] == j;
            let ii = if i == p { n - 1 } else { i };
            assert(s[ii] == j);
            assert(ii != p);
        }
        if s.contains(j) && j != s[p] {
            let i = choose|i: int| 0 <= i < s.len() && s[i] == j;
            if i == n - 1 {
                assert(r[p] == j);
            } else {
                assert(r[i] == j);
            }
        }
    }
}

pub proof fn lemma_push(s: Seq<usize>, x: usize)
    requires
        s.no_duplicates(),
        !s.contains(x),
    ensures
        s.push(x).no_duplicates(),
        forall|j: usize| #[trigger] s.push(x).contains(j) <==> (s.contains(j) || j == x),
{
    let r = s.push(x);
    assert forall|a: int, b: int| 0 <= a < r.len() && 0 <= b < r.len() && a != b implies r[a] != r[b] by {
        if a == s.len() {
            assert(r[b] == s[b]);
            if r[a] == r[b] {
                assert(s.contains(x));
            }
        } else if b == s.len() {
            assert(r[a] == s[a]);
            if r[a] == r[b] {
                assert(s.contains(x));
            }
        }
    }
    assert forall|j: usize| #[trigger] r.contains(j) <==> (s.contains(j) || j == x) by {
        if r.contains(j) {
            let i = choose|i: int| 0 <= i < r.len() && r[i] == j;
            if i < s.len() {
                assert(s[i] == j);
            }
        }
        if s.contains(j) {
            let i = choose|i: int| 0 <= i < s.len() && s[i] == j;
            assert(r[i] == j);
        }
        if j == x {
            assert(r[s.len() as int] == j);
        }
    }
}

/// `f` bounded by `c` in absolute value below `k` bounds `msum` by `k * c`.
pub proof fn lemma_msum_abs(f: spec_fn(int) -> int, s: Seq<usize>, k: nat, c: int)
    requires
        0 <= c,
        forall|j: int| 0 <= j < k ==> -c <= #[trigger] f(j) <= c,
    ensures
        -(k * c) <= msum(f, s, k) <= k * c,
    decreases k,
{
    if k > 0 {
        lemma_msum_abs(f, s, (k - 1) as nat, c);
        assert((k - 1) * c + c == k * c) by (nonlinear_arith);
    }
}

/// `s` lists distinct items of the instance.
pub open spec fn sel_ok(ch: Challenge, s: Seq<usize>) -> bool {
    &&& s.no_duplicates()
    &&& forall|t: int| 0 <= t < s.len() ==> (#[trigger] s[t] as int) < ch.n()
}

/// The marginal value of item `x` against selection `s`: its value plus
/// its interaction with every selected item.
pub open spec fn cache(ch: Challenge, s: Seq<usize>, x: int) -> int {
    ch.val(x) + msum(rowf(ch, x), s, ch.n() as nat)
}

/// Total weight of the selection.
pub open spec fn weight(ch: Challenge, s: Seq<usize>) -> int {
    msum(weightf(ch), s, ch.n() as nat)
}

/// Value of the selection, order-free.
pub open spec fn sel_value(ch: Challenge, s: Seq<usize>) -> int {
    memval(ch, s, ch.n() as nat)
}

pub proof fn lemma_cache_bound(ch: Challenge, s: Seq<usize>, x: int)
    requires
        ch.valid(),
        0 <= x < ch.n(),
    ensures
        -0x8000_0000_0000 <= cache(ch, s, x) <= 0x8000_0000_0000 + 0xffff_ffff,
{
    let c = 0x8000_0000int;
    assert forall|j: int| 0 <= j < ch.n() implies -c <= #[trigger] rowf(ch, x)(j) <= c by {}
    lemma_msum_abs(rowf(ch, x), s, ch.n() as nat, c);
    assert(ch.n() * c <= 0x10000 * c) by (nonlinear_arith)
        requires
            ch.n() <= 0x10000,
            c > 0,
    ;
}

pub proof fn lemma_weight_nonneg(ch: Challenge, s: Seq<usize>, k: nat)
    ensures
        0 <= msum(weightf(ch), s, k),
    decreases k,
{
    if k > 0 {
        lemma_weight_nonneg(ch, s, (k - 1) as nat);
    }
}

/// Effect of pushing a new item `x` on a selection.
pub proof fn lemma_push_effects(ch: Challenge, s: Seq<usize>, x: usize)
    requires
        ch.valid(),
        sel_ok(ch, s),
        (x as int) < ch.n(),
        !s.contains(x),
    ensures
        sel_ok(ch, s.push(x)),
        forall|j: usize| #[trigger] s.push(x).contains(j) <==> (s.contains(j) || j == x),
        forall|y: int|
            0 <= y < ch.n() ==> #[trigger] cache(ch, s.push(x), y) == cache(ch, s, y) + ch.v(y, x as int),
        weight(ch, s.push(x)) == weight(ch, s) + ch.w(x as int),
        ch.symmetric() ==> sel_value(ch, s.push(x)) == sel_value(ch, s) + cache(ch, s, x as int),
{
    let s2 = s.push(x);
    let n = ch.n();
    lemma_push(s, x);
    assert(inserts(s, s2, x as int, n));
    assert forall|t: int| 0 <= t < s2.len() implies (#[trigger] s2[t] as int) < n by {
        if t < s.len() {
            assert(s2[t] == s[t]);
        }
    }
    assert forall|y: int| 0 <= y < n implies #[trigger] cache(ch, s2, y) == cache(ch, s, y) + ch.v(y, x as int) by {
        lemma_msum_insert(rowf(ch, y), s, s2, x as int, n as nat);
    }
    lemma_msum_insert(weightf(ch), s, s2, x as int, n as nat);
    if ch.symmetric() {
        lemma_memval_insert(ch, s, s2, x as int, n as nat);
    }
}

/// Effect of `swap_remove(p)` on a selection.
pub proof fn lemma_remove_effects(ch: Challenge, s: Seq<usize>, p: int)
    requires
        ch.valid(),
        sel_ok(ch, s),
        0 <= p < s.len(),
    ensures
        sel_ok(ch, swap_removed(s, p)),
        swap_removed(s, p).len() == s.len() - 1,
        forall|j: usize| #[trigger] swap_removed(s, p).contains(j) <==> (s.contains(j) && j != s[p]),
        forall|y: int|
            0 <= y < ch.n() ==> #[trigger] cache(ch, swap_removed(s, p), y) == cache(ch, s, y)
                - ch.v(y, s[p] as int),
        weight(ch, swap_removed(s, p)) == weight(ch, s) - ch.w(s[p] as int),
        0 <= weight(ch, swap_removed(s, p)),
        ch.symmetric() ==> sel_value(ch, s) == sel_value(ch, swap_removed(s, p)) + cache(
            ch,
            swap_removed(s, p),
            s[p] as int,
        ),
{
    let r = swap_removed(s, p);
    let n = ch.n();
    let x = s[p];
    lemma_swap_removed(s, p);
    assert(s.contains(x));
    assert forall|j: int| 0 <= j < n implies (#[trigger] s.contains(j as usize) <==> (r.contains(
        j as usize,
    ) || j == x)) by {}
    assert(inserts(r, s, x as int, n));
    assert forall|t: int| 0 <= t < r.len() implies (#[trigger] r[t] as int) < n by {
        if t == p {
            assert(r[t] == s[s.len() - 1]);
        } else {
            assert(r[t] == s[t]);
        }
    }
    assert forall|y: int| 0 <= y < n implies #[trigger] cache(ch, r, y) == cache(ch, s, y) - ch.v(y, x as int) by {
        lemma_msum_insert(rowf(ch, y), r, s, x as int, n as nat);
    }
    lemma_msum_insert(weightf(ch), r, s, x as int, n as nat);
    lemma_weight_nonneg(ch, r, n as nat);
    if ch.symmetric() {
        lemma_memval_insert(ch, r, s, x as int, n as nat);
    }
}

/// One step of the local search: swap the selected item at list position
/// `pos` for the unselected `item`, or add `item` outright.
#[derive(Clone, Copy, Debug)]
pub enum Move {
    Swap { pos: usize, item: usize },
    Add { item: usize },
}

/// The move keeps the selection within the weight capacity and brings in
/// an unselected item.
pub open spec fn move_ok(ch: Challenge, s: Seq<usize>, m: Move) -> bool {
    match m {
        Move::Swap { pos, item } => {
            &&& (pos as int) < s.len()
            &&& (item as int) < ch.n()
            &&& !s.contains(item)
            &&& ch.w(item as int) - ch.w(s[pos as int] as int) <= ch.max_weight - weight(ch, s)
        },
        Move::Add { item } => {
            &&& (item as int) < ch.n()
            &&& !s.contains(item)
            &&& ch.w(item as int) <= ch.max_weight - weight(ch, s)
        },
    }
}

/// Gain of a move as the search estimates it from the marginal values.
pub open spec fn move_delta(ch: Challenge, s: Seq<usize>, m: Move) -> int {
    match m {
        Move::Swap { pos, item } => cache(ch, s, item as int) - cache(ch, s, s[pos as int] as int)
            - ch.v(item as int, s[pos as int] as int),
        Move::Add { item } => cache(ch, s, item as int),
    }
}

/// Scan order of the search: swaps by list position then item, then
/// additions by item.
pub open spec fn earlier(m1: Move, m2: Move) -> bool {
    match (m1, m2) {
        (Move::Swap { pos: p1, item: i1 }, Move::Swap { pos: p2, item: i2 }) => p1 < p2 || (p1 == p2
            && i1 < i2),
        (Move::Swap { .. }, Move::Add { .. }) => true,
        (Move::Add { .. }, Move::Swap { .. }) => false,
        (Move::Add { item: i1 }, Move::Add { item: i2 }) => i1 < i2,
    }
}

/// `m` is the first, in scan order, of the allowed moves of largest gain,
/// and that gain is positive.
pub open spec fn first_best(ch: Challenge, s: Seq<usize>, m: Move) -> bool {
    &&& move_ok(ch, s, m)
    &&& move_delta(ch, s, m) > 0
    &&& forall|m2: Move| #[trigger]
        move_ok(ch, s, m2) ==> move_delta(ch, s, m2) <= move_delta(ch, s, m)
    &&& forall|m2: Move|
        #[trigger] move_ok(ch, s, m2) && earlier(m2, m) ==> move_delta(ch, s, m2) < move_delta(
            ch,
            s,
            m,
        )
}

/// The move the steepest ascent takes from `s`, if any improves.
pub open spec fn best_move(ch: Challenge, s: Seq<usize>) -> Option<Move> {
    if exists|m: Move| first_best(ch, s, m) {
        Some(choose|m: Move| first_best(ch, s, m))
    } else {
        None
    }
}

pub open spec fn apply_move(s: Seq<usize>, m: Move) -> Seq<usize> {
    match m {
        Move::Swap { pos, item } => swap_removed(s, pos as int).push(item),
        Move::Add { item } => s.push(item),
    }
}

/// One step of steepest ascent; a local optimum stays put.
pub open spec fn ascent_step(ch: Challenge, s: Seq<usize>) -> Seq<usize> {
    match best_move(ch, s) {
        Some(m) => apply_move(s, m),
        None => s,
    }
}

/// The selection after `k` steps of steepest ascent from `s`.
pub open spec fn ascent(ch: Challenge, s: Seq<usize>, k: nat) -> Seq<usize>
    decreases k,
{
    if k == 0 {
        s
    } else {
        ascent_step(ch, ascent(ch, s, (k - 1) as nat))
    }
}

/// Where steepest ascent from `s` comes to rest: the selection after as
/// many steps as it takes to reach one with no improving move.
pub open spec fn climb(ch: Challenge, s: Seq<usize>) -> Seq<usize> {
    ascent(ch, s, choose|k: nat| best_move(ch, #[trigger] ascent(ch, s, k)) is None)
}

pub proof fn lemma_first_best_unique(ch: Challenge, s: Seq<usize>, m1: Move, m2: Move)
    requires
        first_best(ch, s, m1),
        first_best(ch, s, m2),
    ensures
        m1 == m2,
{
    assert(move_delta(ch, s, m1) <= move_delta(ch, s, m2));
    assert(move_delta(ch, s, m2) <= move_delta(ch, s, m1));
    if m1 != m2 {
        assert(earlier(m1, m2) || earlier(m2, m1));
    }
}

pub proof fn lemma_best_move_is(ch: Challenge, s: Seq<usize>, m: Move)
    requires
        first_best(ch, s, m),
    ensures
        best_move(ch, s) == Some(m),
{
    let c = choose|m2: Move| first_best(ch, s, m2);
    lemma_first_best_unique(ch, s, c, m);
}

/// An allowed move keeps the selection valid and within capacity; on a
/// symmetric instance it raises the value by exactly its estimated gain.
pub proof fn lemma_apply_effects(ch: Challenge, s: Seq<usize>, m: Move)
    requires
        ch.valid(),
        sel_ok(ch, s),
        weight(ch, s) <= ch.max_weight,
        move_ok(ch, s, m),
    ensures
        sel_ok(ch, apply_move(s, m)),
        weight(ch, apply_move(s, m)) <= ch.max_weight,
        ch.symmetric() ==> sel_value(ch, apply_move(s, m)) == sel_value(ch, s) + move_delta(ch, s, m),
{
    match m {
        Move::Swap { pos, item } => {
            let out = s[pos as int];
            let mid = swap_removed(s, pos as int);
            lemma_remove_effects(ch, s, pos as int);
            assert(!mid.contains(item));
            lemma_push_effects(ch, mid, item);
            if ch.symmetric() {
                assert(cache(ch, mid, out as int) == cache(ch, s, out as int) - ch.v(out as int, out as int));
                assert(cache(ch, mid, item as int) == cache(ch, s, item as int) - ch.v(item as int, out as int));
            }
        },
        Move::Add { item } => {
            lemma_push_effects(ch, s, item);
        },
    }
}

/// `V[x][s[t]]` summed over the list `s`.
pub open spec fn row_list(ch: Challenge, x: int, s: Seq<usize>) -> int
    decreases s.len(),
{
    if s.len() == 0 {
        0
    } else {
        row_list(ch, x, s.drop_last()) + ch.v(x, s.last() as int)
    }
}

/// Values of the listed items, summed.
pub open spec fn list_values(ch: Challenge, s: Seq<usize>) -> int
    decreases s.len(),
{
    if s.len() == 0 {
        0
    } else {
        list_values(ch, s.drop_last()) + ch.val(s.last() as int)
    }
}

/// `V[s[a]][s[b]]` summed over the pairs of positions `a < b` with `a`
/// below `k`.
pub open spec fn pair_rows(ch: Challenge, s: Seq<usize>, k: nat) -> int
    decreases k,
{
    if k == 0 {
        0
    } else {
        pair_rows(ch, s, (k - 1) as nat) + row_list(ch, s[k - 1] as int, s.subrange(k as int, s.len() as int))
    }
}

/// Value of a list of items: each item's value plus `V[s[a]][s[b]]` for
/// every pair of positions `a < b`.
pub open spec fn total_value_of(ch: Challenge, s: Seq<usize>) -> int {
    list_values(ch, s) + pair_rows(ch, s, s.len())
}

pub proof fn lemma_row_list_abs(ch: Challenge, x: int, s: Seq<usize>)
    ensures
        -(s.len() * 0x8000_0000) <= row_list(ch, x, s) <= s.len() * 0x8000_0000,
    decreases s.len(),
{
    if s.len() > 0 {
        lemma_row_list_abs(ch, x, s.drop_last());
    }
}

pub proof fn lemma_list_values_bound(ch: Challenge, s: Seq<usize>)
    ensures
        0 <= list_values(ch, s) <= s.len() * 0xffff_ffff,
    decreases s.len(),
{
    if s.len() > 0 {
        lemma_list_values_bound(ch, s.drop_last());
    }
}

/// Number of position pairs `a < b < l` with `a < k`.
pub open spec fn pair_slots(l: int, k: nat) -> int
    decreases k,
{
    if k == 0 {
        0
    } else {
        pair_slots(l, (k - 1) as nat) + (l - k)
    }
}

pub proof fn lemma_pair_slots(l: int, k: nat)
    requires
        k <= l <= 0x10000,
    ensures
        0 <= pair_slots(l, k) <= 2147450880,
        2 * pair_slots(l, k) == k * (2 * l - k - 1),
    decreases k,
{
    if k > 0 {
        lemma_pair_slots(l, (k - 1) as nat);
        assert((k - 1) * (2 * l - (k - 1) - 1) + 2 * (l - k) == k * (2 * l - k - 1)) by (nonlinear_arith);
    } else {
        assert(k * (2 * l - k - 1) == 0) by (nonlinear_arith)
            requires
                k == 0,
        ;
    }
    assert(0 <= k * (2 * l - k - 1) <= l * (l - 1)) by (nonlinear_arith)
        requires
            0 <= k <= l,
    {
        assert(l * (l - 1) - k * (2 * l - k - 1) == (l - k) * (l - k - 1));
        if k < l {
            assert((l - k) * (l - k - 1) >= 0);
        }
    }
    assert(l * (l - 1) <= 0x10000 * 0xffff) by (nonlinear_arith)
        requires
            0 <= l <= 0x10000,
    ;
}

pub proof fn lemma_pair_rows_abs(ch: Challenge, s: Seq<usize>, k: nat)
    requires
        k <= s.len(),
    ensures
        -(pair_slots(s.len() as int, k) * 0x8000_0000) <= pair_rows(ch, s, k) <= pair_slots(
            s.len() as int,
            k,
        ) * 0x8000_0000,
    decreases k,
{
    if k > 0 {
        lemma_pair_rows_abs(ch, s, (k - 1) as nat);
        let t = s.subrange(k as int, s.len() as int);
        lemma_row_list_abs(ch, s[k - 1] as int, t);
    }
}

/// `c` is an unselected item that still fits.
pub open spec fn admissible(ch: Challenge, s: Seq<usize>, c: usize) -> bool {
    &&& (c as int) < ch.n()
    &&& !s.contains(c)
    &&& weight(ch, s) + ch.w(c as int) <= ch.max_weight
}

/// Goes through `order` and appends each admissible item.
pub open spec fn greedy_fill(ch: Challenge, s: Seq<usize>, order: Seq<usize>) -> Seq<usize>
    decreases order.len(),
{
    if order.len() == 0 {
        s
    } else {
        let prev = greedy_fill(ch, s, order.drop_last());
        if admissible(ch, prev, order.last()) {
            prev.push(order.last())
        } else {
            prev
        }
    }
}

/// `V[a][j]` summed over `j < k`.
pub open spec fn row_prefix(ch: Challenge, a: int, k: nat) -> int
    decreases k,
{
    if k == 0 {
        0
    } else {
        row_prefix(ch, a, (k - 1) as nat) + ch.v(a, k - 1)
    }
}

/// Sort key of the initial greedy pass: an item's value plus its whole
/// interaction row.
pub open spec fn initial_key(ch: Challenge, a: int) -> int {
    ch.val(a) + row_prefix(ch, a, ch.n() as nat)
}

/// The items `0, 1, ..., n - 1`, in order.
pub open spec fn all_items(n: nat) -> Seq<usize> {
    Seq::new(n, |i: int| i as usize)
}

/// The items below `k` that `s` does not hold, in increasing order.
pub open spec fn unselected(s: Seq<usize>, k: nat) -> Seq<usize>
    decreases k,
{
    if k == 0 {
        Seq::empty()
    } else if s.contains((k - 1) as usize) {
        unselected(s, (k - 1) as nat)
    } else {
        unselected(s, (k - 1) as nat).push((k - 1) as usize)
    }
}

/// The item at list position `p` is weaker than the one at `q`: smaller
/// marginal value, ties going to the earlier position.
pub open spec fn weaker(ch: Challenge, s: Seq<usize>, p: int, q: int) -> bool {
    let a = cache(ch, s, s[p] as int);
    let b = cache(ch, s, s[q] as int);
    a < b || (a == b && p < q)
}

/// `pos` lists, from the weakest up, the weakest list positions of `s`.
pub open spec fn is_weakest(ch: Challenge, s: Seq<usize>, pos: Seq<usize>) -> bool {
    &&& pos.no_duplicates()
    &&& forall|t: int| 0 <= t < pos.len() ==> (#[trigger] pos[t] as int) < s.len()
    &&& forall|t: int, q: int|
        0 <= t < pos.len() && 0 <= q < s.len() && !pos.subrange(0, t + 1).contains(q as usize)
            ==> #[trigger] weaker(ch, s, pos[t] as int, q)
}

/// The `k` weakest list positions of `s`, weakest first.
pub open spec fn weakest_of(ch: Challenge, s: Seq<usize>, k: int) -> Seq<usize> {
    choose|pos: Seq<usize>| pos.len() == k && #[trigger] is_weakest(ch, s, pos)
}

/// The items standing at the positions `pos` of `s`.
pub open spec fn items_at(s: Seq<usize>, pos: Seq<usize>) -> Seq<usize> {
    pos.map_values(|p: usize| s[p as int])
}

/// Removes the items of `r` one by one, each by `swap_remove` at its
/// position.
pub open spec fn remove_listed(s: Seq<usize>, r: Seq<usize>) -> Seq<usize>
    decreases r.len(),
{
    if r.len() == 0 {
        s
    } else {
        let prev = remove_listed(s, r.drop_last());
        swap_removed(prev, prev.index_of(r.last()))
    }
}

pub proof fn lemma_msum_empty(f: spec_fn(int) -> int, k: nat)
    ensures
        msum(f, Seq::<usize>::empty(), k) == 0,
    decreases k,
{
    if k > 0 {
        lemma_msum_empty(f, (k - 1) as nat);
    }
}

pub proof fn lemma_row_prefix_abs(ch: Challenge, a: int, k: nat)
    ensures
        -(k * 0x8000_0000) <= row_prefix(ch, a, k) <= k * 0x8000_0000,
    decreases k,
{
    if k > 0 {
        lemma_row_prefix_abs(ch, a, (k - 1) as nat);
    }
}

/// A duplicate-free list holding every index below `m` has at least `m`
/// entries.
pub proof fn lemma_covers_len(s: Seq<usize>, m: nat)
    requires
        s.no_duplicates(),
        forall|u: int| 0 <= u < m ==> #[trigger] s.contains(u as usize),
        m <= usize::MAX + 1,
    ensures
        s.len() >= m,
    decreases m,
{
    if m > 0 {
        let x = (m - 1) as usize;
        assert(s.contains(x));
        let p = choose|p: int| 0 <= p < s.len() && s[p] == x;
        lemma_swap_removed(s, p);
        let r = swap_removed(s, p);
        assert forall|u: int| 0 <= u < m - 1 implies #[trigger] r.contains(u as usize) by {
            assert(s.contains(u as usize));
        }
        lemma_covers_len(r, (m - 1) as nat);
    }
}

/// A duplicate-free list of items below `n` has at most `n` entries.
pub proof fn lemma_bounded_len(s: Seq<usize>, n: nat)
    requires
        s.no_duplicates(),
        forall|t: int| 0 <= t < s.len() ==> (#[trigger] s[t] as int) < n,
    ensures
        s.len() <= n,
    decreases n,
{
    if n == 0 {
        if s.len() > 0 {
            assert((s[0] as int) < 0);
        }
    } else {
        let x = (n - 1) as usize;
        if s.contains(x) {
            let p = choose|p: int| 0 <= p < s.len() && s[p] == x;
            lemma_swap_removed(s, p);
            let r = swap_removed(s, p);
            assert forall|t: int| 0 <= t < r.len() implies (#[trigger] r[t] as int) < n - 1 by {
                let u = if t == p { s.len() - 1 } else { t };
                assert(r[t] == s[u]);
                assert(u != p);
            }
            lemma_bounded_len(r, (n - 1) as nat);
        } else {
            assert forall|t: int| 0 <= t < s.len() implies (#[trigger] s[t] as int) < n - 1 by {
                if s[t] == x {
                    assert(s.contains(x));
                }
            }
            lemma_bounded_len(s, (n - 1) as nat);
        }
    }
}

/// `V[s[a]][x]` summed over the positions `a < k`.
pub open spec fn col_prefix(ch: Challenge, s: Seq<usize>, x: int, k: nat) -> int
    decreases k,
{
    if k == 0 {
        0
    } else {
        col_prefix(ch, s, x, (k - 1) as nat) + ch.v(s[k - 1] as int, x)
    }
}

pub proof fn lemma_pair_rows_push(ch: Challenge, s: Seq<usize>, x: usize, k: nat)
    requires
        k <= s.len(),
    ensures
        pair_rows(ch, s.push(x), k) == pair_rows(ch, s, k) + col_prefix(ch, s, x as int, k),
    decreases k,
{
    if k > 0 {
        lemma_pair_rows_push(ch, s, x, (k - 1) as nat);
        let t = s.push(x).subrange(k as int, s.len() as int + 1);
        assert(t.drop_last() =~= s.subrange(k as int, s.len() as int));
        assert(t.last() == x);
        assert(s.push(x)[k - 1] == s[k - 1]);
    }
}

pub proof fn lemma_col_prefix_prefix(ch: Challenge, s: Seq<usize>, x: int, k: nat)
    requires
        k < s.len(),
    ensures
        col_prefix(ch, s, x, k) == col_prefix(ch, s.drop_last(), x, k),
    decreases k,
{
    if k > 0 {
        lemma_col_prefix_prefix(ch, s, x, (k - 1) as nat);
    }
}

pub proof fn lemma_col_is_row(ch: Challenge, s: Seq<usize>, x: int)
    requires
        ch.symmetric(),
        0 <= x < ch.n(),
        forall|t: int| 0 <= t < s.len() ==> (#[trigger] s[t] as int) < ch.n(),
    ensures
        col_prefix(ch, s, x, s.len()) == row_list(ch, x, s),
    decreases s.len(),
{
    if s.len() > 0 {
        let p = s.drop_last();
        assert forall|t: int| 0 <= t < p.len() implies (#[trigger] p[t] as int) < ch.n() by {
            assert(p[t] == s[t]);
        }
        lemma_col_is_row(ch, p, x);
        lemma_col_prefix_prefix(ch, s, x, p.len());
        assert(s[s.len() - 1] == s.last());
        assert(ch.v(s.last() as int, x) == ch.v(x, s.last() as int));
    }
}

pub proof fn lemma_row_list_msum(ch: Challenge, x: int, s: Seq<usize>)
    requires
        ch.valid(),
        sel_ok(ch, s),
    ensures
        row_list(ch, x, s) == msum(rowf(ch, x), s, ch.n() as nat),
    decreases s.len(),
{
    if s.len() == 0 {
        lemma_msum_empty(rowf(ch, x), ch.n() as nat);
        assert(s =~= Seq::<usize>::empty());
    } else {
        let p = s.drop_last();
        let y = s.last();
        assert(p.push(y) =~= s);
        assert(s[s.len() - 1] == y);
        assert(!p.contains(y)) by {
            if p.contains(y) {
                let i = choose|i: int| 0 <= i < p.len() && p[i] == y;
                assert(s[i] == s[s.len() - 1]);
            }
        }
        assert(p.no_duplicates()) by {
            assert forall|a: int, b: int| 0 <= a < p.len() && 0 <= b < p.len() && a != b implies p[a] != p[b] by {
                assert(p[a] == s[a] && p[b] == s[b]);
            }
        }
        assert forall|t: int| 0 <= t < p.len() implies (#[trigger] p[t] as int) < ch.n() by {
            assert(p[t] == s[t]);
        }
        lemma_row_list_msum(ch, x, p);
        lemma_push(p, y);
        assert(inserts(p, s, y as int, ch.n()));
        lemma_msum_insert(rowf(ch, x), p, s, y as int, ch.n() as nat);
    }
}

/// On a symmetric instance, the value of a list of distinct items (values
/// plus `V[s[a]][s[b]]` over position pairs `a < b`) does not depend on
/// the order of the list: it equals the order-free selection value.
pub proof fn lemma_total_value_is_sel_value(ch: Challenge, s: Seq<usize>)
    requires
        ch.valid(),
        ch.symmetric(),
        sel_ok(ch, s),
    ensures
        total_value_of(ch, s) == sel_value(ch, s),
    decreases s.len(),
{
    if s.len() == 0 {
        lemma_msum_empty(rowf(ch, 0), ch.n() as nat);
        assert(s =~= Seq::<usize>::empty());
        lemma_memval_empty(ch, ch.n() as nat);
    } else {
        let p = s.drop_last();
        let y = s.last();
        assert(p.push(y) =~= s);
        assert(s[s.len() - 1] == y);
        assert(!p.contains(y)) by {
            if p.contains(y) {
                let i = choose|i: int| 0 <= i < p.len() && p[i] == y;
                assert(s[i] == s[s.len() - 1]);
            }
        }
        assert(p.no_duplicates()) by {
            assert forall|a: int, b: int| 0 <= a < p.len() && 0 <= b < p.len() && a != b implies p[a] != p[b] by {
                assert(p[a] == s[a] && p[b] == s[b]);
            }
        }
        assert forall|t: int| 0 <= t < p.len() implies (#[trigger] p[t] as int) < ch.n() by {
            assert(p[t] == s[t]);
        }
        lemma_total_value_is_sel_value(ch, p);
        lemma_pair_rows_push(ch, p, y, p.len());
        assert(s.subrange(s.len() as int, s.len() as int).len() == 0);
        assert(pair_rows(ch, s, s.len()) == pair_rows(ch, s, p.len()) + row_list(
            ch,
            y as int,
            s.subrange(s.len() as int, s.len() as int),
        ));
        lemma_col_is_row(ch, p, y as int);
        lemma_row_list_msum(ch, y as int, p);
        lemma_push_effects(ch, p, y);
    }
}

pub proof fn lemma_memval_empty(ch: Challenge, k: nat)
    ensures
        memval(ch, Seq::<usize>::empty(), k) == 0,
    decreases k,
{
    if k > 0 {
        lemma_memval_empty(ch, (k - 1) as nat);
    }
}

} // verus!
