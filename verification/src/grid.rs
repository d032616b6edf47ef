//! The periodic grid of side `n` in dimension `d`, and the voter step on it.
//!
//! A cell is stored at index `x_0 + n * x_1 + n^2 * x_2 + ...`, where `x_a` is its
//! coordinate along axis `a`. Its `2d` neighbours are numbered by `k`: neighbour `k`
//! lies along axis `k / 2`, one step forward when `k` is even and one step back when
//! `k` is odd, the coordinates wrapping around at the border.
use vstd::prelude::*;
use vstd::arithmetic::div_mod::{lemma_fundamental_div_mod, lemma_fundamental_div_mod_converse};

verus! {

/// `n` to the power `e`.
pub open spec fn npow(n: int, e: nat) -> int
    decreases e,
{
    if e == 0 {
        1
    } else {
        n * npow(n, (e - 1) as nat)
    }
}

/// A coordinate `c` in `0..n` moved by one step in direction `dir`: `0` stays, `1` goes
/// forward and `2` goes back, wrapping around at the border of the grid.
pub open spec fn shift(c: int, dir: int, n: int) -> int {
    if dir == 1 {
        if c == n - 1 { 0 } else { c + 1 }
    } else if dir == 2 {
        if c == 0 { n - 1 } else { c - 1 }
    } else {
        c
    }
}

/// The direction that undoes a move in direction `dir`: forward and back swap.
pub open spec fn opposite_direction(dir: int) -> int {
    if dir == 1 {
        2
    } else if dir == 2 {
        1
    } else {
        dir
    }
}

/// The coordinates `pos` each moved by the matching entry of `dir`, as far as both go.
pub open spec fn moved(dir: Seq<u8>, pos: Seq<int>, n: int) -> Seq<int> {
    Seq::new(
        if dir.len() < pos.len() { dir.len() } else { pos.len() },
        |i: int| shift(pos[i], dir[i] as int, n),
    )
}

/// Each entry of `dir` swapped for the direction that undoes it.
pub open spec fn reversed_directions(dir: Seq<u8>) -> Seq<u8> {
    dir.map_values(|v: u8| opposite_direction(v as int) as u8)
}

/// Moving a coordinate of the grid and moving it back in the opposite direction leads back
/// to it.
pub proof fn law_shift_undone(c: int, dir: int, n: int)
    requires
        n > 0,
        0 <= c < n,
        0 <= dir <= 2,
    ensures
        shift(shift(c, dir, n), opposite_direction(dir), n) == c,
{
}

/// Moving a position of the grid by direction vector `dir` and then by the reversed vector
/// leads back to it.
pub proof fn law_move_undone(dir: Seq<u8>, pos: Seq<int>, n: int)
    requires
        n > 0,
        dir.len() == pos.len(),
        forall|i: int| 0 <= i < dir.len() ==> #[trigger] dir[i] <= 2,
        forall|i: int| 0 <= i < pos.len() ==> 0 <= #[trigger] pos[i] < n,
    ensures
        moved(reversed_directions(dir), moved(dir, pos, n), n) == pos,
{
    let once = moved(dir, pos, n);
    let back = moved(reversed_directions(dir), once, n);
    assert forall|i: int| 0 <= i < pos.len() implies back[i] == pos[i] by {
        law_shift_undone(pos[i], dir[i] as int, n);
        assert(reversed_directions(dir)[i] as int == opposite_direction(dir[i] as int));
    }
    assert(back =~= pos);
}

/// The direction vector of neighbour `k` in dimension `d`: all zero but the entry of
/// axis `k / 2`, which is `1` (forward) for even `k` and `2` (back) for odd `k`.
pub open spec fn direction(d: nat, k: int) -> Seq<u8> {
    Seq::new(d, |a: int| if a == k / 2 { (1 + k % 2) as u8 } else { 0u8 })
}

/// The coordinate along `axis` of the cell stored at index `i`.
pub open spec fn coordinate(n: int, i: int, axis: nat) -> int {
    (i / npow(n, axis)) % n
}

/// The index of neighbour `k` of the cell stored at index `i`.
pub open spec fn neighbour_index(n: int, i: int, k: int) -> int {
    let axis = (k / 2) as nat;
    let c = coordinate(n, i, axis);
    i + (shift(c, 1 + k % 2, n) - c) * npow(n, axis)
}

/// The neighbour that lies in the direction opposite to neighbour `k`.
pub open spec fn opposite(k: int) -> int {
    if k % 2 == 0 { k + 1 } else { k - 1 }
}

/// `ch` picks one of the `2d` neighbours for each of `len` cells.
pub open spec fn valid_choices(ch: Seq<int>, len: int, d: nat) -> bool {
    &&& ch.len() == len
    &&& forall|i: int| 0 <= i < len ==> 0 <= #[trigger] ch[i] < 2 * d
}

/// The grid after a step in which cell `i` adopts the opinion of its neighbour `ch[i]`.
pub open spec fn step_with(old: Seq<u8>, n: int, ch: Seq<int>) -> Seq<u8> {
    Seq::new(old.len(), |i: int| old[neighbour_index(n, i, ch[i])])
}

/// The neighbour choices that a sequence of draws makes: draw `r` picks neighbour `r`.
pub open spec fn choices_of(draws: Seq<usize>) -> Seq<int> {
    draws.map_values(|r: usize| r as int)
}

/// `new` is a possible outcome of one step of the voter model from `old`: every cell
/// has adopted the opinion that one of its neighbours held in `old`.
pub open spec fn step_relation(old: Seq<u8>, new: Seq<u8>, n: int, d: nat) -> bool {
    exists|ch: Seq<int>| valid_choices(ch, old.len() as int, d) && new == step_with(old, n, ch)
}

pub proof fn lemma_npow_positive(n: int, e: nat)
    requires
        n > 0,
    ensures
        npow(n, e) > 0,
    decreases e,
{
    if e > 0 {
        lemma_npow_positive(n, (e - 1) as nat);
        let p = npow(n, (e - 1) as nat);
        assert(n * p > 0) by (nonlinear_arith)
            requires
                n > 0,
                p > 0,
        ;
    }
}

pub proof fn lemma_npow_add(n: int, a: nat, b: nat)
    ensures
        npow(n, a + b) == npow(n, a) * npow(n, b),
    decreases a,
{
    if a > 0 {
        lemma_npow_add(n, (a - 1) as nat, b);
        assert((a - 1) as nat + b == (a + b - 1) as nat);
        let p = npow(n, (a - 1) as nat);
        let q = npow(n, b);
        assert(n * (p * q) == (n * p) * q) by (nonlinear_arith);
    }
}

/// The small powers that the grids of dimension 1 to 3 use.
pub proof fn lemma_npow_small(n: int)
    ensures
        npow(n, 0) == 1,
        npow(n, 1) == n,
        npow(n, 2) == n * n,
        npow(n, 3) == n * (n * n),
{
    reveal_with_fuel(npow, 4);
}

/// The index of a cell splits around the coordinate along `axis`:
/// `i == a + s * (c + n * b)` with `s = n^axis`, `0 <= a < s` and `c` the coordinate.
proof fn lemma_split_index(n: int, i: int, axis: nat) -> (abc: (int, int, int))
    requires
        n > 0,
        0 <= i,
    ensures
        0 <= abc.0 < npow(n, axis),
        abc.1 == coordinate(n, i, axis),
        0 <= abc.1 < n,
        0 <= abc.2,
        i == abc.0 + npow(n, axis) * (abc.1 + n * abc.2),
{
    let s = npow(n, axis);
    lemma_npow_positive(n, axis);
    let q = i / s;
    let a = i % s;
    lemma_fundamental_div_mod(i, s);
    let c = q % n;
    let b = q / n;
    lemma_fundamental_div_mod(q, n);
    assert(0 <= a < s && q >= 0 && 0 <= c < n && b >= 0) by (nonlinear_arith)
        requires
            s > 0,
            n > 0,
            i >= 0,
            a == i % s,
            q == i / s,
            c == q % n,
            b == q / n,
    ;
    (a, c, b)
}

/// Rebuilds an index from its parts around `axis` and reads the coordinate back.
proof fn lemma_join_index(n: int, axis: nat, a: int, c: int, b: int)
    requires
        n > 0,
        0 <= a < npow(n, axis),
        0 <= c < n,
        0 <= b,
    ensures
        coordinate(n, a + npow(n, axis) * (c + n * b), axis) == c,
        0 <= a + npow(n, axis) * (c + n * b),
{
    let s = npow(n, axis);
    let q = c + n * b;
    assert(q >= 0 && s * q >= 0) by (nonlinear_arith)
        requires
            0 <= c,
            0 <= b,
            n > 0,
            s > 0,
            q == c + n * b,
    ;
    assert(a + s * q == q * s + a) by (nonlinear_arith);
    lemma_fundamental_div_mod_converse(a + s * q, s, q, a);
    assert(q == b * n + c) by (nonlinear_arith)
        requires
            q == c + n * b,
    ;
    lemma_fundamental_div_mod_converse(q, n, b, c);
}

/// Neighbour `k` of the cell `a + s * (c + n * b)`, where `s = n^(k / 2)` and `c` is the
/// coordinate along axis `k / 2`, is found by moving that coordinate alone.
pub proof fn lemma_neighbour_parts(n: int, k: int, a: int, c: int, b: int)
    requires
        n > 0,
        k >= 0,
        0 <= a < npow(n, (k / 2) as nat),
        0 <= c < n,
        0 <= b,
    ensures
        neighbour_index(n, a + npow(n, (k / 2) as nat) * (c + n * b), k)
            == a + npow(n, (k / 2) as nat) * (shift(c, 1 + k % 2, n) + n * b),
{
    let axis = (k / 2) as nat;
    let s = npow(n, axis);
    lemma_join_index(n, axis, a, c, b);
    let c2 = shift(c, 1 + k % 2, n);
    let i = a + s * (c + n * b);
    assert(i + (c2 - c) * s == a + s * (c2 + n * b)) by (nonlinear_arith)
        requires
            i == a + s * (c + n * b),
    ;
}

/// Every neighbour of a cell of the grid is a cell of the grid.
pub proof fn lemma_neighbour_in_grid(n: int, d: nat, i: int, k: int)
    requires
        n > 0,
        0 <= i < npow(n, d),
        0 <= k < 2 * d,
    ensures
        0 <= neighbour_index(n, i, k) < npow(n, d),
{
    let axis = (k / 2) as nat;
    let s = npow(n, axis);
    let rest = (d - axis - 1) as nat;
    let m = npow(n, rest);
    lemma_npow_positive(n, axis);
    lemma_npow_positive(n, rest);
    lemma_npow_add(n, axis + 1, rest);
    assert(axis + 1 + rest == d);
    assert(npow(n, axis + 1) == n * s);
    let (a, c, b) = lemma_split_index(n, i, axis);
    let c2 = shift(c, 1 + k % 2, n);
    assert(0 <= c2 < n);
    let j = neighbour_index(n, i, k);
    assert(j == a + s * (c2 + n * b)) by (nonlinear_arith)
        requires
            j == i + (c2 - c) * s,
            i == a + s * (c + n * b),
    ;
    assert(0 <= j < npow(n, d)) by (nonlinear_arith)
        requires
            npow(n, d) == (n * s) * m,
            i < npow(n, d),
            i == a + s * (c + n * b),
            j == a + s * (c2 + n * b),
            0 <= a < s,
            0 <= c < n,
            0 <= c2 < n,
            0 <= b,
            s > 0,
            m > 0,
            n > 0,
    {
        assert(s * (c + n * b) < s * (n * m));
        assert(c + n * b < n * m);
        assert(b < m);
        assert(b + 1 <= m);
        assert(c2 + n * b <= n * (b + 1) - 1);
        assert(s * (c2 + n * b) <= s * (n * (b + 1) - 1));
        assert(s * (n * (b + 1)) <= s * (n * m));
    }
}

/// Stepping to neighbour `k` and then to the opposite neighbour leads back to the start:
/// the grid wraps around, so the neighbour relation is symmetric.
pub proof fn law_neighbour_of_neighbour(n: int, d: nat, i: int, k: int)
    requires
        n > 0,
        0 <= i < npow(n, d),
        0 <= k < 2 * d,
    ensures
        neighbour_index(n, neighbour_index(n, i, k), opposite(k)) == i,
{
    let axis = (k / 2) as nat;
    let s = npow(n, axis);
    lemma_npow_positive(n, axis);
    let (a, c, b) = lemma_split_index(n, i, axis);
    let c2 = shift(c, 1 + k % 2, n);
    let j = neighbour_index(n, i, k);
    assert(j == a + s * (c2 + n * b)) by (nonlinear_arith)
        requires
            j == i + (c2 - c) * s,
            i == a + s * (c + n * b),
    ;
    lemma_join_index(n, axis, a, c2, b);
    let k2 = opposite(k);
    assert(k2 / 2 == k / 2);
    assert(shift(c2, 1 + k2 % 2, n) == c);
    assert(coordinate(n, j, axis) == c2);
    assert(j + (c - c2) * s == i) by (nonlinear_arith)
        requires
            j == a + s * (c2 + n * b),
            i == a + s * (c + n * b),
    ;
}

/// After a step, every opinion on the grid was already held by some cell before it:
/// the voter model never creates an opinion.
pub proof fn law_step_keeps_existing_opinions(old: Seq<u8>, new: Seq<u8>, n: int, d: nat)
    requires
        n >= 0,
        old.len() == npow(n, d),
        step_relation(old, new, n, d),
    ensures
        new.len() == old.len(),
        forall|i: int| 0 <= i < new.len() ==> old.contains(#[trigger] new[i]),
{
    let ch = choose|ch: Seq<int>|
        valid_choices(ch, old.len() as int, d) && new == step_with(old, n, ch);
    assert forall|i: int| 0 <= i < new.len() implies old.contains(#[trigger] new[i]) by {
        assert(0 <= ch[i] < 2 * d);
        if n == 0 {
            lemma_npow_monotone_in_exponent(n, 1, d);
        }
        lemma_neighbour_in_grid(n, d, i, ch[i]);
        let j = neighbour_index(n, i, ch[i]);
        assert(old[j] == new[i]);
    }
}

/// Once every cell holds the same opinion, a step keeps it so (consensus is absorbing).
pub proof fn law_consensus_is_absorbing(old: Seq<u8>, new: Seq<u8>, n: int, d: nat, v: u8)
    requires
        n >= 0,
        old.len() == npow(n, d),
        step_relation(old, new, n, d),
        forall|i: int| 0 <= i < old.len() ==> old[i] == v,
    ensures
        forall|i: int| 0 <= i < new.len() ==> new[i] == v,
{
    law_step_keeps_existing_opinions(old, new, n, d);
    assert forall|i: int| 0 <= i < new.len() implies new[i] == v by {
        assert(old.contains(new[i]));
    }
}

/// Opinions below `k` before a step stay below `k` after it.
pub proof fn law_categories_stay_below(old: Seq<u8>, new: Seq<u8>, n: int, d: nat, k: int)
    requires
        n >= 0,
        old.len() == npow(n, d),
        step_relation(old, new, n, d),
        forall|i: int| 0 <= i < old.len() ==> old[i] < k,
    ensures
        forall|i: int| 0 <= i < new.len() ==> new[i] < k,
{
    law_step_keeps_existing_opinions(old, new, n, d);
    assert forall|i: int| 0 <= i < new.len() implies new[i] < k by {
        assert(old.contains(new[i]));
    }
}

/// `n^e` if it fits a `u64`.
pub fn checked_pow(n: u64, e: u8) -> (r: Option<u64>)
    ensures
        r matches Some(v) ==> v == npow(n as int, e as nat),
        r is None ==> npow(n as int, e as nat) > u64::MAX,
{
    let mut acc: u64 = 1;
    let mut i: u8 = 0;
    while i < e
        invariant
            i <= e,
            acc == npow(n as int, i as nat),
        decreases e - i,
    {
        assert(npow(n as int, (i + 1) as nat) == n * npow(n as int, i as nat));
        match acc.checked_mul(n) {
            Some(v) => {
                assert(v == n * acc) by (nonlinear_arith)
                    requires
                        v == acc * n,
                ;
                acc = v;
            },
            None => {
                proof {
                    lemma_npow_monotone_in_exponent(n as int, (i + 1) as nat, e as nat);
                    assert(n * acc == acc * n) by (nonlinear_arith);
                }
                return None;
            },
        }
        i = i + 1;
    }
    Some(acc)
}

/// For a positive exponent, a larger base has a larger power.
pub proof fn lemma_npow_strictly_monotone_in_base(a: int, b: int, e: nat)
    requires
        0 <= a < b,
        e > 0,
    ensures
        npow(a, e) < npow(b, e),
    decreases e,
{
    if e == 1 {
        lemma_npow_small(a);
        lemma_npow_small(b);
    } else {
        lemma_npow_strictly_monotone_in_base(a, b, (e - 1) as nat);
        lemma_npow_positive(b, (e - 1) as nat);
        let pa = npow(a, (e - 1) as nat);
        let pb = npow(b, (e - 1) as nat);
        if a > 0 {
            lemma_npow_positive(a, (e - 1) as nat);
        } else {
            lemma_npow_monotone_in_exponent(a, 1, (e - 1) as nat);
            reveal_with_fuel(npow, 2);
        }
        assert(a * pa < b * pb) by (nonlinear_arith)
            requires
                0 <= a < b,
                0 <= pa < pb,
        ;
        assert(npow(a, e) == a * pa);
        assert(npow(b, e) == b * pb);
    }
}

/// The side of a grid of dimension `d` that has `len` cells: the `d`-th root of `len`
/// when it is a whole number that fits a `u32` (`1` in dimension 0, where only `len == 1`
/// fits).
pub open spec fn table_side_spec(len: int, d: nat) -> Option<u32> {
    if d == 0 {
        if len == 1 { Some(1u32) } else { None }
    } else if exists|n: u32| npow(n as int, d) == len {
        Some(choose|n: u32| npow(n as int, d) == len)
    } else {
        None
    }
}

/// Finds the side of a grid of dimension `d` with `len` cells.
pub fn table_side(len: usize, d: u8) -> (r: Option<u32>)
    ensures
        r == table_side_spec(len as int, d as nat),
{
    if d == 0 {
        return if len == 1 { Some(1) } else { None };
    }
    let target = len as u64;
    let mut n: u64 = 0;
    proof {
        lemma_npow_monotone_in_exponent(0, 1, d as nat);
    }
    let mut bigger = false;
    while n < u32::MAX as u64 && !bigger
        invariant
            d > 0,
            n <= u32::MAX,
            npow(n as int, d as nat) <= target,
            bigger ==> npow(n + 1, d as nat) > target,
        decreases u32::MAX - n + (if bigger { 0int } else { 1int }),
    {
        match checked_pow(n + 1, d) {
            Some(v) => {
                if v <= target {
                    n = n + 1;
                } else {
                    bigger = true;
                }
            },
            None => {
                bigger = true;
            },
        }
    }
    let found = match checked_pow(n, d) {
        Some(v) => v == target,
        None => false,
    };
    proof {
        assert forall|m: u32| npow(m as int, d as nat) == len implies m == n by {
            if m > n {
                if n < u32::MAX {
                    assert(bigger);
                    if m > n + 1 {
                        lemma_npow_strictly_monotone_in_base(n + 1, m as int, d as nat);
                    }
                }
            } else if m < n {
                lemma_npow_strictly_monotone_in_base(m as int, n as int, d as nat);
            }
        }
    }
    if found {
        proof {
            let nn = n as u32;
            assert(npow(nn as int, d as nat) == len);
        }
        Some(n as u32)
    } else {
        None
    }
}

/// A higher power of a positive base is at least as large.
pub proof fn lemma_npow_monotone_in_exponent(n: int, a: nat, b: nat)
    requires
        a <= b,
        n >= 0,
    ensures
        n > 0 ==> npow(n, a) <= npow(n, b),
        n == 0 && a > 0 ==> npow(n, b) == 0,
    decreases b - a,
{
    if a < b {
        lemma_npow_monotone_in_exponent(n, a, (b - 1) as nat);
        if n > 0 {
            lemma_npow_positive(n, (b - 1) as nat);
            let p = npow(n, (b - 1) as nat);
            assert(p <= n * p) by (nonlinear_arith)
                requires
                    n >= 1,
                    p > 0,
            ;
        }
    }
}

} // verus!
