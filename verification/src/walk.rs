//! Jump sequences: a closed path written as the steps between its corners.
//!
//! The jump from one corner to the next is the number of corners to go
//! forward, a residue modulo the number of corners. Walking a jump sequence
//! from corner 0 gives back the corners; the sequence stands for a closed path
//! through all corners when the walk meets no corner twice and ends where it
//! began.

use vstd::prelude::*;
use vstd::arithmetic::div_mod::{
    lemma_add_mod_noop_right, lemma_fundamental_div_mod, lemma_fundamental_div_mod_converse,
    lemma_mod_bound,
};
use crate::lex::ints;
use crate::orbit::{
    canonical, image, lemma_canonical_is_least, lemma_image_residues, lemma_mirrored_entries,
    lemma_rotated_entries, mirrored, residues, reversed, rotated, turn_back, wrap,
};
use crate::ranking::{distinct, is_visit_order, lemma_visit_order_valid, visit_order};

verus! {

/// The jump that leads from corner `from` to corner `to` on a polygon with `n`
/// corners.
pub open spec fn jump(n: int, from: int, to: int) -> int {
    (n + to - from) % n
}

/// The jumps of the closed path that takes the corners in the order `v` and
/// then returns to the first.
pub open spec fn jumps_of(v: Seq<int>) -> Seq<int> {
    Seq::new(v.len(), |i: int| jump(v.len() as int, v[i], v[wrap(i + 1, v.len() as int)]))
}

/// The corner reached from corner 0 after the first `k` jumps of `s`.
pub open spec fn position(s: Seq<int>, k: int) -> int
    decreases k,
{
    if k <= 0 {
        0
    } else {
        (position(s, k - 1) + s[k - 1]) % (s.len() as int)
    }
}

/// The walk along `s` from corner 0 meets a new corner with every jump but
/// the last, and the last jump leads back to corner 0.
pub open spec fn closes_cycle(s: Seq<int>) -> bool {
    &&& s.len() > 0
    &&& forall|i: int, j: int| 0 <= i < j < s.len() ==> position(s, i) != position(s, j)
    &&& position(s, s.len() as int) == 0
}

/// A jump sequence: every jump leads forward by at least one corner and by less
/// than a full turn, and the walk closes a cycle through all corners.
pub open spec fn is_jump_sequence(s: Seq<int>) -> bool {
    &&& forall|i: int| 0 <= i < s.len() ==> 1 <= #[trigger] s[i] < s.len()
    &&& closes_cycle(s)
}

/// The remainder of a number below twice the divisor.
pub proof fn lemma_mod_wrap(x: int, n: int)
    requires
        0 <= x < 2 * n,
    ensures
        x % n == wrap(x, n),
{
    if x >= n {
        lemma_fundamental_div_mod_converse(x, n, 1, x - n);
    } else {
        lemma_fundamental_div_mod_converse(x, n, 0, x);
    }
}

/// Every position of a walk is a corner.
pub proof fn lemma_position_bound(s: Seq<int>, k: int)
    requires
        s.len() > 0,
    ensures
        0 <= position(s, k) < s.len(),
    decreases k,
{
    if k > 0 {
        lemma_mod_bound(position(s, k - 1) + s[k - 1], s.len() as int);
    }
}

/// How far corner `to` lies ahead of corner `from`.
pub open spec fn ahead(n: int, from: int, to: int) -> int {
    if to >= from { to - from } else { n + to - from }
}

/// The walk along the jumps of `v` is, after `k` jumps, as far from its start
/// as the corner `v[k]` lies ahead of `v[0]`.
proof fn lemma_walk_follows(v: Seq<int>, k: int)
    requires
        v.len() > 0,
        forall|i: int| 0 <= i < v.len() ==> 0 <= #[trigger] v[i] < v.len(),
        0 <= k <= v.len(),
    ensures
        position(jumps_of(v), k) == ahead(v.len() as int, v[0], v[wrap(k, v.len() as int)]),
    decreases k,
{
    let n = v.len() as int;
    if k > 0 {
        lemma_walk_follows(v, k - 1);
        let from = v[k - 1];
        let to = v[wrap(k, n)];
        assert(wrap(k - 1, n) == k - 1);
        assert(jumps_of(v)[k - 1] == jump(n, from, to));
        assert(0 <= from < n && 0 <= to < n && 0 <= v[0] < n);
        lemma_mod_wrap(n + to - from, n);
        lemma_mod_wrap(ahead(n, v[0], from) + ahead(n, from, to), n);
    }
}

/// The jumps of a path through distinct corners form a walk that closes a
/// cycle, and each of them is a residue.
pub proof fn lemma_jumps_close_cycle(v: Seq<int>)
    requires
        v.len() > 0,
        forall|i: int| 0 <= i < v.len() ==> 0 <= #[trigger] v[i] < v.len(),
        distinct(v),
    ensures
        jumps_of(v).len() == v.len(),
        closes_cycle(jumps_of(v)),
        forall|i: int| 0 <= i < v.len() ==> 0 <= #[trigger] jumps_of(v)[i] < v.len(),
        v.len() >= 2 ==> is_jump_sequence(jumps_of(v)),
{
    let n = v.len() as int;
    let s = jumps_of(v);
    assert forall|i: int, j: int| 0 <= i < j < n implies position(s, i) != position(s, j) by {
        lemma_walk_follows(v, i);
        lemma_walk_follows(v, j);
        assert(0 <= v[i] < n && 0 <= v[j] < n && 0 <= v[0] < n);
        assert(v[i] != v[j]);
    }
    lemma_walk_follows(v, n);
    assert forall|i: int| 0 <= i < n implies 0 <= #[trigger] s[i] < n && (n >= 2 ==> s[i] >= 1) by {
        let from = v[i];
        let to = v[wrap(i + 1, n)];
        assert(0 <= from < n && 0 <= to < n);
        lemma_mod_wrap(n + to - from, n);
        if n >= 2 {
            if i + 1 < n {
                assert(v[i] != v[i + 1]);
            } else {
                assert(v[0] != v[i]);
            }
        }
    }
}

/// The jumps of a visit order are a jump sequence.
pub proof fn lemma_visit_order_jumps(v: Seq<int>)
    requires
        is_visit_order(v),
    ensures
        is_jump_sequence(jumps_of(v)),
{
    lemma_jumps_close_cycle(v);
}

/// Whatever the rank, the jumps of its visit order are a jump sequence: the
/// walk along them closes a cycle through all corners.
pub proof fn lemma_rank_gives_closed_walk(rank: int, n: int)
    requires
        3 <= n <= i32::MAX,
    ensures
        closes_cycle(jumps_of(visit_order(rank, n))),
        is_jump_sequence(jumps_of(visit_order(rank, n))),
{
    lemma_visit_order_valid(rank, n);
    lemma_visit_order_jumps(visit_order(rank, n));
}

/// One step of a walk along residues, without a remainder.
pub proof fn lemma_position_step(s: Seq<int>, k: int)
    requires
        residues(s),
        0 <= k < s.len(),
    ensures
        0 <= position(s, k) < s.len(),
        0 <= position(s, k + 1) < s.len(),
        position(s, k + 1) == wrap(position(s, k) + s[k], s.len() as int),
{
    lemma_position_bound(s, k);
    lemma_position_bound(s, k + 1);
    lemma_mod_wrap(position(s, k) + s[k], s.len() as int);
}

/// The walk along the mirror image goes through the negatives of the corners.
proof fn lemma_mirrored_walk(s: Seq<int>, k: int)
    requires
        residues(s),
        0 <= k <= s.len(),
    ensures
        position(mirrored(s), k) == turn_back(position(s, k), s.len() as int),
    decreases k,
{
    if k > 0 {
        lemma_mirrored_walk(s, k - 1);
        lemma_mirrored_entries(s);
        lemma_position_step(s, k - 1);
        lemma_position_step(mirrored(s), k - 1);
    }
}

/// The walk along the reverse of a closed walk goes through the negatives of
/// the corners of the walk, taken from its end.
proof fn lemma_reversed_walk(s: Seq<int>, k: int)
    requires
        residues(s),
        position(s, s.len() as int) == 0,
        0 <= k <= s.len(),
    ensures
        position(reversed(s), k) == turn_back(position(s, s.len() - k), s.len() as int),
    decreases k,
{
    if k > 0 {
        lemma_reversed_walk(s, k - 1);
        assert(residues(reversed(s))) by {
            assert forall|i: int| 0 <= i < s.len() implies 0 <= #[trigger] reversed(s)[i]
                < s.len() by {
                assert(reversed(s)[i] == s[s.len() - 1 - i]);
            }
        }
        lemma_position_step(s, s.len() - k);
        lemma_position_step(reversed(s), k - 1);
        assert(reversed(s)[k - 1] == s[s.len() - k]);
    }
}

/// The walk along a rotation of a closed walk goes through the corners of the
/// walk, each as far ahead of the corner where the rotation begins.
proof fn lemma_rotated_walk(s: Seq<int>, k: int, i: int)
    requires
        residues(s),
        position(s, s.len() as int) == 0,
        0 <= k < s.len(),
        0 <= i <= s.len(),
    ensures
        position(rotated(s, k), i) == ahead(
            s.len() as int,
            position(s, k),
            position(s, wrap(i + k, s.len() as int)),
        ),
    decreases i,
{
    let n = s.len() as int;
    lemma_position_bound(s, k);
    if i > 0 {
        lemma_rotated_walk(s, k, i - 1);
        lemma_rotated_entries(s, k);
        let x = wrap(i - 1 + k, n);
        assert(rotated(s, k)[i - 1] == s[x]);
        assert(residues(rotated(s, k))) by {
            assert forall|j: int| 0 <= j < n implies 0 <= #[trigger] rotated(s, k)[j] < n by {
                assert(rotated(s, k)[j] == s[wrap(j + k, n)]);
            }
        }
        lemma_position_step(s, x);
        lemma_position_step(rotated(s, k), i - 1);
        assert(position(s, x + 1) == position(s, wrap(i + k, n)));
    }
}

/// Each symmetry takes a walk that closes a cycle to one that closes a cycle.
pub proof fn lemma_image_closes_cycle(s: Seq<int>, k: int, rev: bool, mir: bool)
    requires
        residues(s),
        closes_cycle(s),
        0 <= k < s.len(),
    ensures
        closes_cycle(image(s, k, rev, mir)),
{
    let n = s.len() as int;
    lemma_mirrored_entries(s);
    let m = if mir { mirrored(s) } else { s };
    assert(closes_cycle(m)) by {
        if mir {
            lemma_mirrored_walk(s, n);
            assert forall|i: int, j: int| 0 <= i < j < n implies position(m, i) != position(
                m,
                j,
            ) by {
                lemma_mirrored_walk(s, i);
                lemma_mirrored_walk(s, j);
                lemma_position_bound(s, i);
                lemma_position_bound(s, j);
            }
        }
    }
    let r = if rev { reversed(m) } else { m };
    assert(residues(r) && closes_cycle(r)) by {
        if rev {
            assert forall|i: int| 0 <= i < n implies 0 <= #[trigger] r[i] < n by {
                assert(r[i] == m[n - 1 - i]);
            }
            lemma_reversed_walk(m, n);
            assert forall|i: int, j: int| 0 <= i < j < n implies position(r, i) != position(
                r,
                j,
            ) by {
                lemma_reversed_walk(m, i);
                lemma_reversed_walk(m, j);
                lemma_position_bound(m, n - i);
                lemma_position_bound(m, n - j);
                if i > 0 {
                    assert(position(m, n - j) != position(m, n - i));
                } else {
                    assert(position(m, 0) != position(m, n - j));
                }
            }
        }
    }
    let t = rotated(r, k);
    lemma_rotated_entries(r, k);
    lemma_rotated_walk(r, k, n);
    assert forall|i: int, j: int| 0 <= i < j < n implies position(t, i) != position(t, j) by {
        lemma_rotated_walk(r, k, i);
        lemma_rotated_walk(r, k, j);
        let x = wrap(i + k, n);
        let y = wrap(j + k, n);
        lemma_position_bound(r, k);
        lemma_position_bound(r, x);
        lemma_position_bound(r, y);
        if x < y {
            assert(position(r, x) != position(r, y));
        } else {
            assert(position(r, y) != position(r, x));
        }
    }
}

/// Each symmetry takes a jump sequence to a jump sequence.
pub proof fn lemma_image_jump_sequence(s: Seq<int>, k: int, rev: bool, mir: bool)
    requires
        is_jump_sequence(s),
        0 <= k < s.len(),
    ensures
        is_jump_sequence(image(s, k, rev, mir)),
{
    let n = s.len() as int;
    lemma_image_closes_cycle(s, k, rev, mir);
    lemma_mirrored_entries(s);
    let m = if mir { mirrored(s) } else { s };
    let r = if rev { reversed(m) } else { m };
    assert forall|i: int| 0 <= i < n implies 1 <= #[trigger] r[i] < n by {
        if rev {
            assert(r[i] == m[n - 1 - i]);
        }
    }
    lemma_rotated_entries(r, k);
    assert forall|i: int| 0 <= i < n implies 1 <= #[trigger] rotated(r, k)[i] < n by {
        assert(rotated(r, k)[i] == r[wrap(i + k, n)]);
    }
}

/// The canonical form of a jump sequence is a jump sequence.
pub proof fn lemma_canonical_jump_sequence(s: Seq<int>)
    requires
        is_jump_sequence(s),
    ensures
        is_jump_sequence(canonical(s)),
        canonical(s).len() == s.len(),
{
    lemma_canonical_is_least(s);
    let c = canonical(s);
    let (k, rev, mir) = choose|k: int, rev: bool, mir: bool|
        0 <= k < s.len() && c == #[trigger] image(s, k, rev, mir);
    lemma_image_jump_sequence(s, k, rev, mir);
    lemma_image_residues(s, k, rev, mir);
}

/// The residue of a negative number, from the remainder of its negative.
pub proof fn lemma_negative_residue(j: int, n: int)
    requires
        j < 0,
        n > 0,
    ensures
        j % n == turn_back((-j) % n, n),
{
    let q = (-j) / n;
    let r = (-j) % n;
    lemma_fundamental_div_mod(-j, n);
    lemma_mod_bound(-j, n);
    if r == 0 {
        assert(j == (-q) * n + 0) by (nonlinear_arith)
            requires
                -j == n * q + r,
                r == 0,
        ;
        lemma_fundamental_div_mod_converse(j, n, -q, 0);
    } else {
        assert(j == (-q - 1) * n + (n - r)) by (nonlinear_arith)
            requires
                -j == n * q + r,
        ;
        lemma_fundamental_div_mod_converse(j, n, -q - 1, n - r);
    }
}

/// The corner that a jump of any size leads to from corner `from`.
pub fn step_from(from: usize, hop: i32, n: usize) -> (to: usize)
    requires
        from < n,
    ensures
        to == (from + hop) % (n as int),
        to < n,
{
    let m: i128 = n as i128;
    let j: i128 = hop as i128;
    let residue: i128 = if j >= 0 {
        j % m
    } else {
        let r: i128 = (-j) % m;
        if r == 0 { 0 } else { m - r }
    };
    proof {
        if j < 0 {
            lemma_negative_residue(j as int, m as int);
        }
        lemma_mod_bound(j as int, m as int);
        assert(residue == (hop as int) % (n as int));
        lemma_add_mod_noop_right(from as int, hop as int, n as int);
        lemma_mod_wrap(from + residue, m as int);
    }
    let ahead: usize = residue as usize;
    if ahead >= n - from {
        from - (n - ahead)
    } else {
        from + ahead
    }
}

/// Whether the walk along `path` from corner 0 closes a cycle through all
/// corners: no corner is met twice, and the last jump leads back to corner 0.
pub fn validate_path(path: &Vec<i32>) -> (valid: bool)
    ensures
        valid == closes_cycle(ints(path@)),
{
    let n: usize = path.len();
    if n == 0 {
        return false;
    }
    let ghost s = ints(path@);
    let mut seen: Vec<bool> = Vec::with_capacity(n);
    while seen.len() < n
        invariant
            seen.len() <= n,
            forall|p: int| 0 <= p < seen.len() ==> !seen[p],
        decreases n - seen.len(),
    {
        seen.push(false);
    }
    seen.set(0, true);
    let mut pos: usize = 0;
    let mut k: usize = 0;
    let ghost mut marked: int = 1;
    while k < n
        invariant
            k <= n,
            n == path.len(),
            s == ints(path@),
            seen.len() == n,
            pos < n,
            pos == position(s, k as int),
            marked == if k < n { k + 1 } else { n as int },
            forall|p: int|
                0 <= p < n ==> (seen[p] <==> exists|j: int|
                    0 <= j < marked && #[trigger] position(s, j) == p),
            forall|i: int, j: int| 0 <= i < j < marked ==> position(s, i) != position(s, j),
        decreases n - k,
    {
        assert(s[k as int] == path[k as int]);
        pos = step_from(pos, path[k], n);
        k += 1;
        assert(pos == position(s, k as int));
        if k < n {
            if seen[pos] {
                proof {
                    let j = choose|j: int| 0 <= j < marked && #[trigger] position(s, j) == pos;
                    assert(position(s, j) == position(s, k as int));
                }
                return false;
            }
            seen.set(pos, true);
            proof {
                marked = marked + 1;
            }
        }
    }
    pos == 0
}

} // verus!
