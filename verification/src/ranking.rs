//! Visit orders numbered by rank: the factorial number system.
//!
//! A visit order of the `n` corners of a polygon starts at corner 0 and then
//! takes the other corners in some order. There are `(n - 1)!` of them. The
//! digits of a rank, taken with the radices `n - 1`, `n - 2`, ..., `1`, say
//! which of the corners still left comes next.

use vstd::prelude::*;
use vstd::arithmetic::div_mod::{
    lemma_div_pos_is_pos, lemma_fundamental_div_mod, lemma_fundamental_div_mod_converse,
    lemma_mod_bound, lemma_multiply_divide_lt,
};

verus! {

/// The product of the numbers from 1 to `n`.
pub open spec fn factorial(n: nat) -> nat
    decreases n,
{
    if n == 0 {
        1
    } else {
        n * factorial((n - 1) as nat)
    }
}

/// The corners `1, 2, ..., n - 1` in rising order.
pub open spec fn later_corners(n: int) -> Seq<int> {
    Seq::new((n - 1) as nat, |i: int| i + 1)
}

/// The entries of `pool`, drawn one by one: the last digit of `rank` with the
/// length of the pool as its radix says which entry is drawn first, and the
/// rest of `rank` goes on with the rest of the pool.
pub open spec fn drawn(rank: int, pool: Seq<int>) -> Seq<int>
    decreases pool.len(),
    via drawn_decreases
{
    if pool.len() == 0 {
        Seq::empty()
    } else {
        let digit = rank % (pool.len() as int);
        seq![pool[digit]] + drawn(rank / (pool.len() as int), pool.remove(digit))
    }
}

/// The digit is a place in the pool, so the rest of the pool is shorter.
#[via_fn]
proof fn drawn_decreases(rank: int, pool: Seq<int>) {
    if pool.len() != 0 {
        lemma_mod_bound(rank, pool.len() as int);
    }
}

/// The visit order of the `n` corners that has the given rank.
pub open spec fn visit_order(rank: int, n: int) -> Seq<int> {
    seq![0int] + drawn(rank, later_corners(n))
}

/// No entry occurs twice.
pub open spec fn distinct(s: Seq<int>) -> bool {
    forall|i: int, j: int| 0 <= i < j < s.len() ==> s[i] != s[j]
}

/// A visit order: each of at least three corners, numbered from 0, once. The
/// number of corners is one that a path can record as its size.
pub open spec fn is_visit_order(v: Seq<int>) -> bool {
    &&& 3 <= v.len() <= i32::MAX
    &&& forall|i: int| 0 <= i < v.len() ==> 0 <= #[trigger] v[i] < v.len()
    &&& distinct(v)
}

/// A pool without one of its entries is still free of repetitions, and holds
/// only entries of the pool other than the one taken out.
proof fn lemma_remove_distinct(pool: Seq<int>, d: int)
    requires
        distinct(pool),
        0 <= d < pool.len(),
    ensures
        distinct(pool.remove(d)),
        forall|i: int|
            0 <= i < pool.len() - 1 ==> pool.contains(#[trigger] pool.remove(d)[i]) && pool.remove(
                d,
            )[i] != pool[d],
{
    let rest = pool.remove(d);
    assert forall|i: int| 0 <= i < pool.len() - 1 implies pool.contains(#[trigger] rest[i])
        && rest[i] != pool[d] by {
        let from = if i < d { i } else { i + 1 };
        assert(rest[i] == pool[from]);
    }
    assert forall|i: int, j: int| 0 <= i < j < rest.len() implies rest[i] != rest[j] by {
        let from_i = if i < d { i } else { i + 1 };
        let from_j = if j < d { j } else { j + 1 };
        assert(rest[i] == pool[from_i]);
        assert(rest[j] == pool[from_j]);
    }
}

/// Drawing from a pool without repetitions gives each drawn entry from the
/// pool, as many entries as the pool holds, and none of them twice.
pub proof fn lemma_drawn_rearranges(rank: int, pool: Seq<int>)
    requires
        distinct(pool),
    ensures
        drawn(rank, pool).len() == pool.len(),
        distinct(drawn(rank, pool)),
        forall|i: int| 0 <= i < pool.len() ==> pool.contains(#[trigger] drawn(rank, pool)[i]),
    decreases pool.len(),
{
    if pool.len() != 0 {
        let len = pool.len() as int;
        let digit = rank % len;
        lemma_mod_bound(rank, len);
        let rest = pool.remove(digit);
        let tail = drawn(rank / len, rest);
        let all = drawn(rank, pool);
        lemma_remove_distinct(pool, digit);
        lemma_drawn_rearranges(rank / len, rest);
        assert(all == seq![pool[digit]] + tail);
        assert forall|i: int| 0 <= i < pool.len() implies pool.contains(#[trigger] all[i])
            && (i > 0 ==> all[i] != pool[digit]) by {
            if i > 0 {
                assert(all[i] == tail[i - 1]);
                assert(rest.contains(tail[i - 1]));
                let j = choose|j: int| 0 <= j < rest.len() && rest[j] == tail[i - 1];
                assert(pool.contains(rest[j]) && rest[j] != pool[digit]);
            }
        }
        assert forall|i: int, j: int| 0 <= i < j < all.len() implies all[i] != all[j] by {
            assert(pool.contains(all[j]) && all[j] != pool[digit]);
            if i > 0 {
                assert(all[i] == tail[i - 1]);
                assert(all[j] == tail[j - 1]);
            }
        }
    }
}

/// Two ranks below the factorial of the pool's length that draw the same
/// sequence from a pool without repetitions are the same rank.
pub proof fn lemma_drawn_injective(r1: int, r2: int, pool: Seq<int>)
    requires
        distinct(pool),
        0 <= r1 < factorial(pool.len()),
        0 <= r2 < factorial(pool.len()),
        drawn(r1, pool) == drawn(r2, pool),
    ensures
        r1 == r2,
    decreases pool.len(),
{
    if pool.len() != 0 {
        let len = pool.len() as int;
        let d1 = r1 % len;
        let d2 = r2 % len;
        lemma_mod_bound(r1, len);
        lemma_mod_bound(r2, len);
        let t1 = drawn(r1 / len, pool.remove(d1));
        let t2 = drawn(r2 / len, pool.remove(d2));
        assert(drawn(r1, pool) == seq![pool[d1]] + t1);
        assert(drawn(r2, pool) == seq![pool[d2]] + t2);
        assert(drawn(r1, pool)[0] == pool[d1]);
        assert(drawn(r2, pool)[0] == pool[d2]);
        assert(d1 == d2);
        assert(t1 =~= drawn(r1, pool).subrange(1, drawn(r1, pool).len() as int));
        assert(t2 =~= drawn(r2, pool).subrange(1, drawn(r2, pool).len() as int));
        lemma_remove_distinct(pool, d1);
        let rest_count = factorial((len - 1) as nat) as int;
        assert(factorial(pool.len()) == len * rest_count);
        lemma_multiply_divide_lt(r1, len, rest_count);
        lemma_multiply_divide_lt(r2, len, rest_count);
        lemma_div_pos_is_pos(r1, len);
        lemma_div_pos_is_pos(r2, len);
        lemma_drawn_injective(r1 / len, r2 / len, pool.remove(d1));
        lemma_fundamental_div_mod(r1, len);
        lemma_fundamental_div_mod(r2, len);
    }
}

/// The corners after the first are all different and none of them is corner 0.
proof fn lemma_later_corners(n: int)
    requires
        n >= 1,
    ensures
        later_corners(n).len() == n - 1,
        distinct(later_corners(n)),
        forall|x: int| later_corners(n).contains(x) ==> 1 <= x < n,
{
}

/// Every rank gives a visit order that starts at corner 0 and takes each of
/// the `n` corners once.
pub proof fn lemma_visit_order_valid(rank: int, n: int)
    requires
        3 <= n <= i32::MAX,
    ensures
        is_visit_order(visit_order(rank, n)),
        visit_order(rank, n).len() == n,
        visit_order(rank, n)[0] == 0,
{
    let pool = later_corners(n);
    let tail = drawn(rank, pool);
    let v = visit_order(rank, n);
    lemma_later_corners(n);
    lemma_drawn_rearranges(rank, pool);
    assert forall|i: int| 0 <= i < v.len() implies 0 <= #[trigger] v[i] < v.len() && (i > 0 ==> v[i]
        != 0) by {
        if i > 0 {
            assert(v[i] == tail[i - 1]);
            assert(pool.contains(tail[i - 1]));
        }
    }
    assert forall|i: int, j: int| 0 <= i < j < v.len() implies v[i] != v[j] by {
        assert(v[j] != 0);
        if i > 0 {
            assert(v[i] == tail[i - 1]);
            assert(v[j] == tail[j - 1]);
        }
    }
}

/// Different ranks below `(n - 1)!` give different visit orders: the ranks
/// from 0 up to `(n - 1)!` number `(n - 1)!` visit orders, no two of them alike.
pub proof fn lemma_visit_order_injective(r1: int, r2: int, n: int)
    requires
        n >= 1,
        0 <= r1 < factorial((n - 1) as nat),
        0 <= r2 < factorial((n - 1) as nat),
        visit_order(r1, n) == visit_order(r2, n),
    ensures
        r1 == r2,
{
    let pool = later_corners(n);
    lemma_later_corners(n);
    let v1 = visit_order(r1, n);
    let v2 = visit_order(r2, n);
    assert(drawn(r1, pool) =~= v1.subrange(1, v1.len() as int));
    assert(drawn(r2, pool) =~= v2.subrange(1, v2.len() as int));
    lemma_drawn_injective(r1, r2, pool);
}

/// Different ranks below `(n - 1)!` give different visit orders, and each of
/// them starts at corner 0: the ranks number `(n - 1)!` visit orders, no two
/// of them alike.
pub proof fn lemma_ranks_give_distinct_orders(r1: int, r2: int, n: int)
    requires
        n >= 3,
        0 <= r1 < factorial((n - 1) as nat),
        0 <= r2 < factorial((n - 1) as nat),
        r1 != r2,
    ensures
        visit_order(r1, n) != visit_order(r2, n),
        visit_order(r1, n)[0] == 0,
        visit_order(r2, n)[0] == 0,
{
    if visit_order(r1, n) == visit_order(r2, n) {
        lemma_visit_order_injective(r1, r2, n);
    }
}

/// `t` takes each entry of `pool` once.
pub open spec fn rearranges(t: Seq<int>, pool: Seq<int>) -> bool {
    &&& t.len() == pool.len()
    &&& distinct(t)
    &&& forall|i: int| 0 <= i < t.len() ==> pool.contains(#[trigger] t[i])
}

/// The rank that draws `t` from `pool`: its last digit is the place in the
/// pool of the first entry of `t`, and the digits before it are the rank that
/// draws the rest of `t` from the rest of the pool.
pub open spec fn rank_among(t: Seq<int>, pool: Seq<int>) -> int
    decreases t.len(),
{
    if t.len() == 0 {
        0
    } else {
        let digit = pool.index_of(t[0]);
        digit + pool.len() * rank_among(t.drop_first(), pool.remove(digit))
    }
}

/// Every rearrangement of a pool without repetitions is drawn by a rank
/// below the factorial of the pool's length.
pub proof fn lemma_rank_among(t: Seq<int>, pool: Seq<int>)
    requires
        distinct(pool),
        rearranges(t, pool),
    ensures
        0 <= rank_among(t, pool) < factorial(pool.len()),
        drawn(rank_among(t, pool), pool) == t,
    decreases t.len(),
{
    if t.len() == 0 {
        assert(drawn(0, pool) =~= t);
    } else {
        let len = pool.len() as int;
        assert(pool.contains(t[0]));
        let digit = pool.index_of(t[0]);
        let rest = pool.remove(digit);
        let tail = t.drop_first();
        lemma_remove_distinct(pool, digit);
        assert(rearranges(tail, rest)) by {
            assert forall|i: int| 0 <= i < tail.len() implies rest.contains(#[trigger] tail[i]) by {
                assert(tail[i] == t[i + 1]);
                assert(pool.contains(t[i + 1]));
                let j = choose|j: int| 0 <= j < pool.len() && pool[j] == t[i + 1];
                assert(t[0] != t[i + 1]);
                let at = if j < digit { j } else { j - 1 };
                assert(rest[at] == pool[j]);
            }
            assert forall|i: int, j: int| 0 <= i < j < tail.len() implies tail[i] != tail[j] by {
                assert(tail[i] == t[i + 1]);
                assert(tail[j] == t[j + 1]);
            }
        }
        lemma_rank_among(tail, rest);
        let upper = rank_among(tail, rest);
        let rank = rank_among(t, pool);
        let rest_count = factorial((len - 1) as nat) as int;
        assert(rank == digit + len * upper);
        assert(factorial(pool.len()) == len * rest_count);
        assert(len * upper == upper * len && len * upper <= len * (rest_count - 1) && len * (
            rest_count - 1) == len * rest_count - len && 0 <= len * upper) by (nonlinear_arith)
            requires
                0 <= upper < rest_count,
                len > 0,
        ;
        lemma_fundamental_div_mod_converse(rank, len, upper, digit);
        assert(drawn(rank, pool) == seq![pool[digit]] + drawn(upper, rest));
        assert(seq![pool[digit]] + tail =~= t);
    }
}

/// The rank of a visit order of `n` corners that starts at corner 0.
pub open spec fn rank_of(v: Seq<int>) -> int {
    rank_among(v.drop_first(), later_corners(v.len() as int))
}

/// Every visit order that starts at corner 0 has a rank below `(n - 1)!`,
/// and that rank gives the visit order back.
pub proof fn lemma_every_order_has_a_rank(v: Seq<int>)
    requires
        is_visit_order(v),
        v[0] == 0,
    ensures
        0 <= rank_of(v) < factorial((v.len() - 1) as nat),
        visit_order(rank_of(v), v.len() as int) == v,
{
    let n = v.len() as int;
    let pool = later_corners(n);
    let tail = v.drop_first();
    lemma_later_corners(n);
    assert(rearranges(tail, pool)) by {
        assert forall|i: int| 0 <= i < tail.len() implies pool.contains(#[trigger] tail[i]) by {
            assert(tail[i] == v[i + 1]);
            assert(v[0] != v[i + 1]);
            assert(pool[v[i + 1] - 1] == v[i + 1]);
        }
        assert forall|i: int, j: int| 0 <= i < j < tail.len() implies tail[i] != tail[j] by {
            assert(tail[i] == v[i + 1]);
            assert(tail[j] == v[j + 1]);
        }
    }
    lemma_rank_among(tail, pool);
    assert(seq![0int] + tail =~= v);
}

/// The product of the numbers from 1 to `n` grows with `n` and is never 0.
pub proof fn lemma_factorial_grows(a: nat, b: nat)
    requires
        a <= b,
    ensures
        1 <= factorial(a) <= factorial(b),
    decreases b,
{
    if b > 0 {
        if a < b {
            lemma_factorial_grows(a, (b - 1) as nat);
        }
        lemma_factorial_grows((b - 1) as nat, (b - 1) as nat);
        assert(factorial((b - 1) as nat) <= b * factorial((b - 1) as nat)) by (nonlinear_arith)
            requires
                b >= 1,
        ;
    }
}

/// The largest polygon whose visit orders an `i32` can number.
pub const MAX_SIZE: i32 = 13;

/// A polygon of at most `MAX_SIZE` corners has at most `i32::MAX` visit orders.
pub proof fn lemma_ranks_fit(n: int)
    requires
        1 <= n <= MAX_SIZE,
    ensures
        factorial((n - 1) as nat) <= 479001600,
{
    assert(factorial(12) == 479001600) by {
        reveal_with_fuel(factorial, 13);
    }
    lemma_factorial_grows((n - 1) as nat, 12);
}

/// The number of visit orders of `n` corners, `(n - 1)!`.
pub fn count_visit_orders(n: i32) -> (count: i32)
    requires
        1 <= n <= MAX_SIZE,
    ensures
        count == factorial((n - 1) as nat),
{
    let mut perms: i32 = 1;
    let mut x: i32 = 1;
    while x < n
        invariant
            1 <= x <= n <= MAX_SIZE,
            perms == factorial((x - 1) as nat),
        decreases n - x,
    {
        proof {
            lemma_ranks_fit(x + 1);
            assert(factorial(x as nat) == x * factorial((x - 1) as nat));
        }
        perms = perms * x;
        x += 1;
    }
    perms
}


} // verus!
