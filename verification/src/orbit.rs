//! The symmetries of a cyclic jump sequence, and the least member of its orbit.
//!
//! A closed path through the corners of a regular polygon is written as the
//! sequence of its jumps, each a residue modulo the number of corners. Starting
//! at another corner rotates the sequence, walking the other way round reverses
//! it, and reflecting the polygon replaces each jump by its negative.

use vstd::prelude::*;
use vstd::arithmetic::div_mod::{lemma_mod_self_0, lemma_small_mod};
use crate::lex::{
    ints, lemma_lex_le_antisymmetric, lemma_lex_le_transitive, lemma_lex_total, lex_le, lex_less,
    lex_lt,
};

verus! {

/// Every entry is a residue modulo the length of the sequence.
pub open spec fn residues(s: Seq<int>) -> bool {
    forall|i: int| 0 <= i < s.len() ==> 0 <= #[trigger] s[i] < s.len()
}

/// The cycle `s`, started `k` steps later.
pub open spec fn rotated(s: Seq<int>, k: int) -> Seq<int> {
    s.subrange(k, s.len() as int) + s.subrange(0, k)
}

/// The sequence `s`, read backwards.
pub open spec fn reversed(s: Seq<int>) -> Seq<int> {
    Seq::new(s.len(), |i: int| s[s.len() - 1 - i])
}

/// The sequence `s` with each jump replaced by its negative modulo the length.
pub open spec fn mirrored(s: Seq<int>) -> Seq<int> {
    Seq::new(s.len(), |i: int| (s.len() - s[i]) % (s.len() as int))
}

/// What one symmetry makes of `s`: mirror it or not, reverse it or not, then
/// start it `k` steps later.
pub open spec fn image(s: Seq<int>, k: int, rev: bool, mir: bool) -> Seq<int> {
    let m = if mir { mirrored(s) } else { s };
    let r = if rev { reversed(m) } else { m };
    rotated(r, k)
}

/// `t` is reached from `s` by one of the symmetries.
pub open spec fn in_orbit(s: Seq<int>, t: Seq<int>) -> bool {
    exists|k: int, rev: bool, mir: bool| 0 <= k < s.len() && t == #[trigger] image(s, k, rev, mir)
}

/// `c` belongs to the orbit of `s` and no member of that orbit comes before it.
pub open spec fn least_of_orbit(s: Seq<int>, c: Seq<int>) -> bool {
    &&& in_orbit(s, c)
    &&& forall|t: Seq<int>| in_orbit(s, t) ==> lex_le(c, t)
}

/// The canonical form of `s`: the least member of its orbit in dictionary order.
pub open spec fn canonical(s: Seq<int>) -> Seq<int> {
    choose|c: Seq<int>| least_of_orbit(s, c)
}

/// `x` reduced by `n` once if it has reached `n`.
pub open spec fn wrap(x: int, n: int) -> int {
    if x >= n { x - n } else { x }
}

/// The rotation that undoes a rotation by `k`.
pub open spec fn turn_back(k: int, n: int) -> int {
    if k == 0 { 0 } else { n - k }
}

/// The negative of a residue, spelled out without a remainder.
pub proof fn lemma_negated_residue(j: int, n: int)
    requires
        0 <= j < n,
    ensures
        (n - j) % n == turn_back(j, n),
{
    if j == 0 {
        lemma_mod_self_0(n);
    } else {
        lemma_small_mod((n - j) as nat, n as nat);
    }
}

/// The entries of a rotated sequence.
pub proof fn lemma_rotated_entries(s: Seq<int>, k: int)
    requires
        0 <= k <= s.len(),
    ensures
        rotated(s, k).len() == s.len(),
        forall|i: int| 0 <= i < s.len() ==> #[trigger] rotated(s, k)[i] == s[wrap(i + k, s.len() as int)],
{
}

/// The entries of a mirrored sequence of residues.
pub proof fn lemma_mirrored_entries(s: Seq<int>)
    requires
        residues(s),
    ensures
        mirrored(s).len() == s.len(),
        residues(mirrored(s)),
        forall|i: int| 0 <= i < s.len() ==> #[trigger] mirrored(s)[i] == turn_back(s[i], s.len() as int),
{
    assert forall|i: int| 0 <= i < s.len() implies #[trigger] mirrored(s)[i] == turn_back(
        s[i],
        s.len() as int,
    ) by {
        lemma_negated_residue(s[i], s.len() as int);
    }
}

/// Each symmetry takes residues to residues.
pub proof fn lemma_image_residues(s: Seq<int>, k: int, rev: bool, mir: bool)
    requires
        residues(s),
        0 <= k <= s.len(),
    ensures
        image(s, k, rev, mir).len() == s.len(),
        residues(image(s, k, rev, mir)),
{
    lemma_mirrored_entries(s);
    let m = if mir { mirrored(s) } else { s };
    let r = if rev { reversed(m) } else { m };
    assert(residues(r)) by {
        assert forall|i: int| 0 <= i < r.len() implies 0 <= #[trigger] r[i] < r.len() by {
            if rev {
                assert(r[i] == m[m.len() - 1 - i]);
            }
        }
    }
    lemma_rotated_entries(r, k);
    assert forall|i: int| 0 <= i < s.len() implies 0 <= #[trigger] rotated(r, k)[i] < s.len() by {
        assert(rotated(r, k)[i] == r[wrap(i + k, s.len() as int)]);
    }
}

/// Two rotations in a row are one rotation.
pub proof fn lemma_rotate_rotate(s: Seq<int>, a: int, b: int)
    requires
        0 <= a < s.len(),
        0 <= b < s.len(),
    ensures
        rotated(rotated(s, a), b) == rotated(s, wrap(a + b, s.len() as int)),
{
    assert(rotated(rotated(s, a), b) =~= rotated(s, wrap(a + b, s.len() as int)));
}

/// Reversing a rotated sequence rotates the reversed sequence the other way.
pub proof fn lemma_reverse_rotate(s: Seq<int>, k: int)
    requires
        0 <= k < s.len(),
    ensures
        reversed(rotated(s, k)) == rotated(reversed(s), turn_back(k, s.len() as int)),
{
    assert(reversed(rotated(s, k)) =~= rotated(reversed(s), turn_back(k, s.len() as int)));
}

/// Mirroring and rotating can be done in either order.
pub proof fn lemma_mirror_rotate(s: Seq<int>, k: int)
    requires
        0 <= k < s.len(),
    ensures
        mirrored(rotated(s, k)) == rotated(mirrored(s), k),
{
    assert(mirrored(rotated(s, k)) =~= rotated(mirrored(s), k));
}

/// Mirroring and reversing can be done in either order.
pub proof fn lemma_mirror_reverse(s: Seq<int>)
    ensures
        mirrored(reversed(s)) == reversed(mirrored(s)),
{
    assert(mirrored(reversed(s)) =~= reversed(mirrored(s)));
}

/// Reversing twice gives the sequence back.
pub proof fn lemma_reverse_twice(s: Seq<int>)
    ensures
        reversed(reversed(s)) == s,
{
    assert(reversed(reversed(s)) =~= s);
}

/// Mirroring a sequence of residues twice gives it back.
pub proof fn lemma_mirror_twice(s: Seq<int>)
    requires
        residues(s),
    ensures
        mirrored(mirrored(s)) == s,
{
    lemma_mirrored_entries(s);
    lemma_mirrored_entries(mirrored(s));
    assert(mirrored(mirrored(s)) =~= s);
}

/// The rotation left after a symmetry with rotation `k1` is followed by one that
/// reverses or not and then rotates by `k2`.
pub open spec fn joint_turn(n: int, k1: int, k2: int, rev2: bool) -> int {
    wrap((if rev2 { turn_back(k1, n) } else { k1 }) + k2, n)
}

/// One symmetry after another is again a symmetry.
pub proof fn lemma_image_of_image(
    s: Seq<int>,
    k1: int,
    rev1: bool,
    mir1: bool,
    k2: int,
    rev2: bool,
    mir2: bool,
)
    requires
        residues(s),
        0 <= k1 < s.len(),
        0 <= k2 < s.len(),
    ensures
        0 <= joint_turn(s.len() as int, k1, k2, rev2) < s.len(),
        image(image(s, k1, rev1, mir1), k2, rev2, mir2) == image(
            s,
            joint_turn(s.len() as int, k1, k2, rev2),
            rev1 != rev2,
            mir1 != mir2,
        ),
{
    let n = s.len() as int;
    lemma_mirrored_entries(s);
    let x = if mir1 { mirrored(s) } else { s };
    let y = if rev1 { reversed(x) } else { x };
    let t = rotated(y, k1);
    assert(t == image(s, k1, rev1, mir1));
    // the second mirroring moves inwards, past the rotation and the reversal
    let x2 = if mir1 != mir2 { mirrored(s) } else { s };
    let y2 = if rev1 { reversed(x2) } else { x2 };
    let tm = if mir2 { mirrored(t) } else { t };
    assert(tm == rotated(y2, k1)) by {
        if mir2 {
            lemma_mirror_rotate(y, k1);
            if rev1 {
                lemma_mirror_reverse(x);
            }
            if mir1 {
                lemma_mirror_twice(s);
            }
        }
    }
    // the second reversal moves past the rotation
    let k1b = if rev2 { turn_back(k1, n) } else { k1 };
    let y3 = if rev1 != rev2 { reversed(x2) } else { x2 };
    let tr = if rev2 { reversed(tm) } else { tm };
    assert(tr == rotated(y3, k1b)) by {
        if rev2 {
            lemma_reverse_rotate(y2, k1);
            if rev1 {
                lemma_reverse_twice(x2);
            }
        }
    }
    lemma_rotate_rotate(y3, k1b, k2);
}

/// Membership in an orbit goes both ways.
pub proof fn lemma_orbit_symmetric(s: Seq<int>, t: Seq<int>)
    requires
        residues(s),
        in_orbit(s, t),
    ensures
        in_orbit(t, s),
        residues(t),
        t.len() == s.len(),
{
    let n = s.len() as int;
    let (k, rev, mir) = choose|k: int, rev: bool, mir: bool|
        0 <= k < s.len() && t == #[trigger] image(s, k, rev, mir);
    lemma_image_residues(s, k, rev, mir);
    let kb = if rev { k } else { turn_back(k, n) };
    lemma_image_of_image(s, k, rev, mir, kb, rev, mir);
    assert(joint_turn(n, k, kb, rev) == 0);
    assert(image(s, 0, false, false) =~= s);
    assert(s == image(t, kb, rev, mir));
}

/// A member of the orbit of a member of the orbit of `s` belongs to the orbit
/// of `s`.
pub proof fn lemma_orbit_transitive(s: Seq<int>, t: Seq<int>, u: Seq<int>)
    requires
        residues(s),
        in_orbit(s, t),
        in_orbit(t, u),
    ensures
        in_orbit(s, u),
{
    let (k1, rev1, mir1) = choose|k: int, rev: bool, mir: bool|
        0 <= k < s.len() && t == #[trigger] image(s, k, rev, mir);
    lemma_image_residues(s, k1, rev1, mir1);
    let (k2, rev2, mir2) = choose|k: int, rev: bool, mir: bool|
        0 <= k < t.len() && u == #[trigger] image(t, k, rev, mir);
    lemma_image_of_image(s, k1, rev1, mir1, k2, rev2, mir2);
}

/// A sequence and any member of its orbit have the same orbit.
pub proof fn lemma_same_orbit(s: Seq<int>, t: Seq<int>)
    requires
        residues(s),
        in_orbit(s, t),
    ensures
        forall|u: Seq<int>| in_orbit(s, u) <==> in_orbit(t, u),
{
    lemma_orbit_symmetric(s, t);
    assert forall|u: Seq<int>| in_orbit(s, u) <==> in_orbit(t, u) by {
        if in_orbit(s, u) {
            lemma_orbit_transitive(t, s, u);
        }
        if in_orbit(t, u) {
            lemma_orbit_transitive(s, t, u);
        }
    }
}

/// An orbit has at most one least member.
pub proof fn lemma_least_unique(s: Seq<int>, c: Seq<int>, d: Seq<int>)
    requires
        least_of_orbit(s, c),
        least_of_orbit(s, d),
    ensures
        c == d,
{
    lemma_lex_le_antisymmetric(c, d);
}

/// The least of the first `m` rotations of `x`.
pub open spec fn least_rotation(x: Seq<int>, m: int) -> Seq<int>
    decreases m,
{
    if m <= 1 {
        rotated(x, 0)
    } else if lex_lt(rotated(x, m - 1), least_rotation(x, m - 1)) {
        rotated(x, m - 1)
    } else {
        least_rotation(x, m - 1)
    }
}

/// The index of the rotation that `least_rotation` picks.
pub open spec fn least_rotation_at(x: Seq<int>, m: int) -> int
    decreases m,
{
    if m <= 1 {
        0
    } else if lex_lt(rotated(x, m - 1), least_rotation(x, m - 1)) {
        m - 1
    } else {
        least_rotation_at(x, m - 1)
    }
}

/// `least_rotation` is one of the first `m` rotations and comes before or
/// equals each of them.
pub proof fn lemma_least_rotation(x: Seq<int>, m: int)
    requires
        1 <= m,
    ensures
        0 <= least_rotation_at(x, m) < m,
        least_rotation(x, m) == rotated(x, least_rotation_at(x, m)),
        forall|k: int| 0 <= k < m ==> lex_le(least_rotation(x, m), #[trigger] rotated(x, k)),
    decreases m,
{
    if m > 1 {
        lemma_least_rotation(x, m - 1);
        let p = least_rotation(x, m - 1);
        let c = rotated(x, m - 1);
        lemma_lex_total(c, p);
        assert forall|k: int| 0 <= k < m implies lex_le(
            least_rotation(x, m),
            #[trigger] rotated(x, k),
        ) by {
            if k < m - 1 {
                lemma_lex_le_transitive(least_rotation(x, m), p, rotated(x, k));
            }
        }
    }
}

/// The lesser of two sequences.
pub open spec fn lesser(a: Seq<int>, b: Seq<int>) -> Seq<int> {
    if lex_lt(b, a) { b } else { a }
}

/// The least member of the orbit of `s`, put together from the least rotations
/// of `s`, of its reverse, of its mirror image and of the reverse of that.
pub open spec fn least_image(s: Seq<int>) -> Seq<int> {
    let n = s.len() as int;
    lesser(
        lesser(least_rotation(s, n), least_rotation(reversed(s), n)),
        lesser(least_rotation(mirrored(s), n), least_rotation(reversed(mirrored(s)), n)),
    )
}

/// The lesser of two sequences is one of them and comes before or equals both.
proof fn lemma_lesser(a: Seq<int>, b: Seq<int>)
    ensures
        lex_le(lesser(a, b), a),
        lex_le(lesser(a, b), b),
        lesser(a, b) == a || lesser(a, b) == b,
{
    lemma_lex_total(a, b);
}

/// The least of the rotations of one of the four bases is a member of the
/// orbit, and comes before every member that is a rotation of that base.
proof fn lemma_least_rotation_in_orbit(s: Seq<int>, rev: bool, mir: bool)
    requires
        s.len() > 0,
    ensures
        in_orbit(s, least_rotation(image(s, 0, rev, mir), s.len() as int)),
        forall|k: int|
            0 <= k < s.len() ==> lex_le(
                least_rotation(image(s, 0, rev, mir), s.len() as int),
                #[trigger] image(s, k, rev, mir),
            ),
{
    let n = s.len() as int;
    let m = if mir { mirrored(s) } else { s };
    let base = if rev { reversed(m) } else { m };
    assert(image(s, 0, rev, mir) =~= base);
    lemma_least_rotation(base, n);
    assert(least_rotation(base, n) == image(s, least_rotation_at(base, n), rev, mir));
    assert forall|k: int| 0 <= k < s.len() implies lex_le(
        least_rotation(base, n),
        #[trigger] image(s, k, rev, mir),
    ) by {
        assert(image(s, k, rev, mir) == rotated(base, k));
    }
}

/// `least_image` is the least member of the orbit.
pub proof fn lemma_least_image(s: Seq<int>)
    requires
        s.len() > 0,
    ensures
        least_of_orbit(s, least_image(s)),
{
    let n = s.len() as int;
    let c0 = least_rotation(s, n);
    let c1 = least_rotation(reversed(s), n);
    let c2 = least_rotation(mirrored(s), n);
    let c3 = least_rotation(reversed(mirrored(s)), n);
    assert(image(s, 0, false, false) =~= s);
    assert(image(s, 0, true, false) =~= reversed(s));
    assert(image(s, 0, false, true) =~= mirrored(s));
    assert(image(s, 0, true, true) =~= reversed(mirrored(s)));
    lemma_least_rotation_in_orbit(s, false, false);
    lemma_least_rotation_in_orbit(s, true, false);
    lemma_least_rotation_in_orbit(s, false, true);
    lemma_least_rotation_in_orbit(s, true, true);
    let l01 = lesser(c0, c1);
    let l23 = lesser(c2, c3);
    let c = lesser(l01, l23);
    lemma_lesser(c0, c1);
    lemma_lesser(c2, c3);
    lemma_lesser(l01, l23);
    assert(c == least_image(s));
    assert(in_orbit(s, c));
    assert forall|t: Seq<int>| in_orbit(s, t) implies lex_le(c, t) by {
        let (k, rev, mir) = choose|k: int, rev: bool, mir: bool|
            0 <= k < s.len() && t == #[trigger] image(s, k, rev, mir);
        if mir {
            let cb = if rev { c3 } else { c2 };
            assert(lex_le(cb, t));
            lemma_lex_le_transitive(l23, cb, t);
            lemma_lex_le_transitive(c, l23, t);
        } else {
            let cb = if rev { c1 } else { c0 };
            assert(lex_le(cb, t));
            lemma_lex_le_transitive(l01, cb, t);
            lemma_lex_le_transitive(c, l01, t);
        }
    }
}

/// The canonical form of a sequence that is not empty is the least member of
/// its orbit.
pub proof fn lemma_canonical_is_least(s: Seq<int>)
    requires
        s.len() > 0,
    ensures
        least_of_orbit(s, canonical(s)),
        canonical(s) == least_image(s),
{
    lemma_least_image(s);
    lemma_least_unique(s, canonical(s), least_image(s));
}

/// All members of an orbit have the same canonical form: whichever rotation,
/// reversal or mirroring is applied to a sequence of residues, the canonical
/// form of what comes out is the canonical form of the sequence.
pub proof fn lemma_canonical_orbit_invariant(s: Seq<int>, k: int, rev: bool, mir: bool)
    requires
        residues(s),
        0 <= k < s.len(),
    ensures
        canonical(image(s, k, rev, mir)) == canonical(s),
{
    let t = image(s, k, rev, mir);
    lemma_image_residues(s, k, rev, mir);
    lemma_same_orbit(s, t);
    lemma_canonical_is_least(s);
    lemma_canonical_is_least(t);
    assert(least_of_orbit(s, canonical(t)));
    lemma_least_unique(s, canonical(t), canonical(s));
}

/// A canonical form is its own canonical form.
pub proof fn lemma_canonical_idempotent(s: Seq<int>)
    requires
        residues(s),
        s.len() > 0,
    ensures
        canonical(canonical(s)) == canonical(s),
{
    lemma_canonical_is_least(s);
    let c = canonical(s);
    lemma_same_orbit(s, c);
    lemma_orbit_symmetric(s, c);
    lemma_canonical_is_least(c);
    assert(least_of_orbit(s, canonical(c)));
    lemma_least_unique(s, canonical(c), c);
}

/// The cycle `v`, started `k` steps later.
pub fn rotate(v: &Vec<i32>, k: usize) -> (r: Vec<i32>)
    requires
        k <= v.len(),
    ensures
        ints(r@) == rotated(ints(v@), k as int),
        r.len() == v.len(),
{
    let n = v.len();
    let mut r: Vec<i32> = Vec::with_capacity(n);
    let mut i: usize = k;
    while i < n
        invariant
            k <= i <= n,
            n == v.len(),
            r@ == v@.subrange(k as int, i as int),
        decreases n - i,
    {
        r.push(v[i]);
        i += 1;
        assert(r@ =~= v@.subrange(k as int, i as int));
    }
    let mut j: usize = 0;
    while j < k
        invariant
            j <= k <= n,
            n == v.len(),
            r@ == v@.subrange(k as int, n as int) + v@.subrange(0, j as int),
        decreases k - j,
    {
        r.push(v[j]);
        j += 1;
        assert(r@ =~= v@.subrange(k as int, n as int) + v@.subrange(0, j as int));
    }
    assert(ints(r@) =~= rotated(ints(v@), k as int));
    r
}

/// The sequence `v`, read backwards.
pub fn reverse(v: &Vec<i32>) -> (r: Vec<i32>)
    ensures
        ints(r@) == reversed(ints(v@)),
        r.len() == v.len(),
{
    let n = v.len();
    let mut r: Vec<i32> = Vec::with_capacity(n);
    let mut i: usize = n;
    while i > 0
        invariant
            i <= n,
            n == v.len(),
            r.len() == n - i,
            forall|j: int| 0 <= j < r.len() ==> r[j] == v[n - 1 - j],
        decreases i,
    {
        i -= 1;
        r.push(v[i]);
    }
    assert(ints(r@) =~= reversed(ints(v@)));
    r
}

/// The sequence `v` with each jump replaced by its negative modulo the length.
pub fn mirror(v: &Vec<i32>) -> (r: Vec<i32>)
    requires
        v.len() <= i32::MAX,
        residues(ints(v@)),
    ensures
        ints(r@) == mirrored(ints(v@)),
        r.len() == v.len(),
{
    let n = v.len();
    let size: i32 = n as i32;
    let mut r: Vec<i32> = Vec::with_capacity(n);
    let mut i: usize = 0;
    while i < n
        invariant
            i <= n,
            n == v.len(),
            size == n,
            residues(ints(v@)),
            r.len() == i,
            forall|j: int| 0 <= j < i ==> r[j] == (n - v[j]) % (n as int),
        decreases n - i,
    {
        assert(0 <= ints(v@)[i as int] < n);
        r.push((size - v[i]) % size);
        i += 1;
    }
    assert(ints(r@) =~= mirrored(ints(v@)));
    r
}

/// The least rotation of `base` in dictionary order.
pub fn least_rotation_of(base: &Vec<i32>) -> (r: Vec<i32>)
    requires
        base.len() > 0,
    ensures
        ints(r@) == least_rotation(ints(base@), base.len() as int),
        r.len() == base.len(),
{
    let n = base.len();
    let mut best = rotate(base, 0);
    let mut k: usize = 1;
    while k < n
        invariant
            1 <= k <= n,
            n == base.len(),
            ints(best@) == least_rotation(ints(base@), k as int),
            best.len() == n,
        decreases n - k,
    {
        let candidate = rotate(base, k);
        if lex_less(&candidate, &best) {
            best = candidate;
        }
        k += 1;
    }
    best
}

/// The lesser of two sequences in dictionary order, the first if they are equal.
pub fn lesser_of(a: Vec<i32>, b: Vec<i32>) -> (r: Vec<i32>)
    ensures
        ints(r@) == lesser(ints(a@), ints(b@)),
{
    if lex_less(&b, &a) {
        b
    } else {
        a
    }
}

} // verus!
