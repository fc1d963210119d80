//! Closed paths through all corners of a regular polygon, one for each shape.

use std::collections::HashSet;
use vstd::prelude::*;
use crate::lex::{
    ints, lemma_lex_asymmetric, lemma_lex_lt_transitive, lemma_lex_total, lex_less, lex_lt,
};
use crate::orbit::{
    canonical, image, least_image, least_of_orbit, least_rotation_of, lemma_canonical_idempotent,
    lemma_canonical_is_least, lemma_image_residues, lesser_of, mirror, residues, reverse, wrap,
};
use crate::ranking::{
    count_visit_orders, drawn, factorial, is_visit_order, later_corners, lemma_visit_order_valid,
    visit_order, MAX_SIZE,
};
use crate::walk::{
    is_jump_sequence, jump, jumps_of, lemma_canonical_jump_sequence, lemma_jumps_close_cycle,
    lemma_mod_wrap,
};

verus! {

/// A closed path through all corners of a regular polygon, written as the
/// canonical jump sequence of its shape.
#[derive(Debug, Hash, PartialEq, Eq, PartialOrd, Ord)]
pub struct PolyPath {
    /// The number of corners.
    pub size: i32,
    /// The jumps from each corner of the path to the next.
    pub path: Vec<i32>,
}

/// What a path is: its number of corners and its jumps.
pub struct Shape {
    pub size: int,
    pub jumps: Seq<int>,
}

/// The size is the number of jumps, at least three, and the jumps are a jump
/// sequence in canonical form.
pub open spec fn is_canonical_shape(shape: Shape) -> bool {
    &&& shape.size == shape.jumps.len()
    &&& shape.size >= 3
    &&& is_jump_sequence(shape.jumps)
    &&& canonical(shape.jumps) == shape.jumps
}

impl View for PolyPath {
    type V = Shape;

    open spec fn view(&self) -> Shape {
        Shape { size: self.size as int, jumps: ints(self.path@) }
    }
}

impl Clone for PolyPath {
    fn clone(&self) -> (copy: Self)
        ensures
            copy@ == self@,
    {
        let path = self.path.clone();
        assert(ints(path@) =~= ints(self.path@));
        PolyPath { size: self.size, path }
    }
}

impl PolyPath {
    /// A path is well formed when its size is the number of its jumps, at
    /// least three, and its jumps are a jump sequence in canonical form.
    pub open spec fn wf(&self) -> bool {
        is_canonical_shape(self@)
    }

    /// The path that takes the corners in the order `verts`, in canonical form.
    pub fn new_from_verts(verts: &Vec<i32>) -> (result: PolyPath)
        requires
            is_visit_order(ints(verts@)),
        ensures
            result@.size == verts.len(),
            result@.jumps == canonical(jumps_of(ints(verts@))),
            result.wf(),
    {
        let jumps = PolyPath::verts_to_path(verts);
        proof {
            lemma_canonical_jump_sequence(ints(jumps@));
            lemma_canonical_idempotent(ints(jumps@));
        }
        PolyPath { size: verts.len() as i32, path: PolyPath::normalize_path(jumps) }
    }

    /// Whether `verts` is a visit order: at least three corners, each a number
    /// below the count of corners, none of them twice.
    pub fn validate_verts(verts: &Vec<i32>) -> (valid: bool)
        ensures
            valid == is_visit_order(ints(verts@)),
    {
        let size: usize = verts.len();
        if size < 3 || size > i32::MAX as usize {
            return false;
        }
        let ghost v = ints(verts@);
        let mut visited: HashSet<i32> = HashSet::new();
        let mut x: usize = 0;
        while x < size
            invariant
                x <= size,
                size == verts.len(),
                3 <= size <= i32::MAX,
                v == ints(verts@),
                forall|i: int| 0 <= i < x ==> 0 <= #[trigger] v[i] < size,
                forall|i: int, j: int| 0 <= i < j < x ==> v[i] != v[j],
                forall|c: i32|
                    visited@.contains(c) <==> exists|i: int| 0 <= i < x && #[trigger] v[i] == c,
            decreases size - x,
        {
            let corner: i32 = verts[x];
            assert(v[x as int] == corner);
            if visited.contains(&corner) || corner < 0 || corner >= size as i32 {
                proof {
                    if visited@.contains(corner) {
                        let i = choose|i: int| 0 <= i < x && #[trigger] v[i] == corner;
                        assert(v[i] == v[x as int]);
                    }
                }
                return false;
            }
            visited.insert(corner);
            x += 1;
        }
        true
    }

    /// The jumps of the closed path that takes the corners in the order `verts`.
    pub fn verts_to_path(verts: &Vec<i32>) -> (path: Vec<i32>)
        requires
            0 < verts.len() <= i32::MAX,
            residues(ints(verts@)),
        ensures
            ints(path@) == jumps_of(ints(verts@)),
            residues(ints(path@)),
            is_visit_order(ints(verts@)) ==> is_jump_sequence(ints(path@)),
    {
        let size: usize = verts.len();
        let n: i64 = size as i64;
        let ghost v = ints(verts@);
        let mut path: Vec<i32> = Vec::with_capacity(size);
        let mut x: usize = 0;
        while x < size
            invariant
                x <= size,
                size == verts.len(),
                0 < size <= i32::MAX,
                n == size,
                v == ints(verts@),
                residues(v),
                path.len() == x,
                forall|i: int|
                    0 <= i < x ==> #[trigger] path[i] == jump(n as int, v[i], v[wrap(i + 1, n as int)]),
                forall|i: int| 0 <= i < x ==> 0 <= #[trigger] path[i] < n,
            decreases size - x,
        {
            let next: usize = if x + 1 < size { x + 1 } else { 0 };
            assert(next == wrap(x + 1, n as int));
            assert(0 <= v[x as int] < n && 0 <= v[next as int] < n);
            let hop: i64 = (n + (verts[next] as i64 - verts[x] as i64)) % n;
            proof {
                lemma_mod_wrap(n + v[next as int] - v[x as int], n as int);
            }
            path.push(hop as i32);
            x += 1;
        }
        proof {
            assert(ints(path@) =~= jumps_of(v));
            assert(residues(ints(path@)));
            if is_visit_order(v) {
                lemma_jumps_close_cycle(v);
            }
        }
        path
    }

    /// The canonical form of a jump sequence: the least, in dictionary order,
    /// of all the sequences that rotating, reversing and mirroring make of it.
    pub fn normalize_path(path: Vec<i32>) -> (least: Vec<i32>)
        requires
            0 < path.len() <= i32::MAX,
            residues(ints(path@)),
        ensures
            ints(least@) == canonical(ints(path@)),
            least_of_orbit(ints(path@), ints(least@)),
            least.len() == path.len(),
            residues(ints(least@)),
    {
        let ghost s = ints(path@);
        let backwards = reverse(&path);
        let mirror_image = mirror(&path);
        let mirror_backwards = reverse(&mirror_image);
        let plain = lesser_of(least_rotation_of(&path), least_rotation_of(&backwards));
        let flipped = lesser_of(
            least_rotation_of(&mirror_image),
            least_rotation_of(&mirror_backwards),
        );
        let least = lesser_of(plain, flipped);
        proof {
            assert(ints(least@) == least_image(s));
            lemma_canonical_is_least(s);
            let (k, rev, mir) = choose|k: int, rev: bool, mir: bool|
                0 <= k < s.len() && ints(least@) == #[trigger] image(s, k, rev, mir);
            lemma_image_residues(s, k, rev, mir);
            assert(ints(least@).len() == least.len());
        }
        least
    }
}

/// The visit order of the `n` corners with rank `perm`: corner 0, then the
/// other corners as the digits of `perm` in the factorial number system pick
/// them from those still left.
pub fn generate_possibility(perm: i32, n: i32) -> (visits: Vec<i32>)
    requires
        n >= 3,
        0 <= perm < factorial((n - 1) as nat),
    ensures
        ints(visits@) == visit_order(perm as int, n as int),
        is_visit_order(ints(visits@)),
        visits.len() == n,
        visits[0] == 0,
{
    let mut points: Vec<i32> = Vec::new();
    let mut p: i32 = 1;
    while p < n
        invariant
            1 <= p <= n,
            points.len() == p - 1,
            forall|i: int| 0 <= i < p - 1 ==> points[i] == i + 1,
        decreases n - p,
    {
        points.push(p);
        p += 1;
    }
    assert(ints(points@) =~= later_corners(n as int));

    let mut visits: Vec<i32> = Vec::new();
    let mut total: i32 = perm;
    visits.push(0);
    assert(ints(visits@) =~= seq![0int]);
    let mut x: i32 = 1;
    while x < n
        invariant
            1 <= x <= n,
            0 <= total,
            points.len() == n - x,
            ints(visits@) + drawn(total as int, ints(points@)) == visit_order(perm as int, n as int),
        decreases n - x,
    {
        let ghost pool = ints(points@);
        let ghost before = ints(visits@);
        let current: i32 = total % (n - x);
        total = total / (n - x);
        let point = points.remove(current as usize);
        visits.push(point);
        proof {
            assert(ints(points@) =~= pool.remove(current as int));
            assert(ints(visits@) =~= before + seq![pool[current as int]]);
            assert(before + (seq![pool[current as int]] + drawn(total as int, ints(points@)))
                =~= ints(visits@) + drawn(total as int, ints(points@)));
        }
        x += 1;
    }
    proof {
        assert(ints(points@) =~= Seq::<int>::empty());
        assert(ints(visits@) + Seq::<int>::empty() =~= ints(visits@));
        lemma_visit_order_valid(perm as int, n as int);
    }
    visits
}

/// `a` comes before `b`: it has fewer corners, or as many and the jumps that
/// come first in dictionary order.
pub open spec fn shape_lt(a: Shape, b: Shape) -> bool {
    a.size < b.size || (a.size == b.size && lex_lt(a.jumps, b.jumps))
}

/// The shapes of a list of paths.
pub open spec fn shapes(paths: Seq<PolyPath>) -> Seq<Shape> {
    Seq::new(paths.len(), |i: int| paths[i]@)
}

/// Each shape of the list comes before all that follow it.
pub open spec fn ascending(list: Seq<Shape>) -> bool {
    forall|i: int, j: int| 0 <= i < j < list.len() ==> shape_lt(list[i], list[j])
}

/// Of two shapes, one comes before the other or they are the same.
pub proof fn lemma_shape_total(a: Shape, b: Shape)
    ensures
        a == b || shape_lt(a, b) || shape_lt(b, a),
{
    lemma_lex_total(a.jumps, b.jumps);
}

/// Two shapes cannot each come before the other, and none comes before itself.
pub proof fn lemma_shape_asymmetric(a: Shape, b: Shape)
    ensures
        !(shape_lt(a, b) && shape_lt(b, a)),
{
    lemma_lex_asymmetric(a.jumps, b.jumps);
}

/// The order of shapes is transitive.
pub proof fn lemma_shape_transitive(a: Shape, b: Shape, c: Shape)
    requires
        shape_lt(a, b),
        shape_lt(b, c),
    ensures
        shape_lt(a, c),
{
    if a.size == b.size && b.size == c.size {
        lemma_lex_lt_transitive(a.jumps, b.jumps, c.jumps);
    }
}

/// No shape occurs twice in an ascending list.
pub proof fn lemma_ascending_distinct(list: Seq<Shape>)
    requires
        ascending(list),
    ensures
        forall|i: int, j: int| 0 <= i < j < list.len() ==> list[i] != list[j],
{
    assert forall|i: int, j: int| 0 <= i < j < list.len() implies list[i] != list[j] by {
        lemma_shape_asymmetric(list[i], list[j]);
    }
}

impl PolyPath {
    /// Whether this path comes before `other`: by size first, then by the
    /// jumps in dictionary order.
    pub fn precedes(&self, other: &PolyPath) -> (r: bool)
        ensures
            r == shape_lt(self@, other@),
    {
        self.size < other.size || (self.size == other.size && lex_less(&self.path, &other.path))
    }
}

/// Puts `path` into the ascending list `found`, at its place in the order,
/// unless a path of the same shape is there already.
pub fn insert_path(found: &mut Vec<PolyPath>, path: PolyPath)
    requires
        ascending(shapes(old(found)@)),
    ensures
        ascending(shapes(final(found)@)),
        forall|shape: Shape|
            shapes(final(found)@).contains(shape) <==> (shapes(old(found)@).contains(shape) || shape
                == path@),
        final(found).len() == old(found).len() + (if shapes(old(found)@).contains(path@) {
            0int
        } else {
            1int
        }),
{
    let ghost before = shapes(found@);
    let ghost new = path@;
    let mut lo: usize = 0;
    let mut hi: usize = found.len();
    while lo < hi
        invariant
            lo <= hi <= found.len(),
            before == shapes(found@),
            new == path@,
            ascending(before),
            forall|i: int| 0 <= i < lo ==> shape_lt(before[i], new),
            forall|i: int| hi <= i < before.len() ==> !shape_lt(before[i], new),
        decreases hi - lo,
    {
        let mid: usize = lo + (hi - lo) / 2;
        assert(before[mid as int] == found[mid as int]@);
        if found[mid].precedes(&path) {
            assert forall|i: int| 0 <= i < mid + 1 implies shape_lt(before[i], new) by {
                if i < mid {
                    lemma_shape_transitive(before[i], before[mid as int], new);
                }
            }
            lo = mid + 1;
        } else {
            assert forall|i: int| mid <= i < before.len() implies !shape_lt(before[i], new) by {
                if i > mid && shape_lt(before[i], new) {
                    lemma_shape_transitive(before[mid as int], before[i], new);
                }
            }
            hi = mid;
        }
    }
    let present = lo < found.len() && !path.precedes(&found[lo]);
    proof {
        if lo < found.len() {
            assert(before[lo as int] == found[lo as int]@);
            lemma_shape_total(before[lo as int], new);
        }
        if present {
            assert(before.contains(new));
        } else {
            assert forall|i: int| 0 <= i < before.len() implies before[i] != new by {
                if i < lo {
                    lemma_shape_asymmetric(before[i], new);
                } else {
                    if i > lo {
                        lemma_shape_transitive(new, before[lo as int], before[i]);
                    }
                    lemma_shape_asymmetric(before[i], new);
                }
            }
        }
    }
    if !present {
        found.insert(lo, path);
        proof {
            let after = shapes(found@);
            assert(after =~= before.insert(lo as int, new));
            assert forall|i: int, j: int| 0 <= i < j < after.len() implies shape_lt(
                after[i],
                after[j],
            ) by {
                if j == lo {
                    assert(after[i] == before[i]);
                } else if i == lo {
                    assert(after[j] == before[j - 1]);
                    if j - 1 > lo {
                        lemma_shape_transitive(new, before[lo as int], before[j - 1]);
                    }
                } else {
                    let bi = if i < lo { i } else { i - 1 };
                    let bj = if j < lo { j } else { j - 1 };
                    assert(after[i] == before[bi]);
                    assert(after[j] == before[bj]);
                }
            }
            assert forall|shape: Shape|
                after.contains(shape) <==> (before.contains(shape) || shape == new) by {
                if after.contains(shape) {
                    let i = choose|i: int| 0 <= i < after.len() && after[i] == shape;
                    if i != lo {
                        let bi = if i < lo { i } else { i - 1 };
                        assert(after[i] == before[bi]);
                    }
                }
                if before.contains(shape) {
                    let i = choose|i: int| 0 <= i < before.len() && before[i] == shape;
                    let ai = if i < lo { i } else { i + 1 };
                    assert(after[ai] == before[i]);
                }
                if shape == new {
                    assert(after[lo as int] == new);
                }
            }
        }
    }
}

/// Why no paths were looked for.
#[derive(Debug, Clone, Copy, PartialEq, Eq, Structural)]
pub enum PathError {
    /// A closed path needs a polygon of at least three corners.
    TooFewCorners,
}

/// The shape of the closed path that takes the `n` corners in the visit order
/// of the given rank.
pub open spec fn shape_of_rank(rank: int, n: int) -> Shape {
    Shape { size: n, jumps: canonical(jumps_of(visit_order(rank, n))) }
}

/// `shape` is the shape of a visit order of `n` corners with a rank below
/// `count`.
pub open spec fn arises(shape: Shape, n: int, count: int) -> bool {
    exists|rank: int| 0 <= rank < count && shape == #[trigger] shape_of_rank(rank, n)
}

/// `list` holds the shapes of the visit orders with ranks below `count`, and
/// no others, each of them once and in ascending order.
pub open spec fn lists_shapes(list: Seq<Shape>, n: int, count: int) -> bool {
    &&& ascending(list)
    &&& forall|rank: int| 0 <= rank < count ==> list.contains(#[trigger] shape_of_rank(rank, n))
    &&& forall|i: int| 0 <= i < list.len() ==> arises(#[trigger] list[i], n, count)
}

/// All closed paths through the `n` corners of a regular polygon, one for each
/// shape: paths that a rotation or a reflection of the polygon, or walking the
/// other way round, turns into one another count as one. They come in
/// ascending order.
pub fn find_paths(n: i32) -> (result: Result<Vec<PolyPath>, PathError>)
    requires
        n <= MAX_SIZE,
    ensures
        n < 3 <==> result == Err::<Vec<PolyPath>, PathError>(PathError::TooFewCorners),
        n >= 3 <==> result is Ok,
        result matches Ok(paths) ==> {
            &&& lists_shapes(shapes(paths@), n as int, factorial((n - 1) as nat) as int)
            &&& forall|i: int| 0 <= i < paths.len() ==> (#[trigger] paths[i]).wf()
            &&& forall|i: int| 0 <= i < paths.len() ==> (#[trigger] paths[i]).size == n
            &&& forall|i: int, j: int| 0 <= i < j < paths.len() ==> paths[i]@ != paths[j]@
        },
{
    if n < 3 {
        return Err(PathError::TooFewCorners);
    }
    let mut found: Vec<PolyPath> = Vec::new();
    let perms: i32 = count_visit_orders(n);
    let mut x: i32 = 0;
    while x < perms
        invariant
            3 <= n <= MAX_SIZE,
            0 <= x <= perms,
            perms == factorial((n - 1) as nat),
            lists_shapes(shapes(found@), n as int, x as int),
            forall|i: int| 0 <= i < found.len() ==> is_canonical_shape(#[trigger] shapes(found@)[i]),
        decreases perms - x,
    {
        let possibility = generate_possibility(x, n);
        let path = PolyPath::new_from_verts(&possibility);
        let ghost before = shapes(found@);
        let ghost new = path@;
        assert(new == shape_of_rank(x as int, n as int));
        insert_path(&mut found, path);
        proof {
            let after = shapes(found@);
            assert forall|rank: int| 0 <= rank < x + 1 implies after.contains(
                #[trigger] shape_of_rank(rank, n as int),
            ) by {
                if rank < x {
                    assert(before.contains(shape_of_rank(rank, n as int)));
                }
            }
            assert forall|i: int| 0 <= i < after.len() implies arises(
                #[trigger] after[i],
                n as int,
                x + 1,
            ) && is_canonical_shape(after[i]) by {
                assert(after.contains(after[i]));
                if after[i] != new {
                    let j = choose|j: int| 0 <= j < before.len() && before[j] == after[i];
                    assert(arises(before[j], n as int, x as int));
                    let rank = choose|rank: int|
                        0 <= rank < x && before[j] == #[trigger] shape_of_rank(rank, n as int);
                    assert(after[i] == shape_of_rank(rank, n as int));
                }
            }
        }
        x += 1;
    }
    proof {
        let list = shapes(found@);
        lemma_ascending_distinct(list);
        assert forall|i: int| 0 <= i < found.len() implies (#[trigger] found[i]).size == n
            && found[i].wf() by {
            assert(list[i] == found[i]@);
            assert(arises(list[i], n as int, x as int));
        }
        assert forall|i: int, j: int| 0 <= i < j < found.len() implies found[i]@ != found[j]@ by {
            assert(list[i] == found[i]@);
            assert(list[j] == found[j]@);
        }
    }
    Ok(found)
}

/// How many of the first `upto` entries of `s` are less than `bound`.
pub open spec fn count_less(s: Seq<int>, bound: int, upto: int) -> int
    decreases upto,
{
    if upto <= 0 {
        0
    } else {
        count_less(s, bound, upto - 1) + if s[upto - 1] < bound { 1int } else { 0int }
    }
}

/// How many of the first `upto` entries of `s` are greater than `bound`.
pub open spec fn count_greater(s: Seq<int>, bound: int, upto: int) -> int
    decreases upto,
{
    if upto <= 0 {
        0
    } else {
        count_greater(s, bound, upto - 1) + if s[upto - 1] > bound { 1int } else { 0int }
    }
}

/// Whether `path` holds more large entries than small ones: more entries
/// greater than half its length, rounded up, than entries less than half its
/// length, rounded down.
pub fn is_reversal(path: &Vec<i32>) -> (r: bool)
    ensures
        r == (count_greater(
            ints(path@),
            path.len() / 2 + path.len() % 2,
            path.len() as int,
        ) > count_less(ints(path@), path.len() as int / 2, path.len() as int)),
{
    let len: usize = path.len();
    let below: usize = len / 2;
    let above: usize = len / 2 + len % 2;
    let ghost s = ints(path@);
    let mut low: usize = 0;
    let mut high: usize = 0;
    let mut i: usize = 0;
    while i < len
        invariant
            i <= len,
            len == path.len(),
            s == ints(path@),
            below == len / 2,
            above == len / 2 + len % 2,
            low == count_less(s, below as int, i as int),
            high == count_greater(s, above as int, i as int),
            low <= i,
            high <= i,
        decreases len - i,
    {
        let x: i32 = path[i];
        assert(s[i as int] == x);
        if x < 0 || (x as usize) < below {
            low = low + 1;
        } else if (x as usize) > above {
            high = high + 1;
        }
        i += 1;
    }
    high > low
}

} // verus!
