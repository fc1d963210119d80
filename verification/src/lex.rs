//! Lexicographic order on integer sequences.

use vstd::prelude::*;

verus! {

/// The integers held by a sequence of machine integers.
pub open spec fn ints(s: Seq<i32>) -> Seq<int> {
    Seq::new(s.len(), |i: int| s[i] as int)
}

/// `a` and `b` agree on their first `k` entries.
pub open spec fn agree_before(a: Seq<int>, b: Seq<int>, k: int) -> bool {
    forall|i: int| 0 <= i < k ==> a[i] == b[i]
}

/// `a` and `b` part ways at index `k`, in favour of `a`: either `a` ends there
/// and `b` goes on, or both go on and `a` holds the smaller entry.
pub open spec fn smaller_at(a: Seq<int>, b: Seq<int>, k: int) -> bool {
    &&& 0 <= k <= a.len()
    &&& k < b.len()
    &&& agree_before(a, b, k)
    &&& k < a.len() ==> a[k] < b[k]
}

/// `a` comes strictly before `b` in dictionary order: at the first place where
/// they differ `a` holds the smaller entry, or `a` is a proper prefix of `b`.
pub open spec fn lex_lt(a: Seq<int>, b: Seq<int>) -> bool {
    exists|k: int| smaller_at(a, b, k)
}

/// `a` comes before `b` in dictionary order, or equals it.
pub open spec fn lex_le(a: Seq<int>, b: Seq<int>) -> bool {
    a == b || lex_lt(a, b)
}

/// The length of the longest common prefix of `a` and `b`, counted from `from`
/// on, given that they agree before `from`.
pub open spec fn common_prefix(a: Seq<int>, b: Seq<int>, from: int) -> int
    decreases a.len() - from,
{
    if 0 <= from < a.len() && from < b.len() && a[from] == b[from] {
        common_prefix(a, b, from + 1)
    } else {
        from
    }
}

/// The common prefix ends where one sequence ends or the two differ.
proof fn lemma_common_prefix(a: Seq<int>, b: Seq<int>, from: int)
    requires
        0 <= from <= a.len(),
        from <= b.len(),
        agree_before(a, b, from),
    ensures
        from <= common_prefix(a, b, from) <= a.len(),
        common_prefix(a, b, from) <= b.len(),
        agree_before(a, b, common_prefix(a, b, from)),
        common_prefix(a, b, from) < a.len() && common_prefix(a, b, from) < b.len() ==> a[common_prefix(
            a,
            b,
            from,
        )] != b[common_prefix(a, b, from)],
    decreases a.len() - from,
{
    if from < a.len() && from < b.len() && a[from] == b[from] {
        lemma_common_prefix(a, b, from + 1);
    }
}

/// Of two sequences, one comes before the other or they are equal.
pub proof fn lemma_lex_total(a: Seq<int>, b: Seq<int>)
    ensures
        a == b || lex_lt(a, b) || lex_lt(b, a),
{
    let k = common_prefix(a, b, 0);
    lemma_common_prefix(a, b, 0);
    assert(agree_before(b, a, k));
    if k == a.len() && k == b.len() {
        assert(a =~= b);
    } else if k == a.len() {
        assert(smaller_at(a, b, k));
    } else if k == b.len() {
        assert(smaller_at(b, a, k));
    } else if a[k] < b[k] {
        assert(smaller_at(a, b, k));
    } else {
        assert(smaller_at(b, a, k));
    }
}

/// No sequence comes strictly before itself.
pub proof fn lemma_lex_irreflexive(a: Seq<int>)
    ensures
        !lex_lt(a, a),
{
}

/// Two sequences cannot each come strictly before the other.
pub proof fn lemma_lex_asymmetric(a: Seq<int>, b: Seq<int>)
    ensures
        !(lex_lt(a, b) && lex_lt(b, a)),
{
    if lex_lt(a, b) && lex_lt(b, a) {
        let j = choose|k: int| smaller_at(a, b, k);
        let k = choose|k: int| smaller_at(b, a, k);
        if j < k {
            assert(b[j] == a[j]);
        } else if k < j {
            assert(a[k] == b[k]);
        }
    }
}

/// Dictionary order is transitive.
pub proof fn lemma_lex_lt_transitive(a: Seq<int>, b: Seq<int>, c: Seq<int>)
    requires
        lex_lt(a, b),
        lex_lt(b, c),
    ensures
        lex_lt(a, c),
{
    let j = choose|k: int| smaller_at(a, b, k);
    let k = choose|k: int| smaller_at(b, c, k);
    let m = if j <= k { j } else { k };
    assert(agree_before(a, c, m)) by {
        assert forall|i: int| 0 <= i < m implies a[i] == c[i] by {
            assert(a[i] == b[i]);
            assert(b[i] == c[i]);
        }
    }
    if j < k {
        assert(b[j] == c[j]);
    } else if k < j {
        assert(a[k] == b[k]);
    }
    assert(smaller_at(a, c, m));
}

/// The order with equality is transitive.
pub proof fn lemma_lex_le_transitive(a: Seq<int>, b: Seq<int>, c: Seq<int>)
    requires
        lex_le(a, b),
        lex_le(b, c),
    ensures
        lex_le(a, c),
{
    if a != b && b != c {
        lemma_lex_lt_transitive(a, b, c);
    }
}

/// Two sequences that each come before or equal the other are equal.
pub proof fn lemma_lex_le_antisymmetric(a: Seq<int>, b: Seq<int>)
    requires
        lex_le(a, b),
        lex_le(b, a),
    ensures
        a == b,
{
    lemma_lex_asymmetric(a, b);
}

/// Whether `a` comes strictly before `b` in dictionary order.
pub fn lex_less(a: &Vec<i32>, b: &Vec<i32>) -> (r: bool)
    ensures
        r == lex_lt(ints(a@), ints(b@)),
{
    let mut i: usize = 0;
    while i < a.len() && i < b.len()
        invariant
            i <= a.len(),
            i <= b.len(),
            agree_before(ints(a@), ints(b@), i as int),
        decreases a.len() - i,
    {
        if a[i] < b[i] {
            assert(smaller_at(ints(a@), ints(b@), i as int));
            return true;
        }
        if a[i] > b[i] {
            proof {
                assert(smaller_at(ints(b@), ints(a@), i as int)) by {
                    assert forall|j: int| 0 <= j < i implies ints(b@)[j] == ints(a@)[j] by {
                        assert(ints(a@)[j] == ints(b@)[j]);
                    }
                }
                lemma_lex_asymmetric(ints(a@), ints(b@));
            }
            return false;
        }
        i += 1;
    }
    proof {
        if a.len() < b.len() {
            assert(smaller_at(ints(a@), ints(b@), i as int));
        } else {
            lemma_lex_irreflexive(ints(a@));
            if a.len() == b.len() {
                assert(ints(a@) =~= ints(b@));
            } else {
                assert(smaller_at(ints(b@), ints(a@), i as int)) by {
                    assert forall|j: int| 0 <= j < i implies ints(b@)[j] == ints(a@)[j] by {
                        assert(ints(a@)[j] == ints(b@)[j]);
                    }
                }
                lemma_lex_asymmetric(ints(a@), ints(b@));
            }
        }
    }
    a.len() < b.len()
}

} // verus!
