//! Strictly sorted `Vec<u64>` as the canonical form of an unordered
//! component set, with the lemma that makes the form canonical: two strictly
//! sorted sequences over the same element set are equal.

use vstd::prelude::*;

verus! {

/// The elements are pairwise distinct and in increasing order.
pub open spec fn strictly_sorted(s: Seq<u64>) -> bool {
    forall|i: int, j: int| 0 <= i < j < s.len() ==> s[i] < s[j]
}

/// Every element of `a` occurs in `b`.
pub open spec fn seq_subset(a: Seq<u64>, b: Seq<u64>) -> bool {
    forall|i: int| 0 <= i < a.len() ==> b.contains(a[i])
}

/// No element of `a` occurs in `b`.
pub open spec fn seq_disjoint(a: Seq<u64>, b: Seq<u64>) -> bool {
    forall|i: int| 0 <= i < a.len() ==> !b.contains(a[i])
}

/// Whether a sorted component vector contains `x`.
pub fn contains_id(v: &Vec<u64>, x: u64) -> (r: bool)
    ensures
        r <==> v@.contains(x),
{
    let mut i: usize = 0;
    while i < v.len()
        invariant
            i <= v@.len(),
            forall|k: int| 0 <= k < i ==> v@[k] != x,
        decreases v@.len() - i,
    {
        if v[i] == x {
            assert(v@.contains(x));
            return true;
        }
        i += 1;
    }
    assert(forall|k: int| 0 <= k < v@.len() ==> v@[k] != x);
    false
}

/// Every element of `a` occurs in `b`.
pub fn all_in(a: &Vec<u64>, b: &Vec<u64>) -> (r: bool)
    ensures
        r <==> seq_subset(a@, b@),
{
    let mut i: usize = 0;
    while i < a.len()
        invariant
            i <= a@.len(),
            forall|k: int| 0 <= k < i ==> b@.contains(a@[k]),
        decreases a@.len() - i,
    {
        if !contains_id(b, a[i]) {
            return false;
        }
        i += 1;
    }
    true
}

/// No element of `a` occurs in `b`.
pub fn none_in(a: &Vec<u64>, b: &Vec<u64>) -> (r: bool)
    ensures
        r <==> seq_disjoint(a@, b@),
{
    let mut i: usize = 0;
    while i < a.len()
        invariant
            i <= a@.len(),
            forall|k: int| 0 <= k < i ==> !b@.contains(a@[k]),
        decreases a@.len() - i,
    {
        if contains_id(b, a[i]) {
            return false;
        }
        i += 1;
    }
    true
}

/// Copies a component id vector.
pub fn clone_ids(v: &Vec<u64>) -> (r: Vec<u64>)
    ensures
        r@ == v@,
{
    let mut r: Vec<u64> = Vec::new();
    let mut i: usize = 0;
    while i < v.len()
        invariant
            i <= v@.len(),
            r@ == v@.take(i as int),
        decreases v@.len() - i,
    {
        r.push(v[i]);
        proof {
            assert(r@ =~= v@.take(i + 1));
        }
        i += 1;
    }
    proof {
        assert(v@.take(v@.len() as int) =~= v@);
    }
    r
}

/// The position of `x` in `v`, if present.
pub fn position_of(v: &Vec<u64>, x: u64) -> (r: Option<usize>)
    ensures
        match r {
            Some(j) => j < v@.len() && v@[j as int] == x,
            None => !v@.contains(x),
        },
{
    let mut i: usize = 0;
    while i < v.len()
        invariant
            i <= v@.len(),
            forall|k: int| 0 <= k < i ==> v@[k] != x,
        decreases v@.len() - i,
    {
        if v[i] == x {
            return Some(i);
        }
        i += 1;
    }
    assert(forall|k: int| 0 <= k < v@.len() ==> v@[k] != x);
    None
}

/// A copy of a sorted component vector with one identifier removed.
pub fn sorted_remove(v: &Vec<u64>, x: u64) -> (r: Vec<u64>)
    requires
        strictly_sorted(v@),
    ensures
        strictly_sorted(r@),
        r@.to_set() == v@.to_set().remove(x),
        !r@.contains(x),
{
    let mut r: Vec<u64> = Vec::new();
    let mut i: usize = 0;
    while i < v.len()
        invariant
            strictly_sorted(v@),
            i <= v@.len(),
            strictly_sorted(r@),
            forall|k: int|
                0 <= k < r@.len() ==> v@.contains(#[trigger] r@[k]) && r@[k] != x,
            forall|k: int| 0 <= k < i && v@[k] != x ==> r@.contains(#[trigger] v@[k]),
            r@.len() > 0 ==> i > 0 && r@.last() <= v@[i - 1],
        decreases v@.len() - i,
    {
        let c = v[i];
        if c != x {
            proof {
                if r@.len() > 0 {
                    assert(r@.last() <= v@[i - 1]);
                    assert(v@[i - 1] < v@[i as int] || i as int == i);
                    if i > 0 {
                        assert(v@[i - 1] <= v@[i as int]) by {
                            if i - 1 < i {
                                assert(v@[i - 1] < v@[i as int]);
                            }
                        }
                    }
                }
                assert(v@.contains(v@[i as int]));
            }
            let ghost rold = r@;
            r.push(c);
            proof {
                assert forall|k1: int, k2: int| 0 <= k1 < k2 < r@.len() implies r@[k1] < r@[k2] by {
                    if k2 == r@.len() - 1 {
                        assert(r@[k1] == rold[k1]);
                        if rold.len() > 0 {
                            assert(rold[k1] <= rold.last() || k1 == rold.len() - 1);
                            assert(rold.last() <= v@[i - 1]);
                            assert(v@[i - 1] < v@[i as int]);
                        }
                    }
                }
                assert forall|k: int| 0 <= k < i + 1 && v@[k] != x implies r@.contains(
                    #[trigger] v@[k],
                ) by {
                    if k < i {
                        assert(rold.contains(v@[k]));
                        let w = choose|w: int| 0 <= w < rold.len() && rold[w] == v@[k];
                        assert(r@[w] == v@[k]);
                    } else {
                        assert(r@[r@.len() - 1] == v@[i as int]);
                    }
                }
            }
        } else {
            proof {
                if r@.len() > 0 && i > 0 {
                    assert(v@[i - 1] < v@[i as int]);
                }
            }
        }
        i += 1;
    }
    proof {
        assert forall|y: u64| r@.to_set().contains(y) <==> v@.to_set().remove(x).contains(y) by {
            if r@.to_set().contains(y) {
                let k = choose|k: int| 0 <= k < r@.len() && r@[k] == y;
                assert(v@.contains(y));
                assert(y != x);
            }
            if v@.to_set().remove(x).contains(y) {
                let k = choose|k: int| 0 <= k < v@.len() && v@[k] == y;
                assert(r@.contains(y));
            }
        }
        assert(r@.to_set() =~= v@.to_set().remove(x));
        assert(!r@.contains(x)) by {
            if r@.contains(x) {
                let k = choose|k: int| 0 <= k < r@.len() && r@[k] == x;
            }
        }
    }
    r
}

/// Whether two component vectors hold the same sequence.
pub fn same_seq(a: &Vec<u64>, b: &Vec<u64>) -> (r: bool)
    ensures
        r <==> a@ == b@,
{
    if a.len() != b.len() {
        return false;
    }
    let mut i: usize = 0;
    while i < a.len()
        invariant
            a@.len() == b@.len(),
            i <= a@.len(),
            forall|k: int| 0 <= k < i ==> a@[k] == b@[k],
        decreases a@.len() - i,
    {
        if a[i] != b[i] {
            assert(a@ != b@);
            return false;
        }
        i += 1;
    }
    proof {
        assert(a@ =~= b@);
    }
    true
}

/// Inserts `x` into a strictly sorted vector, keeping it strictly sorted;
/// a present element is not duplicated.
pub fn sorted_insert(v: &mut Vec<u64>, x: u64)
    requires
        strictly_sorted(old(v)@),
    ensures
        strictly_sorted(final(v)@),
        final(v)@.to_set() == old(v)@.to_set().insert(x),
        final(v)@.len() <= old(v)@.len() + 1,
{
    let ghost orig = v@;
    let mut i: usize = 0;
    while i < v.len() && v[i] < x
        invariant
            i <= v@.len(),
            v@ == orig,
            forall|k: int| 0 <= k < i ==> v@[k] < x,
        decreases v@.len() - i,
    {
        i += 1;
    }
    if i < v.len() && v[i] == x {
        proof {
            assert(v@.contains(x));
            assert(v@.to_set() =~= v@.to_set().insert(x));
        }
        return;
    }
    v.insert(i, x);
    proof {
        assert(v@ == orig.insert(i as int, x));
        assert forall|p: int, q: int| 0 <= p < q < v@.len() implies v@[p] < v@[q] by {
            if q < i {
                assert(v@[p] == orig[p] && v@[q] == orig[q]);
            } else if p > i {
                assert(v@[p] == orig[p - 1] && v@[q] == orig[q - 1]);
            } else if q == i {
                assert(v@[p] == orig[p] && v@[q] == x);
            } else if p == i {
                // v[q] = orig[q-1] with q - 1 >= i, and orig[i] != x since the
                // scan stopped before an element >= x that is not x.
                assert(v@[q] == orig[q - 1]);
                assert(orig[q - 1] >= orig[i as int]);
                assert(orig[i as int] > x || orig[i as int] == x);
                assert(orig[i as int] != x);
            } else {
                assert(p < i && q > i);
                assert(v@[p] == orig[p] && v@[q] == orig[q - 1]);
                assert(orig[q - 1] >= orig[i as int]);
                assert(orig[i as int] != x);
            }
        }
        assert forall|y: u64| v@.to_set().contains(y) <==> orig.to_set().insert(x).contains(y) by {
            if v@.to_set().contains(y) {
                let k = choose|k: int| 0 <= k < v@.len() && v@[k] == y;
                if k == i {
                    assert(orig.to_set().insert(x).contains(y));
                } else if k < i {
                    assert(orig[k] == y);
                    assert(orig.contains(y));
                } else {
                    assert(orig[k - 1] == y);
                    assert(orig.contains(y));
                }
            }
            if orig.to_set().insert(x).contains(y) {
                if y == x {
                    assert(v@[i as int] == x);
                    assert(v@.contains(y));
                } else {
                    let k = choose|k: int| 0 <= k < orig.len() && orig[k] == y;
                    if k < i {
                        assert(v@[k] == y);
                    } else {
                        assert(v@[k + 1] == y);
                    }
                    assert(v@.contains(y));
                }
            }
        }
        assert(v@.to_set() =~= orig.to_set().insert(x));
    }
}

/// Builds the canonical (strictly sorted, duplicate-free) form of an
/// arbitrarily ordered component list.
pub fn canonicalize(v: &Vec<u64>) -> (r: Vec<u64>)
    ensures
        strictly_sorted(r@),
        r@.to_set() == v@.to_set(),
        r@.len() <= v@.len(),
{
    let mut r: Vec<u64> = Vec::new();
    let mut i: usize = 0;
    proof {
        assert(r@.to_set() =~= v@.take(0).to_set());
    }
    while i < v.len()
        invariant
            i <= v@.len(),
            strictly_sorted(r@),
            r@.to_set() == v@.take(i as int).to_set(),
            r@.len() <= i,
        decreases v@.len() - i,
    {
        sorted_insert(&mut r, v[i]);
        proof {
            assert(v@.take(i + 1).drop_last() =~= v@.take(i as int));
            assert(v@.take(i + 1).last() == v@[i as int]);
            assert forall|y: u64|
                v@.take(i + 1).to_set().contains(y) <==> v@.take(
                    i as int,
                ).to_set().insert(v@[i as int]).contains(y) by {
                if v@.take(i + 1).contains(y) {
                    let k = choose|k: int| 0 <= k < i + 1 && #[trigger] v@.take(i + 1)[k] == y;
                    if k == i {
                        assert(y == v@[i as int]);
                    } else {
                        assert(v@.take(i as int)[k] == y);
                        assert(v@.take(i as int).contains(y));
                    }
                }
                if v@.take(i as int).to_set().insert(v@[i as int]).contains(y) {
                    if y == v@[i as int] {
                        assert(v@.take(i + 1)[i as int] == y);
                        assert(v@.take(i + 1).contains(y));
                    } else {
                        let k = choose|k: int| 0 <= k < i && v@.take(i as int)[k] == y;
                        assert(v@.take(i + 1)[k] == y);
                        assert(v@.take(i + 1).contains(y));
                    }
                }
            }
            assert(v@.take(i + 1).to_set() =~= v@.take(i as int).to_set().insert(v@[i as int]));
        }
        i += 1;
    }
    proof {
        assert(v@.take(v@.len() as int) =~= v@);
    }
    r
}

/// In a strictly sorted sequence, `index_of` finds each position back.
pub proof fn lemma_sorted_index_of(s: Seq<u64>, j: int)
    requires
        strictly_sorted(s),
        0 <= j < s.len(),
    ensures
        s.index_of(s[j]) == j,
{
    assert(s.contains(s[j]));
    let k = s.index_of(s[j]);
    if k < j {
        assert(s[k] < s[j]);
    } else if k > j {
        assert(s[j] < s[k]);
    }
}

/// Two strictly sorted sequences over the same element set are the same
/// sequence: the sorted duplicate-free form of a set is canonical.
pub proof fn lemma_sorted_set_canonical(a: Seq<u64>, b: Seq<u64>)
    requires
        strictly_sorted(a),
        strictly_sorted(b),
        a.to_set() == b.to_set(),
    ensures
        a == b,
    decreases a.len(),
{
    if a.len() == 0 {
        if b.len() > 0 {
            assert(b.to_set().contains(b[0]));
            assert(a.contains(b[0]));
            assert(false);
        }
        assert(a =~= b);
    } else {
        assert(a.to_set().contains(a.last()));
        assert(b.contains(a.last()));
        if b.len() == 0 {
            assert(false);
        }
        // The last element of each side is its maximum, and the maxima agree.
        let x = a.last();
        let y = b.last();
        assert(b.to_set().contains(y));
        assert(a.contains(y));
        let ka = choose|k: int| 0 <= k < a.len() && a[k] == y;
        assert(a[ka] <= a.last());
        let kb = choose|k: int| 0 <= k < b.len() && b[k] == x;
        assert(b[kb] <= b.last());
        assert(x == y);
        // Dropping the shared maximum keeps the sets equal.
        assert forall|z: u64| a.drop_last().to_set().contains(z) <==> b.drop_last().to_set().contains(
            z,
        ) by {
            if a.drop_last().contains(z) {
                let k = choose|k: int| 0 <= k < a.len() - 1 && a[k] == z;
                assert(z < x);
                assert(a.contains(z));
                assert(a.to_set().contains(z));
                assert(b.to_set().contains(z));
                assert(b.contains(z));
                let m = choose|m: int| 0 <= m < b.len() && b[m] == z;
                assert(m < b.len() - 1);
                assert(b.drop_last()[m] == z);
                assert(b.drop_last().contains(z));
            }
            if b.drop_last().contains(z) {
                let k = choose|k: int| 0 <= k < b.len() - 1 && b[k] == z;
                assert(z < y);
                assert(b.contains(z));
                assert(b.to_set().contains(z));
                assert(a.to_set().contains(z));
                assert(a.contains(z));
                let m = choose|m: int| 0 <= m < a.len() && a[m] == z;
                assert(m < a.len() - 1);
                assert(a.drop_last()[m] == z);
                assert(a.drop_last().contains(z));
            }
        }
        assert(a.drop_last().to_set() =~= b.drop_last().to_set());
        lemma_sorted_set_canonical(a.drop_last(), b.drop_last());
        assert(a.len() == b.len());
        assert forall|k: int| 0 <= k < a.len() implies a[k] == b[k] by {
            if k < a.len() - 1 {
                assert(a.drop_last()[k] == b.drop_last()[k]);
            } else {
                assert(a[k] == x && b[k] == y);
            }
        }
        assert(a =~= b);
    }
}

} // verus!
