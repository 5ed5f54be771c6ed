//! Sorted, duplicate-free vectors of 64-bit keys, used both for posting
//! lists and for candidate sets during query execution.

use vstd::prelude::*;

verus! {

/// The elements of `s` are in strictly increasing order (hence unique).
pub open spec fn strictly_increasing(s: Seq<u64>) -> bool {
    forall|p: int, q: int| 0 <= p < q < s.len() ==> s[p] < s[q]
}

/// Whether `t` occurs in `v`.
#[verifier::loop_isolation(false)]
pub fn contains_key(v: &Vec<u64>, t: u64) -> (r: bool)
    ensures
        r == v@.contains(t),
{
    let mut i: usize = 0;
    while i < v.len()
        invariant
            i <= v@.len(),
            forall|k: int| 0 <= k < i ==> v@[k] != t,
        decreases v@.len() - i,
    {
        if v[i] == t {
            return true;
        }
        i = i + 1;
    }
    false
}

/// Inserts `t` into the sorted vector `v`, keeping it sorted and
/// duplicate-free.
#[verifier::loop_isolation(false)]
pub fn insert_sorted(v: &mut Vec<u64>, t: u64)
    requires
        strictly_increasing(old(v)@),
    ensures
        strictly_increasing(final(v)@),
        forall|x: u64| final(v)@.contains(x) <==> old(v)@.contains(x) || x == t,
        old(v)@.len() <= final(v)@.len() <= old(v)@.len() + 1,
{
    let mut pos: usize = 0;
    while pos < v.len() && v[pos] < t
        invariant
            pos <= v@.len(),
            forall|k: int| 0 <= k < pos ==> v@[k] < t,
        decreases v@.len() - pos,
    {
        pos = pos + 1;
    }
    if pos < v.len() && v[pos] == t {
        assert(v@.contains(t));
        return;
    }
    let ghost old_view = v@;
    v.insert(pos, t);
    assert forall|x: u64| final(v)@.contains(x) implies old_view.contains(x) || x == t by {
        let w = choose|w: int| 0 <= w < v@.len() && v@[w] == x;
        if w < pos {
            assert(old_view[w] == x);
        } else if w > pos {
            assert(old_view[w - 1] == x);
        }
    }
    assert forall|x: u64| old_view.contains(x) implies final(v)@.contains(x) by {
        let w = choose|w: int| 0 <= w < old_view.len() && old_view[w] == x;
        if w < pos {
            assert(v@[w] == x);
        } else {
            assert(v@[w + 1] == x);
        }
    }
    assert(final(v)@.contains(t)) by {
        assert(v@[pos as int] == t);
    }
}

/// The keys of `a` that also occur in `b`, in order.
#[verifier::loop_isolation(false)]
pub fn intersect_keys(a: &Vec<u64>, b: &Vec<u64>) -> (r: Vec<u64>)
    requires
        strictly_increasing(a@),
    ensures
        strictly_increasing(r@),
        forall|x: u64| r@.contains(x) <==> a@.contains(x) && b@.contains(x),
{
    filter_keys(a, b, true)
}

/// The keys of `a` that do not occur in `b`, in order.
#[verifier::loop_isolation(false)]
pub fn subtract_keys(a: &Vec<u64>, b: &Vec<u64>) -> (r: Vec<u64>)
    requires
        strictly_increasing(a@),
    ensures
        strictly_increasing(r@),
        forall|x: u64| r@.contains(x) <==> a@.contains(x) && !b@.contains(x),
{
    filter_keys(a, b, false)
}

/// `x` is one of the first `i` keys of `a` and its membership in `b`
/// equals `keep`.
spec fn picked(a: Seq<u64>, b: Seq<u64>, keep: bool, i: int, x: u64) -> bool {
    exists|k: int| 0 <= k < i && a[k] == x && b.contains(x) == keep
}

/// The keys of `a` whose membership in `b` equals `keep`, in order.
#[verifier::loop_isolation(false)]
fn filter_keys(a: &Vec<u64>, b: &Vec<u64>, keep: bool) -> (r: Vec<u64>)
    requires
        strictly_increasing(a@),
    ensures
        strictly_increasing(r@),
        forall|x: u64| r@.contains(x) <==> a@.contains(x) && b@.contains(x) == keep,
{
    let mut r: Vec<u64> = Vec::new();
    let mut i: usize = 0;
    while i < a.len()
        invariant
            i <= a@.len(),
            strictly_increasing(r@),
            forall|x: u64| r@.contains(x) <==> picked(a@, b@, keep, i as int, x),
        decreases a@.len() - i,
    {
        let x: u64 = a[i];
        let ghost old_r = r@;
        if contains_key(b, x) == keep {
            assert forall|y: u64| old_r.contains(y) implies y < x by {
                let k = choose|k: int| 0 <= k < i && a@[k] == y && b@.contains(y) == keep;
                assert(a@[k] < a@[i as int]);
            }
            r.push(x);
            assert forall|p: int, q: int| 0 <= p < q < r@.len() implies r@[p] < r@[q] by {
                if q == r@.len() - 1 {
                    assert(old_r.contains(r@[p])) by {
                        assert(old_r[p] == r@[p]);
                    }
                }
            }
            assert(r@ == old_r.push(x));
            assert forall|y: u64| r@.contains(y) implies picked(a@, b@, keep, i + 1, y) by {
                if y == x {
                    assert(a@[i as int] == y && b@.contains(y) == keep);
                } else {
                    let w = choose|w: int| 0 <= w < r@.len() && r@[w] == y;
                    assert(r@[old_r.len() as int] == x);
                    assert(w < old_r.len());
                    assert(old_r[w] == y);
                    assert(old_r.contains(y));
                    assert(picked(a@, b@, keep, i as int, y));
                }
            }
            assert forall|y: u64| picked(a@, b@, keep, i + 1, y) implies r@.contains(y) by {
                let k = choose|k: int| 0 <= k < i + 1 && a@[k] == y && b@.contains(y) == keep;
                if k < i {
                    assert(picked(a@, b@, keep, i as int, y));
                    assert(old_r.contains(y));
                    let w = choose|w: int| 0 <= w < old_r.len() && old_r[w] == y;
                    assert(r@[w] == y);
                } else {
                    assert(r@[r@.len() - 1] == y);
                }
            }
        } else {
            assert forall|y: u64| picked(a@, b@, keep, i + 1, y) implies r@.contains(y) by {
                let k = choose|k: int| 0 <= k < i + 1 && a@[k] == y && b@.contains(y) == keep;
                assert(k < i);
                assert(picked(a@, b@, keep, i as int, y));
            }
            assert(forall|y: u64|
                r@.contains(y) ==> picked(a@, b@, keep, i as int, y) && picked(
                    a@,
                    b@,
                    keep,
                    i + 1,
                    y,
                ));
        }
        i = i + 1;
    }
    assert forall|x: u64| a@.contains(x) && b@.contains(x) == keep implies r@.contains(x) by {
        let k = choose|k: int| 0 <= k < a@.len() && a@[k] == x;
        assert(picked(a@, b@, keep, a@.len() as int, x));
    }
    assert forall|x: u64| r@.contains(x) implies a@.contains(x) && b@.contains(x) == keep by {
        let k = choose|k: int| 0 <= k < a@.len() && a@[k] == x && b@.contains(x) == keep;
        assert(a@[k] == x);
    }
    r
}

/// The keys of `a` followed by those of `b`, merged into one sorted,
/// duplicate-free vector.
#[verifier::loop_isolation(false)]
pub fn union_keys(a: &Vec<u64>, b: &Vec<u64>) -> (r: Vec<u64>)
    requires
        strictly_increasing(a@),
    ensures
        strictly_increasing(r@),
        forall|x: u64| r@.contains(x) <==> a@.contains(x) || b@.contains(x),
{
    let mut r: Vec<u64> = Vec::new();
    let mut i: usize = 0;
    while i < a.len()
        invariant
            i <= a@.len(),
            r@ == a@.subrange(0, i as int),
        decreases a@.len() - i,
    {
        r.push(a[i]);
        i = i + 1;
        assert(r@ =~= a@.subrange(0, i as int));
    }
    assert(r@ =~= a@);
    let mut j: usize = 0;
    while j < b.len()
        invariant
            j <= b@.len(),
            strictly_increasing(r@),
            forall|x: u64|
                r@.contains(x) <==> a@.contains(x) || (exists|k: int| 0 <= k < j && b@[k] == x),
        decreases b@.len() - j,
    {
        insert_sorted(&mut r, b[j]);
        j = j + 1;
        assert forall|x: u64|
            r@.contains(x) implies a@.contains(x) || (exists|k: int|
                0 <= k < j && b@[k] == x) by {
            if x == b@[j - 1] {
                assert(b@[j - 1] == x);
            }
        }
    }
    assert forall|x: u64| b@.contains(x) implies r@.contains(x) by {
        let k = choose|k: int| 0 <= k < b@.len() && b@[k] == x;
    }
    r
}

/// A copy of a key vector.
#[verifier::loop_isolation(false)]
pub fn copy_keys(v: &Vec<u64>) -> (r: Vec<u64>)
    ensures
        r@ == v@,
{
    let mut r: Vec<u64> = Vec::new();
    let mut i: usize = 0;
    while i < v.len()
        invariant
            i <= v@.len(),
            r@ == v@.subrange(0, i as int),
        decreases v@.len() - i,
    {
        r.push(v[i]);
        i = i + 1;
        assert(r@ =~= v@.subrange(0, i as int));
    }
    assert(r@ =~= v@);
    r
}

/// The keys `0, 1, ..., n - 1`, in order.
#[verifier::loop_isolation(false)]
pub fn all_keys_below(n: u64) -> (r: Vec<u64>)
    requires
        n <= usize::MAX,
    ensures
        r@.len() == n,
        forall|k: int| 0 <= k < n ==> r@[k] == k,
        strictly_increasing(r@),
        forall|x: u64| r@.contains(x) <==> x < n,
{
    let mut r: Vec<u64> = Vec::new();
    let mut i: u64 = 0;
    while i < n
        invariant
            i <= n,
            r@.len() == i,
            forall|k: int| 0 <= k < i ==> r@[k] == k,
        decreases n - i,
    {
        r.push(i);
        i = i + 1;
    }
    assert forall|x: u64| r@.contains(x) implies x < n by {}
    assert forall|x: u64| x < n implies r@.contains(x) by {
        assert(r@[x as int] == x);
    }
    r
}

} // verus!
