//! Trigram extraction: overlapping three-character windows over lower-cased
//! text, packed into 64-bit index terms.

use vstd::prelude::*;

verus! {

use crate::keys::{insert_sorted, strictly_increasing};

/// Three characters packed into one 64-bit term. Character scalar values
/// are below 2^21, so the three fields cannot collide.
pub open spec fn pack3(a: char, b: char, c: char) -> u64 {
    (a as u64 + (b as u64) * 0x20_0000 + (c as u64) * 0x400_0000_0000) as u64
}

/// The packed trigram of the window of `s` starting at `w`.
pub open spec fn window_term(s: Seq<char>, w: int) -> u64 {
    pack3(s[w], s[w + 1], s[w + 2])
}

/// The set of packed trigrams occurring in `s`.
pub open spec fn trigrams_of(s: Seq<char>) -> Set<u64> {
    Set::new(|t: u64| exists|i: int| 0 <= i && i + 3 <= s.len() && t == #[trigger] window_term(s, i))
}

/// Executable form of `pack3`.
pub fn pack_trigram(a: char, b: char, c: char) -> (r: u64)
    ensures
        r == pack3(a, b, c),
{
    let x: u64 = a as u64;
    let y: u64 = b as u64;
    let z: u64 = c as u64;
    assert(x < 0x20_0000 && y < 0x20_0000 && z < 0x20_0000);
    x + y * 0x20_0000 + z * 0x400_0000_0000
}

/// The distinct trigrams of the windows of `v` that lie entirely within
/// `[lo, hi)`, sorted ascending.
#[verifier::loop_isolation(false)]
pub fn extract_trigrams_range(v: &Vec<char>, lo: usize, hi: usize) -> (r: Vec<u64>)
    requires
        lo <= hi <= v@.len(),
    ensures
        strictly_increasing(r@),
        forall|t: u64|
            r@.contains(t) <==> exists|w: int|
                lo <= w && w + 3 <= hi && t == #[trigger] window_term(v@, w),
{
    let mut r: Vec<u64> = Vec::new();
    if hi - lo < 3 {
        return r;
    }
    let mut i: usize = lo;
    while i < hi - 2
        invariant
            lo + 3 <= hi <= v@.len(),
            lo <= i <= hi - 2,
            strictly_increasing(r@),
            forall|t: u64|
                r@.contains(t) <==> exists|w: int|
                    lo <= w < i && t == #[trigger] window_term(v@, w),
        decreases hi - i,
    {
        let t: u64 = pack_trigram(v[i], v[i + 1], v[i + 2]);
        insert_sorted(&mut r, t);
        i = i + 1;
        assert forall|x: u64|
            r@.contains(x) implies (exists|w: int|
            lo <= w < i && x == #[trigger] window_term(v@, w)) by {
            if x == t {
                assert(t == window_term(v@, i - 1));
            }
        }
        assert forall|w: int| lo <= w < i implies r@.contains(#[trigger] window_term(v@, w)) by {}
    }
    r
}

/// The distinct trigrams of `v`, sorted ascending.
pub fn extract_trigrams(v: &Vec<char>) -> (r: Vec<u64>)
    ensures
        strictly_increasing(r@),
        forall|t: u64| r@.contains(t) <==> trigrams_of(v@).contains(t),
{
    let r = extract_trigrams_range(v, 0, v.len());
    assert(forall|t: u64| r@.contains(t) <==> trigrams_of(v@).contains(t));
    r
}

} // verus!
