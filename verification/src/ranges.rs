//! Highlight ranges: splitting a document's lower-cased text into maximal
//! runs of positions that are (or are not) covered by an occurrence of one
//! of the highlighted words.

use vstd::prelude::*;

verus! {

use crate::text::{contains_at, lower_chars, lower_of, match_at};

/// One run of consecutive characters, all covered by some word occurrence
/// (`is_match`) or none of them.
pub struct MatchRange {
    pub string: Vec<char>,
    pub is_match: bool,
}

/// Position `p` of `h` lies inside some occurrence of `w`.
pub open spec fn word_covers(h: Seq<char>, w: Seq<char>, p: int) -> bool {
    exists|st: int| contains_at(h, w, st) && st <= p < st + w.len()
}

/// Position `p` of `h` lies inside some occurrence of some word.
pub open spec fn covered_by(h: Seq<char>, ws: Seq<Seq<char>>, p: int) -> bool {
    exists|wi: int| 0 <= wi < ws.len() && word_covers(h, #[trigger] ws[wi], p)
}

/// The lower-cased views of the words.
pub open spec fn lowered_words(ws: Seq<String>) -> Seq<Seq<char>> {
    ws.map_values(|w: String| lower_of(w@))
}

/// The ranges' texts, concatenated.
pub open spec fn flat(rs: Seq<MatchRange>) -> Seq<char>
    decreases rs.len(),
{
    if rs.len() == 0 {
        Seq::empty()
    } else {
        flat(rs.drop_last()) + rs.last().string@
    }
}

/// Where range `x` starts within the concatenated text.
pub open spec fn range_start(rs: Seq<MatchRange>, x: int) -> int {
    flat(rs.subrange(0, x)).len() as int
}

/// Each range's flag states exactly whether its positions (within the
/// concatenated text) are covered by some word occurrence.
pub open spec fn ranges_ok(rs: Seq<MatchRange>, hv: Seq<char>, ws: Seq<Seq<char>>) -> bool {
    forall|x: int, p: int|
        #![trigger rs[x], covered_by(hv, ws, p)]
        0 <= x < rs.len() && range_start(rs, x) <= p < range_start(rs, x + 1) ==> rs[x].is_match
            == covered_by(hv, ws, p)
}

/// Marks every position of `covered` that lies inside an occurrence of the
/// (non-empty) word `wl` in `h`.
#[verifier::loop_isolation(false)]
fn mark_word(covered: &mut Vec<bool>, h: &Vec<char>, wl: &Vec<char>)
    requires
        old(covered)@.len() == h@.len(),
        wl@.len() > 0,
    ensures
        final(covered)@.len() == h@.len(),
        forall|p: int|
            0 <= p < h@.len() ==> final(covered)@[p] == (old(covered)@[p] || word_covers(
                h@,
                wl@,
                p,
            )),
{
    let wlen: usize = wl.len();
    let hlen: usize = h.len();
    if wlen > hlen {
        assert(forall|p: int| 0 <= p < h@.len() ==> !word_covers(h@, wl@, p));
        return ;
    }
    let last_start: usize = hlen - wlen;
    let mut st: usize = 0;
    while st <= last_start
        invariant
            st <= last_start + 1,
            covered@.len() == h@.len(),
            forall|p: int|
                0 <= p < h@.len() ==> covered@[p] == (old(covered)@[p] || exists|s0: int|
                    s0 < st && contains_at(h@, wl@, s0) && s0 <= p < s0 + wl@.len()),
        decreases last_start + 1 - st,
    {
        if match_at(h, wl, st) {
            let mut q: usize = st;
            let ghost pre = covered@;
            while q < st + wlen
                invariant
                    st <= q <= st + wlen <= h@.len(),
                    covered@.len() == h@.len(),
                    forall|p: int| 0 <= p < h@.len() && !(st <= p < q) ==> covered@[p] == pre[p],
                    forall|p: int| st <= p < q ==> covered@[p],
                decreases st + wlen - q,
            {
                covered[q] = true;
                q = q + 1;
            }
            proof {
                assert forall|p: int|
                    0 <= p < h@.len() implies covered@[p] == (old(covered)@[p] || exists|s0: int|
                    s0 < st + 1 && contains_at(h@, wl@, s0) && s0 <= p < s0 + wl@.len()) by {
                    if st <= p < st + wl@.len() {
                        assert(contains_at(h@, wl@, st as int) && st <= p < st + wl@.len());
                    } else {
                        assert(covered@[p] == pre[p]);
                    }
                }
            }
        } else {
            assert(forall|p: int|
                0 <= p < h@.len() ==> covered@[p] == (old(covered)@[p] || exists|s0: int|
                    s0 < st + 1 && contains_at(h@, wl@, s0) && s0 <= p < s0 + wl@.len()));
        }
        st = st + 1;
    }
    proof {
        assert forall|p: int|
            0 <= p < h@.len() implies covered@[p] == (old(covered)@[p] || word_covers(
            h@,
            wl@,
            p,
        )) by {
            if word_covers(h@, wl@, p) {
                let s0 = choose|s0: int| contains_at(h@, wl@, s0) && s0 <= p < s0 + wl@.len();
                assert(s0 <= last_start);
            }
        }
    }
}

/// Splits the lower-cased text of `s` into maximal runs of positions that
/// are covered by an occurrence of some lower-cased word — the highlighted
/// stretches — and runs that are not.
#[verifier::loop_isolation(false)]
pub fn find_all_ranges(s: &str, words: &Vec<String>) -> (r: Vec<MatchRange>)
    ensures
        flat(r@) == lower_of(s@),
        forall|j: int| 0 <= j < r@.len() ==> (#[trigger] r@[j]).string@.len() > 0,
        forall|j: int|
            0 < j < r@.len() ==> (#[trigger] r@[j]).is_match != r@[j - 1].is_match,
        ranges_ok(r@, lower_of(s@), lowered_words(words@)),
{
    let h: Vec<char> = lower_chars(s);
    let ghost hv = lower_of(s@);
    let ghost ws = lowered_words(words@);
    let n: usize = h.len();
    let mut covered: Vec<bool> = Vec::new();
    let mut z: usize = 0;
    while z < n
        invariant
            z <= n,
            covered@.len() == z,
            forall|p: int| 0 <= p < z ==> !(#[trigger] covered@[p]),
        decreases n - z,
    {
        covered.push(false);
        z = z + 1;
    }
    let mut wi: usize = 0;
    while wi < words.len()
        invariant
            wi <= words@.len(),
            covered@.len() == n == h@.len(),
            h@ == hv,
            forall|p: int|
                0 <= p < n ==> covered@[p] == exists|k: int|
                    0 <= k < wi && word_covers(hv, #[trigger] ws[k], p),
        decreases words@.len() - wi,
    {
        let wl: Vec<char> = lower_chars(words[wi].as_str());
        assert(wl@ == ws[wi as int]);
        let ghost pre = covered@;
        if wl.len() > 0 {
            mark_word(&mut covered, &h, &wl);
        }
        wi = wi + 1;
        assert forall|p: int|
            0 <= p < n implies covered@[p] == exists|k: int|
            0 <= k < wi && word_covers(hv, #[trigger] ws[k], p) by {
            if covered@[p] {
                if pre[p] {
                    let k = choose|k: int| 0 <= k < wi - 1 && word_covers(hv, #[trigger] ws[k], p);
                    assert(word_covers(hv, ws[k], p));
                } else {
                    assert(word_covers(hv, ws[wi - 1], p));
                }
            } else {
                if exists|k: int| 0 <= k < wi && word_covers(hv, #[trigger] ws[k], p) {
                    let k = choose|k: int| 0 <= k < wi && word_covers(hv, #[trigger] ws[k], p);
                    if k < wi - 1 {
                        assert(pre[p]);
                    } else {
                        if ws[k].len() == 0 {
                            assert(!word_covers(hv, ws[k], p));
                        }
                    }
                    assert(false);
                }
            }
        }
    }
    assert(forall|p: int| 0 <= p < n ==> covered@[p] == covered_by(hv, ws, p));
    // chunk the text into maximal runs of equal coveredness
    let mut r: Vec<MatchRange> = Vec::new();
    let mut j: usize = 0;
    while j < n
        invariant
            j <= n,
            covered@.len() == n == h@.len(),
            h@ == hv,
            forall|p: int| 0 <= p < n ==> covered@[p] == covered_by(hv, ws, p),
            flat(r@) == hv.subrange(0, j as int),
            forall|x: int| 0 <= x < r@.len() ==> (#[trigger] r@[x]).string@.len() > 0,
            forall|x: int| 0 < x < r@.len() ==> (#[trigger] r@[x]).is_match != r@[x - 1].is_match,
            r@.len() > 0 && j < n ==> r@.last().is_match != covered@[j as int],
            ranges_ok(r@, hv, ws),
        decreases n - j,
    {
        let flag: bool = covered[j];
        let start: usize = j;
        let mut k: usize = j;
        while k < n && covered[k] == flag
            invariant
                j <= k <= n,
                covered@.len() == n,
                forall|p: int| j <= p < k ==> covered@[p] == flag,
            decreases n - k,
        {
            k = k + 1;
        }
        let mut run: Vec<char> = Vec::new();
        let mut c: usize = start;
        while c < k
            invariant
                start <= c <= k <= n,
                h@ == hv,
                run@ == hv.subrange(start as int, c as int),
            decreases k - c,
        {
            run.push(h[c]);
            c = c + 1;
            assert(run@ =~= hv.subrange(start as int, c as int));
        }
        let ghost old_r = r@;
        r.push(MatchRange { string: run, is_match: flag });
        j = k;
        proof {
            assert(r@.drop_last() =~= old_r);
            assert(flat(r@) == flat(old_r) + r@.last().string@);
            assert(flat(r@) =~= hv.subrange(0, j as int));
            assert(flat(old_r) == hv.subrange(0, start as int));
            assert(flat(old_r).len() == start);
            assert forall|x: int, p: int|
                #![trigger r@[x], covered_by(hv, ws, p)]
                0 <= x < r@.len() && range_start(r@, x) <= p < range_start(r@, x + 1) implies r@[x].is_match
                == covered_by(hv, ws, p) by {
                if x < r@.len() - 1 {
                    assert(r@.subrange(0, x) =~= old_r.subrange(0, x));
                    assert(r@.subrange(0, x + 1) =~= old_r.subrange(0, x + 1));
                    assert(r@[x] == old_r[x]);
                    assert(range_start(old_r, x) <= p < range_start(old_r, x + 1));
                } else {
                    assert(r@.subrange(0, x) =~= old_r);
                    assert(r@.subrange(0, x + 1) =~= r@);
                    assert(range_start(r@, x) == start);
                    assert(range_start(r@, x + 1) == flat(r@).len());
                    assert(flat(r@).len() == k);
                    assert(start <= p < k);
                    assert(covered@[p] == flag);
                    assert(r@[x].is_match == flag);
                }
            }
            assert(ranges_ok(r@, hv, ws));
            if j < n {
                assert(covered@[j as int] != flag);
            }
        }
    }
    proof {
        assert(flat(r@) =~= hv);
    }
    r
}

} // verus!
