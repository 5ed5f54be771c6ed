//! The probabilistic trigram inverted index: documents are admitted under
//! monotonically increasing keys; each (trigram, key) pair is admitted with
//! a probability that decays geometrically (base 3/5) in the number of
//! documents already seen for that trigram, so very common trigrams are
//! sampled down. Queries return the intersection (or, per term, the union)
//! of posting lists; a query with any term shorter than a trigram falls
//! back to the universal candidate set.

use vstd::prelude::*;

verus! {

use crate::keys::{all_keys_below, intersect_keys, strictly_increasing, union_keys};
use crate::text::{is_token_at, split_terms};
use crate::trigram::{extract_trigrams, extract_trigrams_range, trigrams_of, window_term};

/// One posting: a packed trigram, the number of documents seen for it, the
/// current admission bar (a probability scaled to the full 64-bit range),
/// and the keys admitted for it, ascending.
struct Posting {
    tri: u64,
    count: u64,
    bar: u64,
    keys: Vec<u64>,
}

/// The in-memory inverted index.
pub struct SearchIndex {
    postings: Vec<Posting>,
    next_key: u64,
}

/// Relies on `rand::random::<u64>`: nothing is assumed of the sampled word.
#[verifier::external_body]
fn sample_u64() -> u64 {
    rand::random::<u64>()
}

/// A term of the query `q` under the given mode: the whole of `q` when
/// exact, a whitespace-separated token otherwise.
pub open spec fn spec_term_at(exact: bool, q: Seq<char>, i: int, j: int) -> bool {
    if exact {
        i == 0 && j == q.len() && q.len() > 0
    } else {
        is_token_at(q, i, j)
    }
}

/// The query has at least one term.
pub open spec fn has_term(exact: bool, q: Seq<char>) -> bool {
    exists|i: int, j: int| spec_term_at(exact, q, i, j)
}

/// Some term of the query is shorter than a trigram.
pub open spec fn has_short_term(exact: bool, q: Seq<char>) -> bool {
    exists|i: int, j: int| spec_term_at(exact, q, i, j) && j - i < 3
}

/// The query cannot constrain the candidate set: it either has no term at
/// all or some term too short to contain a trigram. Such a query returns
/// the universal candidate set.
pub open spec fn universal_query(exact: bool, q: Seq<char>) -> bool {
    !has_term(exact, q) || has_short_term(exact, q)
}

impl SearchIndex {
    /// The key the next admitted document will receive.
    pub closed spec fn next(self) -> u64 {
        self.next_key
    }

    /// Key `k` stands in the posting list of trigram `t`.
    pub closed spec fn posting_has(self, t: u64, k: u64) -> bool {
        exists|p: int|
            0 <= p < self.postings@.len() && (#[trigger] self.postings@[p]).tri == t
                && self.postings@[p].keys@.contains(k)
    }

    /// Structural invariant: postings are sorted strictly by trigram, and
    /// each posting list is ascending and bounded by the next key.
    pub closed spec fn wf(self) -> bool {
        &&& forall|p: int, q: int|
            0 <= p < q < self.postings@.len() ==> (#[trigger] self.postings@[p]).tri < (
            #[trigger] self.postings@[q]).tri
        &&& forall|p: int|
            0 <= p < self.postings@.len() ==> strictly_increasing(
                (#[trigger] self.postings@[p]).keys@,
            )
        &&& forall|p: int, n: int|
            0 <= p < self.postings@.len() && 0 <= n < self.postings@[p].keys@.len() ==> #[trigger] (
            self.postings@[p].keys@[n]) < self.next_key
    }

    /// Two indexes with equal posting tables agree on `posting_has`.
    proof fn lemma_same_postings(a: SearchIndex, b: SearchIndex)
        requires
            a.postings@ == b.postings@,
        ensures
            forall|t: u64, k: u64| a.posting_has(t, k) == b.posting_has(t, k),
    {
        assert forall|t: u64, k: u64| a.posting_has(t, k) == b.posting_has(t, k) by {
            if a.posting_has(t, k) {
                let p = choose|p: int|
                    0 <= p < a.postings@.len() && (#[trigger] a.postings@[p]).tri == t
                        && a.postings@[p].keys@.contains(k);
                assert((b.postings@[p]).tri == t && b.postings@[p].keys@.contains(k));
            }
            if b.posting_has(t, k) {
                let p = choose|p: int|
                    0 <= p < b.postings@.len() && (#[trigger] b.postings@[p]).tri == t
                        && b.postings@[p].keys@.contains(k);
                assert((a.postings@[p]).tri == t && a.postings@[p].keys@.contains(k));
            }
        }
    }

    /// The posting lists of `self` only grew into those of `other`, and
    /// only by `key`, only for trigrams in `tris`.
    pub open spec fn grew_to(self, other: SearchIndex, key: u64, tris: Set<u64>) -> bool {
        &&& forall|t: u64, k: u64| self.posting_has(t, k) ==> #[trigger] other.posting_has(t, k)
        &&& forall|t: u64, k: u64|
            #[trigger] other.posting_has(t, k) ==> self.posting_has(t, k) || (k == key
                && tris.contains(t))
    }

    /// Key `k` lies in every posting list reached by some trigram of some
    /// term of the query: the index cannot rule it out.
    pub open spec fn candidate(self, exact: bool, q: Seq<char>, k: u64) -> bool {
        forall|i: int, j: int, w: int|
            #![trigger spec_term_at(exact, q, i, j), window_term(q, w)]
            spec_term_at(exact, q, i, j) && i <= w && w + 3 <= j ==> self.posting_has(
                window_term(q, w),
                k,
            )
    }

    /// Key `k` survives some single term of the tokenised query: that term
    /// is short, or every one of its trigram posting lists holds `k`.
    pub open spec fn or_candidate(self, q: Seq<char>, k: u64) -> bool {
        exists|i: int, j: int|
            #![trigger is_token_at(q, i, j)]
            is_token_at(q, i, j) && (j - i < 3 || forall|w: int|
                i <= w && w + 3 <= j ==> self.posting_has(#[trigger] window_term(q, w), k))
    }

    /// A fresh, empty index; document keys start at zero.
    pub fn new() -> (r: SearchIndex)
        ensures
            r.wf(),
            r.next() == 0,
            forall|t: u64, k: u64| !r.posting_has(t, k),
    {
        SearchIndex { postings: Vec::new(), next_key: 0 }
    }

    /// Drops every posting and resets the key counter to zero.
    pub fn clear(&mut self)
        ensures
            final(self).wf(),
            final(self).next() == 0,
            forall|t: u64, k: u64| !final(self).posting_has(t, k),
    {
        self.postings = Vec::new();
        self.next_key = 0;
    }

    /// The number of documents admitted since the last clear.
    pub fn get_size(&self) -> (n: usize)
        requires
            self.next() <= usize::MAX,
        ensures
            n == self.next(),
    {
        self.next_key as usize
    }

    /// Position of the posting for trigram `t`, if one exists.
    #[verifier::loop_isolation(false)]
    fn posting_pos(&self, t: u64) -> (r: Option<usize>)
        ensures
            match r {
                Some(p) => p < self.postings@.len() && self.postings@[p as int].tri == t,
                None => forall|p: int|
                    0 <= p < self.postings@.len() ==> (#[trigger] self.postings@[p]).tri != t,
            },
    {
        let mut p: usize = 0;
        while p < self.postings.len()
            invariant
                p <= self.postings@.len(),
                forall|m: int| 0 <= m < p ==> (#[trigger] self.postings@[m]).tri != t,
            decreases self.postings@.len() - p,
        {
            if self.postings[p].tri == t {
                return Some(p);
            }
            p = p + 1;
        }
        None
    }

    /// Position of the posting for `t`, creating a fresh empty posting in
    /// sorted position if none exists. Leaves the posting lists unchanged.
    #[verifier::loop_isolation(false)]
    fn find_or_insert(&mut self, t: u64) -> (idx: usize)
        requires
            old(self).wf(),
        ensures
            final(self).wf(),
            final(self).next() == old(self).next(),
            idx < final(self).postings@.len(),
            final(self).postings@[idx as int].tri == t,
            forall|t2: u64, k: u64|
                final(self).posting_has(t2, k) <==> old(self).posting_has(t2, k),
    {
        let ghost pre = *self;
        let mut pos: usize = 0;
        while pos < self.postings.len() && self.postings[pos].tri < t
            invariant
                *self == pre,
                pos <= self.postings@.len(),
                forall|m: int| 0 <= m < pos ==> (#[trigger] self.postings@[m]).tri < t,
            decreases self.postings@.len() - pos,
        {
            pos = pos + 1;
        }
        if pos < self.postings.len() && self.postings[pos].tri == t {
            return pos;
        }
        let fresh = Posting { tri: t, count: 0, bar: u64::MAX, keys: Vec::new() };
        let ghost old_ps = self.postings@;
        self.postings.insert(pos, fresh);
        assert forall|p: int, q: int|
            0 <= p < q < self.postings@.len() implies (#[trigger] self.postings@[p]).tri < (
        #[trigger] self.postings@[q]).tri by {
            if q < pos {
            } else if p < pos && q == pos {
                assert(self.postings@[p] == old_ps[p]);
            } else if p < pos && q > pos {
                assert(self.postings@[p] == old_ps[p] && self.postings@[q] == old_ps[q - 1]);
            } else if p == pos {
                assert(self.postings@[q] == old_ps[q - 1]);
                assert(old_ps[q - 1].tri != t && !(old_ps[q - 1].tri < t));
            } else {
                assert(self.postings@[p] == old_ps[p - 1] && self.postings@[q] == old_ps[q - 1]);
            }
        }
        assert forall|t2: u64, k: u64|
            final(self).posting_has(t2, k) implies old(self).posting_has(t2, k) by {
            let p = choose|p: int|
                0 <= p < self.postings@.len() && (#[trigger] self.postings@[p]).tri == t2
                    && self.postings@[p].keys@.contains(k);
            if p < pos {
                assert(old_ps[p].tri == t2 && old_ps[p].keys@.contains(k));
            } else if p > pos {
                assert(old_ps[p - 1].tri == t2 && old_ps[p - 1].keys@.contains(k));
            }
        }
        assert forall|t2: u64, k: u64|
            old(self).posting_has(t2, k) implies final(self).posting_has(t2, k) by {
            let p = choose|p: int|
                0 <= p < old_ps.len() && (#[trigger] old_ps[p]).tri == t2
                    && old_ps[p].keys@.contains(k);
            if p < pos {
                assert(self.postings@[p].tri == t2 && self.postings@[p].keys@.contains(k));
            } else {
                assert(self.postings@[p + 1].tri == t2 && self.postings@[p + 1].keys@.contains(k));
            }
        }
        pos
    }

    /// Admits a document: assigns it the next key and, for each distinct
    /// trigram of the (lower-cased) document text, admits the (trigram,
    /// key) pair with the trigram's current sampling probability, which
    /// then decays by a factor of 3/5.
    #[verifier::loop_isolation(false)]
    pub fn add(&mut self, doc_lower: &Vec<char>) -> (key: u64)
        requires
            old(self).wf(),
            old(self).next() < u64::MAX,
        ensures
            final(self).wf(),
            key == old(self).next(),
            final(self).next() == key + 1,
            old(self).grew_to(*final(self), key, trigrams_of(doc_lower@)),
    {
        let key: u64 = self.next_key;
        self.next_key = key + 1;
        assert(self.wf());
        proof {
            SearchIndex::lemma_same_postings(*old(self), *self);
        }
        let tris = extract_trigrams(doc_lower);
        let ghost pre = *self;
        let mut m: usize = 0;
        while m < tris.len()
            invariant
                self.wf(),
                self.next() == pre.next() == key + 1,
                forall|t2: u64, k: u64| pre.posting_has(t2, k) ==> self.posting_has(t2, k),
                forall|t2: u64, k: u64|
                    self.posting_has(t2, k) ==> pre.posting_has(t2, k) || (k == key
                        && tris@.contains(t2)),
            decreases tris@.len() - m,
        {
            let t: u64 = tris[m];
            let idx = self.find_or_insert(t);
            let ghost mid = *self;
            let sample: u64 = sample_u64();
            let p = &mut self.postings[idx];
            let accepted: bool = p.count == 0 || sample < p.bar;
            if accepted {
                // each key is admitted at most once per posting, so the
                // list stays strictly increasing
                let klen: usize = p.keys.len();
                if klen == 0 {
                    p.keys.push(key);
                } else {
                    let last: u64 = p.keys[klen - 1];
                    if last < key {
                        p.keys.push(key);
                    }
                }
            }
            // the admission counter saturates rather than wrapping
            if p.count < u64::MAX {
                p.count = p.count + 1;
            }
            let nb: u128 = (p.bar as u128) * 3 / 5;
            assert(nb <= u64::MAX as u128) by (nonlinear_arith)
                requires
                    nb == (p.bar as u128) * 3 / 5,
                    p.bar <= u64::MAX,
            ;
            p.bar = nb as u64;
            proof {
                let ps = self.postings@;
                let mps = mid.postings@;
                assert(forall|w: int| 0 <= w < ps.len() && w != idx ==> ps[w] == mps[w]);
                assert(ps[idx as int].tri == mps[idx as int].tri);
                assert(ps.len() == mps.len());
                let okeys = mps[idx as int].keys@;
                let nkeys = ps[idx as int].keys@;
                let pushed = nkeys.len() == okeys.len() + 1;
                assert(pushed ==> nkeys == okeys.push(key));
                assert(!pushed ==> nkeys == okeys);
                assert(self.wf()) by {
                    assert(forall|w: int, n: int|
                        0 <= w < ps.len() && 0 <= n < ps[w].keys@.len() && w != idx ==> #[trigger] (
                        ps[w].keys@[n]) < self.next_key);
                    if pushed {
                        assert(forall|n: int| 0 <= n < okeys.len() ==> nkeys[n] == okeys[n]);
                        assert(nkeys[nkeys.len() - 1] == key);
                        assert(strictly_increasing(nkeys)) by {
                            assert(forall|n: int|
                                0 <= n < okeys.len() - 1 ==> #[trigger] (okeys[n]) < okeys[okeys.len()
                                    - 1]);
                        }
                    }
                }
                assert forall|t2: u64, k: u64|
                    mid.posting_has(t2, k) implies self.posting_has(t2, k) by {
                    let w = choose|w: int|
                        0 <= w < mps.len() && (#[trigger] mps[w]).tri == t2
                            && mps[w].keys@.contains(k);
                    if w == idx {
                        let n = choose|n: int| 0 <= n < okeys.len() && okeys[n] == k;
                        assert(nkeys[n] == k);
                        assert(nkeys.contains(k));
                    } else {
                        assert(ps[w].tri == t2 && ps[w].keys@.contains(k));
                    }
                }
                assert forall|t2: u64, k: u64|
                    self.posting_has(t2, k) implies mid.posting_has(t2, k) || (k == key
                    && tris@.contains(t2)) by {
                    let w = choose|w: int|
                        0 <= w < ps.len() && (#[trigger] ps[w]).tri == t2 && ps[w].keys@.contains(
                            k,
                        );
                    if w == idx {
                        let n = choose|n: int| 0 <= n < nkeys.len() && nkeys[n] == k;
                        if n < okeys.len() {
                            assert(okeys[n] == k);
                            assert(okeys.contains(k));
                            assert(mps[w].tri == t2);
                        } else {
                            assert(k == key);
                            assert(tris@.contains(t2)) by {
                                assert(tris@[m as int] == t2);
                            }
                        }
                    } else {
                        assert(mps[w].tri == t2 && mps[w].keys@.contains(k));
                    }
                }
            }
            m = m + 1;
        }
        proof {
            assert forall|t2: u64, k: u64|
                self.posting_has(t2, k) implies pre.posting_has(t2, k) || (k == key && trigrams_of(
                doc_lower@,
            ).contains(t2)) by {}
        }
        key
    }

    /// The candidate keys for a query, ascending: the intersection of the
    /// posting lists of every trigram of every term, or every key the
    /// index has assigned when the query cannot constrain the candidates.
    #[verifier::loop_isolation(false)]
    pub fn search(&self, q_lower: &Vec<char>, exact: bool) -> (r: Vec<u64>)
        requires
            self.wf(),
            self.next() <= usize::MAX,
        ensures
            strictly_increasing(r@),
            forall|k: u64| r@.contains(k) ==> k < self.next(),
            universal_query(exact, q_lower@) ==> forall|k: u64| r@.contains(k) <==> k < self.next(),
            universal_query(exact, q_lower@) ==> r@.len() == self.next() && forall|k: int|
                0 <= k < r@.len() ==> r@[k] == k,
            !universal_query(exact, q_lower@) ==> forall|k: u64|
                r@.contains(k) <==> k < self.next() && self.candidate(exact, q_lower@, k),
    {
        let ghost q = q_lower@;
        let n: usize = q_lower.len();
        let mut terms: Vec<(usize, usize)> = Vec::new();
        if exact {
            if n > 0 {
                terms.push((0, n));
            }
        } else {
            terms = split_terms(q_lower);
        }
        proof {
            assert forall|i: int, j: int|
                spec_term_at(exact, q, i, j) implies exists|m: int|
                0 <= m < terms@.len() && (#[trigger] terms@[m]).0 == i && terms@[m].1 == j by {
                if exact {
                    assert(terms@[0].0 == i && terms@[0].1 == j);
                }
            }
            assert(forall|m: int|
                0 <= m < terms@.len() ==> spec_term_at(
                    exact,
                    q,
                    (#[trigger] terms@[m]).0 as int,
                    terms@[m].1 as int,
                ));
        }
        // a query with no term, or any term under three characters, cannot
        // constrain the candidates
        let mut universal: bool = terms.len() == 0;
        proof {
            if terms@.len() == 0 {
                assert(!has_term(exact, q)) by {
                    if has_term(exact, q) {
                        let (i, j) = choose|i: int, j: int| spec_term_at(exact, q, i, j);
                    }
                }
            } else {
                assert(has_term(exact, q)) by {
                    assert(spec_term_at(exact, q, terms@[0].0 as int, terms@[0].1 as int));
                }
            }
        }
        let mut ti: usize = 0;
        while ti < terms.len()
            invariant
                ti <= terms@.len(),
                universal ==> universal_query(exact, q),
                !universal ==> terms@.len() > 0,
                !universal ==> forall|m: int|
                    0 <= m < ti ==> (#[trigger] terms@[m]).1 - terms@[m].0 >= 3,
            decreases terms@.len() - ti,
        {
            let (s, e) = (terms[ti].0, terms[ti].1);
            assert(s < e) by {
                assert(spec_term_at(exact, q, s as int, e as int));
            }
            if e - s < 3 {
                proof {
                    assert(spec_term_at(exact, q, s as int, e as int));
                    assert(has_short_term(exact, q));
                }
                universal = true;
            }
            ti = ti + 1;
        }
        if universal {
            let r = all_keys_below(self.next_key);
            return r;
        }
        assert(!universal_query(exact, q)) by {
            assert(has_term(exact, q));
            if has_short_term(exact, q) {
                let (i, j) = choose|i: int, j: int| spec_term_at(exact, q, i, j) && j - i < 3;
                let m = choose|m: int|
                    0 <= m < terms@.len() && (#[trigger] terms@[m]).0 == i && terms@[m].1 == j;
                assert(terms@[m].1 - terms@[m].0 >= 3);
                assert(false);
            }
        }
        // start from every assigned key and intersect with each posting list
        let mut acc: Vec<u64> = all_keys_below(self.next_key);
        let mut t_done: usize = 0;
        while t_done < terms.len()
            invariant
                t_done <= terms@.len(),
                strictly_increasing(acc@),
                forall|k: u64|
                    acc@.contains(k) <==> k < self.next() && forall|m: int, w: int|
                        0 <= m < t_done && (#[trigger] terms@[m]).0 <= w && w + 3 <= terms@[m].1
                            ==> self.posting_has(#[trigger] window_term(q, w), k),
            decreases terms@.len() - t_done,
        {
            let (s, e) = (terms[t_done].0, terms[t_done].1);
            assert(e <= q.len()) by {
                assert(spec_term_at(exact, q, s as int, e as int));
            }
            let tris = extract_trigrams_range(q_lower, s, e);
            let ghost acc0 = acc@;
            let mut d: usize = 0;
            while d < tris.len()
                invariant
                    d <= tris@.len(),
                    strictly_increasing(acc@),
                    forall|k: u64|
                        acc@.contains(k) <==> acc0.contains(k) && forall|x: int|
                            0 <= x < d ==> self.posting_has(#[trigger] tris@[x], k),
                decreases tris@.len() - d,
            {
                let t: u64 = tris[d];
                let ghost acc1 = acc@;
                match self.posting_pos(t) {
                    Some(p) => {
                        acc = intersect_keys(&acc, &self.postings[p].keys);
                        assert forall|k: u64|
                            acc1.contains(k) && self.posting_has(t, k) implies acc@.contains(
                            k,
                        ) by {
                            let w = choose|w: int|
                                0 <= w < self.postings@.len() && (#[trigger] self.postings@[w]).tri
                                    == t && self.postings@[w].keys@.contains(k);
                            assert(w == p) by {
                                if w < p {
                                    assert(self.postings@[w].tri < self.postings@[p as int].tri);
                                }
                                if w > p {
                                    assert(self.postings@[p as int].tri < self.postings@[w].tri);
                                }
                            }
                        }
                    },
                    None => {
                        acc = Vec::new();
                        assert forall|k: u64| !self.posting_has(t, k) by {
                            if self.posting_has(t, k) {
                                let w = choose|w: int|
                                    0 <= w < self.postings@.len() && (
                                    #[trigger] self.postings@[w]).tri == t
                                        && self.postings@[w].keys@.contains(k);
                            }
                        }
                    },
                }
                d = d + 1;
                assert forall|k: u64|
                    acc@.contains(k) implies acc1.contains(k) && forall|x: int|
                    0 <= x < d ==> self.posting_has(#[trigger] tris@[x], k) by {
                    assert(acc1.contains(k) ==> acc0.contains(k));
                }
            }
            // every window of this term has its trigram among `tris`
            t_done = t_done + 1;
            assert forall|k: u64|
                acc@.contains(k) implies (k < self.next() && forall|m: int, w: int|
                0 <= m < t_done && (#[trigger] terms@[m]).0 <= w && w + 3 <= terms@[m].1
                    ==> self.posting_has(#[trigger] window_term(q, w), k)) by {
                assert(acc0.contains(k));
                assert forall|m: int, w: int|
                    0 <= m < t_done && (#[trigger] terms@[m]).0 <= w && w + 3 <= terms@[m].1
                        implies self.posting_has(#[trigger] window_term(q, w), k) by {
                    if m == t_done - 1 {
                        assert(tris@.contains(window_term(q, w)));
                        let x = choose|x: int| 0 <= x < tris@.len() && tris@[x] == window_term(q, w);
                    }
                }
            }
            assert forall|k: u64|
                (k < self.next() && forall|m: int, w: int|
                    0 <= m < t_done && (#[trigger] terms@[m]).0 <= w && w + 3 <= terms@[m].1
                        ==> self.posting_has(#[trigger] window_term(q, w), k)) implies acc@.contains(
                k,
            ) by {
                assert(acc0.contains(k));
                assert forall|x: int| 0 <= x < tris@.len() implies self.posting_has(
                    #[trigger] tris@[x],
                    k,
                ) by {
                    assert(tris@.contains(tris@[x]));
                    let w = choose|w: int|
                        s <= w && w + 3 <= e && tris@[x] == #[trigger] window_term(q, w);
                    assert(terms@[t_done - 1].0 <= w && w + 3 <= terms@[t_done - 1].1);
                }
            }
        }
        proof {
            assert forall|k: u64|
                acc@.contains(k) implies k < self.next() && self.candidate(exact, q, k) by {
                assert forall|i: int, j: int, w: int|
                    spec_term_at(exact, q, i, j) && i <= w && w + 3 <= j implies self.posting_has(
                    window_term(q, w),
                    k,
                ) by {
                    let m = choose|m: int|
                        0 <= m < terms@.len() && (#[trigger] terms@[m]).0 == i && terms@[m].1 == j;
                }
            }
            assert forall|k: u64|
                k < self.next() && self.candidate(exact, q, k) implies acc@.contains(k) by {
                assert forall|m: int, w: int|
                    0 <= m < terms@.len() && (#[trigger] terms@[m]).0 <= w && w + 3 <= terms@[m].1
                        implies self.posting_has(#[trigger] window_term(q, w), k) by {
                    assert(spec_term_at(exact, q, terms@[m].0 as int, terms@[m].1 as int));
                }
            }
        }
        acc
    }

    /// The union, over the whitespace-separated terms of the query, of each
    /// term's candidate set, ascending. An empty query yields no keys.
    #[verifier::loop_isolation(false)]
    pub fn search_or(&self, q_lower: &Vec<char>) -> (r: Vec<u64>)
        requires
            self.wf(),
            self.next() <= usize::MAX,
        ensures
            strictly_increasing(r@),
            forall|k: u64| r@.contains(k) <==> k < self.next() && self.or_candidate(q_lower@, k),
    {
        let ghost q = q_lower@;
        let terms = split_terms(q_lower);
        let mut acc: Vec<u64> = Vec::new();
        let mut ti: usize = 0;
        while ti < terms.len()
            invariant
                ti <= terms@.len(),
                strictly_increasing(acc@),
                forall|k: u64|
                    acc@.contains(k) <==> k < self.next() && exists|m: int|
                        0 <= m < ti && ((#[trigger] terms@[m]).1 - terms@[m].0 < 3 || forall|w: int|
                            terms@[m].0 <= w && w + 3 <= terms@[m].1 ==> self.posting_has(
                                #[trigger] window_term(q, w),
                                k,
                            )),
            decreases terms@.len() - ti,
        {
            let (s, e) = (terms[ti].0, terms[ti].1);
            assert(is_token_at(q, s as int, e as int));
            let term_keys: Vec<u64> = if e - s < 3 {
                all_keys_below(self.next_key)
            } else {
                let tris = extract_trigrams_range(q_lower, s, e);
                let mut cur: Vec<u64> = all_keys_below(self.next_key);
                let mut d: usize = 0;
                while d < tris.len()
                    invariant
                        d <= tris@.len(),
                        strictly_increasing(cur@),
                        forall|k: u64|
                            cur@.contains(k) <==> k < self.next() && forall|x: int|
                                0 <= x < d ==> self.posting_has(#[trigger] tris@[x], k),
                    decreases tris@.len() - d,
                {
                    let t: u64 = tris[d];
                    let ghost cur1 = cur@;
                    match self.posting_pos(t) {
                        Some(p) => {
                            cur = intersect_keys(&cur, &self.postings[p].keys);
                            assert forall|k: u64|
                                cur1.contains(k) && self.posting_has(t, k) implies cur@.contains(
                                k,
                            ) by {
                                let w = choose|w: int|
                                    0 <= w < self.postings@.len() && (
                                    #[trigger] self.postings@[w]).tri == t
                                        && self.postings@[w].keys@.contains(k);
                                assert(w == p) by {
                                    if w < p {
                                        assert(self.postings@[w].tri
                                            < self.postings@[p as int].tri);
                                    }
                                    if w > p {
                                        assert(self.postings@[p as int].tri
                                            < self.postings@[w].tri);
                                    }
                                }
                            }
                        },
                        None => {
                            cur = Vec::new();
                            assert forall|k: u64| !self.posting_has(t, k) by {
                                if self.posting_has(t, k) {
                                    let w = choose|w: int|
                                        0 <= w < self.postings@.len() && (
                                        #[trigger] self.postings@[w]).tri == t
                                            && self.postings@[w].keys@.contains(k);
                                }
                            }
                        },
                    }
                    d = d + 1;
                }
                proof {
                    assert forall|k: u64|
                        cur@.contains(k) implies (k < self.next() && forall|w: int|
                        s <= w && w + 3 <= e ==> self.posting_has(
                            #[trigger] window_term(q, w),
                            k,
                        )) by {
                        assert forall|w: int|
                            s <= w && w + 3 <= e implies self.posting_has(
                            #[trigger] window_term(q, w),
                            k,
                        ) by {
                            assert(tris@.contains(window_term(q, w)));
                            let x = choose|x: int|
                                0 <= x < tris@.len() && tris@[x] == window_term(q, w);
                        }
                    }
                    assert forall|k: u64|
                        (k < self.next() && forall|w: int|
                            s <= w && w + 3 <= e ==> self.posting_has(
                                #[trigger] window_term(q, w),
                                k,
                            )) implies cur@.contains(k) by {
                        assert forall|x: int| 0 <= x < tris@.len() implies self.posting_has(
                            #[trigger] tris@[x],
                            k,
                        ) by {
                            assert(tris@.contains(tris@[x]));
                            let w = choose|w: int|
                                s <= w && w + 3 <= e && tris@[x] == #[trigger] window_term(q, w);
                        }
                    }
                }
                cur
            };
            let ghost accp = acc@;
            acc = union_keys(&acc, &term_keys);
            ti = ti + 1;
            assert forall|k: u64|
                acc@.contains(k) implies (k < self.next() && exists|m: int|
                0 <= m < ti && ((#[trigger] terms@[m]).1 - terms@[m].0 < 3 || forall|w: int|
                    terms@[m].0 <= w && w + 3 <= terms@[m].1 ==> self.posting_has(
                        #[trigger] window_term(q, w),
                        k,
                    ))) by {
                if accp.contains(k) {
                    let m = choose|m: int|
                        0 <= m < ti - 1 && ((#[trigger] terms@[m]).1 - terms@[m].0 < 3 || forall|
                            w: int,
                        |
                            terms@[m].0 <= w && w + 3 <= terms@[m].1 ==> self.posting_has(
                                #[trigger] window_term(q, w),
                                k,
                            ));
                } else {
                    assert(term_keys@.contains(k));
                    assert(terms@[ti - 1].0 == s && terms@[ti - 1].1 == e);
                }
            }
            assert forall|k: u64|
                (k < self.next() && exists|m: int|
                    0 <= m < ti && ((#[trigger] terms@[m]).1 - terms@[m].0 < 3 || forall|w: int|
                        terms@[m].0 <= w && w + 3 <= terms@[m].1 ==> self.posting_has(
                            #[trigger] window_term(q, w),
                            k,
                        ))) implies acc@.contains(k) by {
                let m = choose|m: int|
                    0 <= m < ti && ((#[trigger] terms@[m]).1 - terms@[m].0 < 3 || forall|w: int|
                        terms@[m].0 <= w && w + 3 <= terms@[m].1 ==> self.posting_has(
                            #[trigger] window_term(q, w),
                            k,
                        ));
                if m < ti - 1 {
                    assert(accp.contains(k));
                } else {
                    assert(term_keys@.contains(k));
                }
            }
        }
        proof {
            assert forall|k: u64|
                acc@.contains(k) implies k < self.next() && self.or_candidate(q, k) by {
                let m = choose|m: int|
                    0 <= m < terms@.len() && ((#[trigger] terms@[m]).1 - terms@[m].0 < 3 || forall|
                        w: int,
                    |
                        terms@[m].0 <= w && w + 3 <= terms@[m].1 ==> self.posting_has(
                            #[trigger] window_term(q, w),
                            k,
                        ));
                assert(is_token_at(q, terms@[m].0 as int, terms@[m].1 as int));
            }
            assert forall|k: u64|
                k < self.next() && self.or_candidate(q, k) implies acc@.contains(k) by {
                let (i, j) = choose|i: int, j: int|
                    #![trigger is_token_at(q, i, j)]
                    is_token_at(q, i, j) && (j - i < 3 || forall|w: int|
                        i <= w && w + 3 <= j ==> self.posting_has(#[trigger] window_term(q, w), k));
                let m = choose|m: int|
                    0 <= m < terms@.len() && (#[trigger] terms@[m]).0 == i && terms@[m].1 == j;
            }
        }
        acc
    }
}

/// A persistable posting table is sorted strictly by trigram, with each
/// posting list ascending and bounded by the next key.
pub open spec fn index_parts_wf(ps: Seq<(u64, u64, u64, Vec<u64>)>, next: u64) -> bool {
    &&& forall|a: int, b: int|
        0 <= a < b < ps.len() ==> (#[trigger] ps[a]).0 < (#[trigger] ps[b]).0
    &&& forall|a: int| 0 <= a < ps.len() ==> strictly_increasing((#[trigger] ps[a]).3@)
    &&& forall|a: int, n: int|
        0 <= a < ps.len() && 0 <= n < ps[a].3@.len() ==> #[trigger] (ps[a].3@[n]) < next
}

/// Key `k` stands in the posting list of `t` within a posting table.
pub open spec fn parts_posting_has(ps: Seq<(u64, u64, u64, Vec<u64>)>, t: u64, k: u64) -> bool {
    exists|a: int| 0 <= a < ps.len() && (#[trigger] ps[a]).0 == t && ps[a].3@.contains(k)
}

impl SearchIndex {
    /// The index as plain values a host can persist: one (trigram, count,
    /// bar, keys) row per posting, plus the next key.
    #[verifier::loop_isolation(false)]
    pub fn to_parts(&self) -> (r: (Vec<(u64, u64, u64, Vec<u64>)>, u64))
        requires
            self.wf(),
        ensures
            index_parts_wf(r.0@, r.1),
            r.1 == self.next(),
            forall|t: u64, k: u64| parts_posting_has(r.0@, t, k) <==> self.posting_has(t, k),
    {
        let mut rows: Vec<(u64, u64, u64, Vec<u64>)> = Vec::new();
        let mut a: usize = 0;
        while a < self.postings.len()
            invariant
                a <= self.postings@.len(),
                rows@.len() == a,
                forall|x: int|
                    0 <= x < a ==> (#[trigger] rows@[x]).0 == self.postings@[x].tri && rows@[x].1
                        == self.postings@[x].count && rows@[x].2 == self.postings@[x].bar
                        && rows@[x].3@ == self.postings@[x].keys@,
            decreases self.postings@.len() - a,
        {
            let p = &self.postings[a];
            let row = (p.tri, p.count, p.bar, crate::keys::copy_keys(&p.keys));
            rows.push(row);
            a = a + 1;
        }
        proof {
            assert forall|t: u64, k: u64|
                parts_posting_has(rows@, t, k) implies self.posting_has(t, k) by {
                let x = choose|x: int|
                    0 <= x < rows@.len() && (#[trigger] rows@[x]).0 == t && rows@[x].3@.contains(k);
                assert(self.postings@[x].tri == t && self.postings@[x].keys@.contains(k));
            }
            assert forall|t: u64, k: u64|
                self.posting_has(t, k) implies parts_posting_has(rows@, t, k) by {
                let x = choose|x: int|
                    0 <= x < self.postings@.len() && (#[trigger] self.postings@[x]).tri == t
                        && self.postings@[x].keys@.contains(k);
                assert((rows@[x]).0 == t && rows@[x].3@.contains(k));
            }
        }
        (rows, self.next_key)
    }

    /// Rebuilds an index from a persisted posting table, validating its
    /// ordering and bounds; `None` when the table is not well-formed.
    #[verifier::loop_isolation(false)]
    pub fn from_parts(rows: &Vec<(u64, u64, u64, Vec<u64>)>, next: u64) -> (r: Option<SearchIndex>)
        ensures
            match r {
                Some(idx) => idx.wf() && idx.next() == next && forall|t: u64, k: u64|
                    idx.posting_has(t, k) <==> parts_posting_has(rows@, t, k),
                None => !index_parts_wf(rows@, next),
            },
    {
        let mut postings: Vec<Posting> = Vec::new();
        let mut a: usize = 0;
        while a < rows.len()
            invariant
                a <= rows@.len(),
                postings@.len() == a,
                forall|x: int|
                    0 <= x < a ==> (#[trigger] postings@[x]).tri == rows@[x].0 && postings@[x].count
                        == rows@[x].1 && postings@[x].bar == rows@[x].2 && postings@[x].keys@
                        == rows@[x].3@,
                forall|x: int, y: int|
                    0 <= x < y < a ==> (#[trigger] rows@[x]).0 < (#[trigger] rows@[y]).0,
                forall|x: int| 0 <= x < a ==> strictly_increasing((#[trigger] rows@[x]).3@),
                forall|x: int, n: int|
                    0 <= x < a && 0 <= n < rows@[x].3@.len() ==> #[trigger] (rows@[x].3@[n]) < next,
            decreases rows@.len() - a,
        {
            let row = &rows[a];
            if a > 0 {
                let prev_tri: u64 = postings[a - 1].tri;
                if !(prev_tri < row.0) {
                    assert(!index_parts_wf(rows@, next)) by {
                        assert((rows@[a - 1]).0 == prev_tri);
                    }
                    return None;
                }
            }
            let keys = &row.3;
            let mut n: usize = 0;
            while n < keys.len()
                invariant
                    n <= keys@.len(),
                    keys@ == rows@[a as int].3@,
                    a < rows@.len(),
                    forall|m: int| 0 <= m < n ==> #[trigger] (keys@[m]) < next,
                    forall|m1: int, m2: int| 0 <= m1 < m2 < n ==> keys@[m1] < keys@[m2],
                decreases keys@.len() - n,
            {
                if !(keys[n] < next) {
                    assert(!index_parts_wf(rows@, next)) by {
                        assert((rows@[a as int]).3@[n as int] == keys@[n as int]);
                    }
                    return None;
                }
                if n > 0 && !(keys[n - 1] < keys[n]) {
                    assert(!index_parts_wf(rows@, next)) by {
                        assert(!strictly_increasing((rows@[a as int]).3@));
                    }
                    return None;
                }
                n = n + 1;
            }
            assert(strictly_increasing(keys@));
            postings.push(
                Posting { tri: row.0, count: row.1, bar: row.2, keys: crate::keys::copy_keys(keys) },
            );
            a = a + 1;
            proof {
                assert forall|x: int, y: int|
                    0 <= x < y < a implies (#[trigger] rows@[x]).0 < (#[trigger] rows@[y]).0 by {
                    if y == a - 1 && x < a - 2 {
                        assert(rows@[x].0 < rows@[a - 2].0);
                    }
                }
            }
        }
        let idx = SearchIndex { postings, next_key: next };
        proof {
            assert(idx.wf());
            assert forall|t: u64, k: u64|
                idx.posting_has(t, k) implies parts_posting_has(rows@, t, k) by {
                let x = choose|x: int|
                    0 <= x < idx.postings@.len() && (#[trigger] idx.postings@[x]).tri == t
                        && idx.postings@[x].keys@.contains(k);
                assert((rows@[x]).0 == t && rows@[x].3@.contains(k));
            }
            assert forall|t: u64, k: u64|
                parts_posting_has(rows@, t, k) implies idx.posting_has(t, k) by {
                let x = choose|x: int|
                    0 <= x < rows@.len() && (#[trigger] rows@[x]).0 == t && rows@[x].3@.contains(k);
                assert(idx.postings@[x].tri == t && idx.postings@[x].keys@.contains(k));
            }
        }
        Some(idx)
    }
}


} // verus!
