//! The engine ties the staging buffer, the inverted index and the document
//! store together: documents are staged under a sort key, spilled (largest
//! key first) into the index and the store once the buffer exceeds its byte
//! budget, and queried through a buffer scan followed by an index-backed,
//! deadline-bounded store scan.

use vstd::prelude::*;

verus! {

use vstd::multiset::Multiset;
use vstd::seq_lib::lemma_multiset_commutative;
use crate::buffer::{byte_len, bytes_of, stage_view, StagingBuffer};
use crate::index::{universal_query, SearchIndex};
use crate::keys::strictly_increasing;
use crate::store::DocStore;
use crate::text::{lower_chars, lower_of, match_pred};

broadcast use vstd::seq_lib::group_to_multiset_ensures, vstd::multiset::group_multiset_axioms;

/// The capacity cap handed to dictionary training.
pub const DICT_CAPACITY: usize = 16 * 1024 * 1024;

/// The default staging budget and dictionary training threshold, in bytes.
pub const DEFAULT_BUDGET: usize = 32 * 1024 * 1024;

/// The bodies of a sequence of (key, body) buffer entries.
pub open spec fn bodies_of(s: Seq<(Seq<char>, Seq<char>)>) -> Seq<Seq<char>> {
    s.map_values(|p: (Seq<char>, Seq<char>)| p.1)
}

/// The document/query match predicate over raw (not yet lowered) document
/// text: the lower-cased document must match the lower-cased query and,
/// when a negative query is in force, must not match it.
pub open spec fn doc_matches(
    exact: bool,
    body: Seq<char>,
    lq: Seq<char>,
    ln: Seq<char>,
    use_neg: bool,
) -> bool {
    match_pred(exact, lower_of(body), lq) && (use_neg ==> !match_pred(exact, lower_of(body), ln))
}

/// Inserting at any position adds the element to the multiset.
pub proof fn lemma_to_multiset_insert<A>(s: Seq<A>, i: int, v: A)
    requires
        0 <= i <= s.len(),
    ensures
        s.insert(i, v).to_multiset() =~= s.to_multiset().insert(v),
{
    let pre = s.subrange(0, i);
    let post = s.subrange(i, s.len() as int);
    assert(s.insert(i, v) =~= pre + (seq![v] + post));
    assert(s =~= pre + post);
    lemma_multiset_commutative(pre, seq![v] + post);
    lemma_multiset_commutative(seq![v], post);
    lemma_multiset_commutative(pre, post);
    assert(seq![v] =~= Seq::<A>::empty().push(v));
    assert(seq![v].to_multiset() =~= Multiset::<A>::empty().insert(v));
}

/// Replacing the element at a position removes it from the multiset and
/// adds the replacement.
pub proof fn lemma_to_multiset_update<A>(s: Seq<A>, i: int, v: A)
    requires
        0 <= i < s.len(),
    ensures
        s.update(i, v).to_multiset() =~= s.to_multiset().remove(s[i]).insert(v),
{
    assert(s.update(i, v) =~= s.remove(i).insert(i, v));
    lemma_to_multiset_insert(s.remove(i), i, v);
    assert(s.remove(i).to_multiset() =~= s.to_multiset().remove(s[i]));
}

/// Moving one occurrence of `b` from `x` to `y` preserves the combined
/// multiset.
proof fn lemma_move_one<A>(x: Multiset<A>, y: Multiset<A>, b: A)
    requires
        x.count(b) > 0,
    ensures
        x.remove(b).add(y.insert(b)) =~= x.add(y),
{
}

/// The view of each returned item.
pub open spec fn views_of(items: Seq<String>) -> Seq<Seq<char>> {
    items.map_values(|s: String| s@)
}

/// The items from position `p1` on are stored documents fetched in two
/// scan passes: keys `ks[0 .. m)` (the positive candidates) and keys
/// `ks[m ..)` (the candidates needing negative confirmation), each pass in
/// strictly descending key order.
pub open spec fn disk_runs(
    items: Seq<String>,
    p1: int,
    bodies: Seq<Seq<char>>,
    m: int,
    ks: Seq<u64>,
) -> bool {
    &&& 0 <= m <= ks.len()
    &&& ks.len() == items.len() - p1
    &&& (forall|a: int, b: int| 0 <= a < b < m ==> ks[a] > ks[b])
    &&& (forall|a: int, b: int| m <= a < b < ks.len() ==> ks[a] > ks[b])
    &&& (forall|n: int|
        0 <= n < ks.len() ==> (#[trigger] ks[n]) < bodies.len() && items[p1 + n]@ == bodies[ks[n] as int])
}

/// Phase 1 of the query executor: scan the staged entries from the largest
/// sort key (`hi - 1`) down, keep the bodies that match, stop at `limit`.
pub open spec fn ram_scan(
    pairs: Seq<(Seq<char>, Seq<char>)>,
    hi: int,
    exact: bool,
    lq: Seq<char>,
    ln: Seq<char>,
    use_neg: bool,
    limit: nat,
) -> Seq<Seq<char>>
    decreases hi,
{
    if hi <= 0 || limit == 0 {
        Seq::empty()
    } else {
        let b = pairs[hi - 1].1;
        if doc_matches(exact, b, lq, ln, use_neg) {
            seq![b] + ram_scan(pairs, hi - 1, exact, lq, ln, use_neg, (limit - 1) as nat)
        } else {
            ram_scan(pairs, hi - 1, exact, lq, ln, use_neg, limit)
        }
    }
}

/// The multiset of bodies among `bodies[lo .. hi]` that match the query.
pub open spec fn matched_in(
    bodies: Seq<Seq<char>>,
    lo: int,
    hi: int,
    exact: bool,
    lq: Seq<char>,
    ln: Seq<char>,
    use_neg: bool,
) -> Multiset<Seq<char>>
    decreases hi - lo,
{
    if lo >= hi {
        Multiset::empty()
    } else {
        let rest = matched_in(bodies, lo, hi - 1, exact, lq, ln, use_neg);
        if doc_matches(exact, bodies[hi - 1], lq, ln, use_neg) {
            rest.insert(bodies[hi - 1])
        } else {
            rest
        }
    }
}

/// The multiset of bodies, among those keyed by `keys[lo .. hi]`, that
/// match the query.
pub open spec fn matched_keys(
    bodies: Seq<Seq<char>>,
    keys: Seq<u64>,
    lo: int,
    hi: int,
    exact: bool,
    lq: Seq<char>,
    ln: Seq<char>,
    use_neg: bool,
) -> Multiset<Seq<char>>
    decreases hi - lo,
{
    if lo >= hi {
        Multiset::empty()
    } else {
        let rest = matched_keys(bodies, keys, lo, hi - 1, exact, lq, ln, use_neg);
        if doc_matches(exact, bodies[keys[hi - 1] as int], lq, ln, use_neg) {
            rest.insert(bodies[keys[hi - 1] as int])
        } else {
            rest
        }
    }
}

/// Unfolding `matched_keys` at the low end instead of the high end.
proof fn lemma_matched_keys_lo(
    bodies: Seq<Seq<char>>,
    keys: Seq<u64>,
    lo: int,
    hi: int,
    exact: bool,
    lq: Seq<char>,
    ln: Seq<char>,
    use_neg: bool,
)
    requires
        lo < hi,
    ensures
        matched_keys(bodies, keys, lo, hi, exact, lq, ln, use_neg) =~= if doc_matches(
            exact,
            bodies[keys[lo] as int],
            lq,
            ln,
            use_neg,
        ) {
            matched_keys(bodies, keys, lo + 1, hi, exact, lq, ln, use_neg).insert(
                bodies[keys[lo] as int],
            )
        } else {
            matched_keys(bodies, keys, lo + 1, hi, exact, lq, ln, use_neg)
        },
    decreases hi - lo,
{
    let b_hi = bodies[keys[hi - 1] as int];
    let b_lo = bodies[keys[lo] as int];
    if lo + 1 == hi {
        assert(matched_keys(bodies, keys, lo, hi - 1, exact, lq, ln, use_neg)
            =~= Multiset::<Seq<char>>::empty());
        assert(matched_keys(bodies, keys, lo + 1, hi, exact, lq, ln, use_neg) =~= Multiset::<
            Seq<char>,
        >::empty());
    } else {
        lemma_matched_keys_lo(bodies, keys, lo, hi - 1, exact, lq, ln, use_neg);
        let base2 = matched_keys(bodies, keys, lo + 1, hi - 1, exact, lq, ln, use_neg);
        if doc_matches(exact, b_lo, lq, ln, use_neg) {
            assert(matched_keys(bodies, keys, lo, hi - 1, exact, lq, ln, use_neg) == base2.insert(
                b_lo,
            ));
            if doc_matches(exact, b_hi, lq, ln, use_neg) {
                assert(matched_keys(bodies, keys, lo, hi, exact, lq, ln, use_neg) == base2.insert(
                    b_lo,
                ).insert(b_hi));
                assert(matched_keys(bodies, keys, lo + 1, hi, exact, lq, ln, use_neg)
                    == base2.insert(b_hi));
                assert(base2.insert(b_lo).insert(b_hi) =~= base2.insert(b_hi).insert(b_lo));
            }
        }
    }
}

/// A key range contributes at most one match per key.
proof fn lemma_matched_keys_len(
    bodies: Seq<Seq<char>>,
    keys: Seq<u64>,
    lo: int,
    hi: int,
    exact: bool,
    lq: Seq<char>,
    ln: Seq<char>,
    use_neg: bool,
)
    requires
        lo <= hi,
    ensures
        matched_keys(bodies, keys, lo, hi, exact, lq, ln, use_neg).len() <= hi - lo,
    decreases hi - lo,
{
    if lo < hi {
        lemma_matched_keys_len(bodies, keys, lo, hi - 1, exact, lq, ln, use_neg);
    }
}

/// Shrinking the scanned range from below selects no new bodies.
proof fn lemma_matched_keys_suffix_le(
    bodies: Seq<Seq<char>>,
    keys: Seq<u64>,
    lo2: int,
    lo1: int,
    hi: int,
    exact: bool,
    lq: Seq<char>,
    ln: Seq<char>,
    use_neg: bool,
)
    requires
        lo2 <= lo1,
    ensures
        matched_keys(bodies, keys, lo1, hi, exact, lq, ln, use_neg).subset_of(
            matched_keys(bodies, keys, lo2, hi, exact, lq, ln, use_neg),
        ),
    decreases hi - lo2,
{
    let a = matched_keys(bodies, keys, lo1, hi, exact, lq, ln, use_neg);
    let b = matched_keys(bodies, keys, lo2, hi, exact, lq, ln, use_neg);
    if hi <= lo2 {
        assert forall|v: Seq<char>| a.count(v) <= b.count(v) by {}
    } else if hi <= lo1 {
        assert forall|v: Seq<char>| a.count(v) <= b.count(v) by {}
    } else {
        lemma_matched_keys_suffix_le(bodies, keys, lo2, lo1, hi - 1, exact, lq, ln, use_neg);
        assert forall|v: Seq<char>| a.count(v) <= b.count(v) by {
            assert(matched_keys(bodies, keys, lo1, hi - 1, exact, lq, ln, use_neg).count(v)
                <= matched_keys(bodies, keys, lo2, hi - 1, exact, lq, ln, use_neg).count(v));
        }
    }
}

/// Adding respects containment on both sides.
proof fn lemma_subset_add<A>(a: Multiset<A>, a2: Multiset<A>, b: Multiset<A>, b2: Multiset<A>)
    requires
        a.subset_of(a2),
        b.subset_of(b2),
    ensures
        a.add(b).subset_of(a2.add(b2)),
{
    assert forall|v: A| a.add(b).count(v) <= a2.add(b2).count(v) by {
        assert(a.count(v) <= a2.count(v));
        assert(b.count(v) <= b2.count(v));
    }
}

/// Adding the same multiset on the left is cancellative.
proof fn lemma_add_cancel<A>(x: Multiset<A>, a: Multiset<A>, b: Multiset<A>)
    requires
        x.add(a) == x.add(b),
    ensures
        a =~= b,
{
    assert forall|v: A| a.count(v) == b.count(v) by {
        assert(x.add(a).count(v) == x.add(b).count(v));
        assert(x.add(a).count(v) == x.count(v) + a.count(v));
        assert(x.add(b).count(v) == x.count(v) + b.count(v));
    }
}

/// Two key lists agreeing on `[lo, hi)` select the same matched bodies.
proof fn lemma_matched_keys_agree(
    bodies: Seq<Seq<char>>,
    k1: Seq<u64>,
    k2: Seq<u64>,
    lo: int,
    hi: int,
    exact: bool,
    lq: Seq<char>,
    ln: Seq<char>,
    use_neg: bool,
)
    requires
        forall|m: int| lo <= m < hi ==> k1[m] == k2[m],
    ensures
        matched_keys(bodies, k1, lo, hi, exact, lq, ln, use_neg) == matched_keys(
            bodies,
            k2,
            lo,
            hi,
            exact,
            lq,
            ln,
            use_neg,
        ),
    decreases hi - lo,
{
    if lo < hi {
        lemma_matched_keys_agree(bodies, k1, k2, lo, hi - 1, exact, lq, ln, use_neg);
    }
}

/// Two disjoint strictly increasing key lists below `n` hold at most `n`
/// keys between them.
proof fn lemma_disjoint_keys_bounded(a: Seq<u64>, b: Seq<u64>, n: int)
    requires
        0 <= n <= u64::MAX,
        strictly_increasing(a),
        strictly_increasing(b),
        forall|k: u64| a.contains(k) ==> k < n,
        forall|k: u64| b.contains(k) ==> k < n,
        forall|k: u64|
            #![trigger a.contains(k)]
            #![trigger b.contains(k)]
            !(a.contains(k) && b.contains(k)),
    ensures
        a.len() + b.len() <= n,
    decreases n,
{
    if a.len() > 0 {
        assert(a.contains(a[a.len() - 1]));
    }
    if b.len() > 0 {
        assert(b.contains(b[b.len() - 1]));
    }
    if n > 0 {
        let top: u64 = (n - 1) as u64;
        if a.contains(top) {
            let idx = choose|idx: int| 0 <= idx < a.len() && a[idx] == top;
            assert(a[a.len() - 1] == top) by {
                if idx < a.len() - 1 {
                    assert(a[idx] < a[a.len() - 1]);
                }
            }
            let a2 = a.drop_last();
            assert(strictly_increasing(a2)) by {
                assert(forall|m: int| 0 <= m < a2.len() ==> a2[m] == a[m]);
            }
            assert forall|k: u64| a2.contains(k) implies k < n - 1 && a.contains(k) by {
                let m = choose|m: int| 0 <= m < a2.len() && a2[m] == k;
                assert(a[m] == k);
                assert(k < a[a.len() - 1]);
            }
            assert forall|k: u64|
                #![trigger a2.contains(k)]
                #![trigger b.contains(k)]
                !(a2.contains(k) && b.contains(k)) by {
                if a2.contains(k) {
                    assert(a.contains(k));
                }
            }
            assert forall|k: u64| #[trigger] b.contains(k) implies k < n - 1 by {
                if k == top {
                    assert(a.contains(k));
                }
            }
            lemma_disjoint_keys_bounded(a2, b, n - 1);
        } else if b.contains(top) {
            let idx = choose|idx: int| 0 <= idx < b.len() && b[idx] == top;
            assert(b[b.len() - 1] == top) by {
                if idx < b.len() - 1 {
                    assert(b[idx] < b[b.len() - 1]);
                }
            }
            let b2 = b.drop_last();
            assert(strictly_increasing(b2)) by {
                assert(forall|m: int| 0 <= m < b2.len() ==> b2[m] == b[m]);
            }
            assert forall|k: u64| b2.contains(k) implies k < n - 1 && b.contains(k) by {
                let m = choose|m: int| 0 <= m < b2.len() && b2[m] == k;
                assert(b[m] == k);
                assert(k < b[b.len() - 1]);
            }
            assert forall|k: u64|
                #![trigger a.contains(k)]
                #![trigger b2.contains(k)]
                !(a.contains(k) && b2.contains(k)) by {
                if b2.contains(k) {
                    assert(b.contains(k));
                }
            }
            assert forall|k: u64| a.contains(k) implies k < n - 1 by {
                if k == top {
                    assert(b.contains(k));
                }
            }
            lemma_disjoint_keys_bounded(a, b2, n - 1);
        } else {
            assert(forall|k: u64| a.contains(k) ==> k < n - 1);
            assert(forall|k: u64| #[trigger] b.contains(k) ==> k < n - 1);
            lemma_disjoint_keys_bounded(a, b, n - 1);
        }
    }
}

/// The buffer scan emits at most one body per staged entry.
proof fn lemma_ram_scan_len(
    pairs: Seq<(Seq<char>, Seq<char>)>,
    hi: int,
    exact: bool,
    lq: Seq<char>,
    ln: Seq<char>,
    use_neg: bool,
    limit: nat,
)
    ensures
        ram_scan(pairs, hi, exact, lq, ln, use_neg, limit).len() <= if hi >= 0 {
            hi
        } else {
            0
        },
    decreases hi,
{
    if hi > 0 && limit > 0 {
        lemma_ram_scan_len(pairs, hi - 1, exact, lq, ln, use_neg, (limit - 1) as nat);
        lemma_ram_scan_len(pairs, hi - 1, exact, lq, ln, use_neg, limit);
    }
}

/// With a limit at least as large as the range, the buffer scan returns
/// exactly the matching bodies.
proof fn lemma_ram_scan_complete(
    pairs: Seq<(Seq<char>, Seq<char>)>,
    hi: int,
    exact: bool,
    lq: Seq<char>,
    ln: Seq<char>,
    use_neg: bool,
    limit: nat,
)
    requires
        0 <= hi <= pairs.len(),
        limit >= hi,
    ensures
        ram_scan(pairs, hi, exact, lq, ln, use_neg, limit).to_multiset() =~= matched_in(
            bodies_of(pairs),
            0,
            hi,
            exact,
            lq,
            ln,
            use_neg,
        ),
    decreases hi,
{
    if hi > 0 {
        let b = pairs[hi - 1].1;
        assert(bodies_of(pairs)[hi - 1] == b);
        if doc_matches(exact, b, lq, ln, use_neg) {
            lemma_ram_scan_complete(pairs, hi - 1, exact, lq, ln, use_neg, (limit - 1) as nat);
            let rest = ram_scan(pairs, hi - 1, exact, lq, ln, use_neg, (limit - 1) as nat);
            lemma_multiset_commutative(seq![b], rest);
            assert(seq![b] =~= Seq::<Seq<char>>::empty().push(b));
            assert(seq![b].to_multiset() =~= Multiset::<Seq<char>>::empty().insert(b));
            assert((seq![b] + rest).to_multiset() =~= rest.to_multiset().insert(b));
        } else {
            lemma_ram_scan_complete(pairs, hi - 1, exact, lq, ln, use_neg, limit);
        }
    }
}

/// What a query returns: the matching documents found within the deadline,
/// whether the scan was cut short by it, and (ghost) the store keys behind
/// the items that follow the buffer-scan prefix: first the positive-
/// candidate pass, then the negative-confirmation pass.
pub struct QueryOutcome {
    pub items: Vec<String>,
    pub truncated: bool,
    pub disk_keys: Ghost<(int, Seq<u64>)>,
}

/// Relies on `Instant::now`: an opaque monotonic clock reading.
#[verifier::external_body]
fn now_instant() -> std::time::Instant {
    std::time::Instant::now()
}

/// Relies on `Instant::elapsed`: nothing is assumed of the reading.
#[verifier::external_body]
fn elapsed_ms(start: &std::time::Instant) -> u64 {
    let ms = start.elapsed().as_millis();
    if ms > (u64::MAX as u128) {
        u64::MAX
    } else {
        ms as u64
    }
}

#[verifier::external_type_specification]
#[verifier::external_body]
pub struct ExInstant(std::time::Instant);

/// The search engine.
pub struct Engine {
    buffer: StagingBuffer,
    index: SearchIndex,
    store: DocStore,
    budget: usize,
    dict_threshold: usize,
    total_bytes: u64,
}

impl Engine {
    /// The staged (key, body) pairs, ascending by sort key.
    pub closed spec fn buffer_view(self) -> Seq<(Seq<char>, Seq<char>)> {
        self.buffer.view_pairs()
    }

    /// The spilled document texts, by document key.
    pub closed spec fn store_bodies(self) -> Seq<Seq<char>> {
        self.store.bodies()
    }

    /// The key the next spilled document will receive.
    pub closed spec fn next_key(self) -> u64 {
        self.index.next()
    }

    /// The staging buffer's byte budget.
    pub closed spec fn budget_spec(self) -> nat {
        self.budget as nat
    }

    /// The staged-bytes threshold for dictionary training.
    pub closed spec fn dict_threshold_spec(self) -> nat {
        self.dict_threshold as nat
    }

    /// The total bytes of all documents inserted since the last clear.
    pub closed spec fn total_bytes_spec(self) -> nat {
        self.total_bytes as nat
    }

    /// The bytes currently staged.
    pub open spec fn staged_bytes(self) -> nat {
        bytes_of(self.buffer_view())
    }

    /// How many documents the engine holds.
    pub open spec fn doc_count(self) -> nat {
        self.buffer_view().len() + self.store_bodies().len()
    }

    /// Every live document, staged or stored, as a multiset of texts.
    pub open spec fn corpus(self) -> Multiset<Seq<char>> {
        bodies_of(self.buffer_view()).to_multiset().add(self.store_bodies().to_multiset())
    }

    /// The index cannot rule key `k` out for the query (see
    /// `SearchIndex::candidate`).
    pub closed spec fn key_candidate(self, exact: bool, lq: Seq<char>, k: u64) -> bool {
        self.index.candidate(exact, lq, k)
    }

    /// Key `k` stands in the posting list of trigram `t`.
    pub closed spec fn posting_has(self, t: u64, k: u64) -> bool {
        self.index.posting_has(t, k)
    }

    /// The index-backed scan visits key `k`: always for a query that
    /// cannot constrain the candidates, else exactly the candidates.
    pub open spec fn scanned_key(self, exact: bool, lq: Seq<char>, k: u64) -> bool {
        universal_query(exact, lq) || self.key_candidate(exact, lq, k)
    }

    /// The multiset of stored documents with keys below `hi` that the
    /// index-backed scan visits and that match the query.
    pub open spec fn index_matched(
        self,
        exact: bool,
        lq: Seq<char>,
        ln: Seq<char>,
        use_neg: bool,
        hi: int,
    ) -> Multiset<Seq<char>>
        decreases hi,
    {
        if hi <= 0 {
            Multiset::empty()
        } else {
            let rest = self.index_matched(exact, lq, ln, use_neg, hi - 1);
            let b = self.store_bodies()[hi - 1];
            if self.scanned_key(exact, lq, (hi - 1) as u64) && doc_matches(
                exact,
                b,
                lq,
                ln,
                use_neg,
            ) {
                rest.insert(b)
            } else {
                rest
            }
        }
    }

    /// Two disjoint sorted key lists that together hold exactly the
    /// scanned keys below `hi` select, between them, exactly the scanned
    /// matching documents.
    proof fn lemma_keys_cover_index_matched(
        self,
        ka: Seq<u64>,
        kb: Seq<u64>,
        hi: int,
        exact: bool,
        lq: Seq<char>,
        ln: Seq<char>,
        use_neg: bool,
    )
        requires
            0 <= hi <= self.store_bodies().len(),
            hi <= u64::MAX,
            strictly_increasing(ka),
            strictly_increasing(kb),
            forall|k: u64|
                #![trigger ka.contains(k)]
                #![trigger kb.contains(k)]
                !(ka.contains(k) && kb.contains(k)),
            forall|k: u64|
                #![trigger ka.contains(k)]
                #![trigger kb.contains(k)]
                #![trigger self.scanned_key(exact, lq, k)]
                (ka.contains(k) || kb.contains(k)) <==> (k < hi && self.scanned_key(exact, lq, k)),
        ensures
            matched_keys(
                self.store_bodies(),
                ka,
                0,
                ka.len() as int,
                exact,
                lq,
                ln,
                use_neg,
            ).add(
                matched_keys(self.store_bodies(), kb, 0, kb.len() as int, exact, lq, ln, use_neg),
            ) =~= self.index_matched(exact, lq, ln, use_neg, hi),
        decreases hi,
    {
        let sb = self.store_bodies();
        if hi <= 0 {
            assert(ka.len() == 0) by {
                if ka.len() > 0 {
                    assert(ka.contains(ka[0]));
                }
            }
            assert(kb.len() == 0) by {
                if kb.len() > 0 {
                    assert(kb.contains(kb[0]));
                }
            }
        } else {
            let top: u64 = (hi - 1) as u64;
            assert(top == hi - 1);
            if ka.contains(top) || kb.contains(top) {
                // the top key sits at the end of whichever list holds it
                let ghost v = if ka.contains(top) {
                    ka
                } else {
                    kb
                };
                let idx = choose|idx: int| 0 <= idx < v.len() && v[idx] == top;
                assert(v.contains(v[v.len() - 1]));
                assert(v[v.len() - 1] == top) by {
                    if idx < v.len() - 1 {
                        assert(v[idx] < v[v.len() - 1]);
                    }
                }
                let v2 = v.drop_last();
                assert(strictly_increasing(v2)) by {
                    assert(forall|m: int| 0 <= m < v2.len() ==> v2[m] == v[m]);
                }
                assert forall|k: u64| v2.contains(k) implies v.contains(k) && k < hi - 1 by {
                    let m = choose|m: int| 0 <= m < v2.len() && v2[m] == k;
                    assert(v[m] == k);
                    assert(k < v[v.len() - 1]);
                }
                assert forall|k: u64| v.contains(k) && k < hi - 1 implies v2.contains(k) by {
                    let m = choose|m: int| 0 <= m < v.len() && v[m] == k;
                    assert(m < v.len() - 1) by {
                        assert(v[v.len() - 1] == top);
                    }
                    assert(v2[m] == k);
                }
                let ghost ka2 = if ka.contains(top) {
                    v2
                } else {
                    ka
                };
                let ghost kb2 = if ka.contains(top) {
                    kb
                } else {
                    v2
                };
                assert forall|k: u64|
                    #![trigger ka2.contains(k)]
                    #![trigger kb2.contains(k)]
                    !(ka2.contains(k) && kb2.contains(k)) by {
                    if ka2.contains(k) && kb2.contains(k) {
                        assert(ka.contains(k) && kb.contains(k));
                    }
                }
                assert forall|k: u64|
                    #![trigger ka2.contains(k)]
                    #![trigger kb2.contains(k)]
                    #![trigger self.scanned_key(exact, lq, k)]
                    (ka2.contains(k) || kb2.contains(k)) <==> (k < hi - 1
                        && self.scanned_key(exact, lq, k)) by {
                    if ka2.contains(k) || kb2.contains(k) {
                        assert(ka.contains(k) || kb.contains(k));
                        assert(k < hi - 1) by {
                            if k == top {
                                if ka.contains(top) {
                                    assert(!kb.contains(top));
                                    assert(!v2.contains(top));
                                } else {
                                    assert(!ka.contains(top));
                                    assert(!v2.contains(top));
                                }
                            }
                        }
                    }
                    if k < hi - 1 && self.scanned_key(exact, lq, k) {
                        assert(ka.contains(k) || kb.contains(k));
                    }
                }
                self.lemma_keys_cover_index_matched(ka2, kb2, hi - 1, exact, lq, ln, use_neg);
                lemma_matched_keys_agree(sb, v, v2, 0, v.len() - 1, exact, lq, ln, use_neg);
                assert(matched_keys(sb, v, 0, v.len() as int, exact, lq, ln, use_neg)
                    == if doc_matches(exact, sb[top as int], lq, ln, use_neg) {
                    matched_keys(sb, v2, 0, v2.len() as int, exact, lq, ln, use_neg).insert(
                        sb[top as int],
                    )
                } else {
                    matched_keys(sb, v2, 0, v2.len() as int, exact, lq, ln, use_neg)
                });
                assert(self.scanned_key(exact, lq, top));
            } else {
                assert(!self.scanned_key(exact, lq, top));
                assert forall|k: u64|
                    #![trigger ka.contains(k)]
                    #![trigger kb.contains(k)]
                    #![trigger self.scanned_key(exact, lq, k)]
                    (ka.contains(k) || kb.contains(k)) <==> (k < hi - 1 && self.scanned_key(
                        exact,
                        lq,
                        k,
                    )) by {
                    if ka.contains(k) || kb.contains(k) {
                        assert(k != top);
                    }
                }
                self.lemma_keys_cover_index_matched(ka, kb, hi - 1, exact, lq, ln, use_neg);
            }
        }
    }

    /// A sort key is staged.
    pub open spec fn has_sort_key(self, k: Seq<char>) -> bool {
        exists|n: int| 0 <= n < self.buffer_view().len() && (#[trigger] self.buffer_view()[n]).0 == k
    }

    /// Structural invariant: the parts are well-formed, document keys are
    /// dense (the index's next key equals the store length), and the
    /// staged bytes never exceed the budget.
    pub closed spec fn wf(self) -> bool {
        &&& self.buffer.wf()
        &&& self.index.wf()
        &&& self.store.wf()
        &&& self.index.next() == self.store.len()
        &&& self.index.next() <= usize::MAX
        &&& self.staged_bytes() <= self.budget_spec()
    }

    /// A fresh engine with the given staging budget and dictionary
    /// training threshold (in staged bytes).
    pub fn new(budget: usize, dict_threshold: usize) -> (r: Engine)
        ensures
            r.wf(),
            r.doc_count() == 0,
            r.corpus() =~= Multiset::<Seq<char>>::empty(),
            r.next_key() == 0,
            r.budget_spec() == budget,
            r.dict_threshold_spec() == dict_threshold,
            r.total_bytes_spec() == 0,
    {
        let r = Engine {
            buffer: StagingBuffer::new(),
            index: SearchIndex::new(),
            store: DocStore::new(),
            budget,
            dict_threshold,
            total_bytes: 0,
        };
        proof {
            assert(bodies_of(r.buffer_view()) =~= Seq::<Seq<char>>::empty());
            assert(r.corpus() =~= Multiset::<Seq<char>>::empty());
        }
        r
    }

    /// Drops every document, the index, the dictionary and the counters;
    /// document keys start again at zero.
    pub fn clear(&mut self)
        ensures
            final(self).wf(),
            final(self).doc_count() == 0,
            final(self).corpus() =~= Multiset::<Seq<char>>::empty(),
            final(self).next_key() == 0,
            final(self).total_bytes_spec() == 0,
            final(self).budget_spec() == old(self).budget_spec(),
            final(self).dict_threshold_spec() == old(self).dict_threshold_spec(),
    {
        self.buffer.clear();
        self.index.clear();
        self.store.clear();
        self.total_bytes = 0;
        proof {
            assert(bodies_of(self.buffer_view()) =~= Seq::<Seq<char>>::empty());
            assert(self.corpus() =~= Multiset::<Seq<char>>::empty());
        }
    }

    /// How many documents the engine holds (staged plus stored).
    pub fn size(&self) -> (n: usize)
        requires
            self.wf(),
            self.doc_count() <= usize::MAX,
        ensures
            n == self.doc_count(),
    {
        self.buffer.len() + self.store.count()
    }

    /// The total bytes of all documents inserted since the last clear.
    pub fn data_bytes(&self) -> (n: u64)
        ensures
            n == self.total_bytes_spec(),
    {
        self.total_bytes
    }

    /// The bytes currently staged (never above the budget between calls).
    pub fn staged(&self) -> (n: usize)
        requires
            self.wf(),
        ensures
            n == self.staged_bytes(),
    {
        self.buffer.bytes()
    }

    /// Stages a document under the given sort key: the body replaces any
    /// body staged under the same key, and entries are spilled from the
    /// largest key down until the buffer is back within its byte budget.
    /// Spilling assigns the next document key, samples the document's
    /// trigrams into the index, and appends the body to the store; the
    /// compression dictionary is trained the first time the staged bytes
    /// cross the training threshold.
    pub fn insert(&mut self, sort_key: Vec<char>, body: String)
        requires
            old(self).wf(),
            old(self).staged_bytes() + byte_len(body@) <= usize::MAX,
            old(self).total_bytes_spec() + byte_len(body@) <= u64::MAX,
            old(self).next_key() + old(self).buffer_view().len() + 1 <= u64::MAX,
        ensures
            final(self).wf(),
            final(self).budget_spec() == old(self).budget_spec(),
            final(self).dict_threshold_spec() == old(self).dict_threshold_spec(),
            final(self).total_bytes_spec() == old(self).total_bytes_spec() + byte_len(body@),
            final(self).staged_bytes() <= final(self).budget_spec(),
            old(self).next_key() <= final(self).next_key() <= old(self).next_key() + old(self).buffer_view().len() + 1,
            old(self).store_bodies().len() <= final(self).store_bodies().len(),
            final(self).store_bodies().subrange(0, old(self).store_bodies().len() as int) == old(self).store_bodies(),
            !old(self).has_sort_key(sort_key@) ==> final(self).corpus() =~= old(self).corpus().insert(body@),
            old(self).has_sort_key(sort_key@) ==> exists|prev: Seq<char>|
                old(self).corpus().count(prev) > 0 && final(self).corpus() =~= old(self).corpus().remove(prev).insert(body@),
            final(self).doc_count() <= old(self).doc_count() + 1,
            final(self).buffer_view() == stage_view(
                old(self).buffer_view(),
                sort_key@,
                body@,
            ).subrange(0, final(self).buffer_view().len() as int),
    {
        let ghost kv = sort_key@;
        let ghost pre_buf = self.buffer.view_pairs();
        let blen: usize = body.as_str().len();
        self.total_bytes = self.total_bytes + (blen as u64);
        self.buffer.insert(sort_key, body);
        let ghost staged_view = self.buffer.view_pairs();
        let ghost staged_corpus = self.corpus();
        proof {
            assert(staged_view == stage_view(pre_buf, kv, body@));
            assert(self.buffer.view_pairs() =~= staged_view.subrange(
                0,
                self.buffer.view_pairs().len() as int,
            ));
        }
        proof {
            // staging either appends the body to the corpus or replaces
            // the body previously staged under the same key
            if old(self).has_sort_key(kv) {
                assert(old(self).buffer.has_key(kv));
                let n = choose|n: int|
                    0 <= n < pre_buf.len() && (#[trigger] pre_buf[n]).0 == kv
                        && self.buffer.view_pairs() == pre_buf.update(n, (kv, body@));
                let prev = pre_buf[n].1;
                assert(bodies_of(self.buffer.view_pairs()) =~= bodies_of(pre_buf).update(n, body@));
                lemma_to_multiset_update(bodies_of(pre_buf), n, prev);
                assert(bodies_of(pre_buf)[n] == prev);
                assert(old(self).corpus().count(prev) > 0) by {
                    assert(bodies_of(pre_buf).contains(prev)) by {
                        assert(bodies_of(pre_buf)[n] == prev);
                    }
                }
                assert(staged_corpus =~= old(self).corpus().remove(prev).insert(body@));
            } else {
                assert(!old(self).buffer.has_key(kv));
                let n = choose|n: int|
                    0 <= n <= pre_buf.len() && self.buffer.view_pairs() == pre_buf.insert(
                        n,
                        (kv, body@),
                    );
                assert(bodies_of(self.buffer.view_pairs()) =~= bodies_of(pre_buf).insert(n, body@));
                lemma_to_multiset_insert(bodies_of(pre_buf), n, body@);
                assert(staged_corpus =~= old(self).corpus().insert(body@));
            }
        }
        // train the dictionary once the staged bytes cross the threshold
        if !self.store.is_trained() && self.buffer.bytes() > self.dict_threshold {
            let mut samples: Vec<String> = Vec::new();
            let mut n: usize = 0;
            let sample_count: usize = self.buffer.len();
            while n < sample_count
                invariant
                    n <= sample_count,
                    sample_count == self.buffer.view_pairs().len(),
                decreases sample_count - n,
            {
                samples.push(self.buffer.body_ref(n).clone());
                n = n + 1;
            }
            self.store.train(&samples, DICT_CAPACITY);
        }
        // spill from the largest sort key down until within budget
        while self.buffer.bytes() > self.budget && self.buffer.len() > 0
            invariant
                self.buffer.wf(),
                self.index.wf(),
                self.store.wf(),
                self.index.next() == self.store.len(),
                self.index.next() + self.buffer.view_pairs().len() <= u64::MAX,
                self.index.next() <= usize::MAX,
                self.corpus() == staged_corpus,
                self.budget == old(self).budget,
                self.dict_threshold == old(self).dict_threshold,
                self.total_bytes_spec() == old(self).total_bytes_spec() + byte_len(body@),
                old(self).next_key() <= self.next_key(),
                self.next_key() + self.buffer.view_pairs().len() <= old(self).next_key() + pre_buf.len()
                    + 1,
                self.buffer.view_pairs().len() <= pre_buf.len() + 1,
                old(self).store_bodies().len() <= self.store_bodies().len(),
                self.store_bodies().subrange(0, old(self).store_bodies().len() as int) == old(self).store_bodies(),
                self.doc_count() <= old(self).doc_count() + 1,
                self.buffer.view_pairs().len() <= staged_view.len(),
                self.buffer.view_pairs() == staged_view.subrange(
                    0,
                    self.buffer.view_pairs().len() as int,
                ),
            decreases self.buffer.view_pairs().len(),
        {
            let ghost buf_before = self.buffer.view_pairs();
            let ghost store_before = self.store.bodies();
            let popped = self.buffer.pop_last();
            let (_k, b) = popped.unwrap();
            let lowered = lower_chars(b.as_str());
            let _key = self.index.add(&lowered);
            self.store.put(&b);
            proof {
                // the popped body moves from the buffer to the store
                let bb = bodies_of(buf_before);
                assert(bb[bb.len() - 1] == b@);
                assert(bodies_of(self.buffer.view_pairs()) =~= bb.remove(bb.len() - 1));
                assert(bb.remove(bb.len() - 1).to_multiset() =~= bb.to_multiset().remove(b@));
                assert(self.store_bodies() == store_before.push(b@));
                assert(store_before.push(b@).to_multiset() =~= store_before.to_multiset().insert(
                    b@,
                ));
                assert(bb.to_multiset().count(b@) > 0) by {
                    assert(bb.contains(b@)) by {
                        assert(bb[bb.len() - 1] == b@);
                    }
                }
                lemma_move_one(bb.to_multiset(), store_before.to_multiset(), b@);
                assert(self.corpus() =~= staged_corpus);
                assert(self.buffer.view_pairs() =~= staged_view.subrange(
                    0,
                    self.buffer.view_pairs().len() as int,
                )) by {
                    assert(buf_before.drop_last() =~= staged_view.subrange(
                        0,
                        buf_before.len() - 1,
                    ));
                }
                let ghost oldlen = old(self).store_bodies().len() as int;
                assert(oldlen <= store_before.len());
                assert forall|i: int| 0 <= i < oldlen implies self.store_bodies()[i] == old(self).store_bodies()[i] by {
                    assert(store_before.subrange(0, oldlen)[i] == store_before[i]);
                }
                assert(self.store_bodies().subrange(0, oldlen) =~= old(self).store_bodies());
            }
        }
        proof {
            if self.buffer.view_pairs().len() == 0 {
                assert(bytes_of(self.buffer.view_pairs()) == 0);
            }
        }
    }

    /// Law: the staged bytes never exceed the configured budget — in
    /// particular they stay under twice the budget; the transient excess
    /// between staging and spilling happens inside `insert` and is never
    /// observable.
    pub proof fn lemma_staged_bytes_bounded(self)
        requires
            self.wf(),
        ensures
            self.staged_bytes() <= self.budget_spec(),
            self.staged_bytes() <= 2 * self.budget_spec(),
    {
    }

    /// Law: document keys are dense and monotone — the store holds exactly
    /// the documents with keys `0 .. next_key()`, in assignment order, so
    /// keys strictly increase across successive spills (and `insert`
    /// ensures `next_key` never decreases and the stored prefix is kept).
    pub proof fn lemma_document_keys_dense(self)
        requires
            self.wf(),
        ensures
            self.next_key() == self.store_bodies().len(),
    {
    }

    /// Scans stored documents by key, from the last key of `keys` down,
    /// fetching each and keeping the ones that pass the match filter,
    /// until the limit is reached or the deadline expires. Returns whether
    /// the deadline cut the scan short, and (for the proof) the keys of
    /// the kept documents, in scan order.
    #[verifier::loop_isolation(false)]
    fn scan_keys(
        &self,
        keys: &Vec<u64>,
        lq: &Vec<char>,
        ln: &Vec<char>,
        use_neg: bool,
        exact: bool,
        limit: usize,
        deadline_ms: Option<u64>,
        start: &std::time::Instant,
        items: &mut Vec<String>,
    ) -> (r: (bool, Ghost<Seq<u64>>))
        requires
            self.wf(),
            strictly_increasing(keys@),
            forall|j: int| 0 <= j < keys@.len() ==> (#[trigger] keys@[j]) < self.store_bodies().len(),
            old(items)@.len() <= limit,
        ensures
            ({
                let truncated = r.0;
                let taken = r.1@;
                &&& final(items)@.len() <= limit
                &&& old(items)@.len() <= final(items)@.len()
                &&& final(items)@.subrange(0, old(items)@.len() as int) == old(items)@
                &&& forall|i: int|
                    old(items)@.len() <= i < final(items)@.len() ==> doc_matches(
                        exact,
                        (#[trigger] final(items)@[i])@,
                        lq@,
                        ln@,
                        use_neg,
                    ) && self.store_bodies().to_multiset().count(final(items)@[i]@) > 0
                &&& deadline_ms is None ==> !truncated
                &&& deadline_ms == Some(0u64) ==> final(items)@ == old(items)@
                &&& taken.len() == final(items)@.len() - old(items)@.len()
                &&& forall|a: int, b: int| 0 <= a < b < taken.len() ==> taken[a] > taken[b]
                &&& forall|n: int|
                    0 <= n < taken.len() ==> keys@.contains(#[trigger] taken[n]) && taken[n]
                        < self.store_bodies().len() && final(items)@[old(items)@.len() + n]@
                        == self.store_bodies()[taken[n] as int]
                &&& exists|j0: int|
                    0 <= j0 <= keys@.len() && (!truncated && j0 > 0 ==> final(items)@.len()
                        == limit) && views_of(final(items)@).to_multiset() =~= views_of(
                        old(items)@,
                    ).to_multiset().add(
                        matched_keys(
                            self.store_bodies(),
                            keys@,
                            j0,
                            keys@.len() as int,
                            exact,
                            lq@,
                            ln@,
                            use_neg,
                        ),
                    )
            }),
    {
        let ghost base = items@;
        let ghost hi = keys@.len() as int;
        let ghost mut taken = Seq::<u64>::empty();
        let mut truncated: bool = false;
        let mut j: usize = keys.len();
        while !truncated && j > 0 && items.len() < limit
            invariant
                j <= keys@.len(),
                base.len() <= items@.len() <= limit,
                items@.subrange(0, base.len() as int) == base,
                forall|i: int|
                    base.len() <= i < items@.len() ==> doc_matches(
                        exact,
                        (#[trigger] items@[i])@,
                        lq@,
                        ln@,
                        use_neg,
                    ) && self.store_bodies().to_multiset().count(items@[i]@) > 0,
                views_of(items@).to_multiset() =~= views_of(base).to_multiset().add(
                    matched_keys(self.store_bodies(), keys@, j as int, hi, exact, lq@, ln@, use_neg),
                ),
                taken.len() == items@.len() - base.len(),
                forall|a: int, b: int| 0 <= a < b < taken.len() ==> taken[a] > taken[b],
                forall|n: int|
                    0 <= n < taken.len() ==> keys@.contains(#[trigger] taken[n]) && taken[n]
                        < self.store_bodies().len() && items@[base.len() + n]@
                        == self.store_bodies()[taken[n] as int],
                taken.len() > 0 ==> exists|m: int|
                    j <= m < keys@.len() && taken.last() == keys@[m],
                truncated ==> deadline_ms is Some && !(deadline_ms == Some(0u64) && items@.len()
                    > base.len()),
                deadline_ms == Some(0u64) ==> items@ == base,
            decreases
                    (if truncated {
                        0int
                    } else {
                        1int
                    }),
                    j,
        {
            let hit_deadline: bool = match deadline_ms {
                Some(d) => elapsed_ms(start) >= d,
                None => false,
            };
            if hit_deadline {
                truncated = true;
            } else {
                let ghost items_before = items@;
                let ghost taken_before = taken;
                let key: u64 = keys[j - 1];
                let body: String = self.store.get(key as usize);
                let body_lower = lower_chars(body.as_str());
                let pos_ok: bool = crate::text::is_match(exact, lq, &body_lower);
                let neg_hit: bool = if use_neg {
                    crate::text::is_match(exact, ln, &body_lower)
                } else {
                    false
                };
                proof {
                    lemma_matched_keys_lo(
                        self.store_bodies(),
                        keys@,
                        j - 1,
                        hi,
                        exact,
                        lq@,
                        ln@,
                        use_neg,
                    );
                }
                if pos_ok && !neg_hit {
                    assert(doc_matches(exact, body@, lq@, ln@, use_neg));
                    items.push(body);
                    proof {
                        taken = taken.push(key);
                        assert(items@.subrange(0, base.len() as int) =~= base);
                        assert(views_of(items@) =~= views_of(items_before).push(
                            self.store_bodies()[keys@[j - 1] as int],
                        ));
                        assert(views_of(items@).to_multiset() =~= views_of(
                            items_before,
                        ).to_multiset().insert(self.store_bodies()[keys@[j - 1] as int]));
                        assert(self.store_bodies().to_multiset().count(
                            self.store_bodies()[keys@[j - 1] as int],
                        ) > 0) by {
                            assert(self.store_bodies().contains(
                                self.store_bodies()[keys@[j - 1] as int],
                            ));
                        }
                        // every earlier kept key is larger than this one
                        if taken_before.len() > 0 {
                            let m = choose|m: int|
                                j <= m < keys@.len() && taken_before.last() == keys@[m];
                            assert(keys@[j - 1] < keys@[m]);
                            assert(forall|a: int|
                                0 <= a < taken_before.len() ==> #[trigger] taken_before[a]
                                    >= taken_before.last());
                        }
                        assert(keys@.contains(key)) by {
                            assert(keys@[j - 1] == key);
                        }
                        assert(forall|n: int|
                            0 <= n < taken_before.len() ==> #[trigger] taken[n]
                                == taken_before[n]);
                        assert(taken.last() == keys@[j - 1]);
                    }
                } else {
                    assert(!doc_matches(exact, body@, lq@, ln@, use_neg));
                }
                j = j - 1;
                proof {
                    if taken.len() > 0 && items_before.len() == items@.len() {
                        // nothing was kept this round: the witness stands
                        let m = choose|m: int|
                            j + 1 <= m < keys@.len() && taken.last() == keys@[m];
                        assert(j <= m < keys@.len() && taken.last() == keys@[m]);
                    }
                }
            }
        }
        proof {
            if !truncated {
                if j == 0 {
                    assert(0 <= 0 <= keys@.len() && (0int > 0 ==> items@.len() == limit)
                        && views_of(items@).to_multiset() =~= views_of(base).to_multiset().add(
                        matched_keys(self.store_bodies(), keys@, 0, hi, exact, lq@, ln@, use_neg),
                    ));
                } else {
                    assert(items@.len() == limit);
                }
            }
        }
        (truncated, Ghost(taken))
    }

    /// Executes a query: scans the staged documents newest-sort-key first,
    /// then (if the limit was not reached) fetches index candidates from
    /// the store in descending key order — positive candidates first, then
    /// the candidates that need negative confirmation — keeping every
    /// document that matches the query and does not match the non-empty
    /// negative query, until the limit is reached or the deadline expires.
    #[verifier::loop_isolation(false)]
    #[verifier::rlimit(100)]
    #[verifier::spinoff_prover]
    pub fn find(
        &self,
        query: &str,
        neg_query: &str,
        exact: bool,
        limit: usize,
        deadline_ms: Option<u64>,
    ) -> (r: QueryOutcome)
        requires
            self.wf(),
        ensures
            r.items@.len() <= limit,
            forall|i: int|
                0 <= i < r.items@.len() ==> doc_matches(
                    exact,
                    (#[trigger] r.items@[i])@,
                    lower_of(query@),
                    lower_of(neg_query@),
                    neg_query@.len() > 0,
                ),
            forall|i: int|
                0 <= i < r.items@.len() ==> self.corpus().count((#[trigger] r.items@[i])@) > 0,
            ({
                let ram = ram_scan(
                    self.buffer_view(),
                    self.buffer_view().len() as int,
                    exact,
                    lower_of(query@),
                    lower_of(neg_query@),
                    neg_query@.len() > 0,
                    limit as nat,
                );
                &&& ram.len() <= r.items@.len()
                &&& (forall|i: int| 0 <= i < ram.len() ==> (#[trigger] r.items@[i])@ == ram[i])
                &&& (deadline_ms == Some(0u64) ==> r.items@.len() == ram.len())
            }),
            ({
                let ram = ram_scan(
                    self.buffer_view(),
                    self.buffer_view().len() as int,
                    exact,
                    lower_of(query@),
                    lower_of(neg_query@),
                    neg_query@.len() > 0,
                    limit as nat,
                );
                views_of(
                    r.items@.subrange(ram.len() as int, r.items@.len() as int),
                ).to_multiset().subset_of(
                    self.index_matched(
                        exact,
                        lower_of(query@),
                        lower_of(neg_query@),
                        neg_query@.len() > 0,
                        self.store_bodies().len() as int,
                    ),
                )
            }),
            ({
                let ram = ram_scan(
                    self.buffer_view(),
                    self.buffer_view().len() as int,
                    exact,
                    lower_of(query@),
                    lower_of(neg_query@),
                    neg_query@.len() > 0,
                    limit as nat,
                );
                disk_runs(r.items@, ram.len() as int, self.store_bodies(), r.disk_keys@.0, r.disk_keys@.1)
                    && (neg_query@.len() == 0 ==> r.disk_keys@.0 == r.disk_keys@.1.len())
            }),
            deadline_ms is None ==> !r.truncated,
            (deadline_ms is None && limit >= self.doc_count()) ==> views_of(r.items@).to_multiset()
                =~= matched_in(
                bodies_of(self.buffer_view()),
                0,
                self.buffer_view().len() as int,
                exact,
                lower_of(query@),
                lower_of(neg_query@),
                neg_query@.len() > 0,
            ).add(
                self.index_matched(
                    exact,
                    lower_of(query@),
                    lower_of(neg_query@),
                    neg_query@.len() > 0,
                    self.store_bodies().len() as int,
                ),
            ),
    {
        let lq_chars = lower_chars(query);
        let ln_chars = lower_chars(neg_query);
        let use_neg: bool = !neg_query.is_empty();
        let ghost lq = lower_of(query@);
        let ghost ln = lower_of(neg_query@);
        let ghost bv = self.buffer_view();
        let ghost ram_full = ram_scan(bv, bv.len() as int, exact, lq, ln, use_neg, limit as nat);
        let mut items: Vec<String> = Vec::new();
        let ghost mut dk_m: int = 0;
        let ghost mut dk_ks: Seq<u64> = Seq::empty();
        // phase 1: scan the staged entries, largest sort key first
        let n: usize = self.buffer.len();
        let mut i: usize = n;
        while i > 0 && items.len() < limit
            invariant
                i <= n,
                items@.len() <= limit,
                views_of(items@) + ram_scan(
                    bv,
                    i as int,
                    exact,
                    lq,
                    ln,
                    use_neg,
                    (limit - items@.len()) as nat,
                ) == ram_full,
                forall|k: int|
                    0 <= k < items@.len() ==> doc_matches(
                        exact,
                        (#[trigger] items@[k])@,
                        lq,
                        ln,
                        use_neg,
                    ),
                forall|k: int|
                    0 <= k < items@.len() ==> self.corpus().count((#[trigger] items@[k])@) > 0,
            decreases i,
        {
            let ghost items_before = items@;
            let ghost rem = (limit - items@.len()) as nat;
            let body_ref = self.buffer.body_ref(i - 1);
            let body_lower = lower_chars(body_ref.as_str());
            let pos_ok: bool = crate::text::is_match(exact, &lq_chars, &body_lower);
            let neg_hit: bool = if use_neg {
                crate::text::is_match(exact, &ln_chars, &body_lower)
            } else {
                false
            };
            let ghost b = bv[i - 1].1;
            if pos_ok && !neg_hit {
                assert(doc_matches(exact, b, lq, ln, use_neg));
                items.push(body_ref.clone());
                proof {
                    assert(views_of(items@) =~= views_of(items_before).push(b));
                    assert(ram_scan(bv, i as int, exact, lq, ln, use_neg, rem) == seq![b]
                        + ram_scan(bv, i - 1, exact, lq, ln, use_neg, (rem - 1) as nat));
                    assert(views_of(items@) + ram_scan(
                        bv,
                        i - 1,
                        exact,
                        lq,
                        ln,
                        use_neg,
                        (limit - items@.len()) as nat,
                    ) =~= ram_full);
                    assert(self.corpus().count(b) > 0) by {
                        assert(bodies_of(bv).contains(b)) by {
                            assert(bodies_of(bv)[i - 1] == b);
                        }
                    }
                }
            } else {
                assert(!doc_matches(exact, b, lq, ln, use_neg));
            }
            i = i - 1;
        }
        proof {
            // phase 1 always produces the whole buffer-scan result
            if i == 0 {
                assert(ram_scan(bv, 0, exact, lq, ln, use_neg, (limit - items@.len()) as nat)
                    =~= Seq::<Seq<char>>::empty());
            } else {
                assert(items@.len() == limit);
                assert(ram_scan(bv, i as int, exact, lq, ln, use_neg, 0) =~= Seq::<
                    Seq<char>,
                >::empty());
            }
            assert(views_of(items@) =~= ram_full);
            assert(views_of(items@).len() == items@.len());
        }
        let ghost phase1 = items@;
        let mut truncated: bool = false;
        // phase 2: index-backed store scan, only if the limit is not met
        if items.len() < limit {
            let start = now_instant();
            let mut pos_keys = self.index.search(&lq_chars, exact);
            let ghost all_pos = pos_keys@;
            let mut neg_keys: Vec<u64> = Vec::new();
            if use_neg {
                let nk = self.index.search_or(&ln_chars);
                neg_keys = crate::keys::intersect_keys(&nk, &pos_keys);
                pos_keys = crate::keys::subtract_keys(&pos_keys, &nk);
            }
            let ghost ka_v = pos_keys@;
            let ghost kb_v = neg_keys@;
            proof {
                assert forall|jx: int|
                    0 <= jx < pos_keys@.len() implies (#[trigger] pos_keys@[jx])
                    < self.store_bodies().len() by {
                    assert(pos_keys@.contains(pos_keys@[jx]));
                }
                assert forall|jx: int|
                    0 <= jx < neg_keys@.len() implies (#[trigger] neg_keys@[jx])
                    < self.store_bodies().len() by {
                    assert(neg_keys@.contains(neg_keys@[jx]));
                }
            }
            let (t1, ksa_g) = self.scan_keys(
                &pos_keys,
                &lq_chars,
                &ln_chars,
                use_neg,
                exact,
                limit,
                deadline_ms,
                &start,
                &mut items,
            );
            let ghost ksa = ksa_g@;
            let ghost phase2 = items@;
            let mut t2: bool = false;
            let ghost mut ksb = Seq::<u64>::empty();
            if use_neg {
                let (t2r, ksb_g) = self.scan_keys(
                    &neg_keys,
                    &lq_chars,
                    &ln_chars,
                    use_neg,
                    exact,
                    limit,
                    deadline_ms,
                    &start,
                    &mut items,
                );
                t2 = t2r;
                proof {
                    ksb = ksb_g@;
                }
            }
            truncated = t1 || t2;
            proof {
                // the phase-1 items stay as the prefix of the result
                assert forall|k: int| 0 <= k < phase1.len() implies items@[k] == phase1[k] by {
                    assert(phase2.subrange(0, phase1.len() as int)[k] == phase2[k]);
                    assert(items@.subrange(0, phase2.len() as int)[k] == items@[k]);
                }
                // every returned document matches and lives in the corpus
                assert forall|k: int|
                    0 <= k < items@.len() implies doc_matches(
                    exact,
                    (#[trigger] items@[k])@,
                    lq,
                    ln,
                    use_neg,
                ) && self.corpus().count(items@[k]@) > 0 by {
                    if k < phase1.len() {
                        assert(items@[k] == phase1[k]);
                    } else if k < phase2.len() {
                        assert(items@.subrange(0, phase2.len() as int)[k] == items@[k]);
                        assert(items@[k] == phase2[k]);
                        assert(doc_matches(exact, phase2[k]@, lq, ln, use_neg));
                        assert(self.store_bodies().to_multiset().count(phase2[k]@) > 0);
                    } else {
                        assert(self.store_bodies().to_multiset().count(items@[k]@) > 0);
                    }
                }
                let sb = self.store_bodies();
                let nk = sb.len() as int;
                let p1 = phase1.len() as int;
                assert(p1 == ram_full.len()) by {
                    assert(views_of(phase1) =~= ram_full);
                    assert(views_of(phase1).len() == phase1.len());
                }
                // the two candidate lists are disjoint and together hold
                // exactly the scanned keys
                assert forall|k: u64|
                    #![trigger ka_v.contains(k)]
                    #![trigger kb_v.contains(k)]
                    #![trigger self.scanned_key(exact, lq, k)]
                    (ka_v.contains(k) || kb_v.contains(k)) <==> (k < nk && self.scanned_key(
                        exact,
                        lq,
                        k,
                    )) by {
                    if universal_query(exact, lq) {
                        assert(all_pos.contains(k) <==> k < self.index.next());
                    }
                    if !use_neg {
                        assert(kb_v.len() == 0);
                        assert(!kb_v.contains(k));
                    }
                }
                assert forall|k: u64|
                    #![trigger ka_v.contains(k)]
                    #![trigger kb_v.contains(k)]
                    !(ka_v.contains(k) && kb_v.contains(k)) by {
                    if !use_neg {
                        assert(kb_v.len() == 0);
                    }
                }
                let ha = ka_v.len() as int;
                let hb = kb_v.len() as int;
                let j0a = choose|j0: int|
                    0 <= j0 <= ka_v.len() && (!t1 && j0 > 0 ==> phase2.len() == limit) && views_of(
                        phase2,
                    ).to_multiset() =~= views_of(phase1).to_multiset().add(
                        matched_keys(sb, ka_v, j0, ha, exact, lq, ln, use_neg),
                    );
                let j0b: int = if use_neg {
                    choose|j0: int|
                        0 <= j0 <= kb_v.len() && (!t2 && j0 > 0 ==> items@.len() == limit)
                            && views_of(items@).to_multiset() =~= views_of(
                            phase2,
                        ).to_multiset().add(matched_keys(sb, kb_v, j0, hb, exact, lq, ln, use_neg))
                } else {
                    0
                };
                if !use_neg {
                    assert(items@ == phase2);
                    assert(matched_keys(sb, kb_v, 0, hb, exact, lq, ln, use_neg) =~= Multiset::<
                        Seq<char>,
                    >::empty());
                    assert(views_of(items@).to_multiset() =~= views_of(phase2).to_multiset().add(
                        matched_keys(sb, kb_v, j0b, hb, exact, lq, ln, use_neg),
                    ));
                }
                let mka = matched_keys(sb, ka_v, j0a, ha, exact, lq, ln, use_neg);
                let mkb = matched_keys(sb, kb_v, j0b, hb, exact, lq, ln, use_neg);
                // the items after the buffer-scan prefix are exactly the
                // kept store documents of the two passes
                let suffix = items@.subrange(p1, items@.len() as int);
                assert(items@.subrange(0, p1) =~= phase1);
                assert(items@ =~= items@.subrange(0, p1) + suffix);
                assert(views_of(items@) =~= views_of(phase1) + views_of(suffix));
                lemma_multiset_commutative(views_of(phase1), views_of(suffix));
                assert(views_of(items@).to_multiset() =~= views_of(phase1).to_multiset().add(
                    mka.add(mkb),
                ));
                lemma_add_cancel(
                    views_of(phase1).to_multiset(),
                    views_of(suffix).to_multiset(),
                    mka.add(mkb),
                );
                // they stay within the matching index candidates
                lemma_matched_keys_suffix_le(sb, ka_v, 0, j0a, ha, exact, lq, ln, use_neg);
                lemma_matched_keys_suffix_le(sb, kb_v, 0, j0b, hb, exact, lq, ln, use_neg);
                lemma_subset_add(
                    mka,
                    matched_keys(sb, ka_v, 0, ha, exact, lq, ln, use_neg),
                    mkb,
                    matched_keys(sb, kb_v, 0, hb, exact, lq, ln, use_neg),
                );
                self.lemma_keys_cover_index_matched(ka_v, kb_v, nk, exact, lq, ln, use_neg);
                assert(views_of(suffix).to_multiset().subset_of(
                    self.index_matched(exact, lq, ln, use_neg, nk),
                ));
                // and they arrive as two strictly descending key runs
                assert(disk_runs(items@, p1, sb, ksa.len() as int, ksa + ksb)) by {
                    let ks = ksa + ksb;
                    assert(ksa.len() == phase2.len() - phase1.len());
                    assert(ksb.len() == items@.len() - phase2.len());
                    assert forall|nx: int|
                        0 <= nx < ks.len() implies (#[trigger] ks[nx]) < sb.len() && items@[p1 + nx]@
                        == sb[ks[nx] as int] by {
                        if nx < ksa.len() {
                            assert(ks[nx] == ksa[nx]);
                            assert(phase2[phase1.len() + nx]@ == sb[ksa[nx] as int]);
                            assert(items@.subrange(0, phase2.len() as int)[phase1.len() + nx]
                                == items@[phase1.len() + nx]);
                        } else {
                            assert(ks[nx] == ksb[nx - ksa.len()]);
                            assert(items@[phase2.len() + (nx - ksa.len())]@ == sb[ksb[nx
                                - ksa.len()] as int]);
                        }
                    }
                }
                if !use_neg {
                    assert(ksb.len() == 0);
                    assert((ksa + ksb).len() == ksa.len());
                }
                dk_m = ksa.len() as int;
                dk_ks = ksa + ksb;
                assert(disk_runs(
                    items@,
                    ram_full.len() as int,
                    self.store_bodies(),
                    dk_m,
                    dk_ks,
                ));
                // completeness without a deadline: every visited matching
                // document is returned
                if deadline_ms is None && limit >= self.doc_count() {
                    assert(!t1 && !t2);
                    lemma_disjoint_keys_bounded(ka_v, kb_v, nk);
                    lemma_matched_keys_len(sb, ka_v, j0a, ha, exact, lq, ln, use_neg);
                    lemma_matched_keys_len(sb, kb_v, j0b, hb, exact, lq, ln, use_neg);
                    lemma_ram_scan_len(bv, bv.len() as int, exact, lq, ln, use_neg, limit as nat);
                    assert(phase1.len() <= bv.len()) by {
                        assert(views_of(phase1).len() == phase1.len());
                        assert(views_of(phase1) =~= ram_full);
                    }
                    assert(views_of(items@).to_multiset().len() == items@.len());
                    assert(views_of(phase2).to_multiset().len() == phase2.len());
                    assert(views_of(phase1).to_multiset().len() == phase1.len());
                    assert(items@.len() == phase1.len() + matched_keys(
                        sb,
                        ka_v,
                        j0a,
                        ha,
                        exact,
                        lq,
                        ln,
                        use_neg,
                    ).len() + matched_keys(sb, kb_v, j0b, hb, exact, lq, ln, use_neg).len());
                    if j0a > 0 || j0b > 0 {
                        // the limit cannot be hit while matched keys remain
                        assert(items@.len() == limit) by {
                            if j0a > 0 {
                                assert(phase2.len() == limit);
                                assert(items@.len() >= phase2.len());
                            }
                        }
                        assert(items@.len() <= phase1.len() + (ha - j0a) + (hb - j0b));
                        assert(items@.len() < bv.len() + nk);
                        assert(limit < self.doc_count());
                        assert(false);
                    }
                    lemma_ram_scan_complete(
                        bv,
                        bv.len() as int,
                        exact,
                        lq,
                        ln,
                        use_neg,
                        limit as nat,
                    );
                    assert(views_of(items@).to_multiset() =~= matched_in(
                        bodies_of(bv),
                        0,
                        bv.len() as int,
                        exact,
                        lq,
                        ln,
                        use_neg,
                    ).add(self.index_matched(exact, lq, ln, use_neg, nk)));
                }
            }
        } else {
            proof {
                // no store scan ran: the result is the buffer scan alone
                let sb = self.store_bodies();
                let p1 = items@.len() as int;
                assert(p1 == ram_full.len()) by {
                    assert(views_of(items@) =~= ram_full);
                    assert(views_of(items@).len() == items@.len());
                }
                let suffix = items@.subrange(p1, items@.len() as int);
                assert(suffix =~= Seq::<String>::empty());
                assert(views_of(suffix) =~= Seq::<Seq<char>>::empty());
                assert forall|v: Seq<char>|
                    views_of(suffix).to_multiset().count(v) <= self.index_matched(
                        exact,
                        lq,
                        ln,
                        use_neg,
                        sb.len() as int,
                    ).count(v) by {
                    if views_of(suffix).to_multiset().count(v) > 0 {
                        assert(views_of(suffix).contains(v));
                    }
                }
                assert(disk_runs(items@, p1, sb, 0, Seq::<u64>::empty()));
                assert(disk_runs(
                    items@,
                    ram_full.len() as int,
                    self.store_bodies(),
                    dk_m,
                    dk_ks,
                ));
                // the limit was already met by the buffer scan; under the
                // completeness hypotheses that forces an empty store
                if deadline_ms is None && limit >= self.doc_count() {
                    assert(items@.len() == limit);
                    lemma_ram_scan_len(bv, bv.len() as int, exact, lq, ln, use_neg, limit as nat);
                    assert(views_of(items@) =~= ram_full);
                    assert(views_of(items@).len() == items@.len());
                    assert(limit <= bv.len());
                    assert(self.store_bodies().len() == 0);
                    lemma_ram_scan_complete(
                        bv,
                        bv.len() as int,
                        exact,
                        lq,
                        ln,
                        use_neg,
                        limit as nat,
                    );
                    assert(self.index_matched(exact, lq, ln, use_neg, 0) =~= Multiset::<
                        Seq<char>,
                    >::empty());
                    assert(views_of(items@).to_multiset() =~= matched_in(
                        bodies_of(bv),
                        0,
                        bv.len() as int,
                        exact,
                        lq,
                        ln,
                        use_neg,
                    ).add(self.index_matched(exact, lq, ln, use_neg, 0)));
                }
            }
        }
        QueryOutcome { items, truncated, disk_keys: Ghost((dk_m, dk_ks)) }
    }
}

/// Everything a host needs to persist the engine and rebuild it.
pub struct EngineParts {
    pub index_rows: Vec<(u64, u64, u64, Vec<u64>)>,
    pub next_key: u64,
    pub store_log: Vec<u8>,
    pub store_entries: Vec<(usize, usize, bool)>,
    pub store_dict: Vec<u8>,
    pub store_trained: bool,
    pub buffer_pairs: Vec<(String, String)>,
    pub budget: usize,
    pub dict_threshold: usize,
    pub total_bytes: u64,
}

/// Law (persistence round trip): rebuilding an engine from persisted parts
/// reproduces the corpus exactly — the chunk equations pin every stored
/// text, and the sorted pairs pin the staging buffer. The hypotheses are
/// what `to_parts` ensures of the saved engine and what `from_parts`
/// ensures of the reloaded one.
pub proof fn lemma_reload_preserves_corpus(saved: Engine, reloaded: Engine, parts: EngineParts)
    requires
        pairs_view(parts.buffer_pairs@) == saved.buffer_view(),
        pairs_sorted(parts.buffer_pairs@),
        saved.next_key() == parts.next_key,
        reloaded.next_key() == parts.next_key,
        forall|t: u64, k: u64|
            crate::index::parts_posting_has(parts.index_rows@, t, k) <==> saved.posting_has(t, k),
        forall|t: u64, k: u64|
            reloaded.posting_has(t, k) <==> crate::index::parts_posting_has(
                parts.index_rows@,
                t,
                k,
            ),
        parts.store_entries@.len() == saved.store_bodies().len(),
        forall|k: int|
            0 <= k < parts.store_entries@.len() ==> crate::store::parts_body_eqn(
                parts.store_log@,
                parts.store_entries@,
                parts.store_dict@,
                saved.store_bodies(),
                k,
            ),
        reloaded.store_bodies().len() == parts.store_entries@.len(),
        forall|k: int|
            0 <= k < parts.store_entries@.len() ==> crate::store::parts_body_eqn(
                parts.store_log@,
                parts.store_entries@,
                parts.store_dict@,
                reloaded.store_bodies(),
                k,
            ),
        reloaded.buffer_view() == pairs_view(parts.buffer_pairs@),
    ensures
        reloaded.corpus() == saved.corpus(),
        reloaded.doc_count() == saved.doc_count(),
        reloaded.buffer_view() == saved.buffer_view(),
        reloaded.store_bodies() == saved.store_bodies(),
        reloaded.next_key() == saved.next_key(),
        forall|t: u64, k: u64| reloaded.posting_has(t, k) == saved.posting_has(t, k),
{
    crate::store::lemma_parts_fix_bodies(
        parts.store_log@,
        parts.store_entries@,
        parts.store_dict@,
        saved.store_bodies(),
        reloaded.store_bodies(),
    );
    assert(reloaded.store_bodies() == saved.store_bodies());
}

/// The staged pairs as character sequences.
pub open spec fn pairs_view(pairs: Seq<(String, String)>) -> Seq<(Seq<char>, Seq<char>)> {
    pairs.map_values(|p: (String, String)| (p.0@, p.1@))
}

/// The persisted buffer pairs are strictly ascending by sort key.
pub open spec fn pairs_sorted(pairs: Seq<(String, String)>) -> bool {
    forall|p: int, q: int|
        0 <= p < q < pairs.len() ==> crate::buffer::lex_lt(
            (#[trigger] pairs[p]).0@,
            (#[trigger] pairs[q]).0@,
        )
}

impl Engine {
    /// The engine as plain values a host can persist.
    pub fn to_parts(&self) -> (r: EngineParts)
        requires
            self.wf(),
        ensures
            r.next_key == self.next_key(),
            r.buffer_pairs@.len() == self.buffer_view().len(),
            pairs_view(r.buffer_pairs@) =~= self.buffer_view(),
            pairs_sorted(r.buffer_pairs@),
            bytes_of(pairs_view(r.buffer_pairs@)) <= r.budget,
            crate::index::index_parts_wf(r.index_rows@, r.next_key),
            forall|t: u64, k: u64|
                crate::index::parts_posting_has(r.index_rows@, t, k) <==> self.posting_has(t, k),
            crate::store::from_parts_ok(r.store_log@, r.store_entries@, r.store_dict@, r.store_trained),
            r.store_entries@.len() == self.store_bodies().len(),
            r.next_key == r.store_entries@.len(),
            r.next_key <= usize::MAX,
            forall|k: int|
                0 <= k < r.store_entries@.len() ==> crate::store::parts_body_eqn(
                    r.store_log@,
                    r.store_entries@,
                    r.store_dict@,
                    self.store_bodies(),
                    k,
                ),
            r.total_bytes == self.total_bytes_spec(),
            r.budget == self.budget_spec(),
            r.dict_threshold == self.dict_threshold_spec(),
    {
        let (index_rows, next_key) = self.index.to_parts();
        let (store_log, store_entries, store_dict, store_trained) = self.store.to_parts();
        let buffer_pairs = self.buffer.to_pairs();
        proof {
            assert(pairs_view(buffer_pairs@) =~= self.buffer_view());
            assert(bytes_of(pairs_view(buffer_pairs@)) == bytes_of(self.buffer_view()));
        }
        EngineParts {
            index_rows,
            next_key,
            store_log,
            store_entries,
            store_dict,
            store_trained,
            buffer_pairs,
            budget: self.budget,
            dict_threshold: self.dict_threshold,
            total_bytes: self.total_bytes,
        }
    }

    /// Rebuilds an engine from persisted parts, re-validating everything:
    /// the store chunks must decode, the posting table must be ordered and
    /// bounded, the keys must be dense, and the staged bytes must fit the
    /// budget. `None` on any failure; the caller then starts fresh.
    #[verifier::loop_isolation(false)]
    pub fn from_parts(parts: EngineParts) -> (r: Option<Engine>)
        ensures
            r is Some ==> {
                let e = r->0;
                &&& e.wf()
                &&& e.budget_spec() == parts.budget
                &&& e.dict_threshold_spec() == parts.dict_threshold
                &&& e.total_bytes_spec() == parts.total_bytes
                &&& e.next_key() == parts.next_key
                &&& e.store_bodies().len() == parts.store_entries@.len()
                &&& forall|k: int|
                    0 <= k < parts.store_entries@.len() ==> crate::store::parts_body_eqn(
                        parts.store_log@,
                        parts.store_entries@,
                        parts.store_dict@,
                        e.store_bodies(),
                        k,
                    )
                &&& forall|t: u64, k: u64|
                    e.posting_has(t, k) <==> crate::index::parts_posting_has(
                        parts.index_rows@,
                        t,
                        k,
                    )
                &&& pairs_sorted(parts.buffer_pairs@) ==> e.buffer_view() =~= pairs_view(
                    parts.buffer_pairs@,
                )
            },
            ({
                // everything to_parts saves is accepted back
                &&& crate::store::from_parts_ok(
                    parts.store_log@,
                    parts.store_entries@,
                    parts.store_dict@,
                    parts.store_trained,
                )
                &&& crate::index::index_parts_wf(parts.index_rows@, parts.next_key)
                &&& parts.next_key == parts.store_entries@.len()
                &&& parts.next_key <= usize::MAX
                &&& pairs_sorted(parts.buffer_pairs@)
                &&& bytes_of(pairs_view(parts.buffer_pairs@)) <= parts.budget
            }) ==> r is Some,
    {
        let store = match DocStore::from_parts(
            parts.store_log,
            parts.store_entries,
            parts.store_dict,
            parts.store_trained,
        ) {
            Some(s) => s,
            None => {
                return None;
            },
        };
        let index = match SearchIndex::from_parts(&parts.index_rows, parts.next_key) {
            Some(i) => i,
            None => {
                return None;
            },
        };
        // document keys must be dense: the next key is the store length
        if parts.next_key > (usize::MAX as u64) {
            return None;
        }
        if index.get_size() != store.count() {
            return None;
        }
        let mut buffer = StagingBuffer::new();
        let pairs = parts.buffer_pairs;
        let ghost pv = pairs_view(pairs@);
        let mut i: usize = 0;
        while i < pairs.len()
            invariant
                i <= pairs@.len(),
                buffer.wf(),
                pv == pairs_view(pairs@),
                pairs_sorted(pairs@) ==> buffer.view_pairs() =~= pv.subrange(0, i as int),
            decreases pairs@.len() - i,
        {
            let ghost before = buffer.view_pairs();
            let key_chars = crate::text::chars_of(pairs[i].0.as_str());
            let body = pairs[i].1.clone();
            let body_bytes = vstd::string::StrSliceExecFns::as_bytes_vec(body.as_str());
            let blen: usize = body_bytes.len();
            assert(blen == byte_len(body@));
            let staged: usize = buffer.bytes();
            if blen > usize::MAX - staged {
                proof {
                    // under the budgeted, sorted hypothesis the counters fit
                    if pairs_sorted(pairs@) && bytes_of(pv) <= parts.budget {
                        assert(buffer.view_pairs() =~= pv.subrange(0, i as int));
                        assert(staged == bytes_of(pv.subrange(0, i as int)));
                        assert(pv.subrange(0, i + 1).drop_last() =~= pv.subrange(0, i as int));
                        assert(pv.subrange(0, i + 1).last() == pv[i as int]);
                        assert(body@ == pv[i as int].1);
                        crate::buffer::lemma_bytes_of_concat(
                            pv.subrange(0, i + 1),
                            pv.subrange(i + 1, pv.len() as int),
                        );
                        assert(pv =~= pv.subrange(0, i + 1) + pv.subrange(i + 1, pv.len() as int));
                        assert(bytes_of(pv.subrange(0, i + 1)) <= bytes_of(pv));
                        assert(false);
                    }
                }
                return None;
            }
            buffer.insert(key_chars, body);
            i = i + 1;
            proof {
                if pairs_sorted(pairs@) {
                    // the keys arrive in ascending order, so each insert
                    // appends at the end
                    let kv = pv[i - 1].0;
                    assert(forall|m: int|
                        0 <= m < before.len() ==> crate::buffer::lex_lt(
                            (#[trigger] before[m]).0,
                            kv,
                        ));
                    assert(!(exists|n: int|
                        0 <= n < before.len() && (#[trigger] before[n]).0 == kv)) by {
                        if exists|n: int| 0 <= n < before.len() && (#[trigger] before[n]).0 == kv {
                            let n = choose|n: int|
                                0 <= n < before.len() && (#[trigger] before[n]).0 == kv;
                            crate::buffer::lemma_lex_irrefl(kv);
                        }
                    }
                    let n = choose|n: int|
                        0 <= n <= before.len() && buffer.view_pairs() == #[trigger] before.insert(
                            n,
                            (kv, pv[i - 1].1),
                        );
                    assert(n == before.len()) by {
                        if n < before.len() {
                            before.insert_ensures(n, (kv, pv[i - 1].1));
                            assert(buffer.view_pairs()[n] == (kv, pv[i - 1].1));
                            assert(buffer.view_pairs()[n + 1] == before[n]);
                            assert(crate::buffer::view_sorted(buffer.view_pairs()));
                            assert(crate::buffer::lex_lt(kv, before[n].0));
                            crate::buffer::lemma_lex_irrefl(kv);
                            crate::buffer::lemma_lex_trans(kv, before[n].0, kv);
                        }
                    }
                    assert(buffer.view_pairs() =~= before.push((kv, pv[i - 1].1)));
                    assert(buffer.view_pairs() =~= pv.subrange(0, i as int));
                }
            }
        }
        proof {
            if pairs_sorted(pairs@) {
                assert(pv.subrange(0, pv.len() as int) =~= pv);
            }
        }
        if buffer.bytes() > parts.budget {
            return None;
        }
        let engine = Engine {
            buffer,
            index,
            store,
            budget: parts.budget,
            dict_threshold: parts.dict_threshold,
            total_bytes: parts.total_bytes,
        };
        Some(engine)
    }
}


} // verus!
