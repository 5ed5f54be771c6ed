//! The library's stated guarantees, written out as lemmas over the same
//! spec functions the executable contracts use.

use vstd::prelude::*;

verus! {

use vstd::multiset::Multiset;
use crate::engine::{bodies_of, doc_matches, matched_in, views_of, Engine};
use crate::index::{has_short_term, has_term, spec_term_at, universal_query};
use crate::text::{
    contains_at, is_token_at, match_pred, match_tokens, seq_contains, spec_is_space,
};

broadcast use vstd::seq_lib::group_to_multiset_ensures, vstd::multiset::group_multiset_axioms;

/// Law: one insert adds exactly one occurrence of the inserted body to the
/// live corpus and leaves the count of every other text unchanged — the
/// document ends up in the staging buffer or in the store, never both and
/// never neither. (The hypothesis is what `Engine::insert` ensures for a
/// sort key that is not already staged.)
pub proof fn lemma_insert_adds_exactly_one(pre: Engine, post: Engine, body: Seq<char>)
    requires
        post.corpus() == pre.corpus().insert(body),
    ensures
        post.corpus().count(body) == pre.corpus().count(body) + 1,
        forall|other: Seq<char>|
            other != body ==> post.corpus().count(other) == pre.corpus().count(other),
{
}

/// Law: a document that matches an exact query contains the query as a
/// contiguous substring (both sides lower-cased by the executor).
pub proof fn lemma_exact_match_is_substring(hay: Seq<char>, q: Seq<char>)
    requires
        match_pred(true, hay, q),
    ensures
        seq_contains(hay, q),
{
    if q.len() == 0 {
        assert(hay.subrange(0, 0) =~= q);
        assert(contains_at(hay, q, 0));
    }
}

/// Law: a document that matches a tokenised query contains every
/// whitespace-separated token of the query.
pub proof fn lemma_tokenised_match_has_every_token(hay: Seq<char>, q: Seq<char>, i: int, j: int)
    requires
        match_pred(false, hay, q),
        is_token_at(q, i, j),
    ensures
        seq_contains(hay, q.subrange(i, j)),
{
}

/// Law: a returned document never matches a non-empty negative query; for
/// a negative query that is a single token (no separator characters), that
/// means the document does not contain the negative text at all. (For a
/// multi-token negative query, only documents containing every one of its
/// tokens are excluded.)
pub proof fn lemma_negative_single_token_excluded(hay: Seq<char>, nq: Seq<char>)
    requires
        !match_pred(false, hay, nq),
        nq.len() > 0,
        forall|k: int| 0 <= k < nq.len() ==> !spec_is_space(nq[k]),
    ensures
        !seq_contains(hay, nq),
{
    assert(is_token_at(nq, 0, nq.len() as int));
    if seq_contains(hay, nq) {
        assert forall|a: int, b: int| is_token_at(nq, a, b) implies seq_contains(
            hay,
            nq.subrange(a, b),
        ) by {
            assert(a == 0) by {
                if a > 0 {
                    assert(!spec_is_space(nq[a - 1]));
                }
            }
            assert(b == nq.len()) by {
                if b < nq.len() {
                    assert(!spec_is_space(nq[b]));
                }
            }
            assert(nq.subrange(a, b) =~= nq);
        }
        assert(match_tokens(hay, nq));
    }
}

/// Law: a returned document never matches a non-empty exact negative
/// query — it does not contain the negative text as a substring.
pub proof fn lemma_negative_exact_excluded(hay: Seq<char>, nq: Seq<char>)
    requires
        !match_pred(true, hay, nq),
        nq.len() > 0,
    ensures
        !seq_contains(hay, nq),
{
}

/// Law: the empty query constrains nothing — it has no term, so the index
/// falls back to the universal candidate set.
pub proof fn lemma_empty_query_is_universal(exact: bool, q: Seq<char>)
    requires
        q.len() == 0,
    ensures
        universal_query(exact, q),
{
    assert(!has_term(exact, q)) by {
        if has_term(exact, q) {
            let (i, j) = choose|i: int, j: int| spec_term_at(exact, q, i, j);
        }
    }
}

/// With an empty query and no negative query, the index-backed scan
/// visits every stored document and every one matches.
pub proof fn lemma_index_matched_all(
    e: Engine,
    hi: int,
    exact: bool,
    lq: Seq<char>,
    ln: Seq<char>,
)
    requires
        0 <= hi <= e.store_bodies().len(),
        lq.len() == 0,
    ensures
        e.index_matched(exact, lq, ln, false, hi) =~= e.store_bodies().subrange(
            0,
            hi,
        ).to_multiset(),
    decreases hi,
{
    if hi == 0 {
        assert(e.store_bodies().subrange(0, 0) =~= Seq::<Seq<char>>::empty());
    } else {
        lemma_index_matched_all(e, hi - 1, exact, lq, ln);
        lemma_empty_query_is_universal(exact, lq);
        assert(e.scanned_key(exact, lq, (hi - 1) as u64));
        assert(doc_matches(exact, e.store_bodies()[hi - 1], lq, ln, false));
        let sb = e.store_bodies();
        assert(sb.subrange(0, hi) =~= sb.subrange(0, hi - 1).push(sb[hi - 1]));
        assert(sb.subrange(0, hi - 1).push(sb[hi - 1]).to_multiset() =~= sb.subrange(
            0,
            hi - 1,
        ).to_multiset().insert(sb[hi - 1]));
    }
}

/// With an empty query and no negative query, every document matches.
pub proof fn lemma_matched_in_all(
    bodies: Seq<Seq<char>>,
    hi: int,
    exact: bool,
    lq: Seq<char>,
    ln: Seq<char>,
)
    requires
        0 <= hi <= bodies.len(),
        lq.len() == 0,
    ensures
        matched_in(bodies, 0, hi, exact, lq, ln, false) =~= bodies.subrange(0, hi).to_multiset(),
    decreases hi,
{
    if hi == 0 {
        assert(bodies.subrange(0, 0) =~= Seq::<Seq<char>>::empty());
    } else {
        lemma_matched_in_all(bodies, hi - 1, exact, lq, ln);
        assert(doc_matches(exact, bodies[hi - 1], lq, ln, false));
        assert(bodies.subrange(0, hi) =~= bodies.subrange(0, hi - 1).push(bodies[hi - 1]));
        assert(bodies.subrange(0, hi - 1).push(bodies[hi - 1]).to_multiset() =~= bodies.subrange(
            0,
            hi - 1,
        ).to_multiset().insert(bodies[hi - 1]));
    }
}

/// Law (round trip): when a query's result is complete — as `Engine::find`
/// ensures for an unconstrained query without negatives, no deadline and a
/// limit of at least the corpus size — an empty query returns exactly one
/// item per live document.
pub proof fn lemma_round_trip_returns_all(
    e: Engine,
    items: Seq<String>,
    exact: bool,
    lq: Seq<char>,
    ln: Seq<char>,
)
    requires
        lq.len() == 0,
        views_of(items).to_multiset() =~= matched_in(
            bodies_of(e.buffer_view()),
            0,
            e.buffer_view().len() as int,
            exact,
            lq,
            ln,
            false,
        ).add(e.index_matched(exact, lq, ln, false, e.store_bodies().len() as int)),
    ensures
        items.len() == e.doc_count(),
        views_of(items).to_multiset() =~= e.corpus(),
{
    let bb = bodies_of(e.buffer_view());
    let sb = e.store_bodies();
    lemma_matched_in_all(bb, bb.len() as int, exact, lq, ln);
    lemma_index_matched_all(e, sb.len() as int, exact, lq, ln);
    assert(bb.subrange(0, bb.len() as int) =~= bb);
    assert(sb.subrange(0, sb.len() as int) =~= sb);
    assert(views_of(items).to_multiset() =~= e.corpus());
    assert(views_of(items).to_multiset().len() == bb.to_multiset().len() + sb.to_multiset().len());
    assert(views_of(items).len() == items.len());
}

/// Law: an empty document matches the empty query, and nothing else — an
/// exact query must occur in it, and a tokenised query's every token must
/// occur in it, which is impossible for any query with a token. (The
/// lower-casing wrapper guarantees a nonempty query lowers to nonempty
/// text, so the hypotheses below cover every nonempty query.)
pub proof fn lemma_empty_body_matches_only_empty_query(hay: Seq<char>, q: Seq<char>, exact: bool)
    requires
        hay.len() == 0,
    ensures
        q.len() == 0 ==> match_pred(exact, hay, q),
        exact && q.len() > 0 ==> !match_pred(exact, hay, q),
        !exact && has_term(false, q) ==> !match_pred(exact, hay, q),
{
    if exact && q.len() > 0 {
        assert(!seq_contains(hay, q)) by {
            if seq_contains(hay, q) {
                let i = choose|i: int| contains_at(hay, q, i);
            }
        }
    }
    if !exact && has_term(false, q) {
        let (i, j) = choose|i: int, j: int| spec_term_at(false, q, i, j);
        assert(is_token_at(q, i, j));
        assert(q.subrange(i, j).len() > 0);
        assert(!seq_contains(hay, q.subrange(i, j))) by {
            if seq_contains(hay, q.subrange(i, j)) {
                let w = choose|w: int| contains_at(hay, q.subrange(i, j), w);
            }
        }
        assert(!match_tokens(hay, q));
    }
}

/// Law: a query with any term shorter than a trigram bypasses the index.
pub proof fn lemma_short_term_is_universal(exact: bool, q: Seq<char>)
    requires
        has_short_term(exact, q),
    ensures
        universal_query(exact, q),
{
}

} // verus!
