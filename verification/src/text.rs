//! Character-level text model: lower-casing, substring containment and
//! whitespace-token matching, shared by the query executor and the index.

use vstd::prelude::*;

verus! {

use vstd::string::StrSliceExecFns;

/// What `str::to_lowercase` returns for a given sequence of characters.
pub uninterp spec fn lower_of(s: Seq<char>) -> Seq<char>;

/// Relies on `str::to_lowercase`: the result depends on the characters
/// alone; an empty input yields an empty result, and every character
/// lowercases to at least one character, so a nonempty input stays
/// nonempty.
#[verifier::external_body]
pub(crate) fn to_lower(s: &str) -> (r: String)
    ensures
        r@ == lower_of(s@),
        s@.len() == 0 ==> r@.len() == 0,
        s@.len() > 0 ==> r@.len() > 0,
{
    s.to_lowercase()
}

/// The characters of a string slice, as a vector.
pub fn chars_of(s: &str) -> (v: Vec<char>)
    ensures
        v@ == s@,
{
    let n: usize = s.unicode_len();
    let mut v: Vec<char> = Vec::new();
    let mut i: usize = 0;
    while i < n
        invariant
            i <= n,
            n == s@.len(),
            v@ == s@.subrange(0, i as int),
        decreases n - i,
    {
        v.push(s.get_char(i));
        i = i + 1;
        assert(v@ =~= s@.subrange(0, i as int));
    }
    assert(v@ =~= s@);
    v
}

/// Relies on collecting a `char` iterator into a `String`: the string's
/// characters are exactly the collected ones.
#[verifier::external_body]
pub(crate) fn chars_to_string(v: &Vec<char>) -> (r: String)
    ensures
        r@ == v@,
{
    v.iter().collect()
}

/// The characters of the lower-cased form of a string slice.
pub fn lower_chars(s: &str) -> (v: Vec<char>)
    ensures
        v@ == lower_of(s@),
{
    let lowered = to_lower(s);
    chars_of(lowered.as_str())
}

/// `needle` occurs in `hay` starting at position `i`.
pub open spec fn contains_at(hay: Seq<char>, needle: Seq<char>, i: int) -> bool {
    0 <= i && i + needle.len() <= hay.len() && hay.subrange(i, i + needle.len()) == needle
}

/// `needle` occurs somewhere in `hay` as a contiguous subsequence.
pub open spec fn seq_contains(hay: Seq<char>, needle: Seq<char>) -> bool {
    exists|i: int| contains_at(hay, needle, i)
}

/// The characters treated as token separators when a query is tokenised.
pub open spec fn spec_is_space(c: char) -> bool {
    c == ' ' || c == '\t' || c == '\n' || c == '\r'
}

/// Executable form of `spec_is_space`.
pub fn is_space(c: char) -> (r: bool)
    ensures
        r == spec_is_space(c),
{
    c == ' ' || c == '\t' || c == '\n' || c == '\r'
}

/// `q.subrange(i, j)` is a maximal run of non-separator characters of `q`.
pub open spec fn is_token_at(q: Seq<char>, i: int, j: int) -> bool {
    &&& 0 <= i < j <= q.len()
    &&& (forall|k: int| i <= k < j ==> !spec_is_space(q[k]))
    &&& (i == 0 || spec_is_space(q[i - 1]))
    &&& (j == q.len() || spec_is_space(q[j]))
}

/// Every whitespace-separated token of `q` occurs in `hay`.
pub open spec fn match_tokens(hay: Seq<char>, q: Seq<char>) -> bool {
    forall|i: int, j: int| is_token_at(q, i, j) ==> seq_contains(hay, q.subrange(i, j))
}

/// The match predicate of the query executor, over already lower-cased
/// character sequences: an empty query matches everything; an exact query
/// must occur contiguously; a tokenised query needs every token to occur.
pub open spec fn match_pred(exact: bool, hay: Seq<char>, q: Seq<char>) -> bool {
    if q.len() == 0 {
        true
    } else if exact {
        seq_contains(hay, q)
    } else {
        match_tokens(hay, q)
    }
}

/// Whether `needle` occurs in `hay` at position `i`.
#[verifier::loop_isolation(false)]
pub(crate) fn match_at(hay: &Vec<char>, needle: &Vec<char>, i: usize) -> (r: bool)
    requires
        i + needle@.len() <= hay@.len(),
    ensures
        r == contains_at(hay@, needle@, i as int),
{
    let n: usize = needle.len();
    let hlen: usize = hay.len();
    let mut j: usize = 0;
    while j < n
        invariant
            j <= n,
            n == needle@.len(),
            hlen == hay@.len(),
            i + n <= hlen,
            forall|k: int| 0 <= k < j ==> hay@[i + k] == needle@[k],
        decreases n - j,
    {
        if hay[i + j] != needle[j] {
            assert(!contains_at(hay@, needle@, i as int)) by {
                assert(hay@.subrange(i as int, i + needle@.len())[j as int] == hay@[i + j]);
            }
            return false;
        }
        j = j + 1;
    }
    assert(hay@.subrange(i as int, i + needle@.len()) =~= needle@);
    true
}

/// Whether `needle` occurs anywhere in `hay`.
#[verifier::loop_isolation(false)]
pub fn contains_sub(hay: &Vec<char>, needle: &Vec<char>) -> (r: bool)
    ensures
        r == seq_contains(hay@, needle@),
{
    if needle.len() == 0 {
        assert(hay@.subrange(0, 0) =~= needle@);
        assert(contains_at(hay@, needle@, 0));
        return true;
    }
    if needle.len() > hay.len() {
        assert(forall|i: int| !contains_at(hay@, needle@, i));
        return false;
    }
    let end: usize = hay.len() - needle.len();
    let mut i: usize = 0;
    while i <= end
        invariant
            i <= end + 1,
            forall|k: int| 0 <= k < i ==> !contains_at(hay@, needle@, k),
        decreases end + 1 - i,
    {
        if match_at(hay, needle, i) {
            return true;
        }
        i = i + 1;
    }
    assert(forall|k: int| k > end ==> !contains_at(hay@, needle@, k));
    false
}

/// Whether the (lower-cased) document `hay` matches the (lower-cased)
/// query `needle` under the given exact/tokenised mode.
#[verifier::loop_isolation(false)]
pub fn is_match(exact: bool, needle: &Vec<char>, hay: &Vec<char>) -> (r: bool)
    ensures
        r == match_pred(exact, hay@, needle@),
{
    let n: usize = needle.len();
    if n == 0 {
        return true;
    }
    if exact {
        return contains_sub(hay, needle);
    }
    let ghost q = needle@;
    let mut i: usize = 0;
    while i < n
        invariant
            i <= n,
            n == needle@.len(),
            q == needle@,
            i == 0 || i == n || spec_is_space(q[i - 1]) || spec_is_space(q[i as int]),
            forall|a: int, b: int|
                is_token_at(q, a, b) && b <= i ==> seq_contains(hay@, q.subrange(a, b)),
        decreases n - i,
    {
        // skip separators up to the next token start
        if is_space(needle[i]) {
            assert(forall|a: int, b: int|
                is_token_at(q, a, b) && b <= i + 1 ==> seq_contains(hay@, q.subrange(a, b)));
            i = i + 1;
            continue;
        }
        // the token starts at i and runs to the next separator (or the end)
        assert(i == 0 || spec_is_space(q[i - 1]));
        let start: usize = i;
        let mut j: usize = i;
        while j < n && !is_space(needle[j])
            invariant
                i <= j <= n,
                n == needle@.len(),
                q == needle@,
                forall|k: int| i <= k < j ==> !spec_is_space(q[k]),
            decreases n - j,
        {
            j = j + 1;
        }
        assert(is_token_at(q, start as int, j as int));
        let mut token: Vec<char> = Vec::new();
        let mut k: usize = start;
        while k < j
            invariant
                start <= k <= j <= n,
                n == needle@.len(),
                q == needle@,
                token@ == q.subrange(start as int, k as int),
            decreases j - k,
        {
            token.push(needle[k]);
            k = k + 1;
            assert(token@ =~= q.subrange(start as int, k as int));
        }
        if !contains_sub(hay, &token) {
            assert(token@ == q.subrange(start as int, j as int));
            assert(is_token_at(q, start as int, j as int) && !seq_contains(
                hay@,
                q.subrange(start as int, j as int),
            ));
            assert(!match_tokens(hay@, q));
            return false;
        }
        // extend the "all earlier tokens matched" invariant past this token:
        // no token ends strictly inside (i, j), and the one ending at j starts at i
        assert forall|a: int, b: int|
            is_token_at(q, a, b) && b <= j implies seq_contains(hay@, q.subrange(a, b)) by {
            if b > i {
                assert(b == j) by {
                    if b < j {
                        assert(!spec_is_space(q[b]));
                    }
                }
                assert(a == start) by {
                    if a < start {
                        assert(start >= 1 && spec_is_space(q[start - 1]));
                        assert(a <= start - 1 < b);
                    }
                    if a > start {
                        assert(!spec_is_space(q[a - 1]));
                    }
                }
            }
        }
        i = j;
    }
    assert(forall|a: int, b: int| is_token_at(q, a, b) ==> b <= n);
    true
}

/// The (start, end) boundaries of every whitespace-separated token of `q`,
/// in order of appearance.
#[verifier::loop_isolation(false)]
pub fn split_terms(q: &Vec<char>) -> (r: Vec<(usize, usize)>)
    ensures
        forall|n: int|
            0 <= n < r@.len() ==> is_token_at(q@, (#[trigger] r@[n]).0 as int, r@[n].1 as int),
        forall|i: int, j: int|
            is_token_at(q@, i, j) ==> exists|n: int|
                0 <= n < r@.len() && (#[trigger] r@[n]).0 == i && r@[n].1 == j,
{
    let mut r: Vec<(usize, usize)> = Vec::new();
    let n: usize = q.len();
    let mut i: usize = 0;
    while i < n
        invariant
            i <= n,
            i == 0 || i == n || spec_is_space(q@[i - 1]) || spec_is_space(q@[i as int]),
            forall|m: int|
                0 <= m < r@.len() ==> is_token_at(q@, (#[trigger] r@[m]).0 as int, r@[m].1 as int),
            forall|a: int, b: int|
                is_token_at(q@, a, b) && b <= i ==> exists|m: int|
                    0 <= m < r@.len() && (#[trigger] r@[m]).0 == a && r@[m].1 == b,
        decreases n - i,
    {
        if is_space(q[i]) {
            assert(forall|a: int, b: int| is_token_at(q@, a, b) && b == i + 1 ==> false);
            i = i + 1;
            continue;
        }
        assert(i == 0 || spec_is_space(q@[i - 1]));
        let start: usize = i;
        let mut j: usize = i;
        while j < n && !is_space(q[j])
            invariant
                i <= j <= n,
                forall|k: int| i <= k < j ==> !spec_is_space(q@[k]),
            decreases n - j,
        {
            j = j + 1;
        }
        assert(is_token_at(q@, start as int, j as int));
        let ghost old_r = r@;
        r.push((start, j));
        assert((#[trigger] r@[r@.len() - 1]).0 == start && r@[r@.len() - 1].1 == j);
        assert(forall|m: int| 0 <= m < old_r.len() ==> r@[m] == old_r[m]);
        // no token ends strictly inside (i, j), and one ending at j starts at i
        assert forall|a: int, b: int| is_token_at(q@, a, b) && b <= j implies exists|m: int|
            0 <= m < r@.len() && (#[trigger] r@[m]).0 == a && r@[m].1 == b by {
            if b > i {
                assert(b == j) by {
                    if b < j {
                        assert(!spec_is_space(q@[b]));
                    }
                }
                assert(a == start) by {
                    if a < start {
                        assert(start >= 1 && spec_is_space(q@[start - 1]));
                        assert(a <= start - 1 < b);
                    }
                    if a > start {
                        assert(!spec_is_space(q@[a - 1]));
                    }
                }
                assert(r@[r@.len() - 1].0 == a && r@[r@.len() - 1].1 == b);
            } else {
                let m = choose|m: int|
                    0 <= m < old_r.len() && (#[trigger] old_r[m]).0 == a && old_r[m].1 == b;
                assert(r@[m].0 == a && r@[m].1 == b);
            }
        }
        i = j;
    }
    assert(forall|a: int, b: int| is_token_at(q@, a, b) ==> b <= n);
    r
}

} // verus!
