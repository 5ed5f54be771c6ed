//! The staging buffer: an in-memory mapping from sort key to document body,
//! kept strictly ordered by key, with its total body bytes tracked against
//! a byte budget. The entry with the largest sort key is spilled first.

use vstd::prelude::*;

verus! {

use vstd::utf8::encode_utf8;

broadcast use vstd::utf8::char_is_scalar, vstd::utf8::char_u32_cast;


/// The number of bytes of the UTF-8 encoding of `s`.
pub open spec fn byte_len(s: Seq<char>) -> nat {
    encode_utf8(s).len()
}

/// The total body bytes of a sequence of (key, body) entries.
pub open spec fn bytes_of(s: Seq<(Seq<char>, Seq<char>)>) -> nat
    decreases s.len(),
{
    if s.len() == 0 {
        0
    } else {
        bytes_of(s.drop_last()) + byte_len(s.last().1)
    }
}

/// `bytes_of` distributes over concatenation.
pub proof fn lemma_bytes_of_concat(a: Seq<(Seq<char>, Seq<char>)>, b: Seq<(Seq<char>, Seq<char>)>)
    ensures
        bytes_of(a + b) == bytes_of(a) + bytes_of(b),
    decreases b.len(),
{
    if b.len() == 0 {
        assert(a + b =~= a);
    } else {
        lemma_bytes_of_concat(a, b.drop_last());
        assert((a + b).drop_last() =~= a + b.drop_last());
        assert((a + b).last() == b.last());
    }
}

/// The (key, body) entries are strictly ascending by key.
pub open spec fn view_sorted(s: Seq<(Seq<char>, Seq<char>)>) -> bool {
    forall|p: int, q: int|
        0 <= p < q < s.len() ==> lex_lt((#[trigger] s[p]).0, (#[trigger] s[q]).0)
}

/// What staging `(key, body)` into an ordered view yields: the body
/// replaces the entry under an equal key, else the pair enters at its
/// sorted position.
pub open spec fn stage_view(
    v: Seq<(Seq<char>, Seq<char>)>,
    key: Seq<char>,
    body: Seq<char>,
) -> Seq<(Seq<char>, Seq<char>)>
    decreases v.len(),
{
    if v.len() == 0 {
        seq![(key, body)]
    } else if lex_lt(v.last().0, key) {
        v.push((key, body))
    } else if v.last().0 == key {
        v.update(v.len() - 1, (key, body))
    } else {
        stage_view(v.drop_last(), key, body).push(v.last())
    }
}

/// When every key below `n` is smaller and every key from `n` on is
/// larger, staging inserts exactly at `n`.
proof fn lemma_stage_view_inserts(
    v: Seq<(Seq<char>, Seq<char>)>,
    key: Seq<char>,
    body: Seq<char>,
    n: int,
)
    requires
        0 <= n <= v.len(),
        forall|m: int| 0 <= m < n ==> lex_lt((#[trigger] v[m]).0, key),
        forall|m: int| n <= m < v.len() ==> lex_lt(key, (#[trigger] v[m]).0),
    ensures
        stage_view(v, key, body) =~= v.insert(n, (key, body)),
    decreases v.len(),
{
    if v.len() == 0 {
        assert(v.insert(0, (key, body)) =~= seq![(key, body)]);
    } else if n == v.len() {
        assert(lex_lt(v.last().0, key));
        assert(v.insert(n, (key, body)) =~= v.push((key, body)));
    } else {
        assert(lex_lt(key, v.last().0));
        lemma_lex_irrefl(key);
        assert(!lex_lt(v.last().0, key)) by {
            if lex_lt(v.last().0, key) {
                lemma_lex_trans(key, v.last().0, key);
            }
        }
        assert(v.last().0 != key);
        let v2 = v.drop_last();
        assert(forall|m: int| 0 <= m < n ==> (#[trigger] v2[m]).0 == v[m].0);
        assert(forall|m: int| n <= m < v2.len() ==> (#[trigger] v2[m]).0 == v[m].0);
        lemma_stage_view_inserts(v2, key, body, n);
        assert(stage_view(v, key, body) =~= v2.insert(n, (key, body)).push(v.last()));
        assert(v2.insert(n, (key, body)).push(v.last()) =~= v.insert(n, (key, body)));
    }
}

/// When the key stands at position `n` (smaller keys below, larger above),
/// staging replaces exactly the entry at `n`.
proof fn lemma_stage_view_updates(
    v: Seq<(Seq<char>, Seq<char>)>,
    key: Seq<char>,
    body: Seq<char>,
    n: int,
)
    requires
        0 <= n < v.len(),
        v[n].0 == key,
        forall|m: int| 0 <= m < n ==> lex_lt((#[trigger] v[m]).0, key),
        forall|m: int| n < m < v.len() ==> lex_lt(key, (#[trigger] v[m]).0),
    ensures
        stage_view(v, key, body) =~= v.update(n, (key, body)),
    decreases v.len(),
{
    if n == v.len() - 1 {
        assert(v.last().0 == key);
        lemma_lex_irrefl(key);
    } else {
        assert(lex_lt(key, v.last().0));
        lemma_lex_irrefl(key);
        assert(!lex_lt(v.last().0, key)) by {
            if lex_lt(v.last().0, key) {
                lemma_lex_trans(key, v.last().0, key);
            }
        }
        assert(v.last().0 != key);
        let v2 = v.drop_last();
        assert(forall|m: int| 0 <= m < n ==> (#[trigger] v2[m]).0 == v[m].0);
        assert(forall|m: int| n < m < v2.len() ==> (#[trigger] v2[m]).0 == v[m].0);
        lemma_stage_view_updates(v2, key, body, n);
        assert(stage_view(v, key, body) =~= v2.update(n, (key, body)).push(v.last()));
        assert(v2.update(n, (key, body)).push(v.last()) =~= v.update(n, (key, body)));
    }
}

/// Strict lexicographic order on character sequences, by scalar value.
pub open spec fn lex_lt(a: Seq<char>, b: Seq<char>) -> bool
    decreases a.len(),
{
    if b.len() == 0 {
        false
    } else if a.len() == 0 {
        true
    } else if (a[0] as u32) < (b[0] as u32) {
        true
    } else if (a[0] as u32) > (b[0] as u32) {
        false
    } else {
        lex_lt(a.drop_first(), b.drop_first())
    }
}

/// `lex_lt` is transitive.
pub proof fn lemma_lex_trans(a: Seq<char>, b: Seq<char>, c: Seq<char>)
    requires
        lex_lt(a, b),
        lex_lt(b, c),
    ensures
        lex_lt(a, c),
    decreases a.len(),
{
    if a.len() == 0 {
    } else {
        // b and c are non-empty, and a's head is at most c's head
        if (a[0] as u32) == (b[0] as u32) && (b[0] as u32) == (c[0] as u32) {
            lemma_lex_trans(a.drop_first(), b.drop_first(), c.drop_first());
        }
    }
}

/// Two sequences agreeing below `i` and differing at `i` (or the first
/// being a proper prefix) are lexicographically ordered.
pub proof fn lemma_lex_at(a: Seq<char>, b: Seq<char>, i: int)
    requires
        0 <= i <= a.len(),
        i <= b.len(),
        forall|k: int| 0 <= k < i ==> a[k] == b[k],
        (i < a.len() && i < b.len() && (a[i] as u32) < (b[i] as u32)) || (i == a.len() && i
            < b.len()),
    ensures
        lex_lt(a, b),
    decreases i,
{
    if i == 0 {
    } else {
        assert(a[0] == b[0]);
        lemma_lex_at(a.drop_first(), b.drop_first(), i - 1);
    }
}

/// Compares two character vectors lexicographically by scalar value:
/// -1 when `a` is smaller, 0 when equal, 1 when `b` is smaller.
#[verifier::loop_isolation(false)]
pub fn cmp_chars(a: &Vec<char>, b: &Vec<char>) -> (r: i32)
    ensures
        r == -1 || r == 0 || r == 1,
        r == -1 ==> lex_lt(a@, b@),
        r == 0 ==> a@ == b@,
        r == 1 ==> lex_lt(b@, a@),
{
    let alen: usize = a.len();
    let blen: usize = b.len();
    let n: usize = if alen < blen {
        alen
    } else {
        blen
    };
    let mut i: usize = 0;
    while i < n
        invariant
            i <= n,
            forall|k: int| 0 <= k < i ==> a@[k] == b@[k],
        decreases n - i,
    {
        let x: u32 = a[i] as u32;
        let y: u32 = b[i] as u32;
        if x < y {
            proof {
                lemma_lex_at(a@, b@, i as int);
            }
            return -1;
        }
        if x > y {
            proof {
                lemma_lex_at(b@, a@, i as int);
            }
            return 1;
        }
        proof {
            vstd::utf8::char_u32_cast(a@[i as int], x);
            vstd::utf8::char_u32_cast(b@[i as int], y);
        }
        assert(a@[i as int] == b@[i as int]);
        i = i + 1;
    }
    if alen == blen {
        assert(a@ =~= b@);
        0
    } else if alen < blen {
        proof {
            lemma_lex_at(a@, b@, alen as int);
        }
        -1
    } else {
        proof {
            lemma_lex_at(b@, a@, blen as int);
        }
        1
    }
}

/// One staged document: its sort key and its body.
struct StagedEntry {
    key: Vec<char>,
    body: String,
}

/// The ordered staging buffer.
pub struct StagingBuffer {
    entries: Vec<StagedEntry>,
    bytes: usize,
}

impl StagingBuffer {
    /// The buffer contents as a sequence of (key, body) pairs, ascending
    /// by key.
    pub closed spec fn view_pairs(self) -> Seq<(Seq<char>, Seq<char>)> {
        self.entries@.map_values(|e: StagedEntry| (e.key@, e.body@))
    }

    /// Some entry has sort key `k`.
    pub open spec fn has_key(self, k: Seq<char>) -> bool {
        exists|n: int| 0 <= n < self.view_pairs().len() && (#[trigger] self.view_pairs()[n]).0 == k
    }

    /// Structural invariant: entries are strictly ascending by key, and
    /// the byte counter equals the total body bytes.
    pub closed spec fn wf(self) -> bool {
        &&& forall|p: int, q: int|
            0 <= p < q < self.view_pairs().len() ==> lex_lt(
                (#[trigger] self.view_pairs()[p]).0,
                (#[trigger] self.view_pairs()[q]).0,
            )
        &&& self.bytes == bytes_of(self.view_pairs())
    }

    /// An empty buffer.
    pub fn new() -> (r: StagingBuffer)
        ensures
            r.wf(),
            r.view_pairs().len() == 0,
    {
        let r = StagingBuffer { entries: Vec::new(), bytes: 0 };
        proof {
            assert(r.view_pairs() =~= Seq::<(Seq<char>, Seq<char>)>::empty());
        }
        r
    }

    /// Drops every entry.
    pub fn clear(&mut self)
        ensures
            final(self).wf(),
            final(self).view_pairs().len() == 0,
    {
        self.entries = Vec::new();
        self.bytes = 0;
        proof {
            assert(self.view_pairs() =~= Seq::<(Seq<char>, Seq<char>)>::empty());
        }
    }

    /// The number of staged documents.
    pub fn len(&self) -> (n: usize)
        ensures
            n == self.view_pairs().len(),
    {
        self.entries.len()
    }

    /// The tracked total body bytes.
    pub fn bytes(&self) -> (n: usize)
        requires
            self.wf(),
        ensures
            n == bytes_of(self.view_pairs()),
    {
        self.bytes
    }

    /// The body of the `n`-th entry in ascending key order.
    pub fn body_ref(&self, n: usize) -> (b: &String)
        requires
            n < self.view_pairs().len(),
        ensures
            b@ == self.view_pairs()[n as int].1,
    {
        &self.entries[n].body
    }

    /// The sort key of the `n`-th entry in ascending key order.
    pub fn key_ref(&self, n: usize) -> (k: &Vec<char>)
        requires
            n < self.view_pairs().len(),
        ensures
            k@ == self.view_pairs()[n as int].0,
    {
        &self.entries[n].key
    }

    /// Stages a document under `key`: replaces the body if the key is
    /// already present, otherwise inserts the entry in key order.
    #[verifier::loop_isolation(false)]
    pub fn insert(&mut self, key: Vec<char>, body: String)
        requires
            old(self).wf(),
            bytes_of(old(self).view_pairs()) + byte_len(body@) <= usize::MAX,
        ensures
            final(self).wf(),
            view_sorted(final(self).view_pairs()),
            old(self).has_key(key@) ==> exists|n: int|
                0 <= n < old(self).view_pairs().len() && (#[trigger] old(self).view_pairs()[n]).0
                    == key@ && final(self).view_pairs() == old(self).view_pairs().update(
                    n,
                    (key@, body@),
                ),
            !old(self).has_key(key@) ==> exists|n: int|
                0 <= n <= old(self).view_pairs().len() && final(self).view_pairs() == old(self).view_pairs().insert(n, (key@, body@)),
            final(self).view_pairs() == stage_view(old(self).view_pairs(), key@, body@),
    {
        let ghost old_view = self.view_pairs();
        let blen: usize = body.as_str().len();
        let mut pos: usize = 0;
        let mut found: bool = false;
        let mut after: bool = false;
        while !found && !after && pos < self.entries.len()
            invariant
                pos <= self.entries@.len(),
                forall|m: int| 0 <= m < pos ==> lex_lt((#[trigger] old_view[m]).0, key@),
                found ==> pos < self.entries@.len() && old_view[pos as int].0 == key@,
                after ==> pos < self.entries@.len() && lex_lt(key@, old_view[pos as int].0),
            decreases
                    self.entries@.len() - pos,
                    (if found || after {
                        0int
                    } else {
                        1int
                    }),
        {
            let c = cmp_chars(&self.entries[pos].key, &key);
            if c == 0 {
                found = true;
            } else if c == 1 {
                after = true;
            } else {
                pos = pos + 1;
            }
        }
        if found {
            // replace the body under the same key
            let old_blen: usize = self.entries[pos].body.as_str().len();
            proof {
                lemma_entry_bytes_bound(old_view, pos as int);
            }
            self.bytes = self.bytes - old_blen + blen;
            self.entries[pos] = StagedEntry { key, body };
            proof {
                let nv = self.view_pairs();
                assert(nv =~= old_view.update(pos as int, (key@, body@)));
                lemma_bytes_of_update(old_view, pos as int, (key@, body@));
                assert forall|p: int, q: int| 0 <= p < q < nv.len() implies lex_lt(
                    (#[trigger] nv[p]).0,
                    (#[trigger] nv[q]).0,
                ) by {
                    assert(old_view[p].0 == nv[p].0 && old_view[q].0 == nv[q].0);
                }
                assert(old(self).has_key(key@));
                assert forall|m: int| pos < m < old_view.len() implies lex_lt(
                    key@,
                    (#[trigger] old_view[m]).0,
                ) by {
                    assert(lex_lt(old_view[pos as int].0, old_view[m].0));
                }
                lemma_stage_view_updates(old_view, key@, body@, pos as int);
            }
        } else {
            proof {
                // the key is absent: entries before pos are smaller, and
                // every entry from pos on is larger
                if pos < old_view.len() {
                    assert(after);
                    assert(lex_lt(key@, old_view[pos as int].0));
                }
                assert forall|m: int| pos <= m < old_view.len() implies lex_lt(
                    key@,
                    (#[trigger] old_view[m]).0,
                ) by {
                    if m > pos {
                        lemma_lex_trans(key@, old_view[pos as int].0, old_view[m].0);
                    }
                }
                assert(!old(self).has_key(key@)) by {
                    if old(self).has_key(key@) {
                        let n = choose|n: int|
                            0 <= n < old_view.len() && (#[trigger] old_view[n]).0 == key@;
                        if n < pos {
                            assert(lex_lt(old_view[n].0, key@));
                            lemma_lex_irrefl(key@);
                        } else {
                            assert(lex_lt(key@, old_view[n].0));
                            lemma_lex_irrefl(key@);
                        }
                    }
                }
            }
            self.bytes = self.bytes + blen;
            self.entries.insert(pos, StagedEntry { key, body });
            proof {
                let nv = self.view_pairs();
                assert(nv =~= old_view.insert(pos as int, (key@, body@)));
                lemma_bytes_of_insert(old_view, pos as int, (key@, body@));
                assert forall|p: int, q: int| 0 <= p < q < nv.len() implies lex_lt(
                    (#[trigger] nv[p]).0,
                    (#[trigger] nv[q]).0,
                ) by {
                    if q < pos {
                        assert(nv[p] == old_view[p] && nv[q] == old_view[q]);
                    } else if p < pos && q == pos {
                        assert(nv[p] == old_view[p]);
                    } else if p < pos && q > pos {
                        assert(nv[p] == old_view[p] && nv[q] == old_view[q - 1]);
                    } else if p == pos {
                        assert(nv[q] == old_view[q - 1]);
                    } else {
                        assert(nv[p] == old_view[p - 1] && nv[q] == old_view[q - 1]);
                    }
                }
                lemma_stage_view_inserts(old_view, key@, body@, pos as int);
            }
        }
    }

    /// The buffer contents as plain (key, body) strings a host can
    /// persist, ascending by key.
    #[verifier::loop_isolation(false)]
    pub fn to_pairs(&self) -> (r: Vec<(String, String)>)
        requires
            self.wf(),
        ensures
            r@.len() == self.view_pairs().len(),
            forall|i: int|
                0 <= i < r@.len() ==> (#[trigger] r@[i]).0@ == self.view_pairs()[i].0
                    && r@[i].1@ == self.view_pairs()[i].1,
            forall|p: int, q: int|
                0 <= p < q < r@.len() ==> lex_lt((#[trigger] r@[p]).0@, (#[trigger] r@[q]).0@),
    {
        let mut r: Vec<(String, String)> = Vec::new();
        let mut i: usize = 0;
        let n: usize = self.entries.len();
        while i < n
            invariant
                i <= n,
                n == self.view_pairs().len(),
                r@.len() == i,
                forall|k: int|
                    0 <= k < i ==> (#[trigger] r@[k]).0@ == self.view_pairs()[k].0
                        && r@[k].1@ == self.view_pairs()[k].1,
            decreases n - i,
        {
            let key_s = crate::text::chars_to_string(&self.entries[i].key);
            let body_s = self.entries[i].body.clone();
            r.push((key_s, body_s));
            i = i + 1;
        }
        r
    }

    /// Removes and returns the entry with the largest sort key, if any.
    pub fn pop_last(&mut self) -> (r: Option<(Vec<char>, String)>)
        requires
            old(self).wf(),
        ensures
            final(self).wf(),
            old(self).view_pairs().len() == 0 ==> r is None && *final(self) == *old(self),
            old(self).view_pairs().len() > 0 ==> match r {
                Some(kb) => kb.0@ == old(self).view_pairs().last().0 && kb.1@ == old(self).view_pairs().last().1 && final(self).view_pairs() == old(self).view_pairs().drop_last(),
                None => false,
            },
    {
        let ghost old_view = self.view_pairs();
        if self.entries.len() == 0 {
            assert(self.view_pairs() =~= old_view);
            return None;
        }
        proof {
            lemma_entry_bytes_bound(old_view, old_view.len() - 1);
            assert(old_view.drop_last() =~= old_view.subrange(0, old_view.len() - 1));
        }
        let e = self.entries.pop().unwrap();
        let blen: usize = e.body.as_str().len();
        proof {
            let nv = self.view_pairs();
            assert(nv =~= old_view.drop_last());
            assert(bytes_of(old_view) == bytes_of(old_view.drop_last()) + byte_len(
                old_view.last().1,
            ));
        }
        self.bytes = self.bytes - blen;
        Some((e.key, e.body))
    }
}

/// `lex_lt` is irreflexive.
pub proof fn lemma_lex_irrefl(a: Seq<char>)
    ensures
        !lex_lt(a, a),
    decreases a.len(),
{
    if a.len() > 0 {
        lemma_lex_irrefl(a.drop_first());
    }
}

/// Any single entry's body bytes are bounded by the total.
proof fn lemma_entry_bytes_bound(s: Seq<(Seq<char>, Seq<char>)>, i: int)
    requires
        0 <= i < s.len(),
    ensures
        byte_len(s[i].1) <= bytes_of(s),
    decreases s.len(),
{
    if i == s.len() - 1 {
    } else {
        lemma_entry_bytes_bound(s.drop_last(), i);
    }
}

/// Replacing entry `i` adjusts the total by the difference in body bytes.
proof fn lemma_bytes_of_update(s: Seq<(Seq<char>, Seq<char>)>, i: int, v: (Seq<char>, Seq<char>))
    requires
        0 <= i < s.len(),
    ensures
        bytes_of(s.update(i, v)) + byte_len(s[i].1) == bytes_of(s) + byte_len(v.1),
    decreases s.len(),
{
    if i == s.len() - 1 {
        assert(s.update(i, v).drop_last() =~= s.drop_last());
        assert(s.update(i, v).last() == v);
    } else {
        lemma_bytes_of_update(s.drop_last(), i, v);
        assert(s.update(i, v).drop_last() =~= s.drop_last().update(i, v));
        assert(s.update(i, v).last() == s.last());
    }
}

/// Inserting an entry adds its body bytes to the total.
proof fn lemma_bytes_of_insert(s: Seq<(Seq<char>, Seq<char>)>, i: int, v: (Seq<char>, Seq<char>))
    requires
        0 <= i <= s.len(),
    ensures
        bytes_of(s.insert(i, v)) == bytes_of(s) + byte_len(v.1),
    decreases s.len(),
{
    if i == s.len() {
        assert(s.insert(i, v).drop_last() =~= s);
        assert(s.insert(i, v).last() == v);
    } else {
        lemma_bytes_of_insert(s.drop_last(), i, v);
        assert(s.insert(i, v).drop_last() =~= s.drop_last().insert(i, v));
        assert(s.insert(i, v).last() == s.last());
    }
}

} // verus!
