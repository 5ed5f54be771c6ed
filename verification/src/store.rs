//! The document store: an append-only in-memory byte log holding one
//! (optionally dictionary-compressed) chunk per document key, plus the
//! offset table that locates each chunk. Keys are dense: the chunk for key
//! `k` is the `k`-th ever appended. The host process may persist the log
//! and the table and rebuild the store through `from_parts`.

use vstd::prelude::*;

verus! {

use std::io::Read;
use std::io::Write;
use vstd::utf8::encode_utf8;

/// What zstd compression (level 3, prepared dictionary) returns for a
/// dictionary and an input: a function of the two alone.
pub uninterp spec fn zstd_c(dict: Seq<u8>, data: Seq<u8>) -> Seq<u8>;

/// What zstd decompression with a prepared dictionary returns for a
/// dictionary and an input, if it succeeds: a function of the two alone.
pub uninterp spec fn zstd_d(dict: Seq<u8>, data: Seq<u8>) -> Option<Seq<u8>>;

/// Relies on zstd's `Encoder::with_prepared_dictionary` (level 3): the
/// compressed bytes are a function of dictionary and input alone, and
/// zstd is lossless, so decompressing them with the same dictionary gives
/// the input back.
#[verifier::external_body]
fn compress_with_dict(dict: &Vec<u8>, data: &Vec<u8>) -> (r: Option<Vec<u8>>)
    ensures
        r is Some ==> r->0@ == zstd_c(dict@, data@) && zstd_d(dict@, r->0@) == Some(data@),
{
    let d = zstd::dict::EncoderDictionary::copy(dict.as_slice(), 3);
    let mut enc = zstd::Encoder::with_prepared_dictionary(Vec::new(), &d).ok()?;
    enc.write_all(data.as_slice()).ok()?;
    enc.finish().ok()
}

/// Relies on zstd's `Decoder::with_prepared_dictionary`: the decompressed
/// bytes (or the failure) are a function of dictionary and input alone.
#[verifier::external_body]
fn decompress_with_dict(dict: &Vec<u8>, data: &Vec<u8>) -> (r: Option<Vec<u8>>)
    ensures
        r is Some <==> zstd_d(dict@, data@) is Some,
        r is Some ==> Some(r->0@) == zstd_d(dict@, data@),
{
    let d = zstd::dict::DecoderDictionary::copy(dict.as_slice());
    let mut dec = zstd::Decoder::with_prepared_dictionary(data.as_slice(), &d).ok()?;
    let mut out: Vec<u8> = Vec::new();
    dec.read_to_end(&mut out).ok()?;
    Some(out)
}

/// Relies on `zstd::dict::from_samples`: nothing is assumed of the trained
/// dictionary bytes; any byte string is a usable compression context.
#[verifier::external_body]
fn train_dict(samples: &Vec<String>, max_size: usize) -> (r: Option<Vec<u8>>)
{
    zstd::dict::from_samples(samples.as_slice(), max_size).ok()
}

/// Relies on `String::from_utf8`: it succeeds exactly on valid UTF-8, the
/// returned string re-encodes to the input, and decoding the UTF-8
/// encoding of any character sequence gives that sequence back.
#[verifier::external_body]
fn string_from_utf8(b: Vec<u8>) -> (r: Option<String>)
    ensures
        r is Some ==> encode_utf8(r->0@) == b@,
        forall|cs: Seq<char>| b@ == #[trigger] encode_utf8(cs) ==> r is Some && r->0@ == cs,
{
    String::from_utf8(b).ok()
}

/// UTF-8 encoding is injective: equal encodings decode to equal texts.
pub proof fn lemma_encode_utf8_injective(a: Seq<char>, b: Seq<char>)
    requires
        encode_utf8(a) == encode_utf8(b),
    ensures
        a =~= b,
    decreases a.len(),
{
    if a.len() == 0 {
        if b.len() > 0 {
            vstd::utf8::char_is_scalar(b[0]);
            assert(encode_utf8(b) == vstd::utf8::encode_scalar(b[0] as u32) + encode_utf8(
                b.drop_first(),
            ));
            assert(vstd::utf8::encode_scalar(b[0] as u32).len() >= 1);
        }
    } else if b.len() == 0 {
        vstd::utf8::char_is_scalar(a[0]);
        assert(encode_utf8(a) == vstd::utf8::encode_scalar(a[0] as u32) + encode_utf8(
            a.drop_first(),
        ));
        assert(vstd::utf8::encode_scalar(a[0] as u32).len() >= 1);
    } else {
        vstd::utf8::encode_utf8_first_scalar(a);
        vstd::utf8::encode_utf8_first_scalar(b);
        assert(a[0] as u32 == b[0] as u32);
        vstd::utf8::char_u32_cast(a[0], a[0] as u32);
        vstd::utf8::char_u32_cast(b[0], b[0] as u32);
        assert(a[0] == b[0]);
        let l = vstd::utf8::encode_scalar(a[0] as u32).len() as int;
        assert(encode_utf8(a) == vstd::utf8::encode_scalar(a[0] as u32) + encode_utf8(
            a.drop_first(),
        ));
        assert(encode_utf8(b) == vstd::utf8::encode_scalar(b[0] as u32) + encode_utf8(
            b.drop_first(),
        ));
        assert(encode_utf8(a.drop_first()) =~= encode_utf8(a).subrange(
            l,
            encode_utf8(a).len() as int,
        ));
        assert(encode_utf8(b.drop_first()) =~= encode_utf8(b).subrange(
            l,
            encode_utf8(b).len() as int,
        ));
        lemma_encode_utf8_injective(a.drop_first(), b.drop_first());
        assert(a =~= b) by {
            assert(forall|i: int| 1 <= i < a.len() ==> a[i] == a.drop_first()[i - 1]);
            assert(forall|i: int| 1 <= i < b.len() ==> b[i] == b.drop_first()[i - 1]);
            assert(a.drop_first() =~= b.drop_first());
        }
    }
}

/// Key `k`'s chunk of a persisted store decodes exactly to `bodies[k]`.
pub open spec fn parts_body_eqn(
    log: Seq<u8>,
    entries: Seq<(usize, usize, bool)>,
    dict: Seq<u8>,
    bodies: Seq<Seq<char>>,
    k: int,
) -> bool {
    &&& entries[k].0 + entries[k].1 <= log.len()
    &&& ({
        let chunk = log.subrange(entries[k].0 as int, entries[k].0 + entries[k].1);
        if entries[k].2 {
            zstd_d(dict, chunk) == Some(encode_utf8(bodies[k]))
        } else {
            chunk == encode_utf8(bodies[k])
        }
    })
}

/// The persisted chunks pin the document texts: two body tables satisfying
/// the same chunk equations are equal.
pub proof fn lemma_parts_fix_bodies(
    log: Seq<u8>,
    entries: Seq<(usize, usize, bool)>,
    dict: Seq<u8>,
    b1: Seq<Seq<char>>,
    b2: Seq<Seq<char>>,
)
    requires
        b1.len() == entries.len(),
        b2.len() == entries.len(),
        forall|k: int| 0 <= k < entries.len() ==> parts_body_eqn(log, entries, dict, b1, k),
        forall|k: int| 0 <= k < entries.len() ==> parts_body_eqn(log, entries, dict, b2, k),
    ensures
        b1 =~= b2,
{
    assert forall|k: int| 0 <= k < entries.len() implies b1[k] == b2[k] by {
        assert(parts_body_eqn(log, entries, dict, b1, k));
        assert(parts_body_eqn(log, entries, dict, b2, k));
        assert(encode_utf8(b1[k]) == encode_utf8(b2[k]));
        lemma_encode_utf8_injective(b1[k], b2[k]);
    }
}

/// Where one document's chunk lives in the log, and whether it was
/// written through the dictionary compressor.
pub struct StoreEntry {
    pub offset: usize,
    pub len: usize,
    pub compressed: bool,
}

/// The append-only document store.
pub struct DocStore {
    log: Vec<u8>,
    entries: Vec<StoreEntry>,
    dict: Vec<u8>,
    dict_done: bool,
    bodies: Ghost<Seq<Seq<char>>>,
}

impl DocStore {
    /// The stored document texts, by key.
    pub closed spec fn bodies(self) -> Seq<Seq<char>> {
        self.bodies@
    }

    /// The number of stored documents (also the next dense key).
    pub open spec fn len(self) -> nat {
        self.bodies().len()
    }

    /// Whether dictionary training has been attempted; once true, the
    /// dictionary bytes never change again (until a clear).
    pub closed spec fn trained(self) -> bool {
        self.dict_done
    }

    /// The chunk of the `k`-th document.
    spec fn chunk(self, k: int) -> Seq<u8> {
        self.log@.subrange(
            self.entries@[k].offset as int,
            self.entries@[k].offset + self.entries@[k].len,
        )
    }

    /// Structural invariant: every entry lies within the log and its chunk
    /// is the (possibly compressed) UTF-8 encoding of the recorded body.
    pub closed spec fn wf(self) -> bool {
        &&& self.bodies@.len() == self.entries@.len()
        &&& forall|k: int|
            0 <= k < self.entries@.len() ==> (#[trigger] self.entries@[k]).offset
                + self.entries@[k].len <= self.log@.len()
        &&& forall|k: int|
            0 <= k < self.entries@.len() ==> if (#[trigger] self.entries@[k]).compressed {
                zstd_d(self.dict@, self.chunk(k)) == Some(encode_utf8(self.bodies@[k]))
            } else {
                self.chunk(k) == encode_utf8(self.bodies@[k])
            }
        &&& forall|k: int|
            0 <= k < self.entries@.len() && (#[trigger] self.entries@[k]).compressed
                ==> self.dict_done
    }

    /// An empty store with no dictionary.
    pub fn new() -> (r: DocStore)
        ensures
            r.wf(),
            r.len() == 0,
            !r.trained(),
            r.bodies() =~= Seq::<Seq<char>>::empty(),
    {
        DocStore {
            log: Vec::new(),
            entries: Vec::new(),
            dict: Vec::new(),
            dict_done: false,
            bodies: Ghost(Seq::empty()),
        }
    }

    /// Drops every document and the dictionary.
    pub fn clear(&mut self)
        ensures
            final(self).wf(),
            final(self).len() == 0,
            !final(self).trained(),
            final(self).bodies() =~= Seq::<Seq<char>>::empty(),
    {
        self.log = Vec::new();
        self.entries = Vec::new();
        self.dict = Vec::new();
        self.dict_done = false;
        proof {
            self.bodies@ = Seq::empty();
        }
    }

    /// The number of stored documents.
    pub fn count(&self) -> (n: usize)
        requires
            self.wf(),
        ensures
            n == self.len(),
    {
        self.entries.len()
    }

    /// Whether dictionary training has been attempted.
    pub fn is_trained(&self) -> (r: bool)
        ensures
            r == self.trained(),
    {
        self.dict_done
    }

    /// Trains the compression dictionary once, from the given staged
    /// bodies. A failed training leaves the dictionary empty; either way
    /// no further training is attempted until a clear: once trained, the
    /// store (dictionary included) never changes through this method.
    pub fn train(&mut self, samples: &Vec<String>, max_size: usize)
        requires
            old(self).wf(),
        ensures
            final(self).wf(),
            final(self).len() == old(self).len(),
            final(self).bodies() == old(self).bodies(),
            final(self).trained(),
            old(self).trained() ==> *final(self) == *old(self),
    {
        if self.dict_done {
            return ;
        }
        // no chunk is compressed yet, so replacing the dictionary is safe
        assert(forall|k: int|
            0 <= k < self.entries@.len() ==> !(#[trigger] self.entries@[k]).compressed);
        match train_dict(samples, max_size) {
            Some(d) => {
                self.dict = d;
            },
            None => {},
        }
        self.dict_done = true;
        assert forall|k: int| 0 <= k < self.entries@.len() implies (
        #[trigger] self.entries@[k]).compressed == false && self.chunk(k) == encode_utf8(
            self.bodies@[k],
        ) by {}
    }

    /// Appends a document under the next dense key: compressed with the
    /// dictionary when one was trained, raw otherwise (also when the
    /// compressor fails).
    pub fn put(&mut self, body: &String)
        requires
            old(self).wf(),
        ensures
            final(self).wf(),
            final(self).len() == old(self).len() + 1,
            final(self).bodies() == old(self).bodies().push(body@),
            final(self).trained() == old(self).trained(),
            final(self).len() <= usize::MAX,
    {
        let data: Vec<u8> = body.as_str().as_bytes_vec();
        let mut chunk: Vec<u8>;
        let compressed: bool;
        if self.dict.len() > 0 && self.dict_done {
            match compress_with_dict(&self.dict, &data) {
                Some(c) => {
                    chunk = c;
                    compressed = true;
                },
                None => {
                    chunk = data;
                    compressed = false;
                },
            }
        } else {
            chunk = data;
            compressed = false;
        }
        let offset: usize = self.log.len();
        let clen: usize = chunk.len();
        let ghost chunk_v = chunk@;
        let ghost old_log = self.log@;
        let ghost old_entries = self.entries@;
        self.log.append(&mut chunk);
        self.entries.push(StoreEntry { offset, len: clen, compressed });
        let entry_count: usize = self.entries.len();
        proof {
            self.bodies@ = self.bodies@.push(body@);
            assert forall|k: int| 0 <= k < old_entries.len() implies self.chunk(k) == old(self).chunk(k) by {
                assert(self.chunk(k) =~= old_log.subrange(
                    old_entries[k].offset as int,
                    old_entries[k].offset + old_entries[k].len,
                ));
            }
            assert(self.chunk(old_entries.len() as int) =~= chunk_v);
            if compressed {
                assert(zstd_d(self.dict@, chunk_v) == Some(encode_utf8(body@)));
            } else {
                assert(chunk_v == encode_utf8(body@));
            }
            assert(self.len() == entry_count);
        }
    }

    /// The log length, for the caller's overflow bookkeeping.
    pub closed spec fn log_len(self) -> nat {
        self.log@.len()
    }

    /// Fetches and decodes the document stored under key `k`.
    #[verifier::loop_isolation(false)]
    pub fn get(&self, k: usize) -> (r: String)
        requires
            self.wf(),
            k < self.len(),
        ensures
            r@ == self.bodies()[k as int],
    {
        let e_off: usize = self.entries[k].offset;
        let e_len: usize = self.entries[k].len;
        let e_comp: bool = self.entries[k].compressed;
        let log_len: usize = self.log.len();
        let mut chunk: Vec<u8> = Vec::new();
        let mut i: usize = 0;
        while i < e_len
            invariant
                i <= e_len,
                e_off + e_len <= log_len,
                log_len == self.log@.len(),
                chunk@ == self.log@.subrange(e_off as int, e_off + i),
            decreases e_len - i,
        {
            chunk.push(self.log[e_off + i]);
            i = i + 1;
            assert(chunk@ =~= self.log@.subrange(e_off as int, e_off + i));
        }
        assert(chunk@ == self.chunk(k as int));
        let bytes: Vec<u8> = if e_comp {
            let d = decompress_with_dict(&self.dict, &chunk);
            assert(d is Some && d->0@ == encode_utf8(self.bodies@[k as int]));
            d.unwrap()
        } else {
            chunk
        };
        let s = string_from_utf8(bytes);
        assert(s is Some && s->0@ == self.bodies@[k as int]);
        s.unwrap()
    }

    /// The raw parts a host can persist: the log, the entry table, the
    /// dictionary and the training flag.
    #[verifier::loop_isolation(false)]
    pub fn to_parts(&self) -> (r: (Vec<u8>, Vec<(usize, usize, bool)>, Vec<u8>, bool))
        requires
            self.wf(),
        ensures
            ({
                let (log, entries, dict, done) = r;
                &&& from_parts_ok(log@, entries@, dict@, done)
                &&& entries@.len() == self.len()
                &&& done == self.trained()
                &&& forall|k: int|
                    0 <= k < entries@.len() ==> parts_body_eqn(
                        log@,
                        entries@,
                        dict@,
                        self.bodies(),
                        k,
                    )
            }),
    {
        let mut log: Vec<u8> = Vec::new();
        let mut i: usize = 0;
        while i < self.log.len()
            invariant
                i <= self.log@.len(),
                log@ == self.log@.subrange(0, i as int),
            decreases self.log@.len() - i,
        {
            log.push(self.log[i]);
            i = i + 1;
            assert(log@ =~= self.log@.subrange(0, i as int));
        }
        assert(log@ =~= self.log@);
        let mut entries: Vec<(usize, usize, bool)> = Vec::new();
        let mut j: usize = 0;
        while j < self.entries.len()
            invariant
                j <= self.entries@.len(),
                entries@.len() == j,
                forall|m: int|
                    0 <= m < j ==> (#[trigger] entries@[m]).0 == self.entries@[m].offset
                        && entries@[m].1 == self.entries@[m].len && entries@[m].2
                        == self.entries@[m].compressed,
            decreases self.entries@.len() - j,
        {
            let e = (self.entries[j].offset, self.entries[j].len, self.entries[j].compressed);
            entries.push(e);
            j = j + 1;
        }
        let mut dict: Vec<u8> = Vec::new();
        let mut d: usize = 0;
        while d < self.dict.len()
            invariant
                d <= self.dict@.len(),
                dict@ == self.dict@.subrange(0, d as int),
            decreases self.dict@.len() - d,
        {
            dict.push(self.dict[d]);
            d = d + 1;
            assert(dict@ =~= self.dict@.subrange(0, d as int));
        }
        assert(dict@ =~= self.dict@);
        proof {
            assert forall|k: int| 0 <= k < entries@.len() implies parts_entry_ok(
                log@,
                entries@,
                dict@,
                self.dict_done,
                k,
            ) by {
                assert(log@.subrange((#[trigger] entries@[k]).0 as int, entries@[k].0 + entries@[k].1)
                    =~= self.chunk(k));
                if self.entries@[k].compressed {
                    assert(valid_utf8_encoding_exists(encode_utf8(self.bodies@[k])));
                } else {
                    assert(valid_utf8_encoding_exists(self.chunk(k))) by {
                        assert(self.chunk(k) == encode_utf8(self.bodies@[k]));
                    }
                }
            }
        }
        (log, entries, dict, self.dict_done)
    }

    /// Rebuilds a store from persisted parts, re-validating every chunk;
    /// `None` when any chunk fails to decompress or decode.
    #[verifier::loop_isolation(false)]
    pub fn from_parts(
        log: Vec<u8>,
        entries: Vec<(usize, usize, bool)>,
        dict: Vec<u8>,
        dict_done: bool,
    ) -> (r: Option<DocStore>)
        ensures
            match r {
                Some(store) => store.wf() && store.len() == entries@.len() && store.trained() == (
                dict_done || exists|k: int|
                    0 <= k < entries@.len() && (#[trigger] entries@[k]).2) && forall|k: int|
                    0 <= k < entries@.len() ==> parts_body_eqn(
                        log@,
                        entries@,
                        dict@,
                        store.bodies(),
                        k,
                    ),
                None => true,
            },
            from_parts_ok(log@, entries@, dict@, dict_done) ==> r is Some,
    {
        let mut bodies_known: Ghost<Seq<Seq<char>>> = Ghost(Seq::empty());
        let mut any_compressed: bool = false;
        let mut k: usize = 0;
        let ghost entries_v = entries@;
        while k < entries.len()
            invariant
                k <= entries@.len(),
                bodies_known@.len() == k,
                forall|m: int|
                    0 <= m < k ==> (#[trigger] entries@[m]).0 + entries@[m].1 <= log@.len(),
                forall|m: int|
                    0 <= m < k ==> if (#[trigger] entries@[m]).2 {
                        zstd_d(dict@, log@.subrange(entries@[m].0 as int, entries@[m].0 + entries@[m].1))
                            == Some(encode_utf8(bodies_known@[m]))
                    } else {
                        log@.subrange(entries@[m].0 as int, entries@[m].0 + entries@[m].1)
                            == encode_utf8(bodies_known@[m])
                    },
                any_compressed == exists|m: int| 0 <= m < k && (#[trigger] entries@[m]).2,
            decreases entries@.len() - k,
        {
            let (off, len, comp) = entries[k];
            if off > log.len() || len > log.len() - off {
                assert(!parts_entry_ok(log@, entries@, dict@, dict_done, k as int));
                return None;
            }
            let mut chunk: Vec<u8> = Vec::new();
            let mut i: usize = 0;
            while i < len
                invariant
                    i <= len,
                    off + len <= log@.len(),
                    chunk@ == log@.subrange(off as int, off + i),
                decreases len - i,
            {
                chunk.push(log[off + i]);
                i = i + 1;
                assert(chunk@ =~= log@.subrange(off as int, off + i));
            }
            let bytes: Vec<u8> = if comp {
                match decompress_with_dict(&dict, &chunk) {
                    Some(b) => b,
                    None => {
                        assert(!parts_entry_ok(log@, entries@, dict@, dict_done, k as int));
                        return None;
                    },
                }
            } else {
                chunk
            };
            match string_from_utf8(bytes) {
                Some(s) => {
                    proof {
                        bodies_known@ = bodies_known@.push(s@);
                    }
                },
                None => {
                    assert(!parts_entry_ok(log@, entries@, dict@, dict_done, k as int));
                    return None;
                },
            }
            if comp {
                any_compressed = true;
            }
            k = k + 1;
            assert(any_compressed == exists|m: int| 0 <= m < k && (#[trigger] entries@[m]).2) by {
                if any_compressed {
                    if entries@[k - 1].2 {
                        assert((entries@[k - 1]).2);
                    }
                }
            }
        }
        let mut es: Vec<StoreEntry> = Vec::new();
        let mut j: usize = 0;
        while j < entries.len()
            invariant
                j <= entries@.len(),
                es@.len() == j,
                forall|m: int|
                    0 <= m < j ==> (#[trigger] es@[m]).offset == entries@[m].0 && es@[m].len
                        == entries@[m].1 && es@[m].compressed == entries@[m].2,
            decreases entries@.len() - j,
        {
            let (off, len, comp) = entries[j];
            es.push(StoreEntry { offset: off, len, compressed: comp });
            j = j + 1;
        }
        let store = DocStore {
            log,
            entries: es,
            dict,
            dict_done: dict_done || any_compressed,
            bodies: bodies_known,
        };
        assert(store.wf()) by {
            assert forall|m: int| 0 <= m < store.entries@.len() implies {
                &&& (#[trigger] store.entries@[m]).offset + store.entries@[m].len
                    <= store.log@.len()
                &&& if store.entries@[m].compressed {
                    zstd_d(store.dict@, store.chunk(m)) == Some(encode_utf8(store.bodies@[m]))
                } else {
                    store.chunk(m) == encode_utf8(store.bodies@[m])
                }
                &&& store.entries@[m].compressed ==> store.dict_done
            } by {
                assert(store.chunk(m) == store.log@.subrange(
                    entries@[m].0 as int,
                    entries@[m].0 + entries@[m].1,
                ));
            }
        }
        Some(store)
    }
}

/// The chunk of a parts tuple decodes: compressed chunks decompress with
/// the dictionary and the result (or the raw chunk) is valid UTF-8.
pub open spec fn parts_entry_ok(
    log: Seq<u8>,
    entries: Seq<(usize, usize, bool)>,
    dict: Seq<u8>,
    done: bool,
    k: int,
) -> bool {
    &&& entries[k].0 + entries[k].1 <= log.len()
    &&& ({
        let chunk = log.subrange(entries[k].0 as int, entries[k].0 + entries[k].1);
        if entries[k].2 {
            done && match zstd_d(dict, chunk) {
                Some(b) => valid_utf8_encoding_exists(b),
                None => false,
            }
        } else {
            valid_utf8_encoding_exists(chunk)
        }
    })
}

/// Some character sequence encodes to exactly these bytes.
pub open spec fn valid_utf8_encoding_exists(b: Seq<u8>) -> bool {
    exists|cs: Seq<char>| b == #[trigger] encode_utf8(cs)
}

/// Every entry of the parts tuple decodes.
pub open spec fn from_parts_ok(
    log: Seq<u8>,
    entries: Seq<(usize, usize, bool)>,
    dict: Seq<u8>,
    done: bool,
) -> bool {
    forall|k: int| 0 <= k < entries.len() ==> parts_entry_ok(log, entries, dict, done, k)
}

} // verus!
