//! The in-memory index: from key to the position of the record that holds its value.
use vstd::prelude::*;
use vstd::string::StringSliceAdditionalSpecFns;
use vstd::utf8::encode_utf8;

verus! {

broadcast use vstd::utf8::encode_utf8_decode_utf8;

pub open spec fn same_prefix(a: Seq<u8>, b: Seq<u8>, i: int) -> bool {
    forall|j: int| 0 <= j < i ==> a[j] == b[j]
}

/// `i` is where `a` and `b` first differ, and there `a` is the smaller:
/// a smaller byte, or the end of `a`.
pub open spec fn lex_split(a: Seq<u8>, b: Seq<u8>, i: int) -> bool {
    &&& 0 <= i <= a.len()
    &&& i <= b.len()
    &&& same_prefix(a, b, i)
    &&& ((i == a.len() && i < b.len()) || (i < a.len() && i < b.len() && a[i] < b[i]))
}

/// Byte-wise lexicographic order, the order of `String`s.
pub open spec fn lex_lt(a: Seq<u8>, b: Seq<u8>) -> bool {
    exists|i: int| lex_split(a, b, i)
}

/// The bytes by which a key is ordered.
pub open spec fn key_bytes(k: Seq<char>) -> Seq<u8> {
    encode_utf8(k)
}

pub proof fn lemma_lex_asym(a: Seq<u8>, b: Seq<u8>)
    requires
        lex_lt(a, b),
    ensures
        !lex_lt(b, a),
        a != b,
{
    let i = choose|i: int| lex_split(a, b, i);
    if lex_lt(b, a) {
        let j = choose|j: int| lex_split(b, a, j);
        if i < j {
            assert(a[i] == b[i]);
        } else if j < i {
            assert(a[j] == b[j]);
        }
    }
}

pub proof fn lemma_lex_trans(a: Seq<u8>, b: Seq<u8>, c: Seq<u8>)
    requires
        lex_lt(a, b),
        lex_lt(b, c),
    ensures
        lex_lt(a, c),
{
    let i = choose|i: int| lex_split(a, b, i);
    let j = choose|j: int| lex_split(b, c, j);
    if i < j {
        assert(b[i] == c[i]) by {
            assert(i < b.len());
        }
        assert(lex_split(a, c, i));
    } else if j < i {
        assert(a[j] == b[j]);
        assert(lex_split(a, c, j));
    } else {
        assert(lex_split(a, c, i));
    }
}

/// Compares two byte strings: negative, zero or positive as `a` sorts
/// before, equal to or after `b`.
fn compare_bytes(a: &[u8], b: &[u8]) -> (r: i8)
    ensures
        r < 0 <==> lex_lt(a@, b@),
        r == 0 <==> a@ == b@,
        r > 0 <==> lex_lt(b@, a@),
{
    let mut i: usize = 0;
    while i < a.len() && i < b.len() && a[i] == b[i]
        invariant
            i <= a@.len(),
            i <= b@.len(),
            same_prefix(a@, b@, i as int),
        decreases a@.len() - i,
    {
        i = i + 1;
    }
    if i < a.len() && i < b.len() {
        if a[i] < b[i] {
            assert(lex_split(a@, b@, i as int));
            proof {
                lemma_lex_asym(a@, b@);
            }
            -1
        } else {
            assert(lex_split(b@, a@, i as int));
            proof {
                lemma_lex_asym(b@, a@);
            }
            1
        }
    } else if i < b.len() {
        assert(lex_split(a@, b@, i as int));
        proof {
            lemma_lex_asym(a@, b@);
        }
        -1
    } else if i < a.len() {
        assert(lex_split(b@, a@, i as int));
        proof {
            lemma_lex_asym(b@, a@);
        }
        1
    } else {
        assert(a@ =~= b@);
        assert(!lex_lt(a@, a@)) by {
            if lex_lt(a@, a@) {
                lemma_lex_asym(a@, a@);
            }
        }
        0
    }
}

/// Where a record lies: its log's generation, its first byte, and its length.
#[derive(Clone, Copy, PartialEq, Eq, Structural)]
pub struct RecordPos {
    pub gen: u64,
    pub pos: u64,
    pub len: u64,
}

/// Entries are kept sorted by key, which makes iteration deterministic and
/// lookups logarithmic; keys are unique.
pub struct Index {
    entries: Vec<(String, RecordPos)>,
    model: Ghost<Map<Seq<char>, RecordPos>>,
}

impl View for Index {
    type V = Map<Seq<char>, RecordPos>;

    closed spec fn view(&self) -> Map<Seq<char>, RecordPos> {
        self.model@
    }
}

impl Index {
    /// The keys in iteration order.
    pub closed spec fn keys(&self) -> Seq<Seq<char>> {
        self.entries@.map_values(|e: (String, RecordPos)| e.0@)
    }

    pub closed spec fn wf(&self) -> bool {
        &&& forall|i: int, j: int|
            0 <= i < j < self.entries@.len() ==> #[trigger] self.entries@[i].0@ != #[trigger] self.entries@[j].0@
        &&& forall|i: int|
            0 <= i < self.entries@.len() ==> {
                &&& self.model@.contains_key(#[trigger] self.entries@[i].0@)
                &&& self.model@[self.entries@[i].0@] == self.entries@[i].1
            }
        &&& forall|k: Seq<char>|
            #[trigger] self.model@.contains_key(k) ==> exists|i: int|
                0 <= i < self.entries@.len() && #[trigger] self.entries@[i].0@ == k
        &&& self.sorted()
    }

    /// The keys ascend in byte order.
    pub closed spec fn sorted(&self) -> bool {
        forall|i: int, j: int|
            0 <= i < j < self.entries@.len() ==> lex_lt(
                key_bytes(#[trigger] self.entries@[i].0@),
                key_bytes(#[trigger] self.entries@[j].0@),
            )
    }

    pub proof fn lemma_keys(&self)
        requires
            self.wf(),
        ensures
            self.keys().no_duplicates(),
            self.keys().to_set() == self@.dom(),
            self.keys().len() == self@.dom().len(),
    {
        let ks = self.keys();
        assert forall|k: Seq<char>| #[trigger] self@.contains_key(k) implies ks.contains(k) by {
            let i = choose|i: int| 0 <= i < self.entries@.len() && #[trigger] self.entries@[i].0@ == k;
            assert(ks[i] == k);
        }
        assert(ks.to_set() =~= self@.dom());
        ks.unique_seq_to_set();
    }

    pub fn new() -> (r: Index)
        ensures
            r.wf(),
            r@ == Map::<Seq<char>, RecordPos>::empty(),
    {
        Index { entries: Vec::new(), model: Ghost(Map::empty()) }
    }

    pub fn len(&self) -> (r: usize)
        requires
            self.wf(),
        ensures
            r == self.keys().len(),
    {
        self.entries.len()
    }

    /// Where `key` stands (`Ok`), or where it would be inserted (`Err`).
    fn find(&self, key: &String) -> (r: Result<usize, usize>)
        requires
            self.wf(),
        ensures
            r is Ok <==> self@.contains_key(key@),
            r matches Ok(i) ==> i < self.entries@.len() && self.entries@[i as int].0@ == key@,
            r matches Err(i) ==> {
                &&& i <= self.entries@.len()
                &&& forall|j: int|
                    0 <= j < i ==> lex_lt(key_bytes(#[trigger] self.entries@[j].0@), key_bytes(key@))
                &&& forall|j: int|
                    i <= j < self.entries@.len() ==> lex_lt(
                        key_bytes(key@),
                        key_bytes(#[trigger] self.entries@[j].0@),
                    )
            },
    {
        let kb = key.as_str().as_bytes();
        let mut lo: usize = 0;
        let mut hi: usize = self.entries.len();
        while lo < hi
            invariant
                self.wf(),
                kb@ == key_bytes(key@),
                lo <= hi <= self.entries@.len(),
                forall|j: int| 0 <= j < lo ==> lex_lt(key_bytes(#[trigger] self.entries@[j].0@), kb@),
                forall|j: int|
                    hi <= j < self.entries@.len() ==> lex_lt(kb@, key_bytes(#[trigger] self.entries@[j].0@)),
            decreases hi - lo,
        {
            let mid = lo + (hi - lo) / 2;
            let c = compare_bytes(self.entries[mid].0.as_str().as_bytes(), kb);
            if c == 0 {
                assert(self.entries@[mid as int].0@ == key@) by {
                    assert(vstd::utf8::decode_utf8(key_bytes(self.entries@[mid as int].0@)) == vstd::utf8::decode_utf8(kb@));
                }
                return Ok(mid);
            } else if c < 0 {
                assert forall|j: int| 0 <= j < mid + 1 implies lex_lt(
                    key_bytes(#[trigger] self.entries@[j].0@),
                    kb@,
                ) by {
                    if j < mid {
                        lemma_lex_trans(
                            key_bytes(self.entries@[j].0@),
                            key_bytes(self.entries@[mid as int].0@),
                            kb@,
                        );
                    }
                }
                lo = mid + 1;
            } else {
                assert forall|j: int| mid <= j < self.entries@.len() implies lex_lt(
                    kb@,
                    key_bytes(#[trigger] self.entries@[j].0@),
                ) by {
                    if j > mid {
                        lemma_lex_trans(
                            kb@,
                            key_bytes(self.entries@[mid as int].0@),
                            key_bytes(self.entries@[j].0@),
                        );
                    }
                }
                hi = mid;
            }
        }
        assert(!self@.contains_key(key@)) by {
            if self@.contains_key(key@) {
                let j = choose|j: int| 0 <= j < self.entries@.len() && #[trigger] self.entries@[j].0@ == key@;
                if j < lo {
                    lemma_lex_asym(kb@, kb@);
                } else {
                    lemma_lex_asym(kb@, kb@);
                }
            }
        }
        Err(lo)
    }

    /// The position recorded for `key`, if any.
    pub fn get(&self, key: &String) -> (r: Option<RecordPos>)
        requires
            self.wf(),
        ensures
            r == (if self@.contains_key(key@) {
                Some(self@[key@])
            } else {
                None
            }),
    {
        match self.find(key) {
            Ok(i) => Some(self.entries[i].1),
            Err(_) => None,
        }
    }

    pub fn contains_key(&self, key: &String) -> (r: bool)
        requires
            self.wf(),
        ensures
            r == self@.contains_key(key@),
    {
        self.find(key).is_ok()
    }

    /// Inserts or replaces the position of `key`, returning the one it replaced.
    pub fn insert(&mut self, key: String, p: RecordPos) -> (r: Option<RecordPos>)
        requires
            old(self).wf(),
        ensures
            final(self).wf(),
            final(self)@ == old(self)@.insert(key@, p),
            r == (if old(self)@.contains_key(key@) {
                Some(old(self)@[key@])
            } else {
                None
            }),
    {
        match self.find(&key) {
            Ok(i) => {
                let prev = self.entries[i].1;
                let ghost k = key@;
                self.entries.set(i, (key, p));
                self.model = Ghost(self.model@.insert(k, p));
                assert forall|q: Seq<char>| #[trigger] self.model@.contains_key(q) implies exists|j: int|
                    0 <= j < self.entries@.len() && #[trigger] self.entries@[j].0@ == q by {
                    if q != k {
                        let j = choose|j: int|
                            0 <= j < old(self).entries@.len() && #[trigger] old(self).entries@[j].0@ == q;
                        assert(self.entries@[j].0@ == q);
                    } else {
                        assert(self.entries@[i as int].0@ == q);
                    }
                }
                assert(self.sorted()) by {
                    assert forall|a: int, b: int| 0 <= a < b < self.entries@.len() implies lex_lt(
                        key_bytes(#[trigger] self.entries@[a].0@),
                        key_bytes(#[trigger] self.entries@[b].0@),
                    ) by {
                        assert(old(self).entries@[a].0@ == self.entries@[a].0@);
                        assert(old(self).entries@[b].0@ == self.entries@[b].0@);
                    }
                }
                Some(prev)
            },
            Err(i) => {
                let ghost k = key@;
                self.entries.insert(i, (key, p));
                self.model = Ghost(self.model@.insert(k, p));
                assert forall|q: Seq<char>| #[trigger] self.model@.contains_key(q) implies exists|j: int|
                    0 <= j < self.entries@.len() && #[trigger] self.entries@[j].0@ == q by {
                    if q != k {
                        let j = choose|j: int|
                            0 <= j < old(self).entries@.len() && #[trigger] old(self).entries@[j].0@ == q;
                        if j < i {
                            assert(self.entries@[j].0@ == q);
                        } else {
                            assert(self.entries@[j + 1].0@ == q);
                        }
                    } else {
                        assert(self.entries@[i as int].0@ == q);
                    }
                }
                assert forall|a: int, b: int| 0 <= a < b < self.entries@.len() implies lex_lt(
                    key_bytes(#[trigger] self.entries@[a].0@),
                    key_bytes(#[trigger] self.entries@[b].0@),
                ) by {
                    let o = old(self).entries@;
                    if b < i {
                        assert(lex_lt(key_bytes(o[a].0@), key_bytes(o[b].0@)));
                    } else if b == i {
                        assert(lex_lt(key_bytes(o[a].0@), key_bytes(k)));
                    } else if a < i {
                        assert(lex_lt(key_bytes(o[a].0@), key_bytes(o[b - 1].0@)));
                    } else if a == i {
                        assert(lex_lt(key_bytes(k), key_bytes(o[b - 1].0@)));
                    } else {
                        assert(lex_lt(key_bytes(o[a - 1].0@), key_bytes(o[b - 1].0@)));
                    }
                }
                assert forall|a: int, b: int| 0 <= a < b < self.entries@.len() implies #[trigger] self.entries@[a].0@ != #[trigger] self.entries@[b].0@ by {
                    lemma_lex_asym(key_bytes(self.entries@[a].0@), key_bytes(self.entries@[b].0@));
                }
                None
            },
        }
    }

    /// Removes `key`, returning the position it had.
    pub fn remove(&mut self, key: &String) -> (r: Option<RecordPos>)
        requires
            old(self).wf(),
        ensures
            final(self).wf(),
            final(self)@ == old(self)@.remove(key@),
            r == (if old(self)@.contains_key(key@) {
                Some(old(self)@[key@])
            } else {
                None
            }),
    {
        match self.find(key) {
            Ok(i) => {
                let e = self.entries.remove(i);
                self.model = Ghost(self.model@.remove(key@));
                assert forall|q: Seq<char>| #[trigger] self.model@.contains_key(q) implies exists|j: int|
                    0 <= j < self.entries@.len() && #[trigger] self.entries@[j].0@ == q by {
                    let j = choose|j: int|
                        0 <= j < old(self).entries@.len() && #[trigger] old(self).entries@[j].0@ == q;
                    if j < i {
                        assert(self.entries@[j].0@ == q);
                    } else {
                        assert(j != i);
                        assert(self.entries@[j - 1].0@ == q);
                    }
                }
                assert forall|a: int, b: int| 0 <= a < b < self.entries@.len() implies lex_lt(
                    key_bytes(#[trigger] self.entries@[a].0@),
                    key_bytes(#[trigger] self.entries@[b].0@),
                ) by {
                    let o = old(self).entries@;
                    if b < i {
                        assert(lex_lt(key_bytes(o[a].0@), key_bytes(o[b].0@)));
                    } else if a < i {
                        assert(lex_lt(key_bytes(o[a].0@), key_bytes(o[b + 1].0@)));
                    } else {
                        assert(lex_lt(key_bytes(o[a + 1].0@), key_bytes(o[b + 1].0@)));
                    }
                }
                Some(e.1)
            },
            Err(_) => {
                assert(self.model@ =~= self.model@.remove(key@));
                None
            },
        }
    }

    /// The position held by the entry at iteration place `i`.
    pub fn pos_at(&self, i: usize) -> (r: RecordPos)
        requires
            self.wf(),
            i < self.keys().len(),
        ensures
            r == self@[self.keys()[i as int]],
    {
        self.entries[i].1
    }

    /// Replaces the position held by the entry at iteration place `i`.
    pub fn set_pos_at(&mut self, i: usize, p: RecordPos)
        requires
            old(self).wf(),
            i < old(self).keys().len(),
        ensures
            final(self).wf(),
            final(self).keys() == old(self).keys(),
            final(self)@ == old(self)@.insert(old(self).keys()[i as int], p),
    {
        let ghost k = self.entries@[i as int].0@;
        let key = self.entries[i].0.clone();
        self.entries.set(i, (key, p));
        self.model = Ghost(self.model@.insert(k, p));
        assert(self.keys() =~= old(self).keys());
        assert forall|q: Seq<char>| #[trigger] self.model@.contains_key(q) implies exists|j: int|
            0 <= j < self.entries@.len() && #[trigger] self.entries@[j].0@ == q by {
            if q != k {
                let j = choose|j: int|
                    0 <= j < old(self).entries@.len() && #[trigger] old(self).entries@[j].0@ == q;
                assert(self.entries@[j].0@ == q);
            } else {
                assert(self.entries@[i as int].0@ == q);
            }
        }
    }
}

} // verus!
