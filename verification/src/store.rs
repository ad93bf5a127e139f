//! The content-addressed object store.
//!
//! Objects are byte strings sorted into namespaces by a `kind` byte and
//! addressed by the blake3 hash of their bytes. The store is immutable:
//! the same bytes always produce the same hash, writes are idempotent, and
//! an object, once stored, is never updated or deleted.
use vstd::prelude::*;

use crate::error::Error;
use crate::index::{find_by_hash, HashKeyed};

verus! {

/// A blake3 hash: the content address of an object.
pub type ContentHash = [u8; 32];

/// What blake3 gives for `data` (32 bytes).
pub uninterp spec fn blake3_digest(data: Seq<u8>) -> Seq<u8>;

/// Hash bytes with blake3, returning the content address.
///
/// Calls `blake3::hash` and copies out the bytes of its result. The
/// contract claims only that the result is blake3 of `data`, a function of
/// `data` alone; nothing else is claimed about the digest's value.
#[verifier::external_body]
pub fn content_hash(data: &[u8]) -> (h: ContentHash)
    ensures
        h@ == blake3_digest(data@),
{
    *blake3::hash(data).as_bytes()
}

/// The contents of a store: content hash ↦ (kind, bytes).
pub type StoreContents = Map<Seq<u8>, (u8, Seq<u8>)>;

/// The contents after putting `data` under `kind`: a new object is added
/// under its blake3 hash, unless that hash is already present, in which case
/// nothing changes (the first write wins).
pub open spec fn put_contents(m: StoreContents, kind: u8, data: Seq<u8>) -> StoreContents {
    let h = blake3_digest(data);
    if m.contains_key(h) {
        m
    } else {
        m.insert(h, (kind, data))
    }
}

/// Every object is stored under the blake3 hash of its own bytes.
pub open spec fn content_addressed(m: StoreContents) -> bool {
    forall|h: Seq<u8>| #[trigger] m.contains_key(h) ==> blake3_digest(m[h].1) == h
}

/// The hashes of the objects of one kind.
pub open spec fn hashes_of_kind(m: StoreContents, kind: u8) -> Set<Seq<u8>> {
    m.dom().filter(|h: Seq<u8>| m[h].0 == kind)
}

/// Writes are idempotent: putting the same bytes a second time, under any
/// kind, changes nothing; the kind of the first write stays.
pub proof fn lemma_put_idempotent(m: StoreContents, first_kind: u8, second_kind: u8, data: Seq<u8>)
    ensures
        put_contents(put_contents(m, first_kind, data), second_kind, data) == put_contents(
            m,
            first_kind,
            data,
        ),
        put_contents(m, first_kind, data)[blake3_digest(data)].0 == if m.contains_key(
            blake3_digest(data),
        ) {
            m[blake3_digest(data)].0
        } else {
            first_kind
        },
{
}

/// Values are never updated or deleted: every object present before a put
/// is present afterwards, unchanged.
pub proof fn lemma_put_keeps_objects(m: StoreContents, kind: u8, data: Seq<u8>, h: Seq<u8>)
    requires
        m.contains_key(h),
    ensures
        put_contents(m, kind, data).contains_key(h),
        put_contents(m, kind, data)[h] == m[h],
{
}

/// A put makes its bytes retrievable under their hash: afterwards the store
/// holds an object under `blake3(data)`; it is `(kind, data)` itself unless
/// an object with that hash was already stored; and a content-addressed
/// store stays content-addressed, so what is stored there hashes to the
/// hash it is stored under.
pub proof fn lemma_put_then_get(m: StoreContents, kind: u8, data: Seq<u8>)
    ensures
        put_contents(m, kind, data).contains_key(blake3_digest(data)),
        !m.contains_key(blake3_digest(data)) ==> put_contents(m, kind, data)[blake3_digest(data)]
            == (kind, data),
        content_addressed(m) ==> content_addressed(put_contents(m, kind, data)),
        content_addressed(m) ==> blake3_digest(put_contents(m, kind, data)[blake3_digest(data)].1)
            == blake3_digest(data),
{
}

/// A put adds one object exactly when no object had the hash of its bytes.
pub proof fn lemma_put_count(m: StoreContents, kind: u8, data: Seq<u8>)
    requires
        m.dom().finite(),
    ensures
        put_contents(m, kind, data).dom().finite(),
        put_contents(m, kind, data).len() == if m.contains_key(blake3_digest(data)) {
            m.len()
        } else {
            m.len() + 1
        },
{
}

/// Every key is a 32-byte hash.
pub open spec fn keys_are_hashes(m: StoreContents) -> bool {
    forall|h: Seq<u8>| #[trigger] m.contains_key(h) ==> h.len() == 32
}

/// The number of objects whose kind is below `n`: the sizes of the scans of
/// kinds `0 .. n` added up.
pub open spec fn objects_of_kinds_below(m: StoreContents, n: int) -> int
    decreases n,
{
    if n <= 0 {
        0
    } else {
        objects_of_kinds_below(m, n - 1) + hashes_of_kind(m, (n - 1) as u8).len()
    }
}

proof fn lemma_objects_of_kinds_below(m: StoreContents, n: int)
    requires
        m.dom().finite(),
        0 <= n <= 256,
    ensures
        objects_of_kinds_below(m, n) == m.dom().filter(|h: Seq<u8>| (m[h].0 as int) < n).len(),
    decreases n,
{
    let below = m.dom().filter(|h: Seq<u8>| (m[h].0 as int) < n);
    if n == 0 {
        assert(below =~= Set::empty());
    } else {
        lemma_objects_of_kinds_below(m, n - 1);
        let before = m.dom().filter(|h: Seq<u8>| (m[h].0 as int) < n - 1);
        let at = hashes_of_kind(m, (n - 1) as u8);
        assert(below =~= before + at);
        assert(before.disjoint(at));
        m.dom().lemma_len_filter(|h: Seq<u8>| (m[h].0 as int) < n - 1);
        m.dom().lemma_len_filter(|h: Seq<u8>| m[h].0 == (n - 1) as u8);
        vstd::set_lib::lemma_set_disjoint_lens(before, at);
    }
}

/// Every object belongs to exactly one kind: the scans of all 256 kinds
/// together hold as many objects as the store.
pub proof fn lemma_scans_cover_store(m: StoreContents)
    requires
        m.dom().finite(),
    ensures
        objects_of_kinds_below(m, 256) == m.len(),
{
    lemma_objects_of_kinds_below(m, 256);
    assert(m.dom().filter(|h: Seq<u8>| (m[h].0 as int) < 256) =~= m.dom());
}

/// Content-addressed store. Immutable: same bytes always produce the same
/// hash. Writes are idempotent. Values are never updated or deleted.
///
/// The `kind` byte sorts objects into typed namespaces; all kinds live in
/// one store, content-addressed within each kind.
pub trait Store {
    /// What the store holds.
    spec fn contents(&self) -> StoreContents;

    /// Store bytes, return their content hash. Skips if already present.
    fn put(&mut self, kind: u8, data: &[u8]) -> (r: Result<ContentHash, Error>)
        ensures
            match r {
                Ok(h) => {
                    &&& h@ == blake3_digest(data@)
                    &&& final(self).contents() == put_contents(old(self).contents(), kind, data@)
                },
                Err(_) => final(self).contents() == old(self).contents(),
            },
    ;

    /// Retrieve bytes by content hash.
    fn get(&self, hash: &ContentHash) -> (r: Result<&[u8], Error>)
        ensures
            r matches Ok(d) ==> self.contents().contains_key(hash@) && d@ == self.contents()[hash@].1,
            !self.contents().contains_key(hash@) ==> r is Err,
    ;

    /// Retrieve bytes and kind by content hash.
    fn get_typed(&self, hash: &ContentHash) -> (r: Result<(u8, &[u8]), Error>)
        ensures
            r matches Ok((k, d)) ==> self.contents().contains_key(hash@) && self.contents()[hash@]
                == (k, d@),
            !self.contents().contains_key(hash@) ==> r is Err,
    ;

    /// Check if a hash exists without loading the data.
    fn contains(&self, hash: &ContentHash) -> (r: bool)
        ensures
            r == self.contents().contains_key(hash@),
    ;

    /// All objects of a given kind, each once, as (hash, bytes).
    fn scan(&self, kind: u8) -> (r: Vec<(ContentHash, &[u8])>)
        ensures
            forall|i: int|
                0 <= i < r@.len() ==> self.contents().contains_key(#[trigger] r@[i].0@)
                    && self.contents()[r@[i].0@] == (kind, r@[i].1@),
            forall|i: int, j: int| 0 <= i < j < r@.len() ==> r@[i].0@ != r@[j].0@,
            forall|h: Seq<u8>| #[trigger]
                hashes_of_kind(self.contents(), kind).contains(h) ==> exists|i: int|
                    0 <= i < r@.len() && r@[i].0@ == h,
    ;
}

/// One stored object.
struct StoredObject {
    hash: ContentHash,
    kind: u8,
    data: Vec<u8>,
}

/// The contents described by a list of stored objects; a later object
/// overrides an earlier one with the same hash (which a valid list never has).
impl HashKeyed for StoredObject {
    closed spec fn key(&self) -> Seq<u8> {
        self.hash@
    }

    fn key_bytes(&self) -> (b: &ContentHash) {
        &self.hash
    }
}

spec fn objects_contents(s: Seq<StoredObject>) -> StoreContents
    decreases s.len(),
{
    if s.len() == 0 {
        Map::empty()
    } else {
        let o = s.last();
        objects_contents(s.drop_last()).insert(o.hash@, (o.kind, o.data@))
    }
}

spec fn distinct_hashes(s: Seq<StoredObject>) -> bool {
    forall|i: int, j: int| 0 <= i < j < s.len() ==> s[i].hash@ != s[j].hash@
}

spec fn hashed_by_content(s: Seq<StoredObject>) -> bool {
    forall|i: int| 0 <= i < s.len() ==> (#[trigger] s[i]).hash@ == blake3_digest(s[i].data@)
}

spec fn holds_hash(s: Seq<StoredObject>, h: Seq<u8>, i: int) -> bool {
    0 <= i < s.len() && s[i].hash@ == h
}

proof fn lemma_objects_contents(s: Seq<StoredObject>)
    requires
        distinct_hashes(s),
    ensures
        forall|h: Seq<u8>|
            #[trigger] objects_contents(s).contains_key(h) <==> exists|i: int| holds_hash(s, h, i),
        forall|i: int|
            0 <= i < s.len() ==> #[trigger] objects_contents(s)[s[i].hash@] == (
                s[i].kind,
                s[i].data@,
            ),
        objects_contents(s).dom().finite(),
        objects_contents(s).dom().len() == s.len(),
    decreases s.len(),
{
    if s.len() > 0 {
        let t = s.drop_last();
        let o = s.last();
        assert(distinct_hashes(t));
        lemma_objects_contents(t);
        assert(!objects_contents(t).contains_key(o.hash@)) by {
            if objects_contents(t).contains_key(o.hash@) {
                let i = choose|i: int| holds_hash(t, o.hash@, i);
                assert(s[i].hash@ != s[s.len() - 1].hash@);
            }
        }
        assert forall|h: Seq<u8>|
            #[trigger] objects_contents(s).contains_key(h) <==> exists|i: int| holds_hash(s, h, i) by {
            if objects_contents(s).contains_key(h) {
                if h == o.hash@ {
                    assert(holds_hash(s, h, s.len() - 1));
                } else {
                    let i = choose|i: int| holds_hash(t, h, i);
                    assert(holds_hash(s, h, i));
                }
            }
            if exists|i: int| holds_hash(s, h, i) {
                let i = choose|i: int| holds_hash(s, h, i);
                if i < s.len() - 1 {
                    assert(holds_hash(t, h, i));
                }
            }
        }
        assert forall|i: int| 0 <= i < s.len() implies #[trigger] objects_contents(s)[s[i].hash@] == (
            s[i].kind,
            s[i].data@,
        ) by {
            if i < s.len() - 1 {
                assert(t[i] == s[i]);
                assert(s[i].hash@ != o.hash@);
            }
        }
    }
}

proof fn lemma_keys_are_hashes(s: Seq<StoredObject>)
    requires
        distinct_hashes(s),
    ensures
        keys_are_hashes(objects_contents(s)),
{
    lemma_objects_contents(s);
    assert forall|h: Seq<u8>| #[trigger] objects_contents(s).contains_key(h) implies h.len() == 32 by {
        let i = choose|i: int| holds_hash(s, h, i);
        assert(s[i].hash@.len() == 32);
    }
}

/// The objects of one kind in a list of stored objects, in list order, as (hash, bytes).
spec fn scan_objects(s: Seq<StoredObject>, kind: u8) -> Seq<(Seq<u8>, Seq<u8>)>
    decreases s.len(),
{
    if s.len() == 0 {
        Seq::empty()
    } else {
        let o = s.last();
        let rest = scan_objects(s.drop_last(), kind);
        if o.kind == kind {
            rest.push((o.hash@, o.data@))
        } else {
            rest
        }
    }
}

proof fn lemma_scan_objects_count(s: Seq<StoredObject>, kind: u8)
    requires
        distinct_hashes(s),
    ensures
        scan_objects(s, kind).len() == hashes_of_kind(objects_contents(s), kind).len(),
{
    lemma_objects_contents(s);
    lemma_scan_objects(s, kind);
    let ss = scan_objects(s, kind);
    let m = objects_contents(s);
    let hs = ss.map_values(|p: (Seq<u8>, Seq<u8>)| p.0);
    assert(hs.no_duplicates()) by {
        assert forall|i: int, j: int| 0 <= i < hs.len() && 0 <= j < hs.len() && i != j implies hs[i]
            != hs[j] by {
            if i < j {
                assert(ss[i].0 != ss[j].0);
            } else {
                assert(ss[j].0 != ss[i].0);
            }
        }
    }
    hs.unique_seq_to_set();
    assert forall|h: Seq<u8>| hs.to_set().contains(h) <==> #[trigger] hashes_of_kind(m, kind).contains(
        h,
    ) by {
        if hs.to_set().contains(h) {
            let i = choose|i: int| 0 <= i < hs.len() && hs[i] == h;
            assert(m.contains_key(ss[i].0));
        }
        if hashes_of_kind(m, kind).contains(h) {
            let k = choose|k: int| 0 <= k < ss.len() && ss[k].0 == h;
            assert(hs[k] == h);
            assert(hs.contains(h));
        }
    }
    assert(hs.to_set() =~= hashes_of_kind(m, kind));
}

proof fn lemma_scan_objects(s: Seq<StoredObject>, kind: u8)
    requires
        distinct_hashes(s),
    ensures
        forall|k: int|
            0 <= k < scan_objects(s, kind).len() ==> objects_contents(s).contains_key(
                #[trigger] scan_objects(s, kind)[k].0,
            ) && objects_contents(s)[scan_objects(s, kind)[k].0] == (
                kind,
                scan_objects(s, kind)[k].1,
            ),
        forall|k: int, l: int|
            0 <= k < l < scan_objects(s, kind).len() ==> scan_objects(s, kind)[k].0
                != scan_objects(s, kind)[l].0,
        forall|h: Seq<u8>|
            #[trigger] hashes_of_kind(objects_contents(s), kind).contains(h) ==> exists|k: int|
                0 <= k < scan_objects(s, kind).len() && scan_objects(s, kind)[k].0 == h,
    decreases s.len(),
{
    lemma_objects_contents(s);
    if s.len() > 0 {
        let t = s.drop_last();
        let o = s.last();
        assert(distinct_hashes(t));
        lemma_objects_contents(t);
        lemma_scan_objects(t, kind);
        let m = objects_contents(s);
        let mt = objects_contents(t);
        let ss = scan_objects(s, kind);
        let st = scan_objects(t, kind);
        assert(!mt.contains_key(o.hash@)) by {
            if mt.contains_key(o.hash@) {
                let i = choose|i: int| holds_hash(t, o.hash@, i);
                assert(s[i].hash@ != s[s.len() - 1].hash@);
            }
        }
        assert forall|k: int| 0 <= k < st.len() implies #[trigger] st[k].0 != o.hash@ by {
            assert(mt.contains_key(st[k].0));
        }
        assert forall|k: int| 0 <= k < ss.len() implies m.contains_key(#[trigger] ss[k].0) && m[ss[k].0]
            == (kind, ss[k].1) by {
            if k < st.len() {
                assert(ss[k] == st[k]);
                assert(mt.contains_key(st[k].0));
                assert(st[k].0 != o.hash@);
            }
        }
        assert forall|h: Seq<u8>| #[trigger] hashes_of_kind(m, kind).contains(h) implies exists|k: int|
            0 <= k < ss.len() && ss[k].0 == h by {
            if h == o.hash@ {
                assert(ss[ss.len() - 1].0 == h);
            } else {
                assert(hashes_of_kind(mt, kind).contains(h));
                let k = choose|k: int| 0 <= k < st.len() && st[k].0 == h;
                assert(ss[k] == st[k]);
            }
        }
    }
}

/// In-memory store for tests and bootstrap.
pub struct MemoryStore {
    /// The stored objects, each under a hash that no other object has.
    entries: Vec<StoredObject>,
}

impl View for MemoryStore {
    type V = StoreContents;

    closed spec fn view(&self) -> StoreContents {
        objects_contents(self.entries@)
    }
}

impl MemoryStore {
    #[verifier::type_invariant]
    spec fn well_formed(self) -> bool {
        &&& distinct_hashes(self.entries@)
        &&& hashed_by_content(self.entries@)
    }

    /// An empty store.
    pub fn new() -> (s: Self)
        ensures
            s@ == Map::<Seq<u8>, (u8, Seq<u8>)>::empty(),
            keys_are_hashes(s@),
    {
        MemoryStore { entries: Vec::new() }
    }

    /// The number of stored objects.
    pub fn len(&self) -> (n: usize)
        ensures
            self@.dom().finite(),
            keys_are_hashes(self@),
            n == self@.len(),
    {
        proof {
            use_type_invariant(self);
            lemma_objects_contents(self.entries@);
            lemma_keys_are_hashes(self.entries@);
        }
        self.entries.len()
    }

    /// Whether the store holds no object.
    pub fn is_empty(&self) -> (b: bool)
        ensures
            self@.dom().finite(),
            keys_are_hashes(self@),
            b == (self@.len() == 0),
            b == (self@.dom() == Set::<Seq<u8>>::empty()),
    {
        proof {
            use_type_invariant(self);
            lemma_objects_contents(self.entries@);
            lemma_keys_are_hashes(self.entries@);
            if self@.len() == 0 {
                assert(self@.dom() =~= Set::<Seq<u8>>::empty());
            }
        }
        self.entries.len() == 0
    }

    /// The position of the object stored under `hash`, if any.
    fn find(&self, hash: &ContentHash) -> (r: Option<usize>)
        ensures
            self@.dom().finite(),
            match r {
                Some(i) => {
                    &&& i < self.entries@.len()
                    &&& self.entries@[i as int].hash@ == hash@
                    &&& self@.contains_key(hash@)
                    &&& self@[hash@] == (self.entries@[i as int].kind, self.entries@[i as int].data@)
                },
                None => !self@.contains_key(hash@),
            },
    {
        proof {
            use_type_invariant(self);
            lemma_objects_contents(self.entries@);
        }
        let r = find_by_hash(&self.entries, hash);
        proof {
            match r {
                Some(i) => {
                    assert(holds_hash(self.entries@, hash@, i as int));
                },
                None => {
                    if self@.contains_key(hash@) {
                        let j = choose|j: int| holds_hash(self.entries@, hash@, j);
                        assert(self.entries@[j].key() == self.entries@[j].hash@);
                    }
                },
            }
        }
        r
    }
}

impl Default for MemoryStore {
    fn default() -> (s: Self)
        ensures
            s@ == Map::<Seq<u8>, (u8, Seq<u8>)>::empty(),
    {
        Self::new()
    }
}

impl Store for MemoryStore {
    open spec fn contents(&self) -> StoreContents {
        self@
    }

    fn put(&mut self, kind: u8, data: &[u8]) -> (r: Result<ContentHash, Error>)
        ensures
            r is Ok,
            content_addressed(final(self)@),
            keys_are_hashes(final(self)@),
    {
        proof {
            use_type_invariant(&*self);
            lemma_objects_contents(self.entries@);
        }
        let hash = content_hash(data);
        match self.find(&hash) {
            Some(_) => {},
            None => {
                let object = StoredObject { hash, kind, data: vstd::slice::slice_to_vec(data) };
                let ghost before = self.entries@;
                proof {
                    assert forall|j: int| 0 <= j < before.len() implies before[j].hash@ != hash@ by {
                        assert(holds_hash(before, before[j].hash@, j));
                        assert(objects_contents(before).contains_key(before[j].hash@));
                    }
                    assert(before.push(object).drop_last() =~= before);
                }
                let mut entries = Vec::new();
                std::mem::swap(&mut entries, &mut self.entries);
                entries.push(object);
                self.entries = entries;
            },
        }
        proof {
            use_type_invariant(&*self);
            lemma_objects_contents(self.entries@);
            lemma_keys_are_hashes(self.entries@);
            assert forall|h: Seq<u8>| #[trigger] self@.contains_key(h) implies blake3_digest(
                self@[h].1,
            ) == h by {
                let i = choose|i: int| holds_hash(self.entries@, h, i);
                assert(self.entries@[i].hash@ == blake3_digest(self.entries@[i].data@));
            }
        }
        Ok(hash)
    }

    fn get(&self, hash: &ContentHash) -> (r: Result<&[u8], Error>)
        ensures
            r is Ok <==> self@.contains_key(hash@),
            r matches Err(e) ==> e == Error::NotFound(*hash),
            r matches Ok(d) ==> blake3_digest(d@) == hash@,
    {
        proof {
            use_type_invariant(self);
        }
        match self.find(hash) {
            Some(i) => Ok(self.entries[i].data.as_slice()),
            None => Err(Error::NotFound(*hash)),
        }
    }

    fn get_typed(&self, hash: &ContentHash) -> (r: Result<(u8, &[u8]), Error>)
        ensures
            r is Ok <==> self@.contains_key(hash@),
            r matches Err(e) ==> e == Error::NotFound(*hash),
            r matches Ok((_, d)) ==> blake3_digest(d@) == hash@,
    {
        proof {
            use_type_invariant(self);
        }
        match self.find(hash) {
            Some(i) => Ok((self.entries[i].kind, self.entries[i].data.as_slice())),
            None => Err(Error::NotFound(*hash)),
        }
    }

    fn contains(&self, hash: &ContentHash) -> (r: bool) {
        self.find(hash).is_some()
    }

    fn scan(&self, kind: u8) -> (r: Vec<(ContentHash, &[u8])>)
        ensures
            self@.dom().finite(),
            r@.len() == hashes_of_kind(self@, kind).len(),
    {
        proof {
            use_type_invariant(self);
            lemma_objects_contents(self.entries@);
            lemma_scan_objects(self.entries@, kind);
            lemma_scan_objects_count(self.entries@, kind);
        }
        let mut r: Vec<(ContentHash, &[u8])> = Vec::new();
        let mut i: usize = 0;
        while i < self.entries.len()
            invariant
                i <= self.entries@.len(),
                r@.len() == scan_objects(self.entries@.take(i as int), kind).len(),
                forall|k: int|
                    0 <= k < r@.len() ==> (#[trigger] r@[k]).0@ == scan_objects(
                        self.entries@.take(i as int),
                        kind,
                    )[k].0 && r@[k].1@ == scan_objects(self.entries@.take(i as int), kind)[k].1,
            decreases self.entries@.len() - i,
        {
            let o = &self.entries[i];
            proof {
                assert(self.entries@.take(i + 1).drop_last() =~= self.entries@.take(i as int));
            }
            if o.kind == kind {
                r.push((o.hash, o.data.as_slice()));
            }
            i = i + 1;
        }
        proof {
            assert(self.entries@.take(i as int) =~= self.entries@);
            let ss = scan_objects(self.entries@, kind);
            assert forall|h: Seq<u8>| #[trigger] hashes_of_kind(self@, kind).contains(h) implies exists|
                j: int,
            | 0 <= j < r@.len() && r@[j].0@ == h by {
                let k = choose|k: int| 0 <= k < ss.len() && ss[k].0 == h;
                assert(r@[k].0@ == h);
            }
        }
        r
    }
}

} // verus!
