//! The content-addressed object store: compressed payloads keyed by their
//! identity.
use vstd::prelude::*;
use vstd::utf8::{decode_utf8, valid_utf8};
use crate::compression::{compress, decompress, inflate_of, zlib_of};
use crate::error::VcsError;
use crate::hashing::{calculate_hash, sha1_hex};
use crate::text::{chars_of, str_eq, string_of, text_from_bytes};

verus! {

/// One stored payload, compressed, under its identity.
#[derive(Debug, Clone)]
pub struct StoredObject {
    pub hash: String,
    pub data: Vec<u8>,
}

/// The objects of a repository. Where two entries share an identity the
/// later one counts.
#[derive(Debug, Clone)]
pub struct ObjectStore {
    pub objects: Vec<StoredObject>,
}

/// The map from identity to compressed payload that entries describe.
pub open spec fn entries_map(s: Seq<StoredObject>) -> Map<Seq<char>, Seq<u8>>
    decreases s.len(),
{
    if s.len() == 0 {
        Map::empty()
    } else {
        entries_map(s.drop_last()).insert(s.last().hash@, s.last().data@)
    }
}

impl View for ObjectStore {
    type V = Map<Seq<char>, Seq<u8>>;

    open spec fn view(&self) -> Map<Seq<char>, Seq<u8>> {
        entries_map(self.objects@)
    }
}

/// The payload stored under `h`, decompressed.
pub open spec fn object_bytes(store: Map<Seq<char>, Seq<u8>>, h: Seq<char>) -> Option<Seq<u8>> {
    if store.contains_key(h) {
        inflate_of(store[h])
    } else {
        None
    }
}

/// The payload stored under `h`, as text.
pub open spec fn object_text(store: Map<Seq<char>, Seq<u8>>, h: Seq<char>) -> Option<Seq<char>> {
    match object_bytes(store, h) {
        Some(b) => if valid_utf8(b) {
            Some(decode_utf8(b))
        } else {
            None
        },
        None => None,
    }
}

/// The object path of an identity: a two-character directory, then the rest.
pub open spec fn object_path(h: Seq<char>) -> Seq<char> {
    h.take(2) + seq!['/'] + h.skip(2)
}

/// Where the object `obj_hash` lives under the object directory.
pub fn create_object_path(obj_hash: &str) -> (r: String)
    requires
        obj_hash@.len() >= 2,
    ensures
        r@ == object_path(obj_hash@),
{
    let cs = chars_of(obj_hash);
    let mut out: Vec<char> = Vec::new();
    out.push(cs[0]);
    out.push(cs[1]);
    out.push('/');
    let mut i: usize = 2;
    while i < cs.len()
        invariant
            2 <= i <= cs.len(),
            cs@ == obj_hash@,
            out@ == obj_hash@.take(2) + seq!['/'] + obj_hash@.subrange(2, i as int),
        decreases cs.len() - i,
    {
        out.push(cs[i]);
        assert(obj_hash@.subrange(2, i + 1) == obj_hash@.subrange(2, i as int).push(cs@[i as int]));
        i += 1;
    }
    assert(obj_hash@.take(2) == seq![cs@[0], cs@[1]]);
    string_of(&out)
}

proof fn lemma_update_last(s: Seq<StoredObject>, i: int, o: StoredObject)
    requires
        0 <= i < s.len(),
        s[i].hash@ == o.hash@,
        forall|j: int| i < j < s.len() ==> s[j].hash@ != o.hash@,
    ensures
        entries_map(s.update(i, o)) == entries_map(s).insert(o.hash@, o.data@),
    decreases s.len(),
{
    let t = s.update(i, o);
    if i == s.len() - 1 {
        assert(t.drop_last() == s.drop_last());
        assert(entries_map(s).insert(o.hash@, o.data@) =~= entries_map(s.drop_last()).insert(
            o.hash@,
            o.data@,
        ));
    } else {
        lemma_update_last(s.drop_last(), i, o);
        assert(t.drop_last() == s.drop_last().update(i, o));
        assert(entries_map(t) =~= entries_map(s).insert(o.hash@, o.data@));
    }
}

proof fn lemma_lookup_last(s: Seq<StoredObject>, i: int)
    requires
        0 <= i < s.len(),
        forall|j: int| i < j < s.len() ==> s[j].hash@ != s[i].hash@,
    ensures
        entries_map(s).contains_key(s[i].hash@),
        entries_map(s)[s[i].hash@] == s[i].data@,
    decreases s.len(),
{
    if i < s.len() - 1 {
        lemma_lookup_last(s.drop_last(), i);
    }
}

proof fn lemma_absent(s: Seq<StoredObject>, h: Seq<char>)
    requires
        forall|j: int| 0 <= j < s.len() ==> s[j].hash@ != h,
    ensures
        !entries_map(s).contains_key(h),
    decreases s.len(),
{
    if s.len() > 0 {
        lemma_absent(s.drop_last(), h);
    }
}

impl ObjectStore {
    pub fn new() -> (r: ObjectStore)
        ensures
            r@ == Map::<Seq<char>, Seq<u8>>::empty(),
    {
        ObjectStore { objects: Vec::new() }
    }

    /// Where the last entry for `hash` stands, if any.
    fn position(&self, hash: &str) -> (r: Option<usize>)
        ensures
            r matches Some(i) ==> i < self.objects.len() && self.objects@[i as int].hash@ == hash@
                && forall|j: int|
                i < j < self.objects.len() ==> self.objects@[j].hash@ != hash@,
            r is None ==> forall|j: int|
                0 <= j < self.objects.len() ==> self.objects@[j].hash@ != hash@,
    {
        let mut i: usize = self.objects.len();
        while i > 0
            invariant
                i <= self.objects.len(),
                forall|j: int| i <= j < self.objects.len() ==> self.objects@[j].hash@ != hash@,
            decreases i,
        {
            if str_eq(self.objects[i - 1].hash.as_str(), hash) {
                return Some(i - 1);
            }
            i -= 1;
        }
        None
    }

    /// Stores a payload that is already compressed under `hash`, in place
    /// of any earlier one.
    pub fn insert_raw(&mut self, hash: String, data: Vec<u8>)
        ensures
            final(self)@ == old(self)@.insert(hash@, data@),
    {
        let o = StoredObject { hash, data };
        match self.position(o.hash.as_str()) {
            Some(i) => {
                proof {
                    lemma_update_last(self.objects@, i as int, o);
                }
                self.objects.set(i, o);
            },
            None => {
                self.objects.push(o);
                assert(self.objects@.drop_last() == old(self).objects@);
            },
        }
    }

    /// Whether an object is stored under `hash`.
    pub fn contains(&self, hash: &str) -> (r: bool)
        ensures
            r == self@.contains_key(hash@),
    {
        match self.position(hash) {
            Some(i) => {
                proof {
                    lemma_lookup_last(self.objects@, i as int);
                }
                true
            },
            None => {
                proof {
                    lemma_absent(self.objects@, hash@);
                }
                false
            },
        }
    }

    /// Compresses `content` and stores it under `id`.
    pub fn put_object(&mut self, id: &str, content: &[u8])
        ensures
            final(self)@ == old(self)@.insert(id@, zlib_of(content@)),
            object_bytes(final(self)@, id@) == Some(content@),
    {
        let z = compress(content);
        self.insert_raw(id.to_string(), z);
    }

    /// Stores `content` under its own digest and returns the digest.
    pub fn put(&mut self, content: &[u8]) -> (h: String)
        ensures
            h@ == sha1_hex(content@),
            final(self)@ == old(self)@.insert(h@, zlib_of(content@)),
            object_bytes(final(self)@, h@) == Some(content@),
    {
        let h = calculate_hash(content);
        self.put_object(h.as_str(), content);
        h
    }

    /// The payload stored under `hash`, decompressed.
    pub fn get(&self, hash: &str) -> (r: Result<Vec<u8>, VcsError>)
        ensures
            r is Ok <==> object_bytes(self@, hash@) is Some,
            r matches Ok(b) ==> b@ == object_bytes(self@, hash@)->0,
            r matches Err(e) ==> (e is NotFound <==> !self@.contains_key(hash@)),
            r matches Err(e) ==> (e is NotFound || e is Corrupt),
    {
        match self.position(hash) {
            Some(i) => {
                proof {
                    lemma_lookup_last(self.objects@, i as int);
                }
                match decompress(self.objects[i].data.as_slice()) {
                    Some(b) => Ok(b),
                    None => Err(VcsError::Corrupt(hash.to_string())),
                }
            },
            None => {
                proof {
                    lemma_absent(self.objects@, hash@);
                }
                Err(VcsError::NotFound(hash.to_string()))
            },
        }
    }

    /// The payload stored under `hash`, as text.
    pub fn dec_obj(&self, hash: &str) -> (r: Result<String, VcsError>)
        ensures
            r is Ok <==> object_text(self@, hash@) is Some,
            r matches Ok(t) ==> t@ == object_text(self@, hash@)->0,
            r matches Err(e) ==> (e is NotFound <==> !self@.contains_key(hash@)),
            r matches Err(e) ==> (e is NotFound || e is Corrupt),
    {
        let b = self.get(hash)?;
        match text_from_bytes(b) {
            Some(t) => Ok(t),
            None => Err(VcsError::Corrupt(hash.to_string())),
        }
    }
}

/// Storing the same content twice leaves the store as storing it once did.
pub proof fn lemma_put_twice(store: Map<Seq<char>, Seq<u8>>, content: Seq<u8>)
    ensures
        store.insert(sha1_hex(content), zlib_of(content)).insert(
            sha1_hex(content),
            zlib_of(content),
        ) == store.insert(sha1_hex(content), zlib_of(content)),
{
    assert(store.insert(sha1_hex(content), zlib_of(content)).insert(
        sha1_hex(content),
        zlib_of(content),
    ) =~= store.insert(sha1_hex(content), zlib_of(content)));
}

/// The payload stored under `obj_hash`, as text.
pub fn dec_obj(store: &ObjectStore, obj_hash: &str) -> (r: Result<String, VcsError>)
    ensures
        r is Ok <==> object_text(store@, obj_hash@) is Some,
        r matches Ok(t) ==> t@ == object_text(store@, obj_hash@)->0,
        r matches Err(e) ==> (e is NotFound <==> !store@.contains_key(obj_hash@)),
        r matches Err(e) ==> (e is NotFound || e is Corrupt),
{
    store.dec_obj(obj_hash)
}

} // verus!
