//! The object store: a content-addressed map from hash to bytes.
//!
//! On disk the store is a directory holding one immutable file per object at
//! `<root>/<hash[0:2]>/<hash[2:]>`.  This module holds the store's logic —
//! which key an object lands under, and the skip-if-present write rule that
//! makes writes idempotent — over an in-memory table; the surrounding
//! program mirrors each decided write onto the filesystem.

use crate::hex::utf8_bytes;
use vstd::prelude::*;

verus! {

use vstd::string::is_ascii;
use vstd::string::StrSliceExecFns;

/// One completed object: its content hash as lowercase hex text, and its
/// serialized bytes.
#[derive(Debug)]
pub struct StoreObject {
    /// The object's content hash, which is also its storage key.
    pub oid: String,
    /// The object's bytes: raw file bytes for a blob, the serialized tree
    /// encoding for a tree.
    pub data: Vec<u8>,
}

/// The map a sequence of stored objects amounts to, keyed by the oid text's
/// bytes; a later object with the same key would win, but `put` never adds
/// one.
pub open spec fn store_map(s: Seq<StoreObject>) -> Map<Seq<u8>, Seq<u8>>
    decreases s.len(),
{
    if s.len() == 0 {
        Map::empty()
    } else {
        store_map(s.drop_last()).insert(utf8_bytes(s.last().oid@), s.last().data@)
    }
}

/// What writing to the store does to its map: nothing when the key is
/// already present (objects are immutable), an insert otherwise.
pub open spec fn store_put(m: Map<Seq<u8>, Seq<u8>>, k: Seq<u8>, v: Seq<u8>) -> Map<
    Seq<u8>,
    Seq<u8>,
> {
    if m.contains_key(k) {
        m
    } else {
        m.insert(k, v)
    }
}

/// Law: idempotent writes.  Writing the same content twice leaves exactly
/// the state of writing it once, and after a write the object is present.
pub proof fn lemma_put_idempotent(m: Map<Seq<u8>, Seq<u8>>, k: Seq<u8>, v: Seq<u8>)
    ensures
        store_put(store_put(m, k, v), k, v) == store_put(m, k, v),
        store_put(m, k, v).contains_key(k),
{
}

pub proof fn lemma_store_map_contains(s: Seq<StoreObject>, k: Seq<u8>)
    ensures
        store_map(s).contains_key(k) <==> exists|i: int|
            0 <= i < s.len() && utf8_bytes(#[trigger] s[i].oid@) == k,
    decreases s.len(),
{
    if s.len() > 0 {
        lemma_store_map_contains(s.drop_last(), k);
        if utf8_bytes(s.last().oid@) == k {
            assert(utf8_bytes(s[s.len() - 1].oid@) == k);
        } else if store_map(s.drop_last()).contains_key(k) {
            let i = choose|i: int|
                0 <= i < s.drop_last().len() && utf8_bytes(#[trigger] s.drop_last()[i].oid@) == k;
            assert(utf8_bytes(s[i].oid@) == k);
        } else if exists|i: int| 0 <= i < s.len() && utf8_bytes(#[trigger] s[i].oid@) == k {
            let i = choose|i: int| 0 <= i < s.len() && utf8_bytes(#[trigger] s[i].oid@) == k;
            assert(i < s.len() - 1);
            assert(utf8_bytes(s.drop_last()[i].oid@) == k);
        }
    }
}

/// True when the byte slices hold the same bytes.
fn bytes_eq(x: &[u8], y: &[u8]) -> (r: bool)
    ensures
        r == (x@ == y@),
{
    if x.len() != y.len() {
        return false;
    }
    let n = x.len();
    let mut i: usize = 0;
    while i < n
        invariant
            0 <= i <= n,
            n == x@.len() == y@.len(),
            forall|k: int| 0 <= k < i ==> x@[k] == y@[k],
        decreases n - i,
    {
        if x[i] != y[i] {
            return false;
        }
        i = i + 1;
    }
    proof {
        assert(x@ =~= y@);
    }
    true
}

/// An in-memory object store: the set of objects written so far, each
/// exactly once.
#[derive(Debug)]
pub struct ObjectStore {
    objects: Vec<StoreObject>,
}

impl ObjectStore {
    /// The store as a map from oid text bytes to object bytes.
    pub closed spec fn s_map(&self) -> Map<Seq<u8>, Seq<u8>> {
        store_map(self.objects@)
    }

    /// How many objects the store holds.
    pub closed spec fn object_count(&self) -> nat {
        self.objects@.len()
    }

    /// An empty store.
    pub fn new() -> (s: Self)
        ensures
            s.s_map() == Map::<Seq<u8>, Seq<u8>>::empty(),
            s.object_count() == 0,
    {
        ObjectStore { objects: Vec::new() }
    }

    /// The number of objects written.
    pub fn len(&self) -> (n: usize)
        ensures
            n == self.object_count(),
    {
        self.objects.len()
    }

    /// Whether an object with this oid has been written.
    pub fn contains(&self, oid: &str) -> (r: bool)
        ensures
            r == self.s_map().contains_key(utf8_bytes(oid@)),
    {
        let n = self.objects.len();
        let mut i: usize = 0;
        while i < n
            invariant
                0 <= i <= n,
                n == self.objects@.len(),
                forall|k: int|
                    0 <= k < i ==> utf8_bytes(#[trigger] self.objects@[k].oid@) != utf8_bytes(oid@),
            decreases n - i,
        {
            if bytes_eq(self.objects[i].oid.as_str().as_bytes(), oid.as_bytes()) {
                proof {
                    lemma_store_map_contains(self.objects@, utf8_bytes(oid@));
                }
                return true;
            }
            i = i + 1;
        }
        proof {
            lemma_store_map_contains(self.objects@, utf8_bytes(oid@));
        }
        false
    }

    /// Writes an object: a no-op returning `false` when an object with this
    /// oid is already present, otherwise the object is added and `put`
    /// returns `true`.  Either way the object is present afterwards.
    pub fn put(&mut self, oid: String, data: Vec<u8>) -> (written: bool)
        ensures
            written == !old(self).s_map().contains_key(utf8_bytes(oid@)),
            final(self).s_map() == store_put(old(self).s_map(), utf8_bytes(oid@), data@),
            !written ==> *final(self) == *old(self),
            written ==> final(self).object_count() == old(self).object_count() + 1,
            final(self).s_map().contains_key(utf8_bytes(oid@)),
    {
        if self.contains(oid.as_str()) {
            return false;
        }
        let ghost pre = self.objects@;
        self.objects.push(StoreObject { oid, data });
        proof {
            assert(self.objects@.drop_last() =~= pre);
        }
        true
    }
}

/// Splits an oid into the store's directory prefix (the first two hex
/// digits) and the file name (the rest), the two parts of the object's
/// path under the store root.
pub fn split_oid(oid: &str) -> (r: (String, String))
    requires
        is_ascii(oid),
        oid@.len() >= 2,
    ensures
        r.0@ == oid@.subrange(0, 2),
        r.1@ == oid@.subrange(2, oid@.len() as int),
{
    let n = oid.unicode_len();
    let prefix = oid.substring_ascii(0, 2);
    let rest = oid.substring_ascii(2, n);
    (prefix.to_owned(), rest.to_owned())
}

} // verus!
