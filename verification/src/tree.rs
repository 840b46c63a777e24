//! Tree objects: directory entries, their canonical binary encoding, the
//! total order that makes the encoding deterministic, and the tree hash.
//!
//! A tree serializes as a 2-byte big-endian entry count followed by one
//! record per entry: 1 kind byte (0 = blob, 1 = tree), a 2-byte big-endian
//! record length, the raw 20 hash bytes decoded from the entry's hex oid,
//! and the raw UTF-8 bytes of the name.  Entries are sorted before
//! serialization, blobs before trees, then by oid, so the bytes — and hence
//! the tree's own hash — do not depend on enumeration order.

use crate::hash::{sha1_hex, sha1_hex_bytes};
use crate::hex::{
    ascii_seq, decode_hex, first_bad, hex_ok, hex_to_bytes, utf8_bytes, HexError,
};
use vstd::prelude::*;

verus! {

use vstd::relations::total_ordering;
use vstd::seq_lib::lemma_sorted_unique;
use vstd::relations::sorted_by;

/// What the encoding and the sort order read from one entry: the kind byte,
/// the oid's text bytes and the name's text bytes.
pub ghost struct EntryModel {
    pub kind: u8,
    pub oid: Seq<u8>,
    pub name: Seq<u8>,
}

/// Byte-wise lexicographic order on byte sequences, as Rust orders `str`.
pub open spec fn lex_le(x: Seq<u8>, y: Seq<u8>) -> bool
    decreases x.len(),
{
    if x.len() == 0 {
        true
    } else if y.len() == 0 {
        false
    } else if x[0] < y[0] {
        true
    } else if x[0] > y[0] {
        false
    } else {
        lex_le(x.drop_first(), y.drop_first())
    }
}

/// The sort order of tree entries: kind first (blobs before trees), then
/// the oid text, then the name text.
pub open spec fn entry_le(a: EntryModel, b: EntryModel) -> bool {
    if a.kind != b.kind {
        a.kind < b.kind
    } else if a.oid != b.oid {
        lex_le(a.oid, b.oid)
    } else {
        lex_le(a.name, b.name)
    }
}

/// The entry order as a relation value, for the sorting vocabulary of vstd.
pub open spec fn entry_order() -> spec_fn(EntryModel, EntryModel) -> bool {
    |a: EntryModel, b: EntryModel| entry_le(a, b)
}

pub proof fn lemma_lex_le_refl(x: Seq<u8>)
    ensures
        lex_le(x, x),
    decreases x.len(),
{
    if x.len() > 0 {
        lemma_lex_le_refl(x.drop_first());
    }
}

pub proof fn lemma_lex_le_total(x: Seq<u8>, y: Seq<u8>)
    ensures
        lex_le(x, y) || lex_le(y, x),
        lex_le(x, y) && lex_le(y, x) ==> x == y,
    decreases x.len(),
{
    if x.len() == 0 {
        if lex_le(x, y) && lex_le(y, x) {
            assert(x =~= y);
        }
    } else if y.len() == 0 {
    } else if x[0] == y[0] {
        lemma_lex_le_total(x.drop_first(), y.drop_first());
        if lex_le(x, y) && lex_le(y, x) {
            assert(x.drop_first() == y.drop_first());
            assert(x.len() == y.len());
            assert forall|i: int| 0 <= i < x.len() implies x[i] == y[i] by {
                if i > 0 {
                    assert(x[i] == x.drop_first()[i - 1]);
                    assert(y[i] == y.drop_first()[i - 1]);
                }
            }
            assert(x =~= y);
        }
    }
}

pub proof fn lemma_lex_le_trans(x: Seq<u8>, y: Seq<u8>, z: Seq<u8>)
    requires
        lex_le(x, y),
        lex_le(y, z),
    ensures
        lex_le(x, z),
    decreases x.len(),
{
    if x.len() == 0 || y.len() == 0 || z.len() == 0 {
    } else if x[0] == y[0] && y[0] == z[0] {
        lemma_lex_le_trans(x.drop_first(), y.drop_first(), z.drop_first());
    }
}

/// Law: the entry order is a total order, so sorting by it puts any
/// collection of entries into exactly one sequence.
pub proof fn lemma_entry_order_total()
    ensures
        total_ordering(entry_order()),
{
    let leq = entry_order();
    assert forall|a: EntryModel| #[trigger] leq(a, a) by {
        lemma_lex_le_refl(a.name);
    }
    assert forall|a: EntryModel, b: EntryModel| #[trigger] leq(a, b) && #[trigger] leq(b, a) implies a == b by {
        lemma_lex_le_total(a.oid, b.oid);
        lemma_lex_le_total(a.name, b.name);
    }
    assert forall|a: EntryModel, b: EntryModel, c: EntryModel|
        #[trigger] leq(a, b) && #[trigger] leq(b, c) implies leq(a, c) by {
        lemma_lex_le_total(a.oid, b.oid);
        lemma_lex_le_total(b.oid, c.oid);
        if a.kind == b.kind && b.kind == c.kind {
            if a.oid == b.oid && b.oid == c.oid {
                lemma_lex_le_trans(a.name, b.name, c.name);
            } else if a.oid == b.oid {
                assert(lex_le(b.oid, c.oid));
            } else if b.oid == c.oid {
                assert(lex_le(a.oid, c.oid));
            } else {
                lemma_lex_le_trans(a.oid, b.oid, c.oid);
                if a.oid == c.oid {
                    lemma_lex_le_total(a.oid, b.oid);
                    assert(lex_le(b.oid, a.oid));
                    assert(a.oid == b.oid);
                }
            }
        }
    }
    assert forall|a: EntryModel, b: EntryModel| #[trigger] leq(a, b) || #[trigger] leq(b, a) by {
        lemma_lex_le_total(a.oid, b.oid);
        lemma_lex_le_total(a.name, b.name);
    }
}

/// The content hash of a file or directory, as lowercase hex text, tagged
/// with what it refers to.
#[derive(Debug)]
pub enum EntryId {
    /// The hash of a regular file's bytes.
    Blob(String),
    /// The hash of a directory's serialized tree object.
    Tree(String),
}

/// One directory entry: the child's name and its content hash.
#[derive(Debug)]
pub struct Entry {
    /// The name of the file or directory within its parent.
    pub name: String,
    /// The content hash of the file or directory.
    pub oid: EntryId,
}

impl EntryId {
    /// The hex text of the hash, as characters.
    pub open spec fn spec_id(&self) -> Seq<char> {
        match self {
            EntryId::Blob(s) => s@,
            EntryId::Tree(s) => s@,
        }
    }

    /// The kind tag the encoding stores: 0 for a blob, 1 for a tree.
    pub open spec fn spec_kind(&self) -> u8 {
        match self {
            EntryId::Blob(_) => 0u8,
            EntryId::Tree(_) => 1u8,
        }
    }

    /// Compares the kinds of two entries: blobs sort before trees.
    #[allow(non_snake_case)]
    pub fn typeOrder(a: &Entry, b: &Entry) -> (r: core::cmp::Ordering)
        ensures
            r == core::cmp::Ordering::Less <==> a.oid.spec_kind() < b.oid.spec_kind(),
            r == core::cmp::Ordering::Greater <==> a.oid.spec_kind() > b.oid.spec_kind(),
            r == core::cmp::Ordering::Equal <==> a.oid.spec_kind() == b.oid.spec_kind(),
    {
        match (&a.oid, &b.oid) {
            (EntryId::Blob(_), EntryId::Tree(_)) => core::cmp::Ordering::Less,
            (EntryId::Tree(_), EntryId::Blob(_)) => core::cmp::Ordering::Greater,
            _ => core::cmp::Ordering::Equal,
        }
    }

    /// The hex text of the hash.
    pub fn get_id(&self) -> (r: &str)
        ensures
            r@ == self.spec_id(),
    {
        match self {
            EntryId::Blob(s) => s.as_str(),
            EntryId::Tree(s) => s.as_str(),
        }
    }

    /// The kind tag as the byte the encoding stores.
    pub fn kind_byte(&self) -> (r: u8)
        ensures
            r == self.spec_kind(),
    {
        match self {
            EntryId::Blob(_) => 0,
            EntryId::Tree(_) => 1,
        }
    }
}

/// What the encoding reads from an entry.
pub open spec fn entry_model(e: Entry) -> EntryModel {
    EntryModel {
        kind: e.oid.spec_kind(),
        oid: utf8_bytes(e.oid.spec_id()),
        name: utf8_bytes(e.name@),
    }
}

/// The models of a sequence of entries, in the same order.
pub open spec fn models(s: Seq<Entry>) -> Seq<EntryModel> {
    s.map_values(|e: Entry| entry_model(e))
}

/// The big-endian bytes of a 16-bit value.
pub open spec fn be16(n: int) -> Seq<u8>
    recommends
        0 <= n <= 0xFFFF,
{
    seq![(n / 256) as u8, (n % 256) as u8]
}

/// The record length stored for an entry: kind byte + length field + raw
/// hash bytes + name bytes.
pub open spec fn rec_len(m: EntryModel) -> int {
    3 + m.oid.len() as int / 2 + m.name.len() as int
}

/// The binary record of one entry: kind, record length, raw hash bytes
/// decoded from the hex oid, raw name bytes.
pub open spec fn encode_entry(m: EntryModel) -> Seq<u8> {
    seq![m.kind] + be16(rec_len(m)) + decode_hex(m.oid) + m.name
}

impl Entry {
    /// Serializes this entry as its binary record.  Fails exactly when the
    /// oid text is not valid hex, reporting the first bad byte.
    pub fn bytes(&self) -> (r: Result<Vec<u8>, HexError>)
        requires
            rec_len(entry_model(*self)) <= 0xFFFF,
        ensures
            r is Ok <==> hex_ok(entry_model(*self).oid),
            r matches Ok(v) ==> v@ == encode_entry(entry_model(*self)),
            r matches Err(HexError::InvalidHexDigit(j)) ==> first_bad(
                entry_model(*self).oid,
                j as int,
            ),
    {
        let oid = self.oid.get_id();
        let hash = match hex_to_bytes(oid) {
            Ok(h) => h,
            Err(e) => {
                return Err(e);
            },
        };
        let name_bytes = self.name.as_str().as_bytes();
        let length: usize = 3 + hash.len() + name_bytes.len();
        let mut out: Vec<u8> = Vec::new();
        out.push(self.oid.kind_byte());
        out.push((length / 256) as u8);
        out.push((length % 256) as u8);
        let mut i: usize = 0;
        while i < hash.len()
            invariant
                0 <= i <= hash@.len(),
                out@ == seq![entry_model(*self).kind] + be16(length as int) + hash@.take(i as int),
            decreases hash@.len() - i,
        {
            out.push(hash[i]);
            proof {
                assert(hash@.take(i + 1) =~= hash@.take(i as int).push(hash@[i as int]));
            }
            i = i + 1;
        }
        proof {
            assert(hash@.take(hash@.len() as int) =~= hash@);
        }
        let mut k: usize = 0;
        while k < name_bytes.len()
            invariant
                0 <= k <= name_bytes@.len(),
                out@ == seq![entry_model(*self).kind] + be16(length as int) + hash@
                    + name_bytes@.take(k as int),
            decreases name_bytes@.len() - k,
        {
            out.push(name_bytes[k]);
            proof {
                assert(name_bytes@.take(k + 1) =~= name_bytes@.take(k as int).push(
                    name_bytes@[k as int],
                ));
            }
            k = k + 1;
        }
        proof {
            assert(name_bytes@.take(name_bytes@.len() as int) =~= name_bytes@);
            assert(out@ =~= encode_entry(entry_model(*self)));
        }
        Ok(out)
    }
}

/// The concatenated binary records of a sequence of entries.
pub open spec fn encode_entries(s: Seq<EntryModel>) -> Seq<u8>
    decreases s.len(),
{
    if s.len() == 0 {
        Seq::empty()
    } else {
        encode_entry(s[0]) + encode_entries(s.drop_first())
    }
}

/// The complete tree object: 2-byte big-endian entry count, then the
/// records of the entries in sequence order.
pub open spec fn encode_tree(s: Seq<EntryModel>) -> Seq<u8> {
    be16(s.len() as int) + encode_entries(s)
}

/// True when every entry's oid text is valid hex.
pub open spec fn entries_ok(s: Seq<EntryModel>) -> bool {
    forall|i: int| 0 <= i < s.len() ==> hex_ok(#[trigger] s[i].oid)
}

/// True when the entry count and every record length fit the encoding's
/// 16-bit fields.
pub open spec fn limits_ok(s: Seq<EntryModel>) -> bool {
    &&& s.len() <= 0xFFFF
    &&& forall|i: int| 0 <= i < s.len() ==> rec_len(#[trigger] s[i]) <= 0xFFFF
}

/// True when `e` is the error serialization reports for `s`: the first
/// entry whose oid is not valid hex, at that oid's first bad byte.
pub open spec fn err_at(s: Seq<EntryModel>, e: HexError) -> bool {
    exists|i: int|
        {
            &&& 0 <= i < s.len()
            &&& !hex_ok(#[trigger] s[i].oid)
            &&& forall|k: int| 0 <= k < i ==> hex_ok(#[trigger] s[k].oid)
            &&& match e {
                HexError::InvalidHexDigit(j) => first_bad(s[i].oid, j as int),
            }
        }
}

pub proof fn lemma_encode_entries_concat(a: Seq<EntryModel>, b: Seq<EntryModel>)
    ensures
        encode_entries(a + b) == encode_entries(a) + encode_entries(b),
    decreases a.len(),
{
    if a.len() == 0 {
        assert(a + b =~= b);
        assert(encode_entries(a) + encode_entries(b) =~= encode_entries(b));
    } else {
        assert((a + b).drop_first() =~= a.drop_first() + b);
        lemma_encode_entries_concat(a.drop_first(), b);
        assert((a + b)[0] == a[0]);
        assert(encode_entry(a[0]) + (encode_entries(a.drop_first()) + encode_entries(b)) =~= (
        encode_entry(a[0]) + encode_entries(a.drop_first())) + encode_entries(b));
    }
}

/// Appends all of `src` to `dst`.
fn append_bytes(dst: &mut Vec<u8>, src: &Vec<u8>)
    ensures
        final(dst)@ == old(dst)@ + src@,
{
    let mut j: usize = 0;
    while j < src.len()
        invariant
            0 <= j <= src@.len(),
            dst@ == old(dst)@ + src@.take(j as int),
        decreases src@.len() - j,
    {
        dst.push(src[j]);
        proof {
            assert(src@.take(j + 1) =~= src@.take(j as int).push(src@[j as int]));
        }
        j = j + 1;
    }
    proof {
        assert(src@.take(src@.len() as int) =~= src@);
    }
}

/// A tree object: the entries of one directory.
#[derive(Debug)]
pub struct Tree {
    /// The directory's entries; sorted by `entry_le` before serialization.
    pub entries: Vec<Entry>,
}

impl Tree {
    /// Serializes the tree in the current entry order: entry count, then
    /// one record per entry.  Fails exactly at the first entry whose oid is
    /// not valid hex.
    pub fn bytes(&self) -> (r: Result<Vec<u8>, HexError>)
        requires
            limits_ok(models(self.entries@)),
        ensures
            r is Ok <==> entries_ok(models(self.entries@)),
            r matches Ok(v) ==> v@ == encode_tree(models(self.entries@)),
            r matches Err(e) ==> err_at(models(self.entries@), e),
    {
        let ghost ms = models(self.entries@);
        let n = self.entries.len();
        let mut out: Vec<u8> = Vec::new();
        out.push((n / 256) as u8);
        out.push((n % 256) as u8);
        proof {
            assert(out@ =~= be16(n as int) + encode_entries(ms.take(0)));
        }
        let mut i: usize = 0;
        while i < n
            invariant
                0 <= i <= n,
                n == self.entries@.len(),
                ms == models(self.entries@),
                limits_ok(ms),
                forall|k: int| 0 <= k < i ==> hex_ok(#[trigger] ms[k].oid),
                out@ == be16(n as int) + encode_entries(ms.take(i as int)),
            decreases n - i,
        {
            proof {
                assert(ms[i as int] == entry_model(self.entries@[i as int]));
            }
            let eb = match self.entries[i].bytes() {
                Ok(v) => v,
                Err(e) => {
                    proof {
                        assert(!hex_ok(ms[i as int].oid));
                        assert(err_at(ms, e));
                    }
                    return Err(e);
                },
            };
            append_bytes(&mut out, &eb);
            proof {
                assert(ms.take(i + 1) =~= ms.take(i as int) + seq![ms[i as int]]);
                lemma_encode_entries_concat(ms.take(i as int), seq![ms[i as int]]);
                assert(seq![ms[i as int]].drop_first() =~= Seq::<EntryModel>::empty());
                assert(encode_entries(Seq::<EntryModel>::empty()) =~= Seq::<u8>::empty());
                assert(encode_entries(seq![ms[i as int]]) =~= encode_entry(ms[i as int]) + Seq::<
                    u8,
                >::empty());
                assert(encode_entries(seq![ms[i as int]]) =~= encode_entry(ms[i as int]));
                assert(out@ =~= be16(n as int) + encode_entries(ms.take(i + 1)));
            }
            i = i + 1;
        }
        proof {
            assert(ms.take(n as int) =~= ms);
        }
        Ok(out)
    }
}

/// The models of a tree's entries once sorted by the entry order.
pub open spec fn sorted_models(s: Seq<Entry>) -> Seq<EntryModel> {
    models(s).sort_by(entry_order())
}

/// The hex text (as bytes) of a tree's content hash, for a sorted entry
/// sequence: the SHA-1 digest of the serialized tree.
pub open spec fn tree_oid_hex(sorted: Seq<EntryModel>) -> Seq<u8> {
    sha1_hex_bytes(encode_tree(sorted))
}

/// Validity of entries is a property of their collection, not their order.
pub proof fn lemma_ok_permutation(s1: Seq<EntryModel>, s2: Seq<EntryModel>)
    requires
        s1.to_multiset() == s2.to_multiset(),
    ensures
        entries_ok(s1) <==> entries_ok(s2),
        limits_ok(s1) <==> limits_ok(s2),
{
    broadcast use vstd::seq_lib::group_to_multiset_ensures;

    s1.to_multiset_ensures();
    s2.to_multiset_ensures();
    assert(s1.len() == s2.len());
    assert forall|i: int|
        0 <= i < s1.len() && entries_ok(s2) implies hex_ok(#[trigger] s1[i].oid) && rec_len(s1[i])
        <= 0xFFFF || (entries_ok(s2) && !limits_ok(s2)) by {
        assert(s1.contains(s1[i]));
        assert(s1.to_multiset().count(s1[i]) > 0);
        assert(s2.contains(s1[i]));
        let j = choose|j: int| 0 <= j < s2.len() && s2[j] == s1[i];
        assert(hex_ok(s2[j].oid));
    }
    assert forall|i: int| 0 <= i < s1.len() implies (entries_ok(s2) ==> hex_ok(
        #[trigger] s1[i].oid,
    )) && (limits_ok(s2) ==> rec_len(s1[i]) <= 0xFFFF) by {
        assert(s1.contains(s1[i]));
        assert(s1.to_multiset().count(s1[i]) > 0);
        assert(s2.contains(s1[i]));
        let j = choose|j: int| 0 <= j < s2.len() && s2[j] == s1[i];
        if entries_ok(s2) {
            assert(hex_ok(s2[j].oid));
        }
        if limits_ok(s2) {
            assert(rec_len(s2[j]) <= 0xFFFF);
        }
    }
    assert forall|i: int| 0 <= i < s2.len() implies (entries_ok(s1) ==> hex_ok(
        #[trigger] s2[i].oid,
    )) && (limits_ok(s1) ==> rec_len(s2[i]) <= 0xFFFF) by {
        assert(s2.contains(s2[i]));
        assert(s2.to_multiset().count(s2[i]) > 0);
        assert(s1.contains(s2[i]));
        let j = choose|j: int| 0 <= j < s1.len() && s1[j] == s2[i];
        if entries_ok(s1) {
            assert(hex_ok(s1[j].oid));
        }
        if limits_ok(s1) {
            assert(rec_len(s1[j]) <= 0xFFFF);
        }
    }
}

pub proof fn lemma_lex_le_skip(x: Seq<u8>, y: Seq<u8>, i: int)
    requires
        0 <= i <= x.len(),
        i <= y.len(),
        forall|k: int| 0 <= k < i ==> x[k] == y[k],
    ensures
        lex_le(x, y) == lex_le(x.skip(i), y.skip(i)),
    decreases i,
{
    if i == 0 {
        assert(x.skip(0) =~= x);
        assert(y.skip(0) =~= y);
    } else {
        assert(x[0] == y[0]);
        assert forall|k: int| 0 <= k < i - 1 implies x.drop_first()[k] == y.drop_first()[k] by {
            assert(x.drop_first()[k] == x[k + 1]);
            assert(y.drop_first()[k] == y[k + 1]);
        }
        lemma_lex_le_skip(x.drop_first(), y.drop_first(), i - 1);
        assert(x.drop_first().skip(i - 1) =~= x.skip(i));
        assert(y.drop_first().skip(i - 1) =~= y.skip(i));
    }
}

/// Byte-wise lexicographic "less than or equal" on byte slices.
fn lex_le_bytes(x: &[u8], y: &[u8]) -> (r: bool)
    ensures
        r == lex_le(x@, y@),
{
    let xn = x.len();
    let yn = y.len();
    let n = if xn < yn {
        xn
    } else {
        yn
    };
    let mut i: usize = 0;
    while i < n
        invariant
            0 <= i <= n,
            n == if x@.len() < y@.len() {
                x@.len()
            } else {
                y@.len()
            },
            forall|k: int| 0 <= k < i ==> x@[k] == y@[k],
        decreases n - i,
    {
        let a = x[i];
        let b = y[i];
        if a < b {
            proof {
                lemma_lex_le_skip(x@, y@, i as int);
            }
            return true;
        }
        if a > b {
            proof {
                lemma_lex_le_skip(x@, y@, i as int);
            }
            return false;
        }
        i = i + 1;
    }
    proof {
        lemma_lex_le_skip(x@, y@, n as int);
        if x@.len() <= y@.len() {
            assert(x@.skip(n as int).len() == 0);
        } else {
            assert(y@.skip(n as int).len() == 0);
            assert(x@.skip(n as int).len() > 0);
        }
    }
    xn <= yn
}

/// The entry order, executably: kind, then oid text, then name text.
fn entry_le_exec(a: &Entry, b: &Entry) -> (r: bool)
    ensures
        r == entry_le(entry_model(*a), entry_model(*b)),
{
    let ka = a.oid.kind_byte();
    let kb = b.oid.kind_byte();
    if ka != kb {
        return ka < kb;
    }
    let oa = a.oid.get_id().as_bytes();
    let ob = b.oid.get_id().as_bytes();
    let le_ab = lex_le_bytes(oa, ob);
    let le_ba = lex_le_bytes(ob, oa);
    proof {
        lemma_lex_le_total(entry_model(*a).oid, entry_model(*b).oid);
        lemma_lex_le_refl(entry_model(*a).oid);
    }
    if !(le_ab && le_ba) {
        return le_ab;
    }
    let na = a.name.as_str().as_bytes();
    let nb = b.name.as_str().as_bytes();
    lex_le_bytes(na, nb)
}

impl Tree {
    /// Sorts the entries by the entry order: blobs before trees, then by
    /// oid text, then by name.  This is the one visible mutation of a tree;
    /// it is idempotent, and after it the entries are the unique sorted
    /// arrangement of the same collection of entries.
    pub fn sort_entries(&mut self)
        ensures
            models(final(self).entries@) == sorted_models(old(self).entries@),
            sorted_by(models(final(self).entries@), entry_order()),
    {
        proof {
            lemma_entry_order_total();
            models(old(self).entries@).lemma_sort_by_ensures(entry_order());
            broadcast use vstd::seq_lib::group_to_multiset_ensures;
            broadcast use vstd::seq_lib::to_multiset_insert;
            broadcast use vstd::seq_lib::to_multiset_remove;
            broadcast use vstd::multiset::group_multiset_axioms;

        }
        let mut result: Vec<Entry> = Vec::new();
        proof {
            assert(models(result@).to_multiset().add(models(self.entries@).to_multiset()) =~= models(
                old(self).entries@,
            ).to_multiset());
        }
        while self.entries.len() > 0
            invariant
                total_ordering(entry_order()),
                sorted_by(models(result@), entry_order()),
                models(result@).to_multiset().add(models(self.entries@).to_multiset()) == models(
                    old(self).entries@,
                ).to_multiset(),
            decreases self.entries@.len(),
        {
            let ghost pre_entries = self.entries@;
            let ghost pre_result = result@;
            let e = self.entries.remove(0);
            proof {
                broadcast use vstd::seq_lib::group_to_multiset_ensures;
                broadcast use vstd::seq_lib::to_multiset_insert;
                broadcast use vstd::seq_lib::to_multiset_remove;
                broadcast use vstd::multiset::group_multiset_axioms;

                assert(models(self.entries@) =~= models(pre_entries).remove(0));
                assert(models(pre_entries).remove(0).to_multiset() == models(
                    pre_entries,
                ).to_multiset().remove(models(pre_entries)[0]));
            }
            let mut p: usize = 0;
            while p < result.len() && entry_le_exec(&result[p], &e)
                invariant
                    0 <= p <= result@.len(),
                    result@ == pre_result,
                    forall|k: int|
                        0 <= k < p ==> entry_le(#[trigger] models(result@)[k], entry_model(e)),
                decreases result@.len() - p,
            {
                p = p + 1;
            }
            proof {
                if (p as int) < pre_result.len() {
                    assert(!entry_le(models(pre_result)[p as int], entry_model(e)));
                }
            }
            result.insert(p, e);
            proof {
                broadcast use vstd::seq_lib::group_to_multiset_ensures;
                broadcast use vstd::seq_lib::to_multiset_insert;
                broadcast use vstd::multiset::group_multiset_axioms;

                let m = entry_model(e);
                let leq = entry_order();
                assert(models(result@) =~= models(pre_result).insert(p as int, m));
                assert(models(pre_result).insert(p as int, m).to_multiset() == models(
                    pre_result,
                ).to_multiset().insert(m));
                let nm = models(result@);
                assert forall|i: int, j: int| 0 <= i < j < nm.len() implies #[trigger] leq(
                    nm[i],
                    nm[j],
                ) by {
                    if j < p {
                        assert(leq(models(pre_result)[i], models(pre_result)[j]));
                    } else if j == p {
                        assert(nm[i] == models(pre_result)[i]);
                        assert(leq(models(pre_result)[i], m));
                    } else {
                        // j > p: nm[j] is the old entry at j - 1
                        assert(nm[j] == models(pre_result)[j - 1]);
                        if (p as int) < pre_result.len() {
                            assert(!leq(models(pre_result)[p as int], m));
                            assert(leq(m, models(pre_result)[p as int]));
                        }
                        if i < p {
                            assert(nm[i] == models(pre_result)[i]);
                            assert(leq(nm[i], m));
                            if j - 1 == p as int {
                            } else {
                                assert(leq(models(pre_result)[p as int], models(pre_result)[j - 1]));
                            }
                        } else if i == p {
                            assert(nm[i] == m);
                            if j - 1 == p as int {
                            } else {
                                assert(leq(models(pre_result)[p as int], models(pre_result)[j - 1]));
                            }
                        } else {
                            assert(nm[i] == models(pre_result)[i - 1]);
                            assert(leq(models(pre_result)[i - 1], models(pre_result)[j - 1]));
                        }
                    }
                }
                // the multiset balance is restored
                assert(models(result@).to_multiset().add(models(self.entries@).to_multiset()) =~= (
                models(pre_result).to_multiset().add(models(pre_entries).to_multiset())));
            }
        }
        self.entries = result;
        proof {
            broadcast use vstd::seq_lib::group_to_multiset_ensures;
            broadcast use vstd::multiset::group_multiset_axioms;

            assert(models(Seq::<Entry>::empty()) =~= Seq::<EntryModel>::empty());
            assert forall|m: EntryModel|
                models(self.entries@).to_multiset().count(m) == models(
                    old(self).entries@,
                ).to_multiset().count(m) by {
                assert(Seq::<EntryModel>::empty().to_multiset().count(m) == 0);
            }
            assert(models(self.entries@).to_multiset() =~= models(old(self).entries@).to_multiset());
            lemma_sorted_unique(
                models(self.entries@),
                sorted_models(old(self).entries@),
                entry_order(),
            );
        }
    }

    /// Sorts the entries, serializes the tree, and returns the SHA-1 hash
    /// of the serialized bytes as lowercase hex text: the tree's content
    /// address.  Fails exactly when some entry's oid is not valid hex.
    pub fn calculate_sha1(&mut self) -> (r: Result<String, HexError>)
        requires
            limits_ok(models(old(self).entries@)),
        ensures
            models(final(self).entries@) == sorted_models(old(self).entries@),
            r is Ok <==> entries_ok(models(old(self).entries@)),
            r matches Ok(h) ==> utf8_bytes(h@) == tree_oid_hex(sorted_models(old(self).entries@))
                && h@ == ascii_seq(tree_oid_hex(sorted_models(old(self).entries@))) && h@.len()
                == 40 && tree_oid_hex(sorted_models(old(self).entries@)).len() == 40,
            r matches Err(e) ==> err_at(sorted_models(old(self).entries@), e),
    {
        self.sort_entries();
        proof {
            lemma_entry_order_total();
            models(old(self).entries@).lemma_sort_by_ensures(entry_order());
            lemma_ok_permutation(models(self.entries@), models(old(self).entries@));
        }
        let data = match self.bytes() {
            Ok(v) => v,
            Err(e) => {
                return Err(e);
            },
        };
        Ok(sha1_hex(data.as_slice()))
    }
}

/// Law: determinism.  Two entry collections with the same members — however
/// they were enumerated — sort to the same sequence, serialize to the same
/// bytes, and therefore receive the same content hash.
pub proof fn lemma_tree_hash_deterministic(s1: Seq<EntryModel>, s2: Seq<EntryModel>)
    requires
        s1.to_multiset() == s2.to_multiset(),
    ensures
        s1.sort_by(entry_order()) == s2.sort_by(entry_order()),
        tree_oid_hex(s1.sort_by(entry_order())) == tree_oid_hex(s2.sort_by(entry_order())),
{
    lemma_entry_order_total();
    s1.lemma_sort_by_ensures(entry_order());
    s2.lemma_sort_by_ensures(entry_order());
    lemma_sorted_unique(s1.sort_by(entry_order()), s2.sort_by(entry_order()), entry_order());
}

/// Law: sorting is idempotent.  Re-sorting a sorted entry sequence is a
/// no-op, so a tree may be hashed any number of times without changing.
pub proof fn lemma_sort_idempotent(s: Seq<EntryModel>)
    ensures
        s.sort_by(entry_order()).sort_by(entry_order()) == s.sort_by(entry_order()),
{
    lemma_entry_order_total();
    s.lemma_sort_by_ensures(entry_order());
    s.sort_by(entry_order()).lemma_sort_by_ensures(entry_order());
    lemma_sorted_unique(
        s.sort_by(entry_order()).sort_by(entry_order()),
        s.sort_by(entry_order()),
        entry_order(),
    );
}

/// Law: the kind dominates the order.  In a sorted tree every blob entry
/// stands before every tree entry, whatever the oids and names say.
pub proof fn lemma_blobs_before_trees(s: Seq<EntryModel>, i: int, j: int)
    requires
        sorted_by(s, entry_order()),
        0 <= i < j < s.len(),
        s[j].kind == 0,
    ensures
        s[i].kind == 0,
{
    let leq = entry_order();
    assert(leq(s[i], s[j]));
    assert(entry_le(s[i], s[j]));
}

} // verus!
