//! The tree builder: turns a directory's contents, bottom-up, into tree
//! objects, collecting every completed tree object so the caller can
//! persist each one.
//!
//! The builder works on an in-memory picture of the source directory in
//! which every file already carries its blob hash (the blob writer hashes
//! and stores file bytes before the build).  Each directory becomes a
//! `Tree` whose hash is computed over the sorted, serialized entries; the
//! completed objects come back as a list in post-order, the root last —
//! the buffered form of a per-object completion callback.

use crate::hex::{first_bad, hex_ok, utf8_bytes, HexError};
use crate::store::{store_put, ObjectStore, StoreObject};
use crate::tree::{
    encode_tree, entry_model, entry_order, err_at, lemma_entry_order_total,
    lemma_ok_permutation, limits_ok, models, rec_len, tree_oid_hex, Entry, EntryId,
    EntryModel, Tree,
};
use vstd::prelude::*;

verus! {

broadcast use vstd::std_specs::vec::group_vec_axioms;

/// A node of the source tree: a regular file already reduced to its blob
/// hash, or a directory with its children in enumeration order.
#[derive(Debug)]
pub enum SourceNode {
    /// A regular file; `oid` is the hex hash of its bytes, as the blob
    /// writer reports it.
    File { oid: String },
    /// A directory and its direct children, in any order.
    Dir { children: Vec<ChildSource> },
}

/// One child of a directory being built: its name within the parent and
/// what it is.
#[derive(Debug)]
pub struct ChildSource {
    /// The child's file or directory name.
    pub name: String,
    /// The child itself.
    pub node: SourceNode,
}

/// The entry a child turns into: files keep their blob hash, a directory's
/// hash is the hash of its own sorted, serialized entries.
pub open spec fn child_model(c: ChildSource) -> EntryModel
    decreases c,
{
    match c.node {
        SourceNode::File { oid } => EntryModel {
            kind: 0,
            oid: utf8_bytes(oid@),
            name: utf8_bytes(c.name@),
        },
        SourceNode::Dir { children } => EntryModel {
            kind: 1,
            oid: tree_oid_hex(
                children_models_to(children@, children@.len() as int).sort_by(entry_order()),
            ),
            name: utf8_bytes(c.name@),
        },
    }
}

/// The models of the first `n` children, in order.
pub open spec fn children_models_to(cs: Seq<ChildSource>, n: int) -> Seq<EntryModel>
    decreases cs, n,
{
    if n <= 0 || n > cs.len() {
        Seq::empty()
    } else {
        children_models_to(cs, n - 1).push(child_model(cs[n - 1]))
    }
}

/// The models of a directory's children, in enumeration order.
pub open spec fn children_models(cs: Seq<ChildSource>) -> Seq<EntryModel> {
    children_models_to(cs, cs.len() as int)
}

/// The sorted entry models of a directory: what its tree serializes.
pub open spec fn dir_sorted(cs: Seq<ChildSource>) -> Seq<EntryModel> {
    children_models(cs).sort_by(entry_order())
}

/// The hex text bytes of a directory's tree hash.
pub open spec fn dir_oid(cs: Seq<ChildSource>) -> Seq<u8> {
    tree_oid_hex(dir_sorted(cs))
}

/// A completed object as the contracts see it: oid text bytes and data.
pub ghost struct ObjectModel {
    pub oid: Seq<u8>,
    pub data: Seq<u8>,
}

pub open spec fn object_model(o: StoreObject) -> ObjectModel {
    ObjectModel { oid: utf8_bytes(o.oid@), data: o.data@ }
}

pub open spec fn object_models(s: Seq<StoreObject>) -> Seq<ObjectModel> {
    s.map_values(|o: StoreObject| object_model(o))
}

/// The tree object a directory completes: its hash and serialized bytes.
pub open spec fn root_object(cs: Seq<ChildSource>) -> ObjectModel {
    ObjectModel { oid: dir_oid(cs), data: encode_tree(dir_sorted(cs)) }
}

/// The tree objects a child contributes, in post-order: none for a file,
/// a directory's descendants then the directory itself.
pub open spec fn child_objects(c: ChildSource) -> Seq<ObjectModel>
    decreases c,
{
    match c.node {
        SourceNode::File { .. } => Seq::empty(),
        SourceNode::Dir { children } => children_objects_to(
            children@,
            children@.len() as int,
        ).push(
            ObjectModel {
                oid: tree_oid_hex(
                    children_models_to(children@, children@.len() as int).sort_by(entry_order()),
                ),
                data: encode_tree(
                    children_models_to(children@, children@.len() as int).sort_by(entry_order()),
                ),
            },
        ),
    }
}

/// The tree objects the first `n` children contribute, concatenated.
pub open spec fn children_objects_to(cs: Seq<ChildSource>, n: int) -> Seq<ObjectModel>
    decreases cs, n,
{
    if n <= 0 || n > cs.len() {
        Seq::empty()
    } else {
        children_objects_to(cs, n - 1) + child_objects(cs[n - 1])
    }
}

/// The tree objects of all children of a directory, in order.
pub open spec fn children_objects(cs: Seq<ChildSource>) -> Seq<ObjectModel> {
    children_objects_to(cs, cs.len() as int)
}

/// True when every file hash in this child's subtree is valid hex.
pub open spec fn child_hex_ok(c: ChildSource) -> bool
    decreases c,
{
    match c.node {
        SourceNode::File { oid } => hex_ok(utf8_bytes(oid@)),
        SourceNode::Dir { children } => children_hex_ok_to(children@, children@.len() as int),
    }
}

pub open spec fn children_hex_ok_to(cs: Seq<ChildSource>, n: int) -> bool
    decreases cs, n,
{
    if n <= 0 || n > cs.len() {
        true
    } else {
        children_hex_ok_to(cs, n - 1) && child_hex_ok(cs[n - 1])
    }
}

/// True when every file hash in the whole source is valid hex: exactly the
/// sources the builder accepts.
pub open spec fn children_hex_ok(cs: Seq<ChildSource>) -> bool {
    children_hex_ok_to(cs, cs.len() as int)
}

/// True when `e` is the error some invalid file hash in this child's
/// subtree gives rise to: the first non-digit byte of that hash.
pub open spec fn child_err_witness(c: ChildSource, e: HexError) -> bool
    decreases c,
{
    match c.node {
        SourceNode::File { oid } => match e {
            HexError::InvalidHexDigit(j) => first_bad(utf8_bytes(oid@), j as int),
        },
        SourceNode::Dir { children } => children_err_witness_to(
            children@,
            children@.len() as int,
            e,
        ),
    }
}

pub open spec fn children_err_witness_to(cs: Seq<ChildSource>, n: int, e: HexError) -> bool
    decreases cs, n,
{
    if n <= 0 || n > cs.len() {
        false
    } else {
        children_err_witness_to(cs, n - 1, e) || child_err_witness(cs[n - 1], e)
    }
}

/// True when `e` is an error some invalid file hash under this directory
/// gives rise to.
pub open spec fn children_err_witness(cs: Seq<ChildSource>, e: HexError) -> bool {
    children_err_witness_to(cs, cs.len() as int, e)
}

pub proof fn lemma_children_err_witness_to(cs: Seq<ChildSource>, n: int, e: HexError)
    requires
        0 <= n <= cs.len(),
    ensures
        children_err_witness_to(cs, n, e) <==> (exists|k: int|
            0 <= k < n && child_err_witness(#[trigger] cs[k], e)),
    decreases n,
{
    if n > 0 {
        lemma_children_err_witness_to(cs, n - 1, e);
    }
}

/// True when this child's subtree respects the encoding's 16-bit fields:
/// entry counts, file records, and directory records (whose raw hash is
/// always 20 bytes) all fit.
pub open spec fn child_limits_ok(c: ChildSource) -> bool
    decreases c,
{
    match c.node {
        SourceNode::File { oid } => 3 + utf8_bytes(oid@).len() / 2 + utf8_bytes(c.name@).len()
            <= 0xFFFF,
        SourceNode::Dir { children } => {
            &&& 23 + utf8_bytes(c.name@).len() <= 0xFFFF
            &&& children@.len() <= 0xFFFF
            &&& children_limits_ok_to(children@, children@.len() as int)
        },
    }
}

pub open spec fn children_limits_ok_to(cs: Seq<ChildSource>, n: int) -> bool
    decreases cs, n,
{
    if n <= 0 || n > cs.len() {
        true
    } else {
        children_limits_ok_to(cs, n - 1) && child_limits_ok(cs[n - 1])
    }
}

/// The builder's precondition: the source fits the encoding's fields.
pub open spec fn source_limits_ok(cs: Seq<ChildSource>) -> bool {
    cs.len() <= 0xFFFF && children_limits_ok_to(cs, cs.len() as int)
}

pub proof fn lemma_children_models_to_index(cs: Seq<ChildSource>, n: int, k: int)
    requires
        0 <= k < n <= cs.len(),
    ensures
        children_models_to(cs, n).len() == n,
        children_models_to(cs, n)[k] == child_model(cs[k]),
    decreases n,
{
    if n > 0 {
        if k < n - 1 {
            lemma_children_models_to_index(cs, n - 1, k);
        } else {
            lemma_children_models_to_len(cs, n - 1);
        }
        lemma_children_models_to_len(cs, n);
    }
}

pub proof fn lemma_children_models_to_len(cs: Seq<ChildSource>, n: int)
    requires
        0 <= n <= cs.len(),
    ensures
        children_models_to(cs, n).len() == n,
    decreases n,
{
    if n > 0 {
        lemma_children_models_to_len(cs, n - 1);
    }
}

pub proof fn lemma_children_hex_ok_to(cs: Seq<ChildSource>, n: int)
    requires
        0 <= n <= cs.len(),
    ensures
        children_hex_ok_to(cs, n) <==> (forall|k: int| 0 <= k < n ==> child_hex_ok(#[trigger] cs[k])),
    decreases n,
{
    if n > 0 {
        lemma_children_hex_ok_to(cs, n - 1);
    }
}

pub proof fn lemma_children_limits_ok_to(cs: Seq<ChildSource>, n: int)
    requires
        0 <= n <= cs.len(),
    ensures
        children_limits_ok_to(cs, n) <==> (forall|k: int|
            0 <= k < n ==> child_limits_ok(#[trigger] cs[k])),
    decreases n,
{
    if n > 0 {
        lemma_children_limits_ok_to(cs, n - 1);
    }
}

/// Appends all of `src`, in order, to `dst`.
fn append_objects(dst: &mut Vec<StoreObject>, src: Vec<StoreObject>)
    ensures
        final(dst)@ == old(dst)@ + src@,
{
    let mut rest = src;
    let ghost all = rest@;
    while rest.len() > 0
        invariant
            dst@ + rest@ == old(dst)@ + all,
        decreases rest@.len(),
    {
        let ghost pre_dst = dst@;
        let ghost pre_rest = rest@;
        let o = rest.remove(0);
        dst.push(o);
        proof {
            assert(dst@ + rest@ =~= pre_dst + pre_rest);
        }
    }
    proof {
        assert(final(dst)@ =~= final(dst)@ + rest@);
    }
}

/// Builds the tree object of a directory from its children, depth-first and
/// bottom-up, and returns the root tree (entries sorted) together with
/// every completed tree object, in post-order with the root's own object
/// last — one object per directory.  Fails exactly when some file hash in
/// the source is not valid hex.
pub fn build_tree(children: &Vec<ChildSource>) -> (r: Result<(Tree, Vec<StoreObject>), HexError>)
    requires
        source_limits_ok(children@),
    ensures
        r is Ok <==> children_hex_ok(children@),
        r matches Ok(p) ==> models(p.0.entries@) == dir_sorted(children@),
        r matches Ok(p) ==> object_models(p.1@) == children_objects(children@).push(
            root_object(children@),
        ),
        r matches Ok(p) ==> dir_oid(children@).len() == 40,
        r matches Err(e) ==> children_err_witness(children@, e),
    decreases children@,
{
    let ghost cs = children@;
    let n = children.len();
    let mut entries: Vec<Entry> = Vec::new();
    let mut objs: Vec<StoreObject> = Vec::new();
    proof {
        lemma_children_limits_ok_to(cs, n as int);
    }
    let mut i: usize = 0;
    while i < n
        invariant
            0 <= i <= n,
            cs == children@,
            n == cs.len(),
            n <= 0xFFFF,
            forall|k: int| 0 <= k < n ==> child_limits_ok(#[trigger] cs[k]),
            entries@.len() == i,
            models(entries@) == children_models_to(cs, i as int),
            forall|k: int| 0 <= k < i ==> rec_len(#[trigger] models(entries@)[k]) <= 0xFFFF,
            object_models(objs@) == children_objects_to(cs, i as int),
            forall|k: int|
                0 <= k < i ==> (cs[k].node matches SourceNode::Dir { .. } ==> child_hex_ok(
                    #[trigger] cs[k],
                )),
        decreases n - i,
    {
        let ghost pre_entries = entries@;
        let ghost pre_objs = objs@;
        let c = &children[i];
        match &c.node {
            SourceNode::File { oid } => {
                let e = Entry { name: c.name.clone(), oid: EntryId::Blob(oid.clone()) };
                let ghost m = entry_model(e);
                proof {
                    assert(m == child_model(cs[i as int]));
                }
                entries.push(e);
                proof {
                    assert(models(entries@) =~= models(pre_entries).push(m));
                    assert(models(entries@) =~= children_models_to(cs, i + 1));
                    assert(child_objects(cs[i as int]) =~= Seq::<ObjectModel>::empty());
                    assert(object_models(objs@) =~= children_objects_to(cs, i + 1));
                }
            },
            SourceNode::Dir { children: sub } => {
                let built = build_tree(sub);
                let (t, sub_objs) = match built {
                    Ok(p) => p,
                    Err(e) => {
                        proof {
                            lemma_children_hex_ok_to(cs, n as int);
                            assert(!child_hex_ok(cs[i as int]));
                            assert(child_err_witness(cs[i as int], e));
                            lemma_children_err_witness_to(cs, n as int, e);
                        }
                        return Err(e);
                    },
                };
                proof {
                    assert(object_models(sub_objs@).len() >= 1);
                }
                let h = sub_objs[sub_objs.len() - 1].oid.clone();
                proof {
                    assert(object_models(sub_objs@).last() == root_object(sub@));
                    assert(object_models(sub_objs@).last() == object_model(sub_objs@.last()));
                    assert(utf8_bytes(h@) == dir_oid(sub@));
                }
                let e = Entry { name: c.name.clone(), oid: EntryId::Tree(h) };
                let ghost m = entry_model(e);
                proof {
                    assert(m == child_model(cs[i as int]));
                    assert(rec_len(m) == 3 + 20 + utf8_bytes(c.name@).len());
                }
                entries.push(e);
                let ghost sub_view = sub_objs@;
                append_objects(&mut objs, sub_objs);
                proof {
                    assert(models(entries@) =~= models(pre_entries).push(m));
                    assert(models(entries@) =~= children_models_to(cs, i + 1));
                    assert(object_models(objs@) =~= object_models(pre_objs) + object_models(
                        sub_view,
                    ));
                    assert(object_models(sub_view) == child_objects(cs[i as int]));
                    assert(object_models(objs@) =~= children_objects_to(cs, i + 1));
                }
            },
        }
        i = i + 1;
    }
    proof {
        lemma_children_models_to_len(cs, n as int);
        assert(limits_ok(models(entries@)));
    }
    let ghost ms = children_models(cs);
    let mut tree = Tree { entries };
    let h_root = match tree.calculate_sha1() {
        Ok(h) => h,
        Err(e) => {
            proof {
                broadcast use vstd::seq_lib::group_to_multiset_ensures;

                lemma_entry_order_total();
                ms.lemma_sort_by_ensures(entry_order());
                let sm = ms.sort_by(entry_order());
                assert(err_at(sm, e));
                let i = choose|i: int|
                    {
                        &&& 0 <= i < sm.len()
                        &&& !hex_ok(#[trigger] sm[i].oid)
                        &&& forall|t: int| 0 <= t < i ==> hex_ok(#[trigger] sm[t].oid)
                        &&& match e {
                            HexError::InvalidHexDigit(j) => first_bad(sm[i].oid, j as int),
                        }
                    };
                assert(sm.contains(sm[i]));
                assert(sm.to_multiset().count(sm[i]) > 0);
                assert(ms.contains(sm[i]));
                let k = choose|k: int| 0 <= k < ms.len() && ms[k] == sm[i];
                lemma_children_models_to_index(cs, n as int, k);
                assert(ms[k] == child_model(cs[k]));
                match cs[k].node {
                    SourceNode::File { oid } => {
                        assert(!child_hex_ok(cs[k]));
                        assert(child_err_witness(cs[k], e));
                    },
                    SourceNode::Dir { children: gsub } => {
                        crate::hex::lemma_hex_round_trip(
                            crate::hash::sha1_of(
                                encode_tree(
                                    children_models_to(gsub@, gsub@.len() as int).sort_by(
                                        entry_order(),
                                    ),
                                ),
                            ),
                        );
                        assert(false);
                    },
                }
                lemma_children_hex_ok_to(cs, n as int);
                lemma_children_err_witness_to(cs, n as int, e);
            }
            return Err(e);
        },
    };
    proof {
        lemma_entry_order_total();
        ms.lemma_sort_by_ensures(entry_order());
        lemma_ok_permutation(models(tree.entries@), ms);
        assert(models(tree.entries@) == dir_sorted(cs));
    }
    let data = match tree.bytes() {
        Ok(v) => v,
        Err(e) => {
            proof {
                assert(false);
            }
            return Err(e);
        },
    };
    let oid_root = h_root;
    let ghost pre_objs = objs@;
    objs.push(StoreObject { oid: oid_root, data });
    proof {
        assert(object_models(objs@) =~= object_models(pre_objs).push(root_object(cs)));
        assert(object_models(objs@) == children_objects(cs).push(root_object(cs)));
        lemma_children_hex_ok_to(cs, n as int);
        assert forall|k: int| 0 <= k < n implies child_hex_ok(#[trigger] cs[k]) by {
            lemma_children_models_to_index(cs, n as int, k);
            assert(hex_ok(ms[k].oid));
            match cs[k].node {
                SourceNode::File { oid } => {},
                SourceNode::Dir { .. } => {},
            }
        }
    }
    Ok((tree, objs))
}

/// What writing a list of objects into a store does to its map, in order:
/// each object is inserted unless its key is already present.
pub open spec fn store_put_all(m: Map<Seq<u8>, Seq<u8>>, objs: Seq<ObjectModel>) -> Map<
    Seq<u8>,
    Seq<u8>,
>
    decreases objs.len(),
{
    if objs.len() == 0 {
        m
    } else {
        store_put_all(store_put(m, objs[0].oid, objs[0].data), objs.drop_first())
    }
}

/// Law: determinism.  Two enumerations of a directory that yield the same
/// collection of children give the same sorted entries and the same root
/// hash.
pub proof fn lemma_build_deterministic(cs1: Seq<ChildSource>, cs2: Seq<ChildSource>)
    requires
        children_models(cs1).to_multiset() == children_models(cs2).to_multiset(),
    ensures
        dir_sorted(cs1) == dir_sorted(cs2),
        dir_oid(cs1) == dir_oid(cs2),
{
    crate::tree::lemma_tree_hash_deterministic(children_models(cs1), children_models(cs2));
}

/// Builds a directory's tree and writes every completed tree object into
/// the store — in post-order, each exactly once, skipping objects already
/// present — and returns the root tree's hash.  On failure the store is
/// untouched.
pub fn write_tree(children: &Vec<ChildSource>, store: &mut ObjectStore) -> (r: Result<
    String,
    HexError,
>)
    requires
        source_limits_ok(children@),
    ensures
        r is Ok <==> children_hex_ok(children@),
        r matches Err(e) ==> children_err_witness(children@, e),
        r matches Ok(h) ==> utf8_bytes(h@) == dir_oid(children@) && final(store).s_map()
            == store_put_all(
            old(store).s_map(),
            children_objects(children@).push(root_object(children@)),
        ) && final(store).s_map().contains_key(dir_oid(children@)),
        r is Err ==> *final(store) == *old(store),
{
    let ghost cs = children@;
    let built = match build_tree(children) {
        Ok(p) => p,
        Err(e) => {
            return Err(e);
        },
    };
    let (_tree, objs) = built;
    proof {
        assert(object_models(objs@).len() >= 1);
    }
    let root = objs[objs.len() - 1].oid.clone();
    proof {
        assert(object_models(objs@).last() == root_object(cs));
        assert(object_models(objs@).last() == object_model(objs@.last()));
        assert(utf8_bytes(root@) == dir_oid(cs));
    }
    let ghost all = objs@;
    let mut rest = objs;
    while rest.len() > 0
        invariant
            rest@.len() <= all.len(),
            rest@ =~= all.skip(all.len() - rest@.len()),
            store_put_all(store.s_map(), object_models(rest@)) == store_put_all(
                old(store).s_map(),
                object_models(all),
            ),
            rest@.len() == 0 ==> store.s_map().contains_key(dir_oid(cs)),
            object_models(all) == children_objects(cs).push(root_object(cs)),
        decreases rest@.len(),
    {
        let ghost pre_rest = rest@;
        let ghost pre_map = store.s_map();
        let o = rest.remove(0);
        let ghost om = object_model(o);
        store.put(o.oid, o.data);
        proof {
            assert(rest@ =~= pre_rest.drop_first());
            let k = all.len() - pre_rest.len();
            assert(pre_rest =~= all.skip(k as int));
            assert forall|t: int| 0 <= t < rest@.len() implies rest@[t] == all.skip(k + 1)[t] by {
                assert(rest@[t] == pre_rest[t + 1]);
                assert(pre_rest[t + 1] == all[k + t + 1]);
            }
            assert(rest@ =~= all.skip(all.len() - rest@.len()));
            assert(object_models(rest@) =~= object_models(pre_rest).drop_first());
            assert(om == object_models(pre_rest)[0]);
            assert(store.s_map() == store_put(pre_map, om.oid, om.data));
            if rest@.len() == 0 {
                assert(pre_rest =~= all.skip(all.len() - 1));
                assert(pre_rest[0] == all.last());
                assert(object_models(all).last() == object_model(all.last()));
                assert(object_models(all).last() == root_object(cs));
                assert(om == root_object(cs));
            }
        }
    }
    proof {
        assert(object_models(rest@) =~= Seq::<ObjectModel>::empty());
        assert(store_put_all(store.s_map(), object_models(rest@)) == store.s_map());
    }
    Ok(root)
}

} // verus!
