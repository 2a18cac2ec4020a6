//! The embedded ordered key-value backend, behind trusted declarations.
//!
//! A tree is modelled by `tree_view`, the map from keys to values it
//! holds; a batch by `batch_view`, the map of writes it has collected.
//! Keys are unstructured byte strings ordered lexicographically
//! (`crate::bytes::lex_lt`), which is what makes big-endian height keys
//! come out in numeric order.
//!
//! Each wrapper states only what the backend's source shows of the
//! call. Read errors say nothing further. Batches are applied through the
//! backend's transactions: the writes are staged away from the tree, then
//! applied together under the write lock, so no concurrent reader sees a
//! partial apply and a crash recovers atomically. The one thing not
//! claimed is the tree's contents after a failed apply: the backend's
//! final phase applies the staged writes one by one, so an in-process
//! storage fault there can leave part of them in place.
//!
//! The model treats every tree handle as the sole handle to its keyspace:
//! the store opens each of its trees once and hands out no copies.

use sled::Transactional;
use vstd::prelude::*;

use crate::bytes::lex_lt;
use crate::err::Error;

verus! {

#[verifier::external_type_specification]
#[verifier::external_body]
pub struct ExDb(sled::Db);

#[verifier::external_type_specification]
#[verifier::external_body]
pub struct ExTree(sled::Tree);

#[verifier::external_type_specification]
#[verifier::external_body]
pub struct ExBatch(sled::Batch);

/// The keys and values a tree holds.
pub uninterp spec fn tree_view(t: sled::Tree) -> Map<Seq<u8>, Seq<u8>>;

/// The writes a batch has collected, later writes overriding earlier ones
/// at the same key.
pub uninterp spec fn batch_view(b: sled::Batch) -> Map<Seq<u8>, Seq<u8>>;

/// `n` counts the entries of `m`, which is a finite map.
pub open spec fn counts_entries(m: Map<Seq<u8>, Seq<u8>>, n: usize) -> bool {
    m.dom().finite() && n == m.dom().len()
}

/// A map with no writes.
pub open spec fn no_writes() -> Map<Seq<u8>, Seq<u8>> {
    Map::empty()
}

/// Relies on sled::Db::open_tree: opens or creates the keyspace of that
/// name. Nothing is known of the contents: the tree holds whatever was
/// persisted under the name before.
#[verifier::external_body]
pub(crate) fn db_open_tree(db: &sled::Db, name: &str) -> (r: Result<sled::Tree, Error>)
    ensures
        r matches Err(e) ==> e == Error::Io,
{
    db.open_tree(name).map_err(|_| Error::Io)
}

/// Relies on sled::Tree::get: the value at the key, if the key is present.
#[verifier::external_body]
pub(crate) fn tree_get(t: &sled::Tree, key: &[u8]) -> (r: Result<Option<Vec<u8>>, Error>)
    ensures
        match r {
            Ok(o) => tree_view(*t).dom().finite() && match o {
                Some(v) => tree_view(*t).dom().contains(key@) && v@ == tree_view(*t)[key@],
                None => !tree_view(*t).dom().contains(key@),
            },
            Err(e) => e == Error::Io,
        },
{
    match t.get(key) {
        Ok(o) => Ok(o.map(|v| v.to_vec())),
        Err(_) => Err(Error::Io),
    }
}

/// Relies on sled::Tree::contains_key: whether the key is present.
#[verifier::external_body]
pub(crate) fn tree_contains(t: &sled::Tree, key: &[u8]) -> (r: Result<bool, Error>)
    ensures
        r matches Ok(b) ==> (b <==> tree_view(*t).dom().contains(key@)),
        r matches Err(e) ==> e == Error::Io,
{
    t.contains_key(key).map_err(|_| Error::Io)
}

/// Relies on sled::Tree::transaction with
/// sled::transaction::TransactionalTree::apply_batch: the batch's writes
/// are staged, then applied together under the write lock, later winning
/// at a repeated key. A fault while staging leaves the tree untouched and
/// a crash recovers atomically, but the final phase applies the staged
/// writes one by one, so nothing is claimed of the tree after an error.
#[verifier::external_body]
pub(crate) fn tree_apply_batch(t: &mut sled::Tree, b: sled::Batch) -> (r: Result<
    (),
    Error,
>)
    ensures
        r is Ok ==> tree_view(*final(t)) == tree_view(*old(t)).union_prefer_right(batch_view(b)),
        r matches Err(e) ==> e == Error::Io,
{
    let res: sled::transaction::TransactionResult<(), ()> = (&*t).transaction(|tx| {
        tx.apply_batch(&b)?;
        Ok(())
    });
    res.map_err(|_| Error::Io)
}

/// Relies on sled::Transactional for tree triples with
/// sled::transaction::TransactionalTree::apply_batch: one transaction
/// stages all three batches and applies them together under the write
/// lock, so no concurrent reader sees some trees moved and others not,
/// and a crash recovers atomically. A fault while staging leaves all
/// three trees untouched; the final phase applies the staged writes one
/// by one, so nothing is claimed of the trees after an error.
#[verifier::external_body]
pub(crate) fn trees_apply_batches(
    t1: &mut sled::Tree,
    t2: &mut sled::Tree,
    t3: &mut sled::Tree,
    b1: sled::Batch,
    b2: sled::Batch,
    b3: sled::Batch,
) -> (r: Result<(), Error>)
    ensures
        r is Ok ==> tree_view(*final(t1)) == tree_view(*old(t1)).union_prefer_right(
            batch_view(b1),
        ),
        r is Ok ==> tree_view(*final(t2)) == tree_view(*old(t2)).union_prefer_right(
            batch_view(b2),
        ),
        r is Ok ==> tree_view(*final(t3)) == tree_view(*old(t3)).union_prefer_right(
            batch_view(b3),
        ),
        r matches Err(e) ==> e == Error::Io,
{
    let res: sled::transaction::TransactionResult<(), ()> = (&*t1, &*t2, &*t3).transaction(
        |tx| {
            tx.0.apply_batch(&b1)?;
            tx.1.apply_batch(&b2)?;
            tx.2.apply_batch(&b3)?;
            Ok(())
        },
    );
    res.map_err(|_| Error::Io)
}

/// Relies on sled::Tree::first: the entry with the lexicographically
/// least key, or nothing if the tree is empty.
#[verifier::external_body]
pub(crate) fn tree_first(t: &sled::Tree) -> (r: Result<Option<(Vec<u8>, Vec<u8>)>, Error>)
    ensures
        match r {
            Ok(o) => tree_view(*t).dom().finite() && match o {
                Some(kv) => tree_view(*t).dom().contains(kv.0@) && kv.1@ == tree_view(*t)[kv.0@]
                    && forall|k2: Seq<u8>|
                    #[trigger] tree_view(*t).dom().contains(k2) ==> !lex_lt(k2, kv.0@),
                None => forall|k2: Seq<u8>| !(#[trigger] tree_view(*t).dom().contains(k2)),
            },
            Err(e) => e == Error::Io,
        },
{
    match t.first() {
        Ok(o) => Ok(o.map(|(k, v)| (k.to_vec(), v.to_vec()))),
        Err(_) => Err(Error::Io),
    }
}

/// Relies on sled::Tree::last: the entry with the lexicographically
/// greatest key, or nothing if the tree is empty.
#[verifier::external_body]
pub(crate) fn tree_last(t: &sled::Tree) -> (r: Result<Option<(Vec<u8>, Vec<u8>)>, Error>)
    ensures
        match r {
            Ok(o) => tree_view(*t).dom().finite() && match o {
                Some(kv) => tree_view(*t).dom().contains(kv.0@) && kv.1@ == tree_view(*t)[kv.0@]
                    && forall|k2: Seq<u8>|
                    #[trigger] tree_view(*t).dom().contains(k2) ==> !lex_lt(kv.0@, k2),
                None => forall|k2: Seq<u8>| !(#[trigger] tree_view(*t).dom().contains(k2)),
            },
            Err(e) => e == Error::Io,
        },
{
    match t.last() {
        Ok(o) => Ok(o.map(|(k, v)| (k.to_vec(), v.to_vec()))),
        Err(_) => Err(Error::Io),
    }
}

/// Relies on sled::Tree::get_gt: the entry with the least key strictly
/// greater than the given key, or nothing if no key is greater.
#[verifier::external_body]
pub(crate) fn tree_get_gt(t: &sled::Tree, key: &[u8]) -> (r: Result<
    Option<(Vec<u8>, Vec<u8>)>,
    Error,
>)
    ensures
        match r {
            Ok(o) => tree_view(*t).dom().finite() && match o {
                Some(kv) => tree_view(*t).dom().contains(kv.0@) && kv.1@ == tree_view(*t)[kv.0@]
                    && lex_lt(key@, kv.0@) && forall|k2: Seq<u8>|
                    #[trigger] tree_view(*t).dom().contains(k2) && lex_lt(key@, k2) ==> !lex_lt(
                        k2,
                        kv.0@,
                    ),
                None => forall|k2: Seq<u8>|
                    #[trigger] tree_view(*t).dom().contains(k2) ==> !lex_lt(key@, k2),
            },
            Err(e) => e == Error::Io,
        },
{
    match t.get_gt(key) {
        Ok(o) => Ok(o.map(|(k, v)| (k.to_vec(), v.to_vec()))),
        Err(_) => Err(Error::Io),
    }
}

/// Relies on sled::Tree::get_lt: the entry with the greatest key strictly
/// less than the given key, or nothing if no key is less.
#[verifier::external_body]
pub(crate) fn tree_get_lt(t: &sled::Tree, key: &[u8]) -> (r: Result<
    Option<(Vec<u8>, Vec<u8>)>,
    Error,
>)
    ensures
        match r {
            Ok(o) => tree_view(*t).dom().finite() && match o {
                Some(kv) => tree_view(*t).dom().contains(kv.0@) && kv.1@ == tree_view(*t)[kv.0@]
                    && lex_lt(kv.0@, key@) && forall|k2: Seq<u8>|
                    #[trigger] tree_view(*t).dom().contains(k2) && lex_lt(k2, key@) ==> !lex_lt(
                        kv.0@,
                        k2,
                    ),
                None => forall|k2: Seq<u8>|
                    #[trigger] tree_view(*t).dom().contains(k2) ==> !lex_lt(k2, key@),
            },
            Err(e) => e == Error::Io,
        },
{
    match t.get_lt(key) {
        Ok(o) => Ok(o.map(|(k, v)| (k.to_vec(), v.to_vec()))),
        Err(_) => Err(Error::Io),
    }
}

/// Relies on sled::Tree::len: the number of entries.
#[verifier::external_body]
pub(crate) fn tree_len(t: &sled::Tree) -> (r: usize)
    ensures
        counts_entries(tree_view(*t), r),
{
    t.len()
}

/// Relies on sled::Tree::is_empty: whether the tree holds no entries.
#[verifier::external_body]
pub(crate) fn tree_is_empty(t: &sled::Tree) -> (r: bool)
    ensures
        r <==> tree_view(*t).dom() == Set::<Seq<u8>>::empty(),
{
    t.is_empty()
}

/// Relies on sled::Batch::default: a batch with no writes.
#[verifier::external_body]
pub(crate) fn batch_new() -> (r: sled::Batch)
    ensures
        batch_view(r) == no_writes(),
{
    sled::Batch::default()
}

/// Relies on sled::Batch::insert: records one more write, overriding an
/// earlier write at the same key.
#[verifier::external_body]
pub(crate) fn batch_insert(b: &mut sled::Batch, key: &[u8], value: &[u8])
    ensures
        batch_view(*final(b)) == batch_view(*old(b)).insert(key@, value@),
{
    b.insert(key, value)
}

} // verus!
