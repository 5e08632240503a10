//! The embedded key/value engine, as the broker sees it.
//!
//! A tree of the engine is an ordered map from byte strings to byte strings,
//! kept in byte-wise lexicographic key order. Nothing in this module is
//! proved: each item states what the engine is trusted to do. What is said of
//! a tree's entries holds as long as the handle spoken of is the only one
//! through which the tree is written.

use crate::listing::{is_greatest, is_listing};
use vstd::prelude::*;

verus! {

/// `sled::Tree`: the handle of one tree.
#[verifier::external_type_specification]
#[verifier::external_body]
pub struct ExTree(sled::Tree);

/// `sled::Db`: the handle of a database, which holds the trees.
#[verifier::external_type_specification]
#[verifier::external_body]
pub struct ExDb(sled::Db);

/// `sled::Error`: a failure of the engine.
#[verifier::external_type_specification]
#[verifier::external_body]
pub struct ExError(sled::Error);

/// The entries that a tree holds.
pub uninterp spec fn tree_entries(t: sled::Tree) -> Map<Seq<u8>, Seq<u8>>;

/// The keys and values of `items`, as byte strings.
pub open spec fn pairs_view(items: Seq<(Vec<u8>, Vec<u8>)>) -> Seq<(Seq<u8>, Seq<u8>)> {
    Seq::new(items.len(), |i: int| (items[i].0@, items[i].1@))
}

/// `entries` has `n` entries.
pub open spec fn counts(entries: Map<Seq<u8>, Seq<u8>>, n: nat) -> bool {
    entries.dom().finite() && entries.dom().len() == n
}

/// `sled::Db::open_tree`: the tree of that name in `db`, made if there is
/// none yet. Nothing is said of what it holds.
#[verifier::external_body]
pub(crate) fn db_open_tree(db: &sled::Db, name: &str) -> (r: Result<sled::Tree, sled::Error>) {
    db.open_tree(name)
}

/// The default tree of `db`, which `sled::Db` dereferences to. Nothing is
/// said of what it holds.
#[verifier::external_body]
pub(crate) fn db_default_tree(db: &sled::Db) -> (r: sled::Tree) {
    sled::Tree::clone(db)
}

/// `sled::Db::size_on_disk`: the size of the storage files, which depends on
/// the machine.
#[verifier::external_body]
pub(crate) fn db_size_on_disk(db: &sled::Db) -> (r: Result<u64, sled::Error>) {
    db.size_on_disk()
}

/// `sled::Tree::insert`: on success the tree maps `key` to `value` and is
/// otherwise as before. Nothing is said of the tree after a failure.
#[verifier::external_body]
pub(crate) fn tree_insert(t: &mut sled::Tree, key: &[u8], value: &[u8]) -> (r: Result<
    (),
    sled::Error,
>)
    ensures
        r is Ok ==> tree_entries(*final(t)) == tree_entries(*old(t)).insert(key@, value@),
{
    t.insert(key, value).map(|_| ())
}

/// `sled::Tree::remove`: on success the tree has no entry for `key` and is
/// otherwise as before. Nothing is said of the tree after a failure.
#[verifier::external_body]
pub(crate) fn tree_remove(t: &mut sled::Tree, key: &[u8]) -> (r: Result<(), sled::Error>)
    ensures
        r is Ok ==> tree_entries(*final(t)) == tree_entries(*old(t)).remove(key@),
{
    t.remove(key).map(|_| ())
}

/// `sled::Tree::get`: on success the value that the tree holds for `key`, or
/// `None` if it holds none.
#[verifier::external_body]
pub(crate) fn tree_get(t: &sled::Tree, key: &[u8]) -> (r: Result<Option<Vec<u8>>, sled::Error>)
    ensures
        r matches Ok(Some(v)) ==> tree_entries(*t).contains_pair(key@, v@),
        r matches Ok(None) ==> !tree_entries(*t).dom().contains(key@),
{
    t.get(key).map(|o| o.map(|v| v.to_vec()))
}

/// `sled::Tree::range` over `lo..hi`, run to its end: on success the entries
/// with `lo <= key < hi`, each once, in ascending key order.
#[verifier::external_body]
pub(crate) fn tree_range(t: &sled::Tree, lo: &[u8], hi: &[u8]) -> (r: Result<
    Vec<(Vec<u8>, Vec<u8>)>,
    sled::Error,
>)
    ensures
        r matches Ok(items) ==> is_listing(tree_entries(*t), lo@, hi@, pairs_view(items@)),
{
    t.range(lo..hi).map(|e| e.map(|(k, v)| (k.to_vec(), v.to_vec()))).collect()
}

/// `sled::Tree::last`: on success the entry with the greatest key, or `None`
/// if the tree is empty.
#[verifier::external_body]
pub(crate) fn tree_last(t: &sled::Tree) -> (r: Result<Option<(Vec<u8>, Vec<u8>)>, sled::Error>)
    ensures
        r matches Ok(Some(e)) ==> is_greatest(tree_entries(*t), e.0@) && tree_entries(
            *t,
        ).contains_pair(e.0@, e.1@),
        r matches Ok(None) ==> tree_entries(*t).dom() == Set::<Seq<u8>>::empty(),
{
    t.last().map(|o| o.map(|(k, v)| (k.to_vec(), v.to_vec())))
}

/// `sled::Tree::iter`, run to its end: on success the number of entries, of
/// which there are finitely many. A failed read ends the walk with the
/// failure.
#[verifier::external_body]
pub(crate) fn tree_count(t: &sled::Tree) -> (r: Result<usize, sled::Error>)
    ensures
        r matches Ok(n) ==> counts(tree_entries(*t), n as nat),
{
    t.iter().map(|e| e.map(|_| ())).collect::<Result<Vec<()>, sled::Error>>().map(|v| v.len())
}

/// `sled::Tree::flush`: writes what is pending to disk; the entries are
/// not touched, and whether it succeeds depends on the machine.
#[verifier::external_body]
pub(crate) fn tree_flush(t: &sled::Tree) -> (r: Result<usize, sled::Error>) {
    t.flush()
}

/// The text of an engine error.
#[verifier::external_body]
pub(crate) fn error_text(e: &sled::Error) -> (s: String) {
    format!("{}", e)
}

} // verus!
