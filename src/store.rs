//! The ordered byte-string store: two sled trees, seen by the rest of the
//! library as maps from keys to values.
use vstd::prelude::*;

use crate::codec::{lex_le, lex_lt, starts_with};

verus! {

#[verifier::external_type_specification]
#[verifier::external_body]
pub struct ExDb(sled::Db);

#[verifier::external_type_specification]
#[verifier::external_body]
pub struct ExTree(sled::Tree);

#[verifier::external_type_specification]
#[verifier::external_body]
pub struct ExStoreError(sled::Error);

/// What a tree holds: each key with its value.
pub uninterp spec fn contents(t: sled::Tree) -> Map<Seq<u8>, Seq<u8>>;

/// A freshly opened temporary database with its two namespaces.
pub struct Stores {
    pub db: sled::Db,
    pub cluster: sled::Tree,
    pub backend: sled::Tree,
}

/// Relies on sled::Config::open and sled::Db::open_tree: a temporary database
/// lives at a fresh path, so the two trees opened in it start empty.
#[verifier::external_body]
pub(crate) fn open_temporary() -> (r: Result<Stores, sled::Error>)
    ensures
        r matches Ok(opened) ==> contents(opened.cluster).is_empty() && contents(
            opened.backend,
        ).is_empty(),
{
    let db = sled::Config::new().temporary(true).mode(sled::Mode::LowSpace).open()?;
    let cluster = db.open_tree("cluster")?;
    let backend = db.open_tree("backend")?;
    Ok(Stores { db, cluster, backend })
}

/// Relies on sled::Tree::get: the value stored under the key, if any.
#[verifier::external_body]
pub(crate) fn tree_get(t: &sled::Tree, k: &[u8]) -> (r: Result<Option<Vec<u8>>, sled::Error>)
    ensures
        r matches Ok(Some(v)) ==> contents(*t).contains_key(k@) && contents(*t)[k@] == v@,
        r matches Ok(None) ==> !contents(*t).contains_key(k@),
{
    Ok(t.get(k)?.map(|v| v.to_vec()))
}

/// Relies on sled::Tree::insert: the key is bound to the value.
#[verifier::external_body]
pub(crate) fn tree_insert(t: &mut sled::Tree, k: &[u8], v: &[u8]) -> (r: Result<(), sled::Error>)
    ensures
        r is Ok ==> contents(*final(t)) == contents(*old(t)).insert(k@, v@),
{
    t.insert(k, v)?;
    Ok(())
}

/// Relies on sled::Tree::remove: the key is unbound.
#[verifier::external_body]
pub(crate) fn tree_remove(t: &mut sled::Tree, k: &[u8]) -> (r: Result<(), sled::Error>)
    ensures
        r is Ok ==> contents(*final(t)) == contents(*old(t)).remove(k@),
{
    t.remove(k)?;
    Ok(())
}

/// Relies on sled::Tree::get_lt: the entry with the largest key strictly below `k`.
#[verifier::external_body]
pub(crate) fn tree_get_lt(t: &sled::Tree, k: &[u8]) -> (r: Result<
    Option<(Vec<u8>, Vec<u8>)>,
    sled::Error,
>)
    ensures
        r matches Ok(Some((k2, v))) ==> {
            &&& contents(*t).contains_key(k2@)
            &&& contents(*t)[k2@] == v@
            &&& lex_lt(k2@, k@)
            &&& forall|k3: Seq<u8>|
                #![trigger contents(*t).contains_key(k3)]
                contents(*t).contains_key(k3) && lex_lt(k3, k@) ==> lex_le(k3, k2@)
        },
        r matches Ok(None) ==> forall|k3: Seq<u8>|
            #![trigger contents(*t).contains_key(k3)]
            contents(*t).contains_key(k3) ==> !lex_lt(k3, k@),
{
    Ok(t.get_lt(k)?.map(|(a, b)| (a.to_vec(), b.to_vec())))
}

/// Relies on sled::Tree::scan_prefix: every entry whose key starts with `p`,
/// in ascending key order.
#[verifier::external_body]
pub(crate) fn tree_scan_prefix(t: &sled::Tree, p: &[u8]) -> (r: Result<
    Vec<(Vec<u8>, Vec<u8>)>,
    sled::Error,
>)
    ensures
        r matches Ok(rows) ==> {
            &&& forall|i: int|
                #![trigger rows@[i]]
                0 <= i < rows@.len() ==> starts_with(rows@[i].0@, p@) && contents(
                    *t,
                ).contains_key(rows@[i].0@) && contents(*t)[rows@[i].0@] == rows@[i].1@
            &&& forall|i: int, j: int|
                #![trigger rows@[i], rows@[j]]
                0 <= i < j < rows@.len() ==> lex_lt(rows@[i].0@, rows@[j].0@)
            &&& forall|k: Seq<u8>|
                #![trigger contents(*t).contains_key(k)]
                contents(*t).contains_key(k) && starts_with(k, p@) ==> exists|i: int|
                    0 <= i < rows@.len() && #[trigger] rows@[i].0@ == k
        },
{
    t.scan_prefix(p).map(|item| item.map(|(k, v)| (k.to_vec(), v.to_vec()))).collect()
}

/// Relies on the `Debug` form of sled::Error: its text, for a message.
#[verifier::external_body]
pub(crate) fn debug_text(e: &sled::Error) -> (r: String) {
    format!("{:?}", e)
}

} // verus!
