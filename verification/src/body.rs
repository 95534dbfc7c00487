//! The stored form of a document body: the fields that are kept elsewhere
//! (the id, the revision, the deletion flag, the revision history) are taken
//! out before the body is hashed and stored.

use vstd::prelude::*;

verus! {

/// The JSON value `v` without its member `key`: `v` itself where it is not
/// an object or has no such member.
pub uninterp spec fn json_without(v: serde_json::Value, key: Seq<char>) -> serde_json::Value;

/// Removes the member `key` from `v` where `v` is an object, with
/// `serde_json::Map::remove`. The contract names the result `json_without`
/// of the value and the key.
#[verifier::external_body]
fn remove_member(v: &mut serde_json::Value, key: &str)
    ensures
        *final(v) == json_without(*old(v), key@),
{
    if let Some(m) = v.as_object_mut() {
        m.remove(key);
    }
}

/// Clones a JSON value with its derived `Clone` impl, which copies it.
#[verifier::external_body]
fn clone_json(v: &serde_json::Value) -> (res: serde_json::Value)
    ensures
        res == *v,
{
    v.clone()
}

/// The body as stored: `v` without `_id`, `_rev`, `_deleted` and
/// `_revisions`, which are kept in the document and revision records and put
/// back on read.
pub open spec fn stored_body(v: serde_json::Value) -> serde_json::Value {
    json_without(json_without(json_without(json_without(v, "_id"@), "_rev"@), "_deleted"@), "_revisions"@)
}

/// Takes the fields that are kept elsewhere out of a document body.
pub fn strip_meta_fields(data: &serde_json::Value) -> (res: serde_json::Value)
    ensures
        res == stored_body(*data),
{
    let mut body = clone_json(data);
    remove_member(&mut body, "_id");
    remove_member(&mut body, "_rev");
    remove_member(&mut body, "_deleted");
    remove_member(&mut body, "_revisions");
    body
}

} // verus!
