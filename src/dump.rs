//! The dump text of a duplicate index: a pretty-printed JSON object from
//! each digest to the array of its paths.

use vstd::prelude::*;
use crate::index::{DuplicateGroup, DuplicateIndex, GroupView, groups_view};

verus! {

#[verifier::external_type_specification]
#[verifier::external_body]
pub struct ExJsonError(serde_json::Error);

/// Why an index could not be written out. The encoder's signature allows
/// for a failure, which a map of strings never meets.
pub enum DumpError {
    /// The JSON encoder refused the index.
    Encoding(serde_json::Error),
}

/// The text of a JSON object with no entry.
pub open spec fn empty_object() -> Seq<char> {
    seq!['{', '}']
}

/// The pretty-printed JSON object from each digest of the groups to the
/// array of its paths.
pub uninterp spec fn json_of(groups: Seq<GroupView>) -> Seq<char>;

/// Relies on `serde_json::to_string_pretty`, applied to a `serde_json::Map`
/// (ordered by key) from each digest to the array of its paths: the text
/// depends on the groups alone; serialization fails only where a
/// `Serialize` impl fails or a map key is not a string, neither of which a
/// map from strings to arrays of strings can meet; and a map with no entry
/// is written `{}`.
#[verifier::external_body]
fn encode_groups(groups: &Vec<DuplicateGroup>) -> (r: Result<String, serde_json::Error>)
    ensures
        r is Ok,
        r matches Ok(s) ==> s@ == json_of(groups_view(groups@)),
        r matches Ok(s) ==> (groups@.len() == 0 ==> s@ == empty_object()),
{
    let mut object = serde_json::Map::new();
    for g in groups {
        object.insert(g.digest.clone(), serde_json::Value::from(g.paths.clone()));
    }
    serde_json::to_string_pretty(&object)
}

/// The dump text of the index: every group, single ones included, as a
/// pretty-printed JSON object from digest to the array of its paths. An
/// empty index gives the empty object.
pub fn dump_text(index: &DuplicateIndex) -> (r: Result<String, DumpError>)
    ensures
        r is Ok,
        r matches Ok(s) ==> s@ == json_of(index@),
        r matches Ok(s) ==> (index@.len() == 0 ==> s@ == empty_object()),
{
    match encode_groups(index.groups()) {
        Ok(s) => Ok(s),
        Err(e) => Err(DumpError::Encoding(e)),
    }
}

} // verus!
