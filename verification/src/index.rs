//! Index metadata of a dumped collection, and the rule that drops the
//! default index from it.

use crate::text::chars_of;
use serde_json::Value;
use vstd::prelude::*;

verus! {

/// A JSON value of `serde_json`, carried through untouched.
#[verifier::external_type_specification]
#[verifier::external_body]
pub struct ExValue(Value);

/// Name of the index that the database builds by itself on every collection.
pub const ID_INDEX: &'static str = "_id_";

/// One index of a collection, as the dump's metadata describes it.
pub struct Index {
    /// Name of the index.
    pub name: String,
    /// The fields that the index covers.
    pub key: Value,
    /// Version of the index format.
    pub v: Value,
}

/// The part of a collection's metadata that lists its indexes.
pub struct Metadata {
    /// The indexes, in the order of the dump.
    pub indexes: Vec<Index>,
}

/// An index stays in the metadata when it is not the default index.
pub open spec fn is_user_index() -> spec_fn(Index) -> bool {
    |index: Index| index.name@ != ID_INDEX@
}

/// Drops the default index from the metadata of a collection and keeps all
/// other indexes as they are, in their order.
pub fn strip_id_index(metadata: Metadata) -> (stripped: Metadata)
    ensures
        stripped.indexes@ == metadata.indexes@.filter(is_user_index()),
{
    let default_name = ID_INDEX.to_owned();
    let ghost all = metadata.indexes@;
    let mut kept: Vec<Index> = Vec::new();
    for index in it: metadata.indexes
        invariant
            it.seq() == all,
            default_name@ == ID_INDEX@,
            kept@ == all.take(it.index()).filter(is_user_index()),
    {
        proof {
            assert(all.take(it.index() + 1) == all.take(it.index()).push(index));
            all.take(it.index()).lemma_filter_push(index, is_user_index());
        }
        if index.name != default_name {
            kept.push(index);
        }
    }
    assert(all.take(all.len() as int) == all);
    Metadata { indexes: kept }
}

/// How the name of a file ends that holds the gzipped metadata of a
/// collection.
pub const METADATA_SUFFIX: &'static str = ".json.gz";

/// `text` ends with `suffix`.
pub open spec fn ends_with(text: Seq<char>, suffix: Seq<char>) -> bool {
    text.len() >= suffix.len() && text.skip(text.len() - suffix.len()) == suffix
}

/// Whether a file of a dump holds index metadata, judged by its name.
pub fn is_index_metadata(filename: &str) -> (yes: bool)
    ensures
        yes == ends_with(filename@, METADATA_SUFFIX@),
{
    let name = chars_of(filename);
    let suffix = chars_of(METADATA_SUFFIX);
    if name.len() < suffix.len() {
        return false;
    }
    let offset = name.len() - suffix.len();
    let mut k: usize = 0;
    while k < suffix.len()
        invariant
            k <= suffix.len(),
            name@ == filename@,
            suffix@ == METADATA_SUFFIX@,
            offset + suffix.len() == name.len(),
            forall|j: int| 0 <= j < k ==> name[offset + j] == suffix[j],
        decreases suffix.len() - k,
    {
        if name[offset + k] != suffix[k] {
            assert(name@.skip(offset as int)[k as int] != suffix@[k as int]);
            return false;
        }
        k += 1;
    }
    assert(name@.skip(offset as int) =~= suffix@);
    true
}

} // verus!
