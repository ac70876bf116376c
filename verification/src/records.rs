//! Plain records for the batch-conversion use case: one crate and one
//! version of the upstream registry dump, as ordered string fields.
//! Reading them from their source and writing them out is a caller's
//! concern; the codec only consumes the fields.

use vstd::prelude::*;

verus! {

/// One crate record: the fields a table row is built from.
#[derive(Clone, Debug, PartialEq, Eq)]
pub struct CrateData {
    pub name: String,
    pub description: String,
    pub repository: String,
    pub id: String,
}

impl Default for CrateData {
    /// All fields empty.
    fn default() -> (r: Self)
        ensures
            r.name@ == Seq::<char>::empty(),
            r.description@ == Seq::<char>::empty(),
            r.repository@ == Seq::<char>::empty(),
            r.id@ == Seq::<char>::empty(),
    {
        CrateData {
            name: String::new(),
            description: String::new(),
            repository: String::new(),
            id: String::new(),
        }
    }
}

/// One version record of a crate, with the sortable form of its version
/// once computed.
#[derive(Clone, Debug, PartialEq, Eq)]
pub struct VersionData {
    pub crate_id: String,
    pub num: String,
    pub yanked: String,
    pub created_at: String,
    pub version_for_sorting: Option<String>,
}

impl Default for VersionData {
    /// All fields empty, no sortable form yet.
    fn default() -> (r: Self)
        ensures
            r.crate_id@ == Seq::<char>::empty(),
            r.num@ == Seq::<char>::empty(),
            r.yanked@ == Seq::<char>::empty(),
            r.created_at@ == Seq::<char>::empty(),
            r.version_for_sorting is None,
    {
        VersionData {
            crate_id: String::new(),
            num: String::new(),
            yanked: String::new(),
            created_at: String::new(),
            version_for_sorting: None,
        }
    }
}

} // verus!
