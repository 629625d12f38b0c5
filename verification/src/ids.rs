//! Node and workspace identifiers: generational keys of the `slotmap` arena.
//!
//! The key type is opaque to the verifier; equality is decided by a trusted
//! wrapper around the derived `PartialEq` of `slotmap::DefaultKey`.

use vstd::prelude::*;

verus! {

/// Identifier of one tree node (a pane or a container) in the shared arena.
pub type ViewId = slotmap::DefaultKey;

/// Identifier of one workspace (tab) in the workspace set.
pub type TabId = slotmap::DefaultKey;

#[verifier::external_type_specification]
#[verifier::external_body]
pub struct ExDefaultKey(slotmap::DefaultKey);

/// Relies on the derived `PartialEq` of `slotmap::DefaultKey`: two keys are
/// equal exactly when they hold the same slot index and generation.
#[verifier::external_body]
pub fn key_eq(a: ViewId, b: ViewId) -> (r: bool)
    ensures
        r == (a == b),
{
    a == b
}

/// Relies on the derived `Default` of `slotmap::DefaultKey`: the null key,
/// used only as a placeholder before a node is linked into a tree.
#[verifier::external_body]
pub fn null_key() -> ViewId {
    slotmap::DefaultKey::default()
}

} // verus!
