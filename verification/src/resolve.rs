//! Path resolution: turns a relative specifier plus the importing
//! module's identity into a canonical, directly comparable module
//! identity, by joining the specifier onto the importer's directory
//! and normalizing `.` and `..` segments.
//!
//! The normalization itself is done by the `relative-path` crate; the
//! two names [`parent_of`] and [`joined_norm`] stand for what its
//! `pop` and `join_normalized` compute, which depends on the path
//! strings alone.  Two specifiers that normalize to the same path
//! resolve to the same identity by construction.

use vstd::prelude::*;

verus! {

/// What `relative_path::RelativePathBuf::pop` leaves of a path: the
/// path without its last component.
pub uninterp spec fn parent_of(p: Seq<char>) -> Seq<char>;

/// What `relative_path::RelativePath::join_normalized` makes of a
/// base path and a path joined onto it: the concatenation with `.`
/// and `..` segments normalized away.
pub uninterp spec fn joined_norm(base: Seq<char>, rel: Seq<char>) -> Seq<char>;

/// Relies on relative_path's `RelativePathBuf::pop`: it truncates the
/// path to its parent (to the empty path when there is none).  The
/// result depends on the path alone.
#[verifier::external_body]
fn parent_dir(p: &str) -> (r: String)
    ensures r@ == parent_of(p@),
{
    let mut b = relative_path::RelativePathBuf::from(p);
    b.pop();
    b.into_string()
}

/// Relies on relative_path's `RelativePath::join_normalized`: it
/// appends `rel` to `base` and normalizes `.` and `..` segments.  The
/// result depends on the two paths alone.
#[verifier::external_body]
fn join_normalized(base: &str, rel: &str) -> (r: String)
    ensures r@ == joined_norm(base@, rel@),
{
    relative_path::RelativePath::new(base).join_normalized(rel).into_string()
}

/// The canonical identity of the module a specifier names, imported
/// or re-exported from the module with identity `importer_id`.
pub open spec fn resolved_id(importer_id: Seq<char>, specifier: Seq<char>) -> Seq<char> {
    joined_norm(parent_of(importer_id), specifier)
}

/// Resolve a specifier against the importing module's identity: the
/// specifier is taken relative to the importer's containing directory
/// and normalized.
pub fn resolve_module(importer_id: &str, specifier: &str) -> (r: String)
    ensures r@ == resolved_id(importer_id@, specifier@),
{
    let parent = parent_dir(importer_id);
    join_normalized(parent.as_str(), specifier)
}

/// Resolve the entry path against the base directory, producing the
/// entry module's canonical identity.
pub fn resolve_entry(base_dir: &str, entry_path: &str) -> (r: String)
    ensures r@ == joined_norm(base_dir@, entry_path@),
{
    join_normalized(base_dir, entry_path)
}

} // verus!
