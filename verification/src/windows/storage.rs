//! The rules for the recovery store's directory: no reparse points or non-directories on
//! the way, only plain files among its entries, and an access list for the user and the
//! system alone.
use crate::model::AppResult;
use crate::text::{append, string_of};
use vstd::prelude::*;

verus! {

/// The file attribute that marks a reparse point (a link or junction).
pub const REPARSE_POINT: u32 = 0x400;

/// A plain entry: of the expected kind and not a reparse point.
pub open spec fn plain(expected_kind: bool, attributes: u32) -> bool {
    expected_kind && attributes & REPARSE_POINT == 0
}

/// Where a directory is checked.
#[derive(Clone, Copy, Debug, PartialEq, Eq, Structural)]
pub enum DirectoryRole {
    /// An ancestor of the state directory, before it is created.
    StateAncestor,
    /// The recovery directory, before its access list is set.
    Storage,
    /// The recovery directory, checked again before it is used.
    Recheck,
}

/// The refusal for a directory that is not plain.
pub open spec fn directory_refusal(role: DirectoryRole) -> Seq<char> {
    match role {
        DirectoryRole::StateAncestor => "Reparse or non-directory ancestor in the state path; no fallback is allowed."@,
        DirectoryRole::Storage => "Recovery storage must be a normal non-reparse directory."@,
        DirectoryRole::Recheck => "Recovery directory changed to a reparse or non-directory entry."@,
    }
}

/// A directory on the recovery path must be a directory and no reparse point.
pub fn directory_check(role: DirectoryRole, is_dir: bool, attributes: u32) -> (r: AppResult<()>)
    ensures
        plain(is_dir, attributes) ==> r is Ok,
        !plain(is_dir, attributes) ==> (r matches Err(m) && m@ == directory_refusal(role)),
{
    if !is_dir || attributes & REPARSE_POINT != 0 {
        Err(match role {
            DirectoryRole::StateAncestor => "Reparse or non-directory ancestor in the state path; no fallback is allowed.".to_string(),
            DirectoryRole::Storage => "Recovery storage must be a normal non-reparse directory.".to_string(),
            DirectoryRole::Recheck => "Recovery directory changed to a reparse or non-directory entry.".to_string(),
        })
    } else {
        Ok(())
    }
}

/// An entry of the recovery directory that exists (whether it is a file, and its
/// attributes) must be a plain file; a missing one is fine.
pub fn store_entry_check(name: &str, found: Option<(bool, u32)>) -> (r: AppResult<()>)
    ensures
        match found {
            None => r is Ok,
            Some((is_file, attributes)) => if plain(is_file, attributes) {
                r is Ok
            } else {
                r matches Err(m) && m@ == "Recovery entry "@ + name@ + " is not a normal file."@
            },
        },
{
    match found {
        None => Ok(()),
        Some((is_file, attributes)) => if !is_file || attributes & REPARSE_POINT != 0 {
            let mut t: Vec<char> = Vec::new();
            append(&mut t, "Recovery entry ");
            append(&mut t, name);
            append(&mut t, " is not a normal file.");
            Err(string_of(&t))
        } else {
            Ok(())
        },
    }
}

/// The protected access list of the recovery directory: full access for the system and
/// for the user's SID, nothing inherited.
pub fn recovery_acl(sid: &str) -> (r: String)
    ensures
        r@ == "D:P(A;OICI;FA;;;SY)(A;OICI;FA;;;"@ + sid@ + ")"@,
{
    let mut t: Vec<char> = Vec::new();
    append(&mut t, "D:P(A;OICI;FA;;;SY)(A;OICI;FA;;;");
    append(&mut t, sid);
    append(&mut t, ")");
    string_of(&t)
}

} // verus!
