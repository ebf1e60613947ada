//! Which traversal entries are hidden.

use vstd::prelude::*;
use walkdir::DirEntry;

verus! {

#[verifier::external_type_specification]
#[verifier::external_body]
pub struct ExDirEntry(DirEntry);

/// A name is hidden when it starts with a dot.
pub open spec fn hidden_name(name: Seq<char>) -> bool {
    name.len() > 0 && name[0] == '.'
}

/// Relies on walkdir's `DirEntry::file_name`: the entry's last path
/// component (the whole path where there is none), here as a `String` where
/// it is valid UTF-8.
#[verifier::external_body]
fn entry_file_name(entry: &DirEntry) -> Option<String> {
    entry.file_name().to_str().map(|s| s.to_string())
}

/// Whether a file name marks a hidden entry.
pub fn is_hidden_name(name: &str) -> (r: bool)
    ensures
        r == hidden_name(name@),
{
    name.unicode_len() > 0 && name.get_char(0) == '.'
}

/// Whether an entry with this file name is hidden: a name that is not valid
/// UTF-8 (`None`) never is; a valid one is when it starts with a dot.
pub fn hidden_by_name(name: Option<String>) -> (r: bool)
    ensures
        r == match name {
            Some(n) => hidden_name(n@),
            None => false,
        },
{
    match name {
        Some(n) => is_hidden_name(n.as_str()),
        None => false,
    }
}

/// Whether a traversal entry is hidden: its file name is valid UTF-8 and
/// starts with a dot. A name that is not valid UTF-8 is never hidden.
/// The name is read from the entry, which is opaque here; the decision is
/// `hidden_by_name`.
pub fn is_hidden(entry: &DirEntry) -> bool {
    hidden_by_name(entry_file_name(entry))
}

} // verus!
