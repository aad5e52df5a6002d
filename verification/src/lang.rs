//! Source-language classification: maps a file name's extension to the
//! language it selects, purely by suffix.

use vstd::prelude::*;
use crate::strutil::is_suffix;
use crate::strutil::str_ends_with;

verus! {

/// Source language of a database entry, derived from its file extension.
#[derive(Clone, Copy, PartialEq, Eq, Structural, Debug)]
pub enum Language {
    C,
    Cxx,
}

/// The language a file's name selects: `.c` is C, `.cpp` and `.cc` are C++,
/// any other ending selects nothing.
pub open spec fn classify(file: Seq<char>) -> Option<Language> {
    if is_suffix(".c"@, file) {
        Some(Language::C)
    } else if is_suffix(".cpp"@, file) || is_suffix(".cc"@, file) {
        Some(Language::Cxx)
    } else {
        None
    }
}

/// Maps a file name to the language its extension selects.
pub fn file_to_language(file: &str) -> (r: Option<Language>)
    ensures
        r == classify(file@),
{
    if str_ends_with(file, ".c") {
        Some(Language::C)
    } else if str_ends_with(file, ".cpp") || str_ends_with(file, ".cc") {
        Some(Language::Cxx)
    } else {
        None
    }
}

} // verus!
