//! The identity of a path: the key under which every table holds it. Names are folded to lower
//! case exactly where the file system compares them so, and taken as they are elsewhere.

use vstd::prelude::*;

use crate::os::Os;
use crate::strings;

verus! {

/// The default file systems of Windows and macOS ignore case.
pub open spec fn folds_case(os: Os) -> bool {
    os is Windows || os is MacOs
}

/// The identity key of a path.
pub open spec fn key_of(os: Os, path: Seq<char>) -> Seq<char> {
    if folds_case(os) {
        strings::lowercase(path)
    } else {
        path
    }
}

/// Whether the system's default file systems compare names without regard to case.
pub fn fs_is_case_insensitive(os: Os) -> (r: bool)
    ensures
        r == folds_case(os),
{
    match os {
        Os::Windows | Os::MacOs => true,
        Os::Linux => false,
    }
}

/// The identity key of a path.
pub fn fs_key_str(os: Os, path: &str) -> (r: String)
    ensures
        r@ == key_of(os, path@),
        // Nothing but case is ever lost.
        strings::is_ascii(path@) && folds_case(os) ==> r@ == strings::ascii_folded(path@),
{
    if fs_is_case_insensitive(os) {
        strings::to_lowercase(path)
    } else {
        path.to_owned()
    }
}

/// On Linux every spelling is a path of its own; on Windows and macOS the paths that are alike in
/// lower case are one.
pub proof fn case_counts_on_linux_alone(a: Seq<char>, b: Seq<char>)
    ensures
        key_of(Os::Linux, a) == a,
        key_of(Os::Linux, a) == key_of(Os::Linux, b) <==> a == b,
        key_of(Os::Windows, a) == key_of(Os::Windows, b) <==> strings::lowercase(a)
            == strings::lowercase(b),
        key_of(Os::MacOs, a) == key_of(Os::MacOs, b) <==> strings::lowercase(a)
            == strings::lowercase(b),
        key_of(Os::Windows, a) == strings::lowercase(a),
        key_of(Os::MacOs, a) == strings::lowercase(a),
{
}

} // verus!
