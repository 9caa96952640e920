//! The identifiers of this build.

use vstd::prelude::*;

verus! {

/// Product version.
pub const VERSION: &'static str = "1.0.0";

/// Product name and major line, as window titles show it.
pub const PRODUCT: &'static str = "DirWatch 1.0";

/// The full build identifier, for `--version`, `--help` and the logs.
pub const BUILD_ID: &'static str = "DirWatch 1.0 build 2026-09-20.i61";

/// The line that identifies the build.
pub fn banner() -> (r: &'static str)
    ensures
        r@ == BUILD_ID@,
{
    BUILD_ID
}

} // verus!
