//! The operating system whose naming rules apply.

use vstd::prelude::*;

verus! {

/// An operating system family.
#[derive(Debug, Clone, Copy, PartialEq, Eq, Structural)]
pub enum Os {
    /// Windows.
    Windows,
    /// macOS.
    MacOs,
    /// Linux and the other Unixes.
    Linux,
}

} // verus!
