//! Platform facts used when scanning a directory for extension libraries.

use vstd::prelude::*;

verus! {

/// The operating systems the loader knows a library suffix for.
#[derive(Clone, Copy, Debug, PartialEq, Eq, Structural)]
pub enum OperativeSystem {
    Windows,
    Linux,
    Darwin,
    Unknown,
}

/// The operating system, decided from the target facts in the order the
/// loader checks them: Windows first, then macOS, then any other Unix.
pub open spec fn spec_os_type(windows: bool, macos: bool, unix: bool) -> OperativeSystem {
    if windows {
        OperativeSystem::Windows
    } else if macos {
        OperativeSystem::Darwin
    } else if unix {
        OperativeSystem::Linux
    } else {
        OperativeSystem::Unknown
    }
}

/// Classifies the build target. The three flags are the target facts
/// `windows`, `target_os = "macos"` and `unix`.
pub fn os_type(windows: bool, macos: bool, unix: bool) -> (os: OperativeSystem)
    ensures
        os == spec_os_type(windows, macos, unix),
{
    if windows {
        OperativeSystem::Windows
    } else if macos {
        OperativeSystem::Darwin
    } else if unix {
        OperativeSystem::Linux
    } else {
        OperativeSystem::Unknown
    }
}

/// The file suffix of a dynamic library on a known system.
pub open spec fn spec_ext(os: OperativeSystem) -> Seq<char> {
    match os {
        OperativeSystem::Windows => "dll"@,
        OperativeSystem::Linux => "so"@,
        OperativeSystem::Darwin => "dylib"@,
        OperativeSystem::Unknown => Seq::empty(),
    }
}

/// The dynamic-library suffix for `os`; an unknown system has none.
pub fn ext(os: OperativeSystem) -> (suffix: &'static str)
    requires
        os != OperativeSystem::Unknown,
    ensures
        suffix@ == spec_ext(os),
{
    match os {
        OperativeSystem::Windows => "dll",
        OperativeSystem::Linux => "so",
        OperativeSystem::Darwin => "dylib",
        OperativeSystem::Unknown => "",
    }
}

/// The glob pattern, relative to the scanned directory, that matches every
/// library with the given suffix: `*.` followed by the suffix.
pub fn library_pattern(suffix: &str) -> (pattern: String)
    ensures
        pattern@ == "*."@ + suffix@,
{
    let pattern = String::from_str("*.");
    pattern.concat(suffix)
}

} // verus!
