//! Names under which the download servers file the builds for a platform.

use vstd::prelude::*;

use crate::text::str_eq;

verus! {

/// The platform name that Chrome for Testing uses for an operating system and
/// a processor architecture, both named as the Rust compiler names them.
pub open spec fn cft_platform(os: Seq<char>, arch: Seq<char>) -> Seq<char> {
    if os == "windows"@ {
        if arch == "x86_64"@ {
            "win64"@
        } else {
            "win32"@
        }
    } else if os == "macos"@ {
        if arch == "aarch64"@ {
            "mac-arm64"@
        } else {
            "mac-x64"@
        }
    } else {
        "linux64"@
    }
}

/// The platform name that Chrome for Testing uses.
pub fn current_platform(os: &str, arch: &str) -> (r: &'static str)
    ensures
        r@ == cft_platform(os@, arch@),
{
    if str_eq(os, "windows") && str_eq(arch, "x86_64") {
        "win64"
    } else if str_eq(os, "windows") {
        "win32"
    } else if str_eq(os, "macos") && str_eq(arch, "aarch64") {
        "mac-arm64"
    } else if str_eq(os, "macos") {
        "mac-x64"
    } else {
        "linux64"
    }
}

/// The directory name that the bucket of Chromium snapshots uses.
pub open spec fn snapshot_directory(os: Seq<char>, arch: Seq<char>) -> Seq<char> {
    if os == "windows"@ {
        if arch == "x86_64"@ {
            "Win_x64"@
        } else {
            "Win"@
        }
    } else if os == "macos"@ {
        if arch == "aarch64"@ {
            "Mac_Arm"@
        } else {
            "Mac"@
        }
    } else {
        "Linux_x64"@
    }
}

/// The directory name that the bucket of Chromium snapshots uses.
pub fn snapshot_platform(os: &str, arch: &str) -> (r: &'static str)
    ensures
        r@ == snapshot_directory(os@, arch@),
{
    if str_eq(os, "windows") && str_eq(arch, "x86_64") {
        "Win_x64"
    } else if str_eq(os, "windows") {
        "Win"
    } else if str_eq(os, "macos") && str_eq(arch, "aarch64") {
        "Mac_Arm"
    } else if str_eq(os, "macos") {
        "Mac"
    } else {
        "Linux_x64"
    }
}

/// Windows on x86-64 and macOS on ARM have names of their own, all other
/// processors share one for each of the two systems, and all other systems go
/// by the name of Linux.
pub proof fn law_platform_names(os: Seq<char>, arch: Seq<char>)
    ensures
        cft_platform("windows"@, "x86_64"@) == "win64"@,
        arch != "x86_64"@ ==> cft_platform("windows"@, arch) == "win32"@,
        cft_platform("macos"@, "aarch64"@) == "mac-arm64"@,
        arch != "aarch64"@ ==> cft_platform("macos"@, arch) == "mac-x64"@,
        os != "windows"@ && os != "macos"@ ==> cft_platform(os, arch) == "linux64"@,
        snapshot_directory("windows"@, "x86_64"@) == "Win_x64"@,
        arch != "x86_64"@ ==> snapshot_directory("windows"@, arch) == "Win"@,
        snapshot_directory("macos"@, "aarch64"@) == "Mac_Arm"@,
        arch != "aarch64"@ ==> snapshot_directory("macos"@, arch) == "Mac"@,
        os != "windows"@ && os != "macos"@ ==> snapshot_directory(os, arch) == "Linux_x64"@,
{
    reveal_strlit("windows");
    reveal_strlit("macos");
    assert("windows"@.len() != "macos"@.len());
}

} // verus!
