//! Telling the operating system from a browser's version string.

use crate::text::{contains, is_substring};
use vstd::prelude::*;

verus! {

/// The operating system that a browser's `appVersion` names: the last of
/// `Win`, `Mac`, `X11`, `Linux` that occurs in it decides.
pub open spec fn os_of(v: Seq<char>) -> Seq<char> {
    if is_substring("Linux"@, v) {
        "linux"@
    } else if is_substring("X11"@, v) {
        "unix"@
    } else if is_substring("Mac"@, v) {
        "macos"@
    } else if is_substring("Win"@, v) {
        "windows"@
    } else {
        "Unknown"@
    }
}

/// The operating system named by a browser's version string.
pub fn os_name(app_version: &str) -> (r: &'static str)
    ensures
        r@ == os_of(app_version@),
{
    let mut os: &'static str = "Unknown";
    if contains(app_version, "Win") {
        os = "windows";
    }
    if contains(app_version, "Mac") {
        os = "macos";
    }
    if contains(app_version, "X11") {
        os = "unix";
    }
    if contains(app_version, "Linux") {
        os = "linux";
    }
    os
}

} // verus!
