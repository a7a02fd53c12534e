//! The line by which a build of the worker names itself.

use vstd::prelude::*;
use vstd::string::*;

verus! {

/// The version line for a package version and a compiler version.
pub open spec fn version_line(package_version: Seq<char>, compiler_version: Seq<char>) -> Seq<
    char,
> {
    "Inscenium Edge Worker WASM v"@ + package_version + " - Built with Rust "@ + compiler_version
}

/// The version line of a build, given the package version and the version of
/// the compiler that built it.
pub fn get_version_info(package_version: &str, compiler_version: &str) -> (info: String)
    ensures
        info@ == version_line(package_version@, compiler_version@),
{
    let mut info = String::from_str("Inscenium Edge Worker WASM v");
    info.append(package_version);
    info.append(" - Built with Rust ");
    info.append(compiler_version);
    info
}

} // verus!
