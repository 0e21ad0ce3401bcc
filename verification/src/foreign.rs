//! Error types of other crates and of std that travel through this library's
//! own error types. The library never looks inside them.

use vstd::prelude::*;

verus! {

/// `git2::Error`, the error of every libgit2 operation. Carried as an opaque
/// value: nothing is claimed of its contents.
#[verifier::external_type_specification]
#[verifier::external_body]
pub struct ExGitError(git2::Error);

/// `toml::de::Error`, the error of TOML deserialization. Carried as an opaque
/// value: nothing is claimed of its contents.
#[verifier::external_type_specification]
#[verifier::external_body]
pub struct ExTomlError(toml::de::Error);

/// `std::io::Error`. Carried as an opaque value: nothing is claimed of its
/// contents.
#[verifier::external_type_specification]
#[verifier::external_body]
pub struct ExIoError(std::io::Error);

/// `std::str::Utf8Error`. Carried as an opaque value: nothing is claimed of
/// its contents.
#[verifier::external_type_specification]
#[verifier::external_body]
pub struct ExUtf8Error(std::str::Utf8Error);

/// `std::num::ParseIntError`. Carried as an opaque value: nothing is claimed
/// of its contents.
#[verifier::external_type_specification]
#[verifier::external_body]
pub struct ExParseIntError(std::num::ParseIntError);

} // verus!
