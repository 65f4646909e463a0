//! Errors of an update operation.

use vstd::prelude::*;

verus! {

/// Why an update failed. Each carries a description or the offending
/// package's name.
#[derive(Clone, Debug)]
pub enum BonjourError {
    ManifestTomlParseError(String),
    LockfileTomlParseError(String),
    DependencyVersionMustBeString(String),
    InstallError(String),
    LockfileSaveError(String),
}

/// The sentence that describes an error.
pub open spec fn error_message(e: BonjourError) -> Seq<char> {
    match e {
        BonjourError::ManifestTomlParseError(s) => "Could not parse manifest because "@ + s@ + "."@,
        BonjourError::LockfileTomlParseError(s) => "Could not parse lockfile because "@ + s@ + "."@,
        BonjourError::DependencyVersionMustBeString(s) => "Dependency version must be a string. Package name: "@
            + s@ + "."@,
        BonjourError::InstallError(s) => "Could not install added packages. "@ + s@ + "."@,
        BonjourError::LockfileSaveError(s) => "Could not save lockfile. "@ + s@ + "."@,
    }
}

impl BonjourError {
    /// A sentence that describes the error.
    pub fn message(&self) -> (r: String)
        ensures
            r@ == error_message(*self),
    {
        let (mut r, detail) = match self {
            BonjourError::ManifestTomlParseError(s) => ("Could not parse manifest because ".to_string(), s),
            BonjourError::LockfileTomlParseError(s) => ("Could not parse lockfile because ".to_string(), s),
            BonjourError::DependencyVersionMustBeString(s) => (
                "Dependency version must be a string. Package name: ".to_string(),
                s,
            ),
            BonjourError::InstallError(s) => ("Could not install added packages. ".to_string(), s),
            BonjourError::LockfileSaveError(s) => ("Could not save lockfile. ".to_string(), s),
        };
        r.append(detail.as_str());
        r.append(".");
        r
    }
}

} // verus!
