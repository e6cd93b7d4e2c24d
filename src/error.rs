use vstd::prelude::*;

verus! {

/// Why an install or uninstall cannot go on.
#[derive(Debug, Clone, PartialEq, Eq)]
pub enum PieError {
    /// No package, content or dependency of this name in the catalog.
    NotFound(String),
    /// The package is not in the ledger.
    NotInstalled(String),
    /// The device reports an architecture outside the supported set.
    UnsupportedArchitecture(String),
    /// The package has no artifact for the device's architecture.
    ArchitectureUnavailable { package: String, arch: String },
    /// The package's minimum API level is not a decimal number.
    InvalidMinApi(String),
    /// The package needs a newer platform than the device runs.
    IncompatibleApi { required: u32, device: u32 },
    /// The downloaded archive does not hash to the declared checksum.
    ChecksumMismatch(String),
    /// The user declined a confirmation prompt.
    Cancelled,
}

} // verus!
