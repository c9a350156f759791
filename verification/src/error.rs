//! The ways in which computing a measurement can fail.

use vstd::prelude::*;

verus! {

/// Why a measurement could not be computed.
#[derive(Debug, Clone, Copy, PartialEq, Eq, Structural)]
pub enum Error {
    /// A GUID string does not have five dash-separated groups.
    InvalidGuid,
    /// A GUID group or a hexadecimal constant is not valid hexadecimal.
    InvalidHex,
    /// The TDVF table footer GUID is not where it belongs.
    InvalidFooterGuid,
    /// The TDVF GUID table has a zero or oversized length.
    InvalidTablesLength,
    /// An entry of the TDVF GUID table claims more bytes than precede it.
    InvalidEntryLength,
    /// The GUID table has no TDX metadata offset entry.
    MissingTdvfMetadata,
    /// The TDVF metadata descriptor does not start with `TDVF`.
    InvalidTdvfDescriptor,
    /// The TDVF metadata descriptor has a version other than 1.
    UnsupportedTdvfVersion,
    /// A TDVF section's memory address is not page aligned.
    SectionAddressNotAligned,
    /// A TDVF section's memory size is smaller than its raw data size.
    SectionMemorySizeTooSmall,
    /// A TDVF section's memory size is not a multiple of the page size.
    SectionMemorySizeNotAligned,
    /// A TDVF section to be measured holds more raw data than memory.
    SectionRawDataTooLarge,
    /// The configuration firmware volume lies beyond the firmware image.
    CfvBeyondFirmware,
    /// The firmware has no configuration firmware volume section.
    MissingCfv,
    /// The BootOrder variable has an odd number of bytes.
    OddBootOrderLength,
    /// Indirect boot was requested without a BootOrder variable.
    MissingBootOrder,
    /// A field to read lies beyond the end of the data.
    Truncated,
    /// A PE image lacks the `PE\0\0` signature.
    InvalidPeSignature,
    /// An ACPI table header gives a length below 8 or past the end.
    InvalidAcpiTableLength,
    /// One of DSDT, FACP or RSDT is missing from the ACPI tables.
    MissingAcpiTable,
    /// The RSDT length does not describe a whole number of entries.
    MalformedRsdt,
    /// An ACPI signature to search for is not four bytes long.
    InvalidSignatureLength,
    /// The ACPI table to search for is not in the tables.
    AcpiTableNotFound,
    /// An ACPI table header gives a length of zero.
    ZeroLengthAcpiTable,
    /// The distribution has no pinned QEMU package.
    UnsupportedDistribution,
    /// The kernel image is shorter than one page.
    KernelTooShort,
    /// The kernel's boot protocol predates initrd support.
    KernelTooOldForRamdisk,
    /// The initrd does not fit below the initrd address limit.
    InitrdTooLarge,
    /// The GPT header is shorter than 92 bytes.
    GptHeaderTooShort,
    /// The GPT header lacks the `EFI PART` signature.
    InvalidGptSignature,
    /// The kernel command line names no `vmlinuz-` boot image.
    KernelVersionNotFound,
    /// A memory size string is empty.
    EmptyMemorySize,
    /// A memory size string is not a valid number.
    InvalidMemorySize,
    /// A memory size string ends in an unknown suffix.
    UnknownMemorySuffix,
    /// The configuration specifies both direct and indirect boot.
    BothBootModes,
    /// The configuration specifies neither direct nor indirect boot.
    NoBootMode,
    /// The configuration has no `boot_config` section.
    MissingBootConfig,
    /// A measurement that needs the platform configuration lacks `boot_config`.
    BootInfoRequired,
    /// Direct boot was selected without a `direct` section.
    MissingDirectBoot,
    /// Indirect boot was selected without an `indirect` section.
    MissingIndirectBoot,
    /// ACPI tables can only be generated for direct boot.
    AcpiGenerationNeedsDirectBoot,
}

} // verus!
