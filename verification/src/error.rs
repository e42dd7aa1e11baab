//! The ways in which an operation on a container can fail.

use vstd::prelude::*;

verus! {

/// A key of a build profile.
#[derive(Copy, Clone, Debug, PartialEq, Eq, Structural)]
pub enum ProfileKey {
    CompilerName,
    CompilerVersion,
    Platform,
    Arch,
}

/// Why an operation was refused. No variant is recoverable inside the
/// library: the operation that met it stops and hands it to the caller.
#[derive(Copy, Clone, Debug, PartialEq, Eq, Structural)]
pub enum Error {
    /// The first three bytes are not `BPX`.
    BadSignature,
    /// The format version is not 1; the value found is attached.
    UnsupportedVersion(u32),
    /// A section asks for the retired zlib compression.
    UnsupportedCompression,
    /// A section asks for the retired CRC32 check.
    UnsupportedChecksum,
    /// The headers do not add up to the checksum that the main header holds.
    HeaderChecksumMismatch,
    /// A section's content does not add up to the checksum in its header.
    SectionChecksumMismatch,
    /// The compressor refused the data.
    Deflate,
    /// The decompressor refused the data.
    Inflate,
    /// A section does not fit the 32-bit size fields of its header.
    SectionTooLarge,
    /// The container can hold no more sections.
    TooManySections,
    /// No string table section.
    MissingStringSection,
    /// No metadata section.
    MissingMetadataSection,
    /// Structured data ended in the middle of a value.
    UnexpectedEof,
    /// Structured data holds a type code that names no type.
    UnknownTypeCode(u8),
    /// A string is not valid UTF-8.
    InvalidUtf8,
    /// An array or an object holds more than 255 values.
    TooManyValues,
    /// The debug symbols of an object are not an array of strings.
    BadDebugSymbols,
    /// A packed file has an empty path.
    EmptyPath,
    /// A path has no final component.
    InvalidPath,
    /// The container's type byte is not the one asked for.
    UnknownContainerType(u8),
    /// The architecture code names no architecture.
    UnknownArchitecture,
    /// The platform code names no platform.
    UnknownPlatform,
    /// The package variant is not `PK`.
    UnsupportedVariant(u8, u8),
    /// A build profile lacks a key.
    MissingProfileKey(ProfileKey),
    /// A key of a build profile holds something other than a string.
    BadProfileKeyType(ProfileKey),
    /// No build profile has been set up yet.
    ProfileNotInitialized,
    /// A project knows no build configuration of the name asked for.
    UnknownConfiguration,
    /// The settings know no registry of the name asked for.
    UnknownRegistry,
    /// A registry of the settings has no address, or one that is no string.
    BadRegistryUrl,
    /// The default registry of the settings is neither a name nor left out.
    BadDefaultRegistry,
    /// The address of a registry has no scheme.
    MissingScheme,
    /// The scheme of a registry's address names no kind of registry.
    UnknownScheme,
    /// The registry does not take the version of the package.
    BadPackageVersion,
    /// The registry does not take the name of the package.
    BadPackageName,
    /// The project does not accept the compiler of the build profile.
    UnsupportedCompiler,
    /// The project does not accept the version of the compiler.
    UnsupportedCompilerVersion,
    /// The project does not accept the platform of the build profile.
    UnsupportedSystem,
    /// The project does not accept the architecture of the build profile.
    UnsupportedArchitecture,
    /// No profile file was found for the toolchain asked for.
    UnknownToolchain,
    /// Properties were given to a toolchain that takes none.
    ToolchainProperties,
}

} // verus!
