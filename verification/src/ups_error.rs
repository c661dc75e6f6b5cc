use vstd::prelude::*;

verus! {

/// Errors that happen when loading an already made patch.
#[derive(Debug, PartialEq, Eq, Structural, Clone, Copy)]
pub enum LoadError {
    /// The given bytes do not start with the header of a UPS patch.
    IsNotUpsFile,
    /// The header is there, but the trailing checksum does not match the bytes before it.
    IsCorrupted,
    /// The checksum matches, but the bytes between header and checksums
    /// are not two lengths followed by whole change records.
    Unknown,
}

/// Errors that happen when applying a patch to a source.
#[derive(Debug, PartialEq, Eq, Structural, Clone, Copy)]
pub enum ApplyError {
    /// The provided source does not have the checksum the patch expects.
    SourceMismatch,
    /// The result of patching does not have the checksum the patch expects.
    TargetMismatch,
    /// Any other error.
    Unknown,
}

/// Errors that happen when creating a patch from a source and a target.
///
/// Creating a patch cannot fail at the moment; the category is kept so that
/// callers can match on all three stages.
#[derive(Debug, PartialEq, Eq, Structural, Clone, Copy)]
pub enum CreateError {
    Unknown,
}

/// The error returned by every fallible operation of this crate, tagged by
/// the stage it comes from.
#[derive(Debug, PartialEq, Eq, Structural, Clone, Copy)]
pub enum UpsError {
    Load(LoadError),
    Apply(ApplyError),
    Create(CreateError),
}

/// The text that describes an error, as a sequence of characters.
pub open spec fn message_text(e: UpsError) -> Seq<char> {
    match e {
        UpsError::Load(LoadError::IsNotUpsFile) => "File provided is not a UPS Patch file"@,
        UpsError::Load(LoadError::IsCorrupted) =>
            "FIle provided apears to be corrupted, doesn't match crc32"@,
        UpsError::Load(LoadError::Unknown) => "Unknown error during patch load"@,
        UpsError::Apply(ApplyError::SourceMismatch) =>
            "Source file doesn't match crc32 for source file"@,
        UpsError::Apply(ApplyError::TargetMismatch) =>
            "Final target file doesn't match crc32 for target file"@,
        UpsError::Apply(ApplyError::Unknown) => "Unknown error during patch apply"@,
        UpsError::Create(_) => "Unknown Error during patch creation"@,
    }
}

impl UpsError {
    /// A short human-readable description of the error.
    pub fn message(&self) -> (text: &'static str)
        ensures
            text@ == message_text(*self),
    {
        match self {
            UpsError::Load(load_error) => match load_error {
                LoadError::IsNotUpsFile => "File provided is not a UPS Patch file",
                LoadError::IsCorrupted =>
                    "FIle provided apears to be corrupted, doesn't match crc32",
                LoadError::Unknown => "Unknown error during patch load",
            },
            UpsError::Apply(apply_error) => match apply_error {
                ApplyError::SourceMismatch => "Source file doesn't match crc32 for source file",
                ApplyError::TargetMismatch =>
                    "Final target file doesn't match crc32 for target file",
                ApplyError::Unknown => "Unknown error during patch apply",
            },
            UpsError::Create(_) => "Unknown Error during patch creation",
        }
    }
}

} // verus!
