//! What can go wrong while a patch is decoded or applied.
use vstd::prelude::*;

verus! {

/// The broad class of a failure.
#[derive(Clone, Copy, Debug, PartialEq, Eq, Structural)]
pub enum ErrorKind {
    /// A source of bytes ended early or could not be read where asked.
    Io,
    /// The bytes do not follow the container format.
    Format,
    /// The container declares a variant that is not handled.
    Unsupported,
    /// Two parts of the container contradict each other.
    Consistency,
}

/// A failure of decoding or patching. Every one of them ends the operation:
/// nothing partial is handed back.
#[derive(Clone, Copy, Debug, PartialEq, Eq, Structural)]
pub enum DiffError {
    /// The input ended before the bytes that were asked for.
    UnexpectedEof,
    /// A new file has no old file at the same index.
    OldFileMissing,
    /// A copy asked for bytes outside the old file.
    OldFileRange,
    /// A fixed byte sequence was not found where it belongs.
    MagicMismatch,
    /// An integer that must have a fixed value has another one.
    VarIntMismatch,
    /// An integer does not fit in 63 bits.
    VarIntOverflow,
    /// A name is not valid UTF-8.
    InvalidUtf8,
    /// A reference index is 128 or more.
    ReferenceIndex,
    /// A compressed section is not a well-formed compressed frame.
    Decompression,
    /// A compressed section unpacks to another length than declared.
    SizeMismatch,
    /// A section was not consumed to its last byte.
    SectionLength,
    /// The header names a compression, checksum or mode that is not handled,
    /// or a field that must be zero is not.
    UnsupportedVariant,
    /// The path tables do not hold as many files as the header declares.
    CountMismatch,
}

impl DiffError {
    /// The class a failure belongs to.
    pub open spec fn spec_kind(self) -> ErrorKind {
        match self {
            DiffError::UnexpectedEof | DiffError::OldFileMissing | DiffError::OldFileRange =>
                ErrorKind::Io,
            DiffError::UnsupportedVariant => ErrorKind::Unsupported,
            DiffError::CountMismatch => ErrorKind::Consistency,
            _ => ErrorKind::Format,
        }
    }

    /// A short description of the failure.
    pub open spec fn spec_message(self) -> Seq<char> {
        match self {
            DiffError::UnexpectedEof => "unexpected end of input"@,
            DiffError::OldFileMissing => "no old file for a new file"@,
            DiffError::OldFileRange => "copy outside the old file"@,
            DiffError::MagicMismatch => "magic bytes not found"@,
            DiffError::VarIntMismatch => "integer with an unexpected value"@,
            DiffError::VarIntOverflow => "integer too large"@,
            DiffError::InvalidUtf8 => "name that is not UTF-8"@,
            DiffError::ReferenceIndex => "reference index too large"@,
            DiffError::Decompression => "section that does not unpack"@,
            DiffError::SizeMismatch => "section of another size than declared"@,
            DiffError::SectionLength => "section not read to its end"@,
            DiffError::UnsupportedVariant => "kind of patch that is not handled"@,
            DiffError::CountMismatch => "files and references differ in number"@,
        }
    }

    /// A short description of the failure.
    pub fn message(self) -> (m: &'static str)
        ensures
            m@ == self.spec_message(),
    {
        match self {
            DiffError::UnexpectedEof => "unexpected end of input",
            DiffError::OldFileMissing => "no old file for a new file",
            DiffError::OldFileRange => "copy outside the old file",
            DiffError::MagicMismatch => "magic bytes not found",
            DiffError::VarIntMismatch => "integer with an unexpected value",
            DiffError::VarIntOverflow => "integer too large",
            DiffError::InvalidUtf8 => "name that is not UTF-8",
            DiffError::ReferenceIndex => "reference index too large",
            DiffError::Decompression => "section that does not unpack",
            DiffError::SizeMismatch => "section of another size than declared",
            DiffError::SectionLength => "section not read to its end",
            DiffError::UnsupportedVariant => "kind of patch that is not handled",
            DiffError::CountMismatch => "files and references differ in number",
        }
    }

    /// The class a failure belongs to.
    #[verifier::when_used_as_spec(spec_kind)]
    pub fn kind(self) -> (k: ErrorKind)
        ensures
            k == self.spec_kind(),
    {
        match self {
            DiffError::UnexpectedEof | DiffError::OldFileMissing | DiffError::OldFileRange => {
                ErrorKind::Io
            },
            DiffError::UnsupportedVariant => ErrorKind::Unsupported,
            DiffError::CountMismatch => ErrorKind::Consistency,
            _ => ErrorKind::Format,
        }
    }
}

} // verus!
