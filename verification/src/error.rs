//! Error types for argument checking and for annotation processing.
//!
//! Each variant carries the offending input as bytes; `message` gives the
//! fixed description of the error kind, for callers that print errors.

use vstd::prelude::*;

verus! {

/// Errors from checking the command-line inputs: the list of annotation
/// paths and the output directory.
#[derive(Debug)]
pub enum CliError {
    /// A file could not be read.
    FileReadError(Vec<u8>),
    /// The file listing annotation paths is empty.
    FileEmptyError(Vec<u8>),
    /// An annotation path is unreadable, has no extension, or has an
    /// extension different from the other annotation paths.
    GtfGffParseError(Vec<u8>),
    /// The output path is not an existing directory.
    NotADirectoryError(Vec<u8>),
}

impl CliError {
    /// The fixed description of each error kind.
    pub open spec fn message_spec(&self) -> Seq<char> {
        match self {
            CliError::FileReadError(_) => "FileReadError: Unable to read file"@,
            CliError::FileEmptyError(_) => "FileEmptyError: Provided file is empty"@,
            CliError::GtfGffParseError(
                _,
            ) => "GtfGffParseError: GTF/GFFs must be readable and all have the same extension ('.gtf' or '.gff')"@,
            CliError::NotADirectoryError(
                _,
            ) => "NotADirectoryError: output_dir must be an existing directory"@,
        }
    }

    /// The offending input the error carries.
    pub open spec fn payload_spec(&self) -> Seq<u8> {
        match self {
            CliError::FileReadError(p) => p@,
            CliError::FileEmptyError(p) => p@,
            CliError::GtfGffParseError(p) => p@,
            CliError::NotADirectoryError(p) => p@,
        }
    }

    /// The offending input the error carries.
    pub fn payload(&self) -> (r: &Vec<u8>)
        ensures
            r@ == self.payload_spec(),
    {
        match self {
            CliError::FileReadError(p) => p,
            CliError::FileEmptyError(p) => p,
            CliError::GtfGffParseError(p) => p,
            CliError::NotADirectoryError(p) => p,
        }
    }

    /// The fixed description of the error kind; the offending input is in
    /// the variant's payload.
    pub fn message(&self) -> (r: &'static str)
        ensures
            r@ == self.message_spec(),
    {
        match self {
            CliError::FileReadError(_) => "FileReadError: Unable to read file",
            CliError::FileEmptyError(_) => "FileEmptyError: Provided file is empty",
            CliError::GtfGffParseError(
                _,
            ) => "GtfGffParseError: GTF/GFFs must be readable and all have the same extension ('.gtf' or '.gff')",
            CliError::NotADirectoryError(
                _,
            ) => "NotADirectoryError: output_dir must be an existing directory",
        }
    }
}

/// Errors from processing annotation lines.
#[derive(Debug)]
pub enum GtfGffError {
    /// An "exon"/"CDS" line has no "transcript_id" attribute; the payload
    /// is the offending line.
    MissingTranscriptIdError(Vec<u8>),
    /// A boundary insertion was reached with a feature other than "exon" or
    /// "CDS"; the payload is that feature. Qualifying lines are filtered
    /// before accumulation, so this error indicates a defect in the caller,
    /// not bad input.
    UnknownFeatureError(Vec<u8>),
    /// An output dialect was requested for an extension other than "gtf" or
    /// "gff"; the payload is that extension. Extensions are validated when
    /// arguments are checked, so this error indicates a defect in the
    /// caller, not bad input.
    UnknownExtensionError(Vec<u8>),
    /// A line could not be read; the payload is the path.
    LineReadError(Vec<u8>),
    /// The output file could not be created; the payload is the path.
    FileCreateError(Vec<u8>),
    /// A line could not be written; the payload is the path.
    FileWriteError(Vec<u8>),
}

impl GtfGffError {
    /// The fixed description of each error kind.
    pub open spec fn message_spec(&self) -> Seq<char> {
        match self {
            GtfGffError::MissingTranscriptIdError(
                _,
            ) => "MissingTranscriptIdError: No transcript_id found in line"@,
            GtfGffError::UnknownFeatureError(
                _,
            ) => "UnknownFeatureError: Feature must be 'exon' or 'CDS'"@,
            GtfGffError::UnknownExtensionError(
                _,
            ) => "UnknownExtensionError: Extension must be 'gtf' or 'gff'"@,
            GtfGffError::LineReadError(_) => "LineReadError: Unable to read line in"@,
            GtfGffError::FileCreateError(_) => "FileCreateError: Unable to create output file"@,
            GtfGffError::FileWriteError(_) => "FileWriteError: Unable to write line to"@,
        }
    }

    /// The offending input the error carries.
    pub open spec fn payload_spec(&self) -> Seq<u8> {
        match self {
            GtfGffError::MissingTranscriptIdError(p) => p@,
            GtfGffError::UnknownFeatureError(p) => p@,
            GtfGffError::UnknownExtensionError(p) => p@,
            GtfGffError::LineReadError(p) => p@,
            GtfGffError::FileCreateError(p) => p@,
            GtfGffError::FileWriteError(p) => p@,
        }
    }

    /// The offending input the error carries.
    pub fn payload(&self) -> (r: &Vec<u8>)
        ensures
            r@ == self.payload_spec(),
    {
        match self {
            GtfGffError::MissingTranscriptIdError(p) => p,
            GtfGffError::UnknownFeatureError(p) => p,
            GtfGffError::UnknownExtensionError(p) => p,
            GtfGffError::LineReadError(p) => p,
            GtfGffError::FileCreateError(p) => p,
            GtfGffError::FileWriteError(p) => p,
        }
    }

    /// The fixed description of the error kind; the offending input is in
    /// the variant's payload.
    pub fn message(&self) -> (r: &'static str)
        ensures
            r@ == self.message_spec(),
    {
        match self {
            GtfGffError::MissingTranscriptIdError(
                _,
            ) => "MissingTranscriptIdError: No transcript_id found in line",
            GtfGffError::UnknownFeatureError(
                _,
            ) => "UnknownFeatureError: Feature must be 'exon' or 'CDS'",
            GtfGffError::UnknownExtensionError(
                _,
            ) => "UnknownExtensionError: Extension must be 'gtf' or 'gff'",
            GtfGffError::LineReadError(_) => "LineReadError: Unable to read line in",
            GtfGffError::FileCreateError(_) => "FileCreateError: Unable to create output file",
            GtfGffError::FileWriteError(_) => "FileWriteError: Unable to write line to",
        }
    }
}

} // verus!
