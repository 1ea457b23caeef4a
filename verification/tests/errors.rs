//! Tests for the error descriptions.

use tuni::error::{CliError, GtfGffError};

fn b(s: &str) -> Vec<u8> {
    s.as_bytes().to_vec()
}

#[test]
fn test_cli_error_messages() {
    assert!(CliError::FileReadError(b("x.txt")).message().contains("Unable to read file"));
    assert!(CliError::FileEmptyError(b("x.txt")).message().contains("is empty"));
    assert!(CliError::GtfGffParseError(b("x.gtf")).message().contains(
        "GTF/GFFs must be readable and all have the same extension"
    ));
    assert!(CliError::NotADirectoryError(b("/out")).message().contains(
        "output_dir must be an existing directory"
    ));
}

#[test]
fn test_gtf_gff_error_messages() {
    assert!(GtfGffError::MissingTranscriptIdError(b("line")).message().contains(
        "No transcript_id found in line"
    ));
    assert!(GtfGffError::UnknownFeatureError(b("gene")).message().contains(
        "Feature must be 'exon' or 'CDS'"
    ));
    assert!(GtfGffError::UnknownExtensionError(b("txt")).message().contains(
        "Extension must be 'gtf' or 'gff'"
    ));
    assert!(GtfGffError::LineReadError(b("a.gtf")).message().contains("Unable to read line"));
    assert!(GtfGffError::FileCreateError(b("a.gtf")).message().contains(
        "Unable to create output file"
    ));
    assert!(GtfGffError::FileWriteError(b("a.gtf")).message().contains("Unable to write line"));
}
