//! Tests for record extraction, signatures, and per-file accumulation.

use tuni::boundary::BoundarySet;
use tuni::gtf_gff::{read_gtf_gff, GtfGffRecord, TranscriptSignature};
use tuni::text::split;

fn b(s: &str) -> Vec<u8> {
    s.as_bytes().to_vec()
}

fn fields(line: &str) -> Vec<Vec<u8>> {
    split(&b(line), b'\t')
}

fn sample_1_lines() -> Vec<Vec<u8>> {
    vec![
        b("# sample_1"),
        b("chr1\tRefSeq\ttranscript\t1\t12\t.\t-\t.\ttranscript_id \"A\";"),
        b("chr1\tRefSeq\texon\t1\t2\t.\t-\t.\ttranscript_id \"A\";"),
        b("chr1\tRefSeq\texon\t11\t12\t.\t-\t.\ttranscript_id \"A\";"),
        b("chr2\tRefSeq\texon\t20\t30\t.\t+\t.\ttranscript_id \"B\";"),
        b("chr2\tRefSeq\tCDS\t25\t29\t.\t+\t.\ttranscript_id \"B\";"),
    ]
}

#[test]
fn test_gtfrecord_from() {
    let line_split = fields("chr1\tRefSeq\texon\t1\t2\t.\t+\t.\ttranscript_id \"A\";");
    let record = GtfGffRecord::from(&line_split).unwrap();
    assert_eq!(record.feature, b("exon"));
    assert_eq!(record.strand, b("+"));
    assert_eq!(record.chr, b("chr1"));
    assert_eq!(record.start, b("1"));
    assert_eq!(record.end, b("2"));
    assert_eq!(record.transcript_id, b("transcript_id \"A\""));

    // No transcript_id field.
    let line_split = fields("chr1\tRefSeq\tgene\t1\t2\t.\t+\t.\tgene_id \"A\";");
    let err = GtfGffRecord::from(&line_split).unwrap_err();
    assert!(err.message().contains("No transcript_id found in line"));
}

#[test]
fn test_gtf_gff_record_from() {
    let line_split = fields("chr1\tRefSeq\texon\t1\t2\t.\t+\t.\ttranscript_id \"A\";");
    let record = GtfGffRecord::from(&line_split).unwrap();
    assert_eq!(record.feature, b("exon"));
    assert_eq!(record.strand, b("+"));
    assert_eq!(record.chr, b("chr1"));
    assert_eq!(record.start, b("1"));
    assert_eq!(record.end, b("2"));
    assert_eq!(record.transcript_id, b("transcript_id \"A\""));

    let line_split = fields("chr1\tRefSeq\tgene\t1\t2\t.\t+\t.\tgene_id \"A\";");
    let err = GtfGffRecord::from(&line_split).unwrap_err();
    assert!(err.message().contains("No transcript_id found in line"));
}

#[test]
fn test_is_exon_or_cds() {
    let exon = fields("chr1\tRefSeq\texon\t1\t2\t.\t+\t.\ttranscript_id \"A\";");
    assert!(GtfGffRecord::is_exon_or_cds(&exon));
    let cds = fields("chr1\tRefSeq\tCDS\t1\t2\t.\t+\t.\ttranscript_id \"A\";");
    assert!(GtfGffRecord::is_exon_or_cds(&cds));
    let transcript = fields("chr1\tRefSeq\ttranscript\t1\t2\t.\t+\t.\ttranscript_id \"A\"");
    assert!(!GtfGffRecord::is_exon_or_cds(&transcript));
}

#[test]
fn test_get_transcript_id() {
    let exon = fields("chr1\tRefSeq\texon\t1\t2\t.\t+\t.\ttranscript_id \"A\";");
    assert_eq!(
        GtfGffRecord::get_transcript_id(&exon),
        Some(b("transcript_id \"A\""))
    );
    let transcript = fields("chr1\tRefSeq\ttranscript\t1\t2\t.\t+\t.\ttranscript_id \"B\";");
    assert_eq!(
        GtfGffRecord::get_transcript_id(&transcript),
        Some(b("transcript_id \"B\""))
    );
    let gene = fields("chr1\tRefSeq\tgene\t1\t2\t.\t+\t.\tgene_id \"A\";");
    assert_eq!(GtfGffRecord::get_transcript_id(&gene), None);
}

#[test]
fn gtf_test_transcript_signature() {
    let mut transcript_signature = TranscriptSignature::from(
        b("chr1"),
        b("+"),
        BoundarySet::new(),
        BoundarySet::new(),
    );

    transcript_signature
        .insert_boundary(&b("exon"), b("1"))
        .unwrap();
    transcript_signature
        .insert_boundary(&b("CDS"), b("2"))
        .unwrap();

    assert_eq!(transcript_signature.exon_boundaries.items(), &vec![b("1")]);
    assert_eq!(transcript_signature.cds_boundaries.items(), &vec![b("2")]);
    let err = transcript_signature
        .insert_boundary(&b("not_a_feature"), b("1"))
        .unwrap_err();
    assert!(err.message().contains("Feature must be 'exon' or 'CDS'"));
}

#[test]
fn gtf_gff_test_transcript_signature() {
    let mut transcript_signature = TranscriptSignature::from(
        b("chr1"),
        b("+"),
        BoundarySet::new(),
        BoundarySet::new(),
    );

    transcript_signature
        .insert_boundary(&b("exon"), b("1"))
        .unwrap();
    transcript_signature
        .insert_boundary(&b("CDS"), b("2"))
        .unwrap();

    assert_eq!(transcript_signature.exon_boundaries.items(), &vec![b("1")]);
    assert_eq!(transcript_signature.cds_boundaries.items(), &vec![b("2")]);
    let err = transcript_signature
        .insert_boundary(&b("not_a_feature"), b("1"))
        .unwrap_err();
    assert!(err.message().contains("Feature must be 'exon' or 'CDS'"));
}

#[test]
fn test_insert_boundary_idempotent() {
    let mut once = TranscriptSignature::from(b("chr1"), b("+"), BoundarySet::new(), BoundarySet::new());
    once.insert_boundary(&b("exon"), b("10")).unwrap();
    let mut twice = TranscriptSignature::from(b("chr1"), b("+"), BoundarySet::new(), BoundarySet::new());
    twice.insert_boundary(&b("exon"), b("10")).unwrap();
    twice.insert_boundary(&b("exon"), b("10")).unwrap();
    assert_eq!(once.exon_boundaries.items(), twice.exon_boundaries.items());
    assert_eq!(once.cds_boundaries.items(), twice.cds_boundaries.items());
}

#[test]
fn test_read_gtf() {
    let transcripts = read_gtf_gff(&sample_1_lines()).unwrap();
    assert_eq!(transcripts.len(), 2);

    let a = transcripts.get(&b("transcript_id \"A\"")).unwrap();
    assert_eq!(a.chr, b("chr1"));
    assert_eq!(a.strand, b("-"));
    assert_eq!(
        a.exon_boundaries.items(),
        &vec![b("1"), b("11"), b("12"), b("2")]
    );
    assert_eq!(a.cds_boundaries.items(), &Vec::<Vec<u8>>::new());

    let bb = transcripts.get(&b("transcript_id \"B\"")).unwrap();
    assert_eq!(bb.chr, b("chr2"));
    assert_eq!(bb.strand, b("+"));
    assert_eq!(bb.exon_boundaries.items(), &vec![b("20"), b("30")]);
    assert_eq!(bb.cds_boundaries.items(), &vec![b("25"), b("29")]);
}

#[test]
fn test_read_gtf_gff() {
    let transcripts = read_gtf_gff(&sample_1_lines()).unwrap();
    assert_eq!(transcripts.len(), 2);

    let a = transcripts.get(&b("transcript_id \"A\"")).unwrap();
    assert_eq!(a.chr, b("chr1"));
    assert_eq!(a.strand, b("-"));
    assert_eq!(
        a.exon_boundaries.items(),
        &vec![b("1"), b("11"), b("12"), b("2")]
    );
    assert_eq!(a.cds_boundaries.items(), &Vec::<Vec<u8>>::new());

    let bb = transcripts.get(&b("transcript_id \"B\"")).unwrap();
    assert_eq!(bb.chr, b("chr2"));
    assert_eq!(bb.strand, b("+"));
    assert_eq!(bb.exon_boundaries.items(), &vec![b("20"), b("30")]);
    assert_eq!(bb.cds_boundaries.items(), &vec![b("25"), b("29")]);
}

#[test]
fn test_read_gtf_gff_missing_id() {
    // A qualifying line without a transcript_id attribute is fatal.
    let lines = vec![b("chr1\tRefSeq\texon\t1\t2\t.\t+\t.\tgene_id \"A\";")];
    let err = read_gtf_gff(&lines).unwrap_err();
    assert!(err.message().contains("No transcript_id found in line"));
}

#[test]
fn test_accumulation_order_independent() {
    // The same qualifying lines, in two different orders, build the same
    // per-transcript signatures.
    let forward = vec![
        b("chr1\tRefSeq\texon\t1\t2\t.\t-\t.\ttranscript_id \"A\";"),
        b("chr1\tRefSeq\texon\t11\t12\t.\t-\t.\ttranscript_id \"A\";"),
        b("chr2\tRefSeq\texon\t20\t30\t.\t+\t.\ttranscript_id \"B\";"),
        b("chr2\tRefSeq\tCDS\t25\t29\t.\t+\t.\ttranscript_id \"B\";"),
    ];
    let shuffled = vec![
        b("chr2\tRefSeq\tCDS\t25\t29\t.\t+\t.\ttranscript_id \"B\";"),
        b("chr1\tRefSeq\texon\t11\t12\t.\t-\t.\ttranscript_id \"A\";"),
        b("chr2\tRefSeq\texon\t20\t30\t.\t+\t.\ttranscript_id \"B\";"),
        b("chr1\tRefSeq\texon\t1\t2\t.\t-\t.\ttranscript_id \"A\";"),
    ];
    let m1 = read_gtf_gff(&forward).unwrap();
    let m2 = read_gtf_gff(&shuffled).unwrap();
    assert_eq!(m1.len(), m2.len());
    for id in [b("transcript_id \"A\""), b("transcript_id \"B\"")] {
        let s1 = m1.get(&id).unwrap();
        let s2 = m2.get(&id).unwrap();
        assert_eq!(s1.chr, s2.chr);
        assert_eq!(s1.strand, s2.strand);
        assert_eq!(s1.exon_boundaries.items(), s2.exon_boundaries.items());
        assert_eq!(s1.cds_boundaries.items(), s2.cds_boundaries.items());
    }
}
