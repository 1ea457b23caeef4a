//! Tests for the rewrite pass and the whole run.

use tuni::gtf_gff::{extract_file_name, read_gtf_gff, write_unified_gtf_gff, TuniIdFormatter};
use tuni::unify::TranscriptUnifier;
use tuni::{run, GtfGffFile};

fn b(s: &str) -> Vec<u8> {
    s.as_bytes().to_vec()
}

fn sample_1_lines() -> Vec<Vec<u8>> {
    vec![
        b("# sample_1"),
        b("chr1\tRefSeq\ttranscript\t1\t12\t.\t-\t.\ttranscript_id \"A\";"),
        b("chr1\tRefSeq\texon\t1\t2\t.\t-\t.\ttranscript_id \"A\";"),
        b("chr1\tRefSeq\texon\t11\t12\t.\t-\t.\ttranscript_id \"A\";"),
        b("chr2\tRefSeq\texon\t20\t30\t.\t+\t.\ttranscript_id \"B\";"),
        b("chr2\tRefSeq\tCDS\t25\t29\t.\t+\t.\ttranscript_id \"B\";"),
    ]
}

fn sample_2_lines() -> Vec<Vec<u8>> {
    vec![
        b("chr2\tRefSeq\texon\t20\t30\t.\t+\t.\ttranscript_id \"C\";"),
        b("chr1\tRefSeq\texon\t11\t12\t.\t-\t.\ttranscript_id \"A_2\";"),
        b("chr2\tRefSeq\tCDS\t26\t28\t.\t+\t.\ttranscript_id \"C\";"),
        b("chr1\tRefSeq\texon\t1\t2\t.\t-\t.\ttranscript_id \"A_2\";"),
    ]
}

fn expected_sample_1_tuni_gtf() -> Vec<Vec<u8>> {
    vec![
        b("# sample_1"),
        b("chr1\tRefSeq\ttranscript\t1\t12\t.\t-\t.\ttranscript_id \"A\"; tuni_id \"tuni_0\";"),
        b("chr1\tRefSeq\texon\t1\t2\t.\t-\t.\ttranscript_id \"A\"; tuni_id \"tuni_0\";"),
        b("chr1\tRefSeq\texon\t11\t12\t.\t-\t.\ttranscript_id \"A\"; tuni_id \"tuni_0\";"),
        b("chr2\tRefSeq\texon\t20\t30\t.\t+\t.\ttranscript_id \"B\"; tuni_id \"tuni_1\";"),
        b("chr2\tRefSeq\tCDS\t25\t29\t.\t+\t.\ttranscript_id \"B\"; tuni_id \"tuni_1\";"),
    ]
}

#[test]
fn test_extract_file_name() {
    assert_eq!(extract_file_name(&b("/path/to/a.gtf")), b("a.gtf"));
    assert_eq!(extract_file_name(&b("a.gtf")), b("a.gtf"));
}

#[test]
fn test_tuni_id_formatter() {
    let gtf = TuniIdFormatter::from(&b("gtf")).unwrap();
    assert_eq!(gtf.format(&b("tuni_3")), b(" tuni_id \"tuni_3\";"));
    let gff = TuniIdFormatter::from(&b("gff")).unwrap();
    assert_eq!(gff.format(&b("tuni_3")), b(" tuni_id=tuni_3;"));
    let err = TuniIdFormatter::from(&b("txt")).unwrap_err();
    assert!(err.message().contains("Extension must be 'gtf' or 'gff'"));
}

#[test]
fn test_write_unified_gtf() {
    let lines = sample_1_lines();
    let mut transcripts = read_gtf_gff(&lines).unwrap();
    let mut transcript_unifier = TranscriptUnifier::new();
    transcript_unifier.group_transcripts(b("sample_1.gtf"), &mut transcripts);
    transcript_unifier.unify_transcripts();

    let out = write_unified_gtf_gff(&b("gtf"), &lines, &b("sample_1.gtf"), &transcript_unifier)
        .unwrap();
    assert_eq!(out.lines, expected_sample_1_tuni_gtf());
    assert_eq!(out.unresolved, Vec::<Vec<u8>>::new());
}

#[test]
fn gtf_gff_test_write_unified_gtf() {
    let lines = sample_1_lines();
    let mut transcripts = read_gtf_gff(&lines).unwrap();
    let mut transcript_unifier = TranscriptUnifier::new();
    transcript_unifier.group_transcripts(b("sample_1.gtf"), &mut transcripts);
    transcript_unifier.unify_transcripts();

    // GFF dialect: same content, key=value attribute syntax.
    let out = write_unified_gtf_gff(&b("gff"), &lines, &b("sample_1.gtf"), &transcript_unifier)
        .unwrap();
    assert_eq!(
        out.lines[2],
        b("chr1\tRefSeq\texon\t1\t2\t.\t-\t.\ttranscript_id \"A\"; tuni_id=tuni_0;")
    );
    assert_eq!(out.lines[0], b("# sample_1"));

    let err =
        write_unified_gtf_gff(&b("txt"), &lines, &b("sample_1.gtf"), &transcript_unifier)
            .unwrap_err();
    assert!(err.message().contains("Extension must be 'gtf' or 'gff'"));
}

#[test]
fn test_run_two_samples() {
    let files = vec![
        GtfGffFile { gtf_gff_path: b("/data/sample_1.gtf"), lines: sample_1_lines() },
        GtfGffFile { gtf_gff_path: b("/data/sample_2.gtf"), lines: sample_2_lines() },
    ];
    let outs = run(&b("gtf"), &files).unwrap();
    assert_eq!(outs.len(), 2);
    assert_eq!(outs[0].lines, expected_sample_1_tuni_gtf());
    assert_eq!(
        outs[1].lines,
        vec![
            b("chr2\tRefSeq\texon\t20\t30\t.\t+\t.\ttranscript_id \"C\"; tuni_id \"tuni_2\";"),
            b("chr1\tRefSeq\texon\t11\t12\t.\t-\t.\ttranscript_id \"A_2\"; tuni_id \"tuni_0\";"),
            b("chr2\tRefSeq\tCDS\t26\t28\t.\t+\t.\ttranscript_id \"C\"; tuni_id \"tuni_2\";"),
            b("chr1\tRefSeq\texon\t1\t2\t.\t-\t.\ttranscript_id \"A_2\"; tuni_id \"tuni_0\";"),
        ]
    );
    assert_eq!(outs[0].unresolved, Vec::<Vec<u8>>::new());
    assert_eq!(outs[1].unresolved, Vec::<Vec<u8>>::new());
}

#[test]
fn test_run_deterministic() {
    // Two runs over the same ordered list of input files produce
    // identical label assignments and identical outputs.
    let files = vec![
        GtfGffFile { gtf_gff_path: b("/data/sample_1.gtf"), lines: sample_1_lines() },
        GtfGffFile { gtf_gff_path: b("/data/sample_2.gtf"), lines: sample_2_lines() },
    ];
    let first = run(&b("gtf"), &files).unwrap();
    let second = run(&b("gtf"), &files).unwrap();
    assert_eq!(first.len(), second.len());
    for (a, bb) in first.iter().zip(second.iter()) {
        assert_eq!(a.lines, bb.lines);
        assert_eq!(a.unresolved, bb.unresolved);
    }
}

#[test]
fn test_run_unresolved_identifier_warns_and_succeeds() {
    // A non-exon/CDS line carries an identifier never seen among
    // exon/CDS lines: the line passes through unchanged, its identifier
    // is reported for a warning, and the run still succeeds.
    let lines = vec![
        b("chr1\tRefSeq\ttranscript\t1\t12\t.\t-\t.\ttranscript_id \"ghost\";"),
        b("chr1\tRefSeq\texon\t1\t2\t.\t-\t.\ttranscript_id \"A\";"),
    ];
    let files = vec![GtfGffFile { gtf_gff_path: b("/data/sample_1.gtf"), lines: lines.clone() }];
    let outs = run(&b("gtf"), &files).unwrap();
    assert_eq!(outs[0].lines[0], lines[0]);
    assert_eq!(
        outs[0].lines[1],
        b("chr1\tRefSeq\texon\t1\t2\t.\t-\t.\ttranscript_id \"A\"; tuni_id \"tuni_0\";")
    );
    assert_eq!(outs[0].unresolved, vec![b("transcript_id \"ghost\"")]);
}

#[test]
fn test_run_unknown_extension() {
    let files = vec![GtfGffFile { gtf_gff_path: b("/data/sample_1.txt"), lines: sample_1_lines() }];
    let err = run(&b("txt"), &files).unwrap_err();
    assert!(err.message().contains("Extension must be 'gtf' or 'gff'"));
}

#[test]
fn test_run_missing_transcript_id_is_fatal() {
    let files = vec![GtfGffFile {
        gtf_gff_path: b("/data/sample_1.gtf"),
        lines: vec![b("chr1\tRefSeq\texon\t1\t2\t.\t+\t.\tgene_id \"A\";")],
    }];
    let err = run(&b("gtf"), &files).unwrap_err();
    assert!(err.message().contains("No transcript_id found in line"));
}

#[test]
fn test_run_no_files() {
    let outs = run(&b("gtf"), &Vec::new()).unwrap();
    assert_eq!(outs.len(), 0);
}
