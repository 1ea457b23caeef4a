//! Tests for cross-sample grouping and label assignment.

use tuni::boundary::BoundarySet;
use tuni::gtf_gff::{read_gtf_gff, TranscriptSignature};
use tuni::unify::{unified_id, SampleTranscriptId, TranscriptUnifier};

fn b(s: &str) -> Vec<u8> {
    s.as_bytes().to_vec()
}

fn key(sample: &str, transcript_id: &str) -> SampleTranscriptId {
    SampleTranscriptId { sample: b(sample), transcript_id: b(transcript_id) }
}

fn boundary_set(values: &[&str]) -> BoundarySet {
    let mut set = BoundarySet::new();
    for v in values {
        set.insert(b(v));
    }
    set
}

fn sample_1_lines() -> Vec<Vec<u8>> {
    vec![
        b("chr1\tRefSeq\texon\t1\t2\t.\t-\t.\ttranscript_id \"A\";"),
        b("chr1\tRefSeq\texon\t11\t12\t.\t-\t.\ttranscript_id \"A\";"),
        b("chr2\tRefSeq\texon\t20\t30\t.\t+\t.\ttranscript_id \"B\";"),
        b("chr2\tRefSeq\tCDS\t25\t29\t.\t+\t.\ttranscript_id \"B\";"),
    ]
}

// Sample 2 is an unsorted file, ensuring unification works regardless of
// input order. "A_2" has the same signature as sample 1's "A"; "C" shares
// "B"'s exons but has different CDS boundaries.
fn sample_2_lines() -> Vec<Vec<u8>> {
    vec![
        b("chr2\tRefSeq\texon\t20\t30\t.\t+\t.\ttranscript_id \"C\";"),
        b("chr1\tRefSeq\texon\t11\t12\t.\t-\t.\ttranscript_id \"A_2\";"),
        b("chr2\tRefSeq\tCDS\t26\t28\t.\t+\t.\ttranscript_id \"C\";"),
        b("chr1\tRefSeq\texon\t1\t2\t.\t-\t.\ttranscript_id \"A_2\";"),
    ]
}

fn keys_of(group: &[SampleTranscriptId]) -> Vec<(Vec<u8>, Vec<u8>)> {
    let mut pairs: Vec<(Vec<u8>, Vec<u8>)> = group
        .iter()
        .map(|k| (k.sample.clone(), k.transcript_id.clone()))
        .collect();
    pairs.sort();
    pairs
}

#[test]
fn test_transcript_unifier() {
    let mut transcript_unifier = TranscriptUnifier::new();

    let samples = [("sample_1.gtf", sample_1_lines()), ("sample_2.gtf", sample_2_lines())];
    for (name, lines) in &samples {
        let mut transcripts = read_gtf_gff(lines).unwrap();
        transcript_unifier.group_transcripts(b(name), &mut transcripts);
        assert_eq!(transcripts.len(), 0);
    }

    assert_eq!(transcript_unifier.group_count(), 3);

    let sig_a = TranscriptSignature::from(
        b("chr1"),
        b("-"),
        boundary_set(&["1", "11", "12", "2"]),
        boundary_set(&[]),
    );
    let group_a = transcript_unifier.get_group(&sig_a).unwrap();
    assert_eq!(
        keys_of(group_a),
        vec![
            (b("sample_1.gtf"), b("transcript_id \"A\"")),
            (b("sample_2.gtf"), b("transcript_id \"A_2\"")),
        ]
    );

    let sig_b = TranscriptSignature::from(
        b("chr2"),
        b("+"),
        boundary_set(&["20", "30"]),
        boundary_set(&["25", "29"]),
    );
    let group_b = transcript_unifier.get_group(&sig_b).unwrap();
    assert_eq!(
        keys_of(group_b),
        vec![(b("sample_1.gtf"), b("transcript_id \"B\""))]
    );

    let sig_c = TranscriptSignature::from(
        b("chr2"),
        b("+"),
        boundary_set(&["20", "30"]),
        boundary_set(&["26", "28"]),
    );
    let group_c = transcript_unifier.get_group(&sig_c).unwrap();
    assert_eq!(
        keys_of(group_c),
        vec![(b("sample_2.gtf"), b("transcript_id \"C\""))]
    );

    transcript_unifier.unify_transcripts();

    assert_eq!(
        transcript_unifier.get_unified_id(&key("sample_1.gtf", "transcript_id \"A\"")),
        Some(&b("tuni_0"))
    );
    assert_eq!(
        transcript_unifier.get_unified_id(&key("sample_1.gtf", "transcript_id \"B\"")),
        Some(&b("tuni_1"))
    );
    assert_eq!(
        transcript_unifier.get_unified_id(&key("sample_2.gtf", "transcript_id \"A_2\"")),
        Some(&b("tuni_0"))
    );
    assert_eq!(
        transcript_unifier.get_unified_id(&key("sample_2.gtf", "transcript_id \"C\"")),
        Some(&b("tuni_2"))
    );

    // Same signature, same label; any field different, different label.
    let a = transcript_unifier
        .get_unified_id(&key("sample_1.gtf", "transcript_id \"A\""))
        .unwrap();
    let a_2 = transcript_unifier
        .get_unified_id(&key("sample_2.gtf", "transcript_id \"A_2\""))
        .unwrap();
    let bb = transcript_unifier
        .get_unified_id(&key("sample_1.gtf", "transcript_id \"B\""))
        .unwrap();
    let c = transcript_unifier
        .get_unified_id(&key("sample_2.gtf", "transcript_id \"C\""))
        .unwrap();
    assert_eq!(a, a_2);
    assert_ne!(bb, c);
    assert_ne!(a, bb);

    // A pair that was never grouped stays unresolved.
    assert_eq!(
        transcript_unifier.get_unified_id(&key("sample_1.gtf", "transcript_id \"missing\"")),
        None
    );
}

#[test]
fn test_unified_id_format() {
    assert_eq!(unified_id(0), b("tuni_0"));
    assert_eq!(unified_id(7), b("tuni_7"));
    assert_eq!(unified_id(10), b("tuni_10"));
    assert_eq!(unified_id(12345), b("tuni_12345"));
}

#[test]
fn test_labels_follow_signature_order_not_arrival_order() {
    // Process the samples in the opposite order: labels stay the same,
    // because ranks come from the signature order, not arrival order.
    let mut transcript_unifier = TranscriptUnifier::new();
    let samples = [("sample_2.gtf", sample_2_lines()), ("sample_1.gtf", sample_1_lines())];
    for (name, lines) in &samples {
        let mut transcripts = read_gtf_gff(lines).unwrap();
        transcript_unifier.group_transcripts(b(name), &mut transcripts);
    }
    transcript_unifier.unify_transcripts();
    assert_eq!(
        transcript_unifier.get_unified_id(&key("sample_1.gtf", "transcript_id \"A\"")),
        Some(&b("tuni_0"))
    );
    assert_eq!(
        transcript_unifier.get_unified_id(&key("sample_1.gtf", "transcript_id \"B\"")),
        Some(&b("tuni_1"))
    );
    assert_eq!(
        transcript_unifier.get_unified_id(&key("sample_2.gtf", "transcript_id \"A_2\"")),
        Some(&b("tuni_0"))
    );
    assert_eq!(
        transcript_unifier.get_unified_id(&key("sample_2.gtf", "transcript_id \"C\"")),
        Some(&b("tuni_2"))
    );
}
