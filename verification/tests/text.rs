//! Tests for the byte-string helpers: splitting, joining, and the
//! lexicographic order that lays out boundary sets.

use tuni::boundary::BoundarySet;
use tuni::text::{join, split};

fn b(s: &str) -> Vec<u8> {
    s.as_bytes().to_vec()
}

#[test]
fn test_split_fields() {
    assert_eq!(
        split(&b("a\tbb\t\tc"), b'\t'),
        vec![b("a"), b("bb"), b(""), b("c")]
    );
    // Splitting the empty string gives one empty field, as Rust's split
    // does.
    assert_eq!(split(&b(""), b'\t'), vec![b("")]);
    assert_eq!(split(&b("\t"), b'\t'), vec![b(""), b("")]);
}

#[test]
fn test_join_inverts_split() {
    let line = b("chr1\tRefSeq\texon\t1\t2\t.\t+\t.\ttranscript_id \"A\";");
    assert_eq!(join(&split(&line, b'\t'), b'\t'), line);
    assert_eq!(join(&Vec::new(), b'\t'), b(""));
}

#[test]
fn test_boundary_set_is_sorted_and_deduplicated() {
    let mut set = BoundarySet::new();
    for v in ["2", "11", "1", "12", "11"] {
        set.insert(b(v));
    }
    // Lexicographic order on the textual coordinates, duplicates kept
    // once.
    assert_eq!(set.items(), &vec![b("1"), b("11"), b("12"), b("2")]);
    assert_eq!(set.len(), 4);
    assert!(set.contains(&b("11")));
    assert!(!set.contains(&b("3")));
}
