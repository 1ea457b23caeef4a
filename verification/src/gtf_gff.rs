//! Annotation records and transcript signatures.
//!
//! A line of an annotation file is split on tabs into nine fields; its
//! third field is the feature kind and its ninth holds the attributes. A
//! transcript's structural identity — its signature — is its chromosome,
//! strand, exon boundary set and CDS boundary set: transcripts are the
//! same exactly when all four agree.

use vstd::prelude::*;

use crate::boundary::BoundarySet;
use crate::bytes::{
    byte_seqs_cmp, bytes_cmp, bytes_eq, deep, lemma_lex_lt_asymmetric, lemma_lex_lt_irreflexive,
    lemma_lex_lt_transitive, lemma_lex_seq_lt_asymmetric, lemma_lex_seq_lt_irreflexive,
    lemma_lex_seq_lt_transitive, lex_lt, lex_seq_lt, Comparison,
};
use crate::error::GtfGffError;
use crate::text::{
    has_prefix_from, join, join_spec, split, split_spec, starts_with, trim_start_index,
    trim_start_spec,
};

verus! {

/// The feature kind "exon".
pub open spec fn exon_bytes() -> Seq<u8> {
    seq!['e' as u8, 'x' as u8, 'o' as u8, 'n' as u8]
}

/// The feature kind "CDS".
pub open spec fn cds_bytes() -> Seq<u8> {
    seq!['C' as u8, 'D' as u8, 'S' as u8]
}

/// The attribute name "transcript_id".
pub open spec fn transcript_id_bytes() -> Seq<u8> {
    seq![
        't' as u8,
        'r' as u8,
        'a' as u8,
        'n' as u8,
        's' as u8,
        'c' as u8,
        'r' as u8,
        'i' as u8,
        'p' as u8,
        't' as u8,
        '_' as u8,
        'i' as u8,
        'd' as u8,
    ]
}

/// The feature kind "exon" as a byte string.
pub fn exon_vec() -> (r: Vec<u8>)
    ensures
        r@ == exon_bytes(),
{
    let mut v: Vec<u8> = Vec::new();
    v.push('e' as u8);
    v.push('x' as u8);
    v.push('o' as u8);
    v.push('n' as u8);
    proof {
        assert(v@ =~= exon_bytes());
    }
    v
}

/// The feature kind "CDS" as a byte string.
pub fn cds_vec() -> (r: Vec<u8>)
    ensures
        r@ == cds_bytes(),
{
    let mut v: Vec<u8> = Vec::new();
    v.push('C' as u8);
    v.push('D' as u8);
    v.push('S' as u8);
    proof {
        assert(v@ =~= cds_bytes());
    }
    v
}

/// The attribute name "transcript_id" as a byte string.
pub fn transcript_id_vec() -> (r: Vec<u8>)
    ensures
        r@ == transcript_id_bytes(),
{
    let mut v: Vec<u8> = Vec::new();
    v.push('t' as u8);
    v.push('r' as u8);
    v.push('a' as u8);
    v.push('n' as u8);
    v.push('s' as u8);
    v.push('c' as u8);
    v.push('r' as u8);
    v.push('i' as u8);
    v.push('p' as u8);
    v.push('t' as u8);
    v.push('_' as u8);
    v.push('i' as u8);
    v.push('d' as u8);
    proof {
        assert(v@ =~= transcript_id_bytes());
    }
    v
}

/// A comment line: it begins with '#'.
pub open spec fn is_comment(line: Seq<u8>) -> bool {
    line.len() > 0 && line[0] == '#' as u8
}

/// The tab-separated fields of a line.
pub open spec fn line_fields(line: Seq<u8>) -> Seq<Seq<u8>> {
    split_spec(line, '\t' as u8)
}

/// An attribute whose text, after leading whitespace, begins with
/// "transcript_id".
pub open spec fn is_transcript_id_attr(attr: Seq<u8>) -> bool {
    starts_with(trim_start_spec(attr), transcript_id_bytes())
}

/// The first transcript-identifier attribute among `attrs`, kept as the
/// full attribute substring, not just its value.
pub open spec fn find_transcript_id_spec(attrs: Seq<Seq<u8>>) -> Option<Seq<u8>>
    decreases attrs.len(),
{
    if attrs.len() == 0 {
        Option::None
    } else if is_transcript_id_attr(attrs[0]) {
        Option::Some(attrs[0])
    } else {
        find_transcript_id_spec(attrs.drop_first())
    }
}

/// The transcript identifier of a line with fields `fields`: the first
/// ';'-separated substring of the attributes field that, trimmed, begins
/// with "transcript_id".
pub open spec fn get_transcript_id_spec(fields: Seq<Seq<u8>>) -> Option<Seq<u8>>
    recommends
        fields.len() >= 9,
{
    find_transcript_id_spec(split_spec(fields[8], ';' as u8))
}

/// A line whose feature field is exactly "exon" or "CDS".
pub open spec fn is_exon_or_cds_spec(fields: Seq<Seq<u8>>) -> bool {
    fields.len() > 2 && (fields[2] == exon_bytes() || fields[2] == cds_bytes())
}

/// The structural identity of a transcript, as mathematical values.
#[verifier::ext_equal]
pub ghost struct TranscriptSignatureView {
    pub chr: Seq<u8>,
    pub strand: Seq<u8>,
    pub exon_boundaries: Set<Seq<u8>>,
    pub cds_boundaries: Set<Seq<u8>>,
}

/// Contains all details needed to identify a unique transcript.
///
/// If any field differs between two `TranscriptSignature`s, they represent
/// distinct transcripts. Both exon AND CDS boundaries are kept, to
/// distinguish transcripts that share coding regions but differ in UTRs
/// from transcripts that share UTRs but differ in coding regions.
#[derive(Debug)]
pub struct TranscriptSignature {
    /// Chromosome.
    pub chr: Vec<u8>,
    /// Strand.
    pub strand: Vec<u8>,
    /// The start and end coordinates of every exon in the transcript.
    pub exon_boundaries: BoundarySet,
    /// The start and end coordinates of every CDS region in the transcript.
    pub cds_boundaries: BoundarySet,
}

impl View for TranscriptSignature {
    type V = TranscriptSignatureView;

    open spec fn view(&self) -> TranscriptSignatureView {
        TranscriptSignatureView {
            chr: self.chr@,
            strand: self.strand@,
            exon_boundaries: self.exon_boundaries@,
            cds_boundaries: self.cds_boundaries@,
        }
    }
}

/// A signature view whose boundary sets have canonical layouts. The view
/// of every well-formed `TranscriptSignature` is such a view.
pub open spec fn sig_view_wf(s: TranscriptSignatureView) -> bool {
    crate::bytes::canonical_set(s.exon_boundaries) && crate::bytes::canonical_set(
        s.cds_boundaries,
    )
}

/// Total order on signature views: by chromosome, then strand, then the
/// canonically sorted exon boundaries, then the canonically sorted CDS
/// boundaries. The order depends only on the view, never on construction
/// order.
pub open spec fn sig_view_lt(a: TranscriptSignatureView, b: TranscriptSignatureView) -> bool {
    if a.chr != b.chr {
        lex_lt(a.chr, b.chr)
    } else if a.strand != b.strand {
        lex_lt(a.strand, b.strand)
    } else if a.exon_boundaries != b.exon_boundaries {
        lex_seq_lt(
            crate::bytes::canon_of(a.exon_boundaries),
            crate::bytes::canon_of(b.exon_boundaries),
        )
    } else {
        lex_seq_lt(
            crate::bytes::canon_of(a.cds_boundaries),
            crate::bytes::canon_of(b.cds_boundaries),
        )
    }
}

pub proof fn lemma_sig_view_lt_irreflexive(a: TranscriptSignatureView)
    ensures
        !sig_view_lt(a, a),
{
    lemma_lex_seq_lt_irreflexive(crate::bytes::canon_of(a.cds_boundaries));
}

/// Any two well-formed signature views are comparable: one is smaller, or
/// they are equal.
pub proof fn lemma_sig_view_lt_connected(a: TranscriptSignatureView, b: TranscriptSignatureView)
    requires
        sig_view_wf(a),
        sig_view_wf(b),
    ensures
        sig_view_lt(a, b) || sig_view_lt(b, a) || a == b,
{
    crate::bytes::lemma_lex_lt_connected(a.chr, b.chr);
    crate::bytes::lemma_lex_lt_connected(a.strand, b.strand);
    crate::bytes::lemma_lex_seq_lt_connected(
        crate::bytes::canon_of(a.exon_boundaries),
        crate::bytes::canon_of(b.exon_boundaries),
    );
    crate::bytes::lemma_lex_seq_lt_connected(
        crate::bytes::canon_of(a.cds_boundaries),
        crate::bytes::canon_of(b.cds_boundaries),
    );
    if !sig_view_lt(a, b) && !sig_view_lt(b, a) {
        assert(a =~= b);
    }
}

pub proof fn lemma_sig_view_lt_asymmetric(a: TranscriptSignatureView, b: TranscriptSignatureView)
    requires
        sig_view_lt(a, b),
    ensures
        !sig_view_lt(b, a),
{
    if a.chr != b.chr {
        lemma_lex_lt_asymmetric(a.chr, b.chr);
    } else if a.strand != b.strand {
        lemma_lex_lt_asymmetric(a.strand, b.strand);
    } else if a.exon_boundaries != b.exon_boundaries {
        lemma_lex_seq_lt_asymmetric(
            crate::bytes::canon_of(a.exon_boundaries),
            crate::bytes::canon_of(b.exon_boundaries),
        );
    } else {
        lemma_lex_seq_lt_asymmetric(
            crate::bytes::canon_of(a.cds_boundaries),
            crate::bytes::canon_of(b.cds_boundaries),
        );
    }
}

pub proof fn lemma_sig_view_lt_transitive(
    a: TranscriptSignatureView,
    b: TranscriptSignatureView,
    c: TranscriptSignatureView,
)
    requires
        sig_view_lt(a, b),
        sig_view_lt(b, c),
    ensures
        sig_view_lt(a, c),
{
    if a.chr != b.chr && b.chr != c.chr {
        lemma_lex_lt_transitive(a.chr, b.chr, c.chr);
        if a.chr == c.chr {
            lemma_lex_lt_asymmetric(a.chr, b.chr);
        }
    } else if a.chr != b.chr {
        lemma_lex_lt_irreflexive(a.chr);
    } else if b.chr != c.chr {
        lemma_lex_lt_irreflexive(c.chr);
    } else {
        // Chromosomes all agree; compare strands the same way.
        if a.strand != b.strand && b.strand != c.strand {
            lemma_lex_lt_transitive(a.strand, b.strand, c.strand);
            if a.strand == c.strand {
                lemma_lex_lt_asymmetric(a.strand, b.strand);
            }
        } else if a.strand != b.strand {
            lemma_lex_lt_irreflexive(a.strand);
        } else if b.strand != c.strand {
            lemma_lex_lt_irreflexive(c.strand);
        } else {
            // Strands all agree; compare exon boundaries.
            let ae = crate::bytes::canon_of(a.exon_boundaries);
            let be = crate::bytes::canon_of(b.exon_boundaries);
            let ce = crate::bytes::canon_of(c.exon_boundaries);
            if a.exon_boundaries != b.exon_boundaries && b.exon_boundaries != c.exon_boundaries {
                lemma_lex_seq_lt_transitive(ae, be, ce);
                if a.exon_boundaries == c.exon_boundaries {
                    lemma_lex_seq_lt_asymmetric(ae, be);
                }
            } else if a.exon_boundaries != b.exon_boundaries {
                lemma_lex_seq_lt_irreflexive(ae);
            } else if b.exon_boundaries != c.exon_boundaries {
                lemma_lex_seq_lt_irreflexive(ce);
            } else {
                // Exon boundaries all agree; compare CDS boundaries.
                lemma_lex_seq_lt_transitive(
                    crate::bytes::canon_of(a.cds_boundaries),
                    crate::bytes::canon_of(b.cds_boundaries),
                    crate::bytes::canon_of(c.cds_boundaries),
                );
            }
        }
    }
}

impl TranscriptSignature {
    /// Both boundary sets are canonically ordered.
    pub open spec fn inv(&self) -> bool {
        self.exon_boundaries.inv() && self.cds_boundaries.inv()
    }

    /// Create a `TranscriptSignature`.
    pub fn from(
        chr: Vec<u8>,
        strand: Vec<u8>,
        exon_boundaries: BoundarySet,
        cds_boundaries: BoundarySet,
    ) -> (r: TranscriptSignature)
        requires
            exon_boundaries.inv(),
            cds_boundaries.inv(),
        ensures
            r.inv(),
            r@ == (TranscriptSignatureView {
                chr: chr@,
                strand: strand@,
                exon_boundaries: exon_boundaries@,
                cds_boundaries: cds_boundaries@,
            }),
    {
        TranscriptSignature { chr, strand, exon_boundaries, cds_boundaries }
    }

    /// Insert an exon/CDS boundary into the signature. Inserting a
    /// boundary already present leaves the signature unchanged.
    ///
    /// Returns `UnknownFeatureError` exactly when `feature` is neither
    /// "exon" nor "CDS"; the signature is then unchanged. Qualifying lines
    /// are filtered before boundaries are inserted, so that error marks a
    /// defect in the caller.
    pub fn insert_boundary(&mut self, feature: &Vec<u8>, value: Vec<u8>) -> (r: Result<
        (),
        GtfGffError,
    >)
        requires
            old(self).inv(),
        ensures
            final(self).inv(),
            feature@ == exon_bytes() ==> r is Ok && final(self)@ == (TranscriptSignatureView {
                exon_boundaries: old(self)@.exon_boundaries.insert(value@),
                ..old(self)@
            }),
            feature@ == cds_bytes() ==> r is Ok && final(self)@ == (TranscriptSignatureView {
                cds_boundaries: old(self)@.cds_boundaries.insert(value@),
                ..old(self)@
            }),
            feature@ != exon_bytes() && feature@ != cds_bytes() ==> {
                &&& *final(self) == *old(self)
                &&& r matches Err(GtfGffError::UnknownFeatureError(f)) && f@ == feature@
            },
    {
        let exon = exon_vec();
        let cds = cds_vec();
        if bytes_eq(feature, &exon) {
            self.exon_boundaries.insert(value);
            proof {
                assert(self@ =~= (TranscriptSignatureView {
                    exon_boundaries: old(self)@.exon_boundaries.insert(value@),
                    ..old(self)@
                }));
            }
            Ok(())
        } else if bytes_eq(feature, &cds) {
            self.cds_boundaries.insert(value);
            proof {
                assert(self@ =~= (TranscriptSignatureView {
                    cds_boundaries: old(self)@.cds_boundaries.insert(value@),
                    ..old(self)@
                }));
            }
            Ok(())
        } else {
            Err(GtfGffError::UnknownFeatureError(crate::bytes::clone_bytes(feature)))
        }
    }

    /// The view of a well-formed signature has canonical boundary sets,
    /// whose canonical layouts are exactly the stored ones.
    pub proof fn lemma_view_wf(&self)
        requires
            self.inv(),
        ensures
            sig_view_wf(self@),
            crate::bytes::canon_of(self@.exon_boundaries) == self.exon_boundaries.ordered(),
            crate::bytes::canon_of(self@.cds_boundaries) == self.cds_boundaries.ordered(),
    {
        self.exon_boundaries.lemma_canon();
        self.cds_boundaries.lemma_canon();
    }

    /// Three-way comparison in the signature order.
    pub fn cmp(&self, other: &TranscriptSignature) -> (r: Comparison)
        requires
            self.inv(),
            other.inv(),
        ensures
            r is Less <==> sig_view_lt(self@, other@),
            r is Greater <==> sig_view_lt(other@, self@),
            r is Equal <==> self@ == other@,
    {
        proof {
            self.lemma_view_wf();
            other.lemma_view_wf();
            lemma_sig_view_lt_connected(self@, other@);
            if self@ == other@ {
                lemma_sig_view_lt_irreflexive(self@);
            }
            if sig_view_lt(self@, other@) {
                lemma_sig_view_lt_asymmetric(self@, other@);
            }
            // Equal boundary layouts mean equal boundary sets, and equal
            // sets mean equal layouts.
            if self.exon_boundaries.ordered() == other.exon_boundaries.ordered() {
                assert(self@.exon_boundaries =~= other@.exon_boundaries);
            }
            if self.cds_boundaries.ordered() == other.cds_boundaries.ordered() {
                assert(self@.cds_boundaries =~= other@.cds_boundaries);
            }
        }
        match bytes_cmp(&self.chr, &other.chr) {
            Comparison::Less => Comparison::Less,
            Comparison::Greater => Comparison::Greater,
            Comparison::Equal => match bytes_cmp(&self.strand, &other.strand) {
                Comparison::Less => Comparison::Less,
                Comparison::Greater => Comparison::Greater,
                Comparison::Equal => match byte_seqs_cmp(
                    self.exon_boundaries.items(),
                    other.exon_boundaries.items(),
                ) {
                    Comparison::Less => Comparison::Less,
                    Comparison::Greater => Comparison::Greater,
                    Comparison::Equal => {
                        let r = byte_seqs_cmp(
                            self.cds_boundaries.items(),
                            other.cds_boundaries.items(),
                        );
                        proof {
                            if self.cds_boundaries.ordered() == other.cds_boundaries.ordered() {
                                assert(self@ =~= other@);
                            }
                        }
                        r
                    },
                },
            },
        }
    }
}

/// One qualifying annotation line, split into the typed pieces a
/// signature is built from.
///
/// A record requires a transcript identifier. Records are only created
/// from "exon"/"CDS" lines, which always carry one in well-formed input.
#[derive(Debug)]
pub struct GtfGffRecord {
    /// Feature kind, e.g. "exon", "transcript", "CDS".
    pub feature: Vec<u8>,
    /// Strand.
    pub strand: Vec<u8>,
    /// Chromosome.
    pub chr: Vec<u8>,
    /// Start coordinate.
    pub start: Vec<u8>,
    /// End coordinate.
    pub end: Vec<u8>,
    /// Transcript identifier: the full attribute substring, e.g.
    /// `transcript_id "A.1"`, kept literally so the rewrite pass matches
    /// the same text.
    pub transcript_id: Vec<u8>,
}

impl GtfGffRecord {
    /// Create a `GtfGffRecord` from the tab-separated fields of a line.
    ///
    /// Returns `MissingTranscriptIdError`, carrying the re-joined line,
    /// exactly when the line has no "transcript_id" attribute.
    pub fn from(line_split: &Vec<Vec<u8>>) -> (r: Result<GtfGffRecord, GtfGffError>)
        requires
            deep(line_split@).len() >= 9,
        ensures
            get_transcript_id_spec(deep(line_split@)) matches Some(t) ==> r matches Ok(rec) && {
                &&& rec.chr@ == deep(line_split@)[0]
                &&& rec.feature@ == deep(line_split@)[2]
                &&& rec.strand@ == deep(line_split@)[6]
                &&& rec.start@ == deep(line_split@)[3]
                &&& rec.end@ == deep(line_split@)[4]
                &&& rec.transcript_id@ == t
            },
            get_transcript_id_spec(deep(line_split@)) is None ==> (r matches Err(
                GtfGffError::MissingTranscriptIdError(l),
            ) && l@ == join_spec(deep(line_split@), '\t' as u8)),
    {
        match GtfGffRecord::get_transcript_id(line_split) {
            Some(transcript_id) => Ok(
                GtfGffRecord {
                    chr: crate::bytes::clone_bytes(&line_split[0]),
                    feature: crate::bytes::clone_bytes(&line_split[2]),
                    strand: crate::bytes::clone_bytes(&line_split[6]),
                    start: crate::bytes::clone_bytes(&line_split[3]),
                    end: crate::bytes::clone_bytes(&line_split[4]),
                    transcript_id,
                },
            ),
            None => Err(GtfGffError::MissingTranscriptIdError(join(line_split, '\t' as u8))),
        }
    }

    /// Whether the line's feature field is exactly "exon" or "CDS".
    pub fn is_exon_or_cds(line_split: &Vec<Vec<u8>>) -> (r: bool)
        requires
            deep(line_split@).len() >= 3,
        ensures
            r == is_exon_or_cds_spec(deep(line_split@)),
    {
        let exon = exon_vec();
        let cds = cds_vec();
        bytes_eq(&line_split[2], &exon) || bytes_eq(&line_split[2], &cds)
    }

    /// The transcript identifier of a line: the first ';'-separated
    /// attribute substring that, after leading whitespace, begins with
    /// "transcript_id"; the full substring is returned.
    pub fn get_transcript_id(line_split: &Vec<Vec<u8>>) -> (r: Option<Vec<u8>>)
        requires
            deep(line_split@).len() >= 9,
        ensures
            r matches Some(v) ==> get_transcript_id_spec(deep(line_split@)) == Some(v@),
            r is None ==> get_transcript_id_spec(deep(line_split@)) is None,
    {
        let mut attrs = split(&line_split[8], ';' as u8);
        let ghost ad = deep(attrs@);
        proof {
            assert(deep(line_split@)[8] == line_split@[8]@);
            assert(ad.skip(0) =~= ad);
        }
        let needle = transcript_id_vec();
        let n: usize = attrs.len();
        let mut i: usize = 0;
        while i < n
            invariant
                0 <= i <= n,
                n == attrs@.len(),
                ad == deep(attrs@),
                deep(line_split@).len() >= 9,
                ad == split_spec(deep(line_split@)[8], ';' as u8),
                find_transcript_id_spec(ad) == find_transcript_id_spec(ad.skip(i as int)),
                needle@ == transcript_id_bytes(),
            decreases n - i,
        {
            proof {
                assert(ad.skip(i as int)[0] == ad[i as int]);
            }
            let from = trim_start_index(&attrs[i]);
            if has_prefix_from(&attrs[i], from, &needle) {
                proof {
                    assert(ad[i as int] == attrs@[i as int]@);
                    assert(is_transcript_id_attr(ad[i as int]));
                    assert(find_transcript_id_spec(ad.skip(i as int)) == Some(ad[i as int]));
                }
                let v = attrs.remove(i);
                proof {
                    assert(v@ == ad[i as int]);
                    assert(find_transcript_id_spec(ad) == Some(v@));
                    assert(get_transcript_id_spec(deep(line_split@)) == Some(v@));
                }
                return Some(v);
            }
            i = i + 1;
            proof {
                assert(ad.skip(i - 1).drop_first() =~= ad.skip(i as int));
            }
        }
        proof {
            assert(ad.skip(n as int).len() == 0);
        }
        None
    }
}

/// A fresh signature, before any boundary is inserted: the chromosome and
/// strand of the first record seen for the transcript, and empty boundary
/// sets.
pub open spec fn fresh_sig_view(chr: Seq<u8>, strand: Seq<u8>) -> TranscriptSignatureView {
    TranscriptSignatureView {
        chr,
        strand,
        exon_boundaries: Set::empty(),
        cds_boundaries: Set::empty(),
    }
}

/// One boundary value added to the set its feature kind selects; a
/// feature that is neither "exon" nor "CDS" changes nothing.
pub open spec fn sig_view_insert(
    s: TranscriptSignatureView,
    feature: Seq<u8>,
    value: Seq<u8>,
) -> TranscriptSignatureView {
    if feature == exon_bytes() {
        TranscriptSignatureView { exon_boundaries: s.exon_boundaries.insert(value), ..s }
    } else if feature == cds_bytes() {
        TranscriptSignatureView { cds_boundaries: s.cds_boundaries.insert(value), ..s }
    } else {
        s
    }
}

/// One record folded into a per-file map: the transcript's signature is
/// created on first sight, with that record's chromosome and strand, and
/// the record's start and end coordinates join the boundary set of its
/// feature kind.
pub open spec fn apply_record_spec(
    m: Map<Seq<u8>, TranscriptSignatureView>,
    chr: Seq<u8>,
    strand: Seq<u8>,
    feature: Seq<u8>,
    start: Seq<u8>,
    end: Seq<u8>,
    transcript_id: Seq<u8>,
) -> Map<Seq<u8>, TranscriptSignatureView> {
    let base = if m.dom().contains(transcript_id) {
        m[transcript_id]
    } else {
        fresh_sig_view(chr, strand)
    };
    m.insert(transcript_id, sig_view_insert(sig_view_insert(base, feature, start), feature, end))
}

/// One transcript of one file: its identifier and its signature.
#[derive(Debug)]
pub struct TranscriptEntry {
    /// Transcript identifier: the full attribute substring.
    pub transcript_id: Vec<u8>,
    /// The signature accumulated from the transcript's records.
    pub signature: TranscriptSignature,
}

/// The map of the transcripts read from the lines of the map entries.
pub open spec fn map_of(entries: Seq<TranscriptEntry>) -> Map<Seq<u8>, TranscriptSignatureView>
    decreases entries.len(),
{
    if entries.len() == 0 {
        Map::empty()
    } else {
        map_of(entries.drop_last()).insert(
            entries.last().transcript_id@,
            entries.last().signature@,
        )
    }
}

/// The identifiers of the entries are pairwise distinct.
pub open spec fn unique_ids(entries: Seq<TranscriptEntry>) -> bool {
    forall|i: int, j: int|
        0 <= i < j < entries.len() ==> #[trigger] entries[i].transcript_id@ != #[trigger] entries[j].transcript_id@
}

/// What `map_of` holds, entry by entry, when identifiers are distinct.
pub proof fn lemma_map_of_entries(entries: Seq<TranscriptEntry>)
    requires
        unique_ids(entries),
    ensures
        map_of(entries).dom().finite(),
        map_of(entries).dom().len() == entries.len(),
        forall|i: int|
            0 <= i < entries.len() ==> map_of(entries).dom().contains(
                #[trigger] entries[i].transcript_id@,
            ) && map_of(entries)[entries[i].transcript_id@] == entries[i].signature@,
        forall|k: Seq<u8>|
            map_of(entries).dom().contains(k) ==> exists|i: int|
                0 <= i < entries.len() && #[trigger] entries[i].transcript_id@ == k,
    decreases entries.len(),
{
    if entries.len() > 0 {
        let rest = entries.drop_last();
        assert(unique_ids(rest)) by {
            assert(forall|i: int|
                0 <= i < rest.len() ==> rest[i].transcript_id@ == #[trigger] entries[i].transcript_id@);
        }
        lemma_map_of_entries(rest);
        assert(!map_of(rest).dom().contains(entries.last().transcript_id@)) by {
            if map_of(rest).dom().contains(entries.last().transcript_id@) {
                let i = choose|i: int|
                    0 <= i < rest.len() && #[trigger] rest[i].transcript_id@
                        == entries.last().transcript_id@;
                assert(entries[i].transcript_id@ != entries[entries.len() - 1].transcript_id@);
            }
        }
        assert(forall|i: int|
            0 <= i < rest.len() ==> rest[i].transcript_id@ == #[trigger] entries[i].transcript_id@
                && rest[i].signature@ == entries[i].signature@);
    }
}

/// The per-file map from transcript identifier to signature, built by
/// folding a file's qualifying records.
#[derive(Debug)]
pub struct TranscriptMap {
    entries: Vec<TranscriptEntry>,
}

impl View for TranscriptMap {
    type V = Map<Seq<u8>, TranscriptSignatureView>;

    closed spec fn view(&self) -> Map<Seq<u8>, TranscriptSignatureView> {
        map_of(self.entries@)
    }
}

impl TranscriptMap {
    /// Identifiers are distinct and every signature is well formed.
    pub closed spec fn inv(&self) -> bool {
        &&& unique_ids(self.entries@)
        &&& forall|i: int|
            0 <= i < self.entries@.len() ==> (#[trigger] self.entries@[i].signature).inv()
    }

    /// Create an empty map.
    pub fn new() -> (r: TranscriptMap)
        ensures
            r.inv(),
            r@ == Map::<Seq<u8>, TranscriptSignatureView>::empty(),
    {
        TranscriptMap { entries: Vec::new() }
    }

    /// The map holds finitely many transcripts.
    pub proof fn lemma_finite(&self)
        requires
            self.inv(),
        ensures
            self@.dom().finite(),
    {
        lemma_map_of_entries(self.entries@);
    }

    /// The number of transcripts in the map.
    pub fn len(&self) -> (n: usize)
        requires
            self.inv(),
        ensures
            n == self@.dom().len(),
    {
        proof {
            lemma_map_of_entries(self.entries@);
        }
        self.entries.len()
    }

    /// The position of the entry for `transcript_id`, if one exists.
    fn index_of(&self, transcript_id: &Vec<u8>) -> (r: Option<usize>)
        ensures
            r matches Some(i) ==> 0 <= i < self.entries@.len()
                && self.entries@[i as int].transcript_id@ == transcript_id@,
            r is None ==> forall|j: int|
                0 <= j < self.entries@.len() ==> #[trigger] self.entries@[j].transcript_id@
                    != transcript_id@,
    {
        let n: usize = self.entries.len();
        let mut i: usize = 0;
        while i < n
            invariant
                0 <= i <= n,
                n == self.entries@.len(),
                forall|j: int|
                    0 <= j < i ==> #[trigger] self.entries@[j].transcript_id@ != transcript_id@,
            decreases n - i,
        {
            if bytes_eq(&self.entries[i].transcript_id, transcript_id) {
                return Some(i);
            }
            i = i + 1;
        }
        None
    }

    /// The signature recorded for `transcript_id`, if any.
    pub fn get(&self, transcript_id: &Vec<u8>) -> (r: Option<&TranscriptSignature>)
        requires
            self.inv(),
        ensures
            r matches Some(sig) ==> self@.dom().contains(transcript_id@) && sig@
                == self@[transcript_id@] && sig.inv(),
            r is None ==> !self@.dom().contains(transcript_id@),
    {
        proof {
            lemma_map_of_entries(self.entries@);
        }
        match self.index_of(transcript_id) {
            Some(i) => Some(&self.entries[i].signature),
            None => {
                proof {
                    if self@.dom().contains(transcript_id@) {
                        let i = choose|i: int|
                            0 <= i < self.entries@.len()
                                && #[trigger] self.entries@[i].transcript_id@ == transcript_id@;
                    }
                }
                None
            },
        }
    }

    /// Fold one qualifying record into the map: find the transcript's
    /// signature (create it on first sight, with the record's chromosome
    /// and strand) and insert the record's start and end coordinates into
    /// the boundary set of its feature kind.
    pub fn insert_record(&mut self, record: GtfGffRecord)
        requires
            old(self).inv(),
            record.feature@ == exon_bytes() || record.feature@ == cds_bytes(),
        ensures
            final(self).inv(),
            final(self)@ == apply_record_spec(
                old(self)@,
                record.chr@,
                record.strand@,
                record.feature@,
                record.start@,
                record.end@,
                record.transcript_id@,
            ),
    {
        proof {
            lemma_map_of_entries(self.entries@);
        }
        match self.index_of(&record.transcript_id) {
            Some(i) => {
                let ghost prev = self.entries@;
                let mut entry = self.entries.remove(i);
                match entry.signature.insert_boundary(&record.feature, record.start) {
                    Ok(()) => (),
                    Err(_) => {
                        return vstd::pervasive::unreached();
                    },
                }
                match entry.signature.insert_boundary(&record.feature, record.end) {
                    Ok(()) => (),
                    Err(_) => {
                        return vstd::pervasive::unreached();
                    },
                }
                proof {
                    assert(entry.transcript_id@ == record.transcript_id@);
                    assert(entry.signature@ == sig_view_insert(
                        sig_view_insert(prev[i as int].signature@, record.feature@, record.start@),
                        record.feature@,
                        record.end@,
                    ));
                }
                self.entries.push(entry);
                proof {
                    let now = self.entries@;
                    let removed = prev.remove(i as int);
                    assert(now.drop_last() =~= removed);
                    assert(now.last() == entry);
                    // Identifiers stay pairwise distinct.
                    assert forall|p: int, q: int| 0 <= p < q < now.len() implies #[trigger] now[p].transcript_id@
                        != #[trigger] now[q].transcript_id@ by {
                        let lift = |x: int| if x < i { x } else { x + 1 };
                        if q < now.len() - 1 {
                            assert(now[p] == prev[lift(p)] && now[q] == prev[lift(q)]);
                        } else {
                            assert(now[p] == prev[lift(p)]);
                            assert(now[q].transcript_id@ == prev[i as int].transcript_id@);
                        }
                    }
                    assert(unique_ids(removed)) by {
                        let lift = |x: int| if x < i { x } else { x + 1 };
                        assert(forall|p: int|
                            0 <= p < removed.len() ==> #[trigger] removed[p]
                                == prev[if p < i { p } else { p + 1 }]);
                    }
                    lemma_map_of_entries(now);
                    lemma_map_of_entries(removed);
                    lemma_map_of_entries(prev);
                    let goal = apply_record_spec(
                        map_of(prev),
                        record.chr@,
                        record.strand@,
                        record.feature@,
                        record.start@,
                        record.end@,
                        record.transcript_id@,
                    );
                    assert(map_of(now) =~= goal) by {
                        assert(map_of(now) == map_of(removed).insert(
                            record.transcript_id@,
                            entry.signature@,
                        ));
                        // Same domain: every key of one side is in the other.
                        assert forall|k: Seq<u8>| map_of(now).dom().contains(k) implies goal.dom().contains(
                            k,
                        ) by {
                            if k != record.transcript_id@ {
                                let p = choose|p: int|
                                    0 <= p < removed.len() && #[trigger] removed[p].transcript_id@
                                        == k;
                                assert(removed[p] == prev[if p < i {
                                    p
                                } else {
                                    p + 1
                                }]);
                            }
                        }
                        assert forall|k: Seq<u8>| goal.dom().contains(k) implies map_of(
                            now,
                        ).dom().contains(k) by {
                            if k != record.transcript_id@ {
                                let p = choose|p: int|
                                    0 <= p < prev.len() && #[trigger] prev[p].transcript_id@ == k;
                                assert(p != i);
                                assert(removed[if p < i {
                                    p
                                } else {
                                    p - 1
                                }] == prev[p]);
                            }
                        }
                        // Same value at every key.
                        assert forall|k: Seq<u8>|
                            map_of(now).dom().contains(k) && k != record.transcript_id@ implies map_of(
                            now,
                        )[k] == goal[k] by {
                            let p = choose|p: int|
                                0 <= p < removed.len() && #[trigger] removed[p].transcript_id@
                                    == k;
                            assert(removed[p] == prev[if p < i {
                                p
                            } else {
                                p + 1
                            }]);
                            assert(map_of(now)[k] == removed[p].signature@);
                        }
                    }
                }
            },
            None => {
                let exons = BoundarySet::new();
                let cds = BoundarySet::new();
                let mut signature = TranscriptSignature::from(
                    record.chr,
                    record.strand,
                    exons,
                    cds,
                );
                match signature.insert_boundary(&record.feature, record.start) {
                    Ok(()) => (),
                    Err(_) => {
                        return vstd::pervasive::unreached();
                    },
                }
                match signature.insert_boundary(&record.feature, record.end) {
                    Ok(()) => (),
                    Err(_) => {
                        return vstd::pervasive::unreached();
                    },
                }
                let ghost prev = self.entries@;
                self.entries.push(TranscriptEntry { transcript_id: record.transcript_id, signature });
                proof {
                    assert(self.entries@.drop_last() =~= prev);
                    lemma_map_of_entries(prev);
                    assert(!map_of(prev).dom().contains(record.transcript_id@));
                    assert(map_of(self.entries@) =~= apply_record_spec(
                        map_of(prev),
                        record.chr@,
                        record.strand@,
                        record.feature@,
                        record.start@,
                        record.end@,
                        record.transcript_id@,
                    ));
                    assert forall|p: int, q: int|
                        0 <= p < q < self.entries@.len() implies #[trigger] self.entries@[p].transcript_id@
                        != #[trigger] self.entries@[q].transcript_id@ by {
                        if q < self.entries@.len() - 1 {
                            assert(self.entries@[p] == prev[p] && self.entries@[q] == prev[q]);
                        } else {
                            assert(self.entries@[p] == prev[p]);
                        }
                    }
                }
            },
        }
    }

    /// Remove and return one transcript, or `None` when the map is empty.
    /// Draining a map hands each of its transcripts out exactly once.
    pub fn pop(&mut self) -> (r: Option<TranscriptEntry>)
        requires
            old(self).inv(),
        ensures
            final(self).inv(),
            r matches Some(entry) ==> {
                &&& old(self)@.dom().contains(entry.transcript_id@)
                &&& old(self)@[entry.transcript_id@] == entry.signature@
                &&& entry.signature.inv()
                &&& final(self)@ == old(self)@.remove(entry.transcript_id@)
            },
            r is None ==> final(self)@ == old(self)@ && old(self)@ == Map::<
                Seq<u8>,
                TranscriptSignatureView,
            >::empty(),
    {
        proof {
            lemma_map_of_entries(self.entries@);
        }
        let ghost prev = self.entries@;
        let popped = self.entries.pop();
        match popped {
            Some(entry) => {
                proof {
                    assert(self.entries@ =~= prev.drop_last());
                    lemma_map_of_entries(self.entries@);
                    assert(!map_of(self.entries@).dom().contains(entry.transcript_id@)) by {
                        if map_of(self.entries@).dom().contains(entry.transcript_id@) {
                            let p = choose|p: int|
                                0 <= p < self.entries@.len()
                                    && #[trigger] self.entries@[p].transcript_id@
                                    == entry.transcript_id@;
                            assert(prev[p].transcript_id@ == prev[prev.len()
                                - 1].transcript_id@);
                        }
                    }
                    assert(map_of(self.entries@) =~= map_of(prev).remove(entry.transcript_id@));
                }
                Some(entry)
            },
            None => {
                proof {
                    assert(prev.len() == 0);
                    assert(map_of(prev) =~= Map::<Seq<u8>, TranscriptSignatureView>::empty());
                }
                None
            },
        }
    }
}

/// A line that pass 1 can process without panicking: a comment, or a line
/// with enough tab-separated fields for the feature test (and, if it
/// qualifies, for the attribute field). Annotation lines have nine fields.
pub open spec fn line_readable(line: Seq<u8>) -> bool {
    is_comment(line) || (line_fields(line).len() >= 3 && (is_exon_or_cds_spec(line_fields(line))
        ==> line_fields(line).len() >= 9))
}

/// An exon/CDS line whose boundaries enter a signature.
pub open spec fn qualifying(line: Seq<u8>) -> bool {
    !is_comment(line) && is_exon_or_cds_spec(line_fields(line))
}

/// A qualifying line without a transcript-identifier attribute: the fatal
/// condition of pass 1.
pub open spec fn line_missing_id(line: Seq<u8>) -> bool {
    qualifying(line) && get_transcript_id_spec(line_fields(line)) is None
}

/// One line folded into a per-file map: comments and non-qualifying lines
/// change nothing; a qualifying line's record is applied.
pub open spec fn apply_line_spec(
    m: Map<Seq<u8>, TranscriptSignatureView>,
    line: Seq<u8>,
) -> Map<Seq<u8>, TranscriptSignatureView> {
    if !qualifying(line) {
        m
    } else {
        let fields = line_fields(line);
        match get_transcript_id_spec(fields) {
            Option::None => m,
            Option::Some(transcript_id) => apply_record_spec(
                m,
                fields[0],
                fields[6],
                fields[2],
                fields[3],
                fields[4],
                transcript_id,
            ),
        }
    }
}

/// The per-file map accumulated over a file's lines, in order.
pub open spec fn accum_map_spec(lines: Seq<Seq<u8>>) -> Map<Seq<u8>, TranscriptSignatureView>
    decreases lines.len(),
{
    if lines.len() == 0 {
        Map::empty()
    } else {
        apply_line_spec(accum_map_spec(lines.drop_last()), lines.last())
    }
}

/// Law: inserting the same boundary twice leaves the signature as one
/// insertion left it — boundary sets have set semantics, so insertion is
/// idempotent.
pub proof fn lemma_insert_boundary_idempotent(
    s: TranscriptSignatureView,
    feature: Seq<u8>,
    value: Seq<u8>,
)
    ensures
        sig_view_insert(sig_view_insert(s, feature, value), feature, value) == sig_view_insert(
            s,
            feature,
            value,
        ),
{
    let once = sig_view_insert(s, feature, value);
    if feature == exon_bytes() {
        assert(once.exon_boundaries.insert(value) =~= once.exon_boundaries);
        assert(sig_view_insert(once, feature, value) =~= once);
    } else if feature == cds_bytes() {
        assert(once.cds_boundaries.insert(value) =~= once.cds_boundaries);
        assert(sig_view_insert(once, feature, value) =~= once);
    }
}

/// A qualifying line of transcript `tid`.
pub open spec fn line_contributes(line: Seq<u8>, tid: Seq<u8>) -> bool {
    qualifying(line) && get_transcript_id_spec(line_fields(line)) == Option::Some(tid)
}

/// Some qualifying line of the file belongs to transcript `tid`.
pub open spec fn id_occurs(lines: Seq<Seq<u8>>, tid: Seq<u8>) -> bool {
    exists|i: int| 0 <= i < lines.len() && #[trigger] line_contributes(lines[i], tid)
}

/// The line is a qualifying line of `tid` with feature kind `feature`,
/// and `v` is its start or end coordinate.
pub open spec fn line_gives(line: Seq<u8>, tid: Seq<u8>, feature: Seq<u8>, v: Seq<u8>) -> bool {
    &&& line_contributes(line, tid)
    &&& line_fields(line)[2] == feature
    &&& (v == line_fields(line)[3] || v == line_fields(line)[4])
}

/// All start/end coordinates that the file's lines of kind `feature`
/// give to transcript `tid` — a set, independent of line order.
pub open spec fn gathered_boundaries(lines: Seq<Seq<u8>>, tid: Seq<u8>, feature: Seq<u8>) -> Set<
    Seq<u8>,
> {
    Set::new(
        |v: Seq<u8>|
            exists|i: int| 0 <= i < lines.len() && #[trigger] line_gives(lines[i], tid, feature, v),
    )
}

/// All qualifying lines of one transcript agree on chromosome and
/// strand. Accumulation keeps the first-seen values and never re-checks
/// this — a known limitation — so only such files accumulate
/// order-independently.
pub open spec fn consistent_origin(lines: Seq<Seq<u8>>) -> bool {
    forall|i: int, j: int|
        0 <= i < lines.len() && 0 <= j < lines.len() && #[trigger] qualifying(lines[i])
            && #[trigger] qualifying(lines[j]) && get_transcript_id_spec(line_fields(lines[i]))
            is Some && get_transcript_id_spec(line_fields(lines[i]))
            == get_transcript_id_spec(line_fields(lines[j])) ==> line_fields(lines[i])[0]
            == line_fields(lines[j])[0] && line_fields(lines[i])[6] == line_fields(lines[j])[6]
}

/// A line that contributes nothing to transcript `tid` changes neither
/// its occurrence nor its gathered coordinates.
proof fn lemma_no_contribution_transfer(lines: Seq<Seq<u8>>, tid: Seq<u8>)
    requires
        lines.len() > 0,
        !line_contributes(lines.last(), tid),
    ensures
        id_occurs(lines, tid) == id_occurs(lines.drop_last(), tid),
        forall|feature: Seq<u8>| #[trigger] gathered_boundaries(lines, tid, feature)
            == gathered_boundaries(lines.drop_last(), tid, feature),
{
    let rest = lines.drop_last();
    assert(forall|i: int| 0 <= i < rest.len() ==> rest[i] == #[trigger] lines[i]);
    if id_occurs(lines, tid) {
        let i = choose|i: int| 0 <= i < lines.len() && #[trigger] line_contributes(lines[i], tid);
        assert(i < rest.len());
        assert(line_contributes(rest[i], tid));
        assert(id_occurs(rest, tid));
    }
    if id_occurs(rest, tid) {
        let i = choose|i: int| 0 <= i < rest.len() && #[trigger] line_contributes(rest[i], tid);
        assert(line_contributes(lines[i], tid));
        assert(id_occurs(lines, tid));
    }
    assert forall|feature: Seq<u8>| #[trigger] gathered_boundaries(lines, tid, feature)
        == gathered_boundaries(rest, tid, feature) by {
        assert(gathered_boundaries(lines, tid, feature) =~= gathered_boundaries(
            rest,
            tid,
            feature,
        )) by {
            assert forall|v: Seq<u8>| gathered_boundaries(lines, tid, feature).contains(
                v,
            ) implies gathered_boundaries(rest, tid, feature).contains(v) by {
                let i = choose|i: int|
                    0 <= i < lines.len() && #[trigger] line_gives(lines[i], tid, feature, v);
                assert(i < rest.len());
                assert(line_gives(rest[i], tid, feature, v));
            }
            assert forall|v: Seq<u8>| gathered_boundaries(rest, tid, feature).contains(
                v,
            ) implies gathered_boundaries(lines, tid, feature).contains(v) by {
                let i = choose|i: int|
                    0 <= i < rest.len() && #[trigger] line_gives(rest[i], tid, feature, v);
                assert(line_gives(lines[i], tid, feature, v));
            }
        }
    }
}

/// What accumulation builds, stated without reference to line order:
/// exactly the transcripts of qualifying lines appear; each carries the
/// set of exon coordinates and the set of CDS coordinates its lines
/// give; chromosome and strand come from one of its lines.
pub proof fn lemma_accum_characterized(lines: Seq<Seq<u8>>)
    ensures
        forall|tid: Seq<u8>|
            accum_map_spec(lines).dom().contains(tid) <==> #[trigger] id_occurs(lines, tid),
        forall|tid: Seq<u8>|
            #[trigger] accum_map_spec(lines).dom().contains(tid) ==> accum_map_spec(
                lines,
            )[tid].exon_boundaries == gathered_boundaries(lines, tid, exon_bytes())
                && accum_map_spec(lines)[tid].cds_boundaries == gathered_boundaries(
                lines,
                tid,
                cds_bytes(),
            ) && exists|i: int|
                {
                    &&& 0 <= i < lines.len()
                    &&& #[trigger] line_contributes(lines[i], tid)
                    &&& accum_map_spec(lines)[tid].chr == line_fields(lines[i])[0]
                    &&& accum_map_spec(lines)[tid].strand == line_fields(lines[i])[6]
                },
    decreases lines.len(),
{
    if lines.len() == 0 {
        assert forall|tid: Seq<u8>| !(#[trigger] id_occurs(lines, tid)) by {
            if id_occurs(lines, tid) {
                let i = choose|i: int|
                    0 <= i < lines.len() && #[trigger] line_contributes(lines[i], tid);
            }
        }
    } else {
        let rest = lines.drop_last();
        let last = lines.last();
        lemma_accum_characterized(rest);
        let m = accum_map_spec(rest);
        let acc = accum_map_spec(lines);
        assert(forall|i: int| 0 <= i < rest.len() ==> rest[i] == #[trigger] lines[i]);
        assert(lines[lines.len() - 1] == last);
        if !qualifying(last) || get_transcript_id_spec(line_fields(last)) is None {
            assert(acc == m);
            assert forall|tid: Seq<u8>| acc.dom().contains(tid) <==> #[trigger] id_occurs(
                lines,
                tid,
            ) by {
                assert(!line_contributes(last, tid));
                lemma_no_contribution_transfer(lines, tid);
            }
            assert forall|tid: Seq<u8>| #[trigger] acc.dom().contains(tid) implies acc[
                tid
            ].exon_boundaries == gathered_boundaries(lines, tid, exon_bytes())
                && acc[tid].cds_boundaries == gathered_boundaries(lines, tid, cds_bytes())
                && exists|i: int|
                {
                    &&& 0 <= i < lines.len()
                    &&& #[trigger] line_contributes(lines[i], tid)
                    &&& acc[tid].chr == line_fields(lines[i])[0]
                    &&& acc[tid].strand == line_fields(lines[i])[6]
                } by {
                assert(!line_contributes(last, tid));
                lemma_no_contribution_transfer(lines, tid);
                assert(gathered_boundaries(lines, tid, exon_bytes()) == gathered_boundaries(
                    rest,
                    tid,
                    exon_bytes(),
                ));
                assert(gathered_boundaries(lines, tid, cds_bytes()) == gathered_boundaries(
                    rest,
                    tid,
                    cds_bytes(),
                ));
                let i = choose|i: int|
                    {
                        &&& 0 <= i < rest.len()
                        &&& #[trigger] line_contributes(rest[i], tid)
                        &&& m[tid].chr == line_fields(rest[i])[0]
                        &&& m[tid].strand == line_fields(rest[i])[6]
                    };
                assert(line_contributes(lines[i], tid));
            }
        } else {
            let fs = line_fields(last);
            let t = get_transcript_id_spec(fs)->0;
            assert(line_contributes(last, t));
            let base = if m.dom().contains(t) {
                m[t]
            } else {
                fresh_sig_view(fs[0], fs[6])
            };
            let sig = sig_view_insert(sig_view_insert(base, fs[2], fs[3]), fs[2], fs[4]);
            assert(acc == m.insert(t, sig));
            assert(exon_bytes().len() == 4 && cds_bytes().len() == 3);
            // The last line adds its start and end to its own kind and
            // nothing to the other kind.
            assert forall|feature: Seq<u8>|
                feature == exon_bytes() || feature == cds_bytes() implies #[trigger] gathered_boundaries(
                lines,
                t,
                feature,
            ) =~= gathered_boundaries(rest, t, feature).union(
                if fs[2] == feature {
                    Set::empty().insert(fs[3]).insert(fs[4])
                } else {
                    Set::empty()
                },
            ) by {
                let extra = if fs[2] == feature {
                    Set::empty().insert(fs[3]).insert(fs[4])
                } else {
                    Set::<Seq<u8>>::empty()
                };
                assert forall|v: Seq<u8>| gathered_boundaries(lines, t, feature).contains(
                    v,
                ) implies gathered_boundaries(rest, t, feature).union(extra).contains(v) by {
                    let i = choose|i: int|
                        0 <= i < lines.len() && #[trigger] line_gives(lines[i], t, feature, v);
                    if i < rest.len() {
                        assert(line_gives(rest[i], t, feature, v));
                    }
                }
                assert forall|v: Seq<u8>| gathered_boundaries(rest, t, feature).union(
                    extra,
                ).contains(v) implies gathered_boundaries(lines, t, feature).contains(v) by {
                    if gathered_boundaries(rest, t, feature).contains(v) {
                        let i = choose|i: int|
                            0 <= i < rest.len() && #[trigger] line_gives(rest[i], t, feature, v);
                        assert(line_gives(lines[i], t, feature, v));
                    } else {
                        assert(line_gives(lines[lines.len() - 1], t, feature, v));
                    }
                }
            }
            if !m.dom().contains(t) {
                assert(!id_occurs(rest, t));
                assert forall|feature: Seq<u8>| #[trigger] gathered_boundaries(
                    rest,
                    t,
                    feature,
                ) =~= Set::<Seq<u8>>::empty() by {
                    assert forall|v: Seq<u8>|
                        !(#[trigger] gathered_boundaries(rest, t, feature).contains(v)) by {
                        if gathered_boundaries(rest, t, feature).contains(v) {
                            let i = choose|i: int|
                                0 <= i < rest.len() && #[trigger] line_gives(
                                    rest[i],
                                    t,
                                    feature,
                                    v,
                                );
                            assert(line_contributes(rest[i], t));
                            assert(id_occurs(rest, t));
                        }
                    }
                }
            }
            assert(sig.exon_boundaries =~= gathered_boundaries(lines, t, exon_bytes()));
            assert(sig.cds_boundaries =~= gathered_boundaries(lines, t, cds_bytes()));
            assert(sig.chr == base.chr && sig.strand == base.strand);
            assert forall|tid: Seq<u8>| acc.dom().contains(tid) <==> #[trigger] id_occurs(
                lines,
                tid,
            ) by {
                if tid == t {
                    assert(line_contributes(lines[lines.len() - 1], t));
                    assert(id_occurs(lines, t));
                } else {
                    assert(!line_contributes(last, tid));
                    lemma_no_contribution_transfer(lines, tid);
                }
            }
            assert forall|tid: Seq<u8>| #[trigger] acc.dom().contains(tid) implies acc[
                tid
            ].exon_boundaries == gathered_boundaries(lines, tid, exon_bytes())
                && acc[tid].cds_boundaries == gathered_boundaries(lines, tid, cds_bytes())
                && exists|i: int|
                {
                    &&& 0 <= i < lines.len()
                    &&& #[trigger] line_contributes(lines[i], tid)
                    &&& acc[tid].chr == line_fields(lines[i])[0]
                    &&& acc[tid].strand == line_fields(lines[i])[6]
                } by {
                if tid == t {
                    if m.dom().contains(t) {
                        let i = choose|i: int|
                            {
                                &&& 0 <= i < rest.len()
                                &&& #[trigger] line_contributes(rest[i], tid)
                                &&& m[tid].chr == line_fields(rest[i])[0]
                                &&& m[tid].strand == line_fields(rest[i])[6]
                            };
                        assert(line_contributes(lines[i], tid));
                        assert(acc[tid].chr == line_fields(lines[i])[0] && acc[tid].strand
                            == line_fields(lines[i])[6]);
                    } else {
                        assert(sig.chr == fs[0] && sig.strand == fs[6]);
                        assert(line_contributes(lines[lines.len() - 1], t));
                    }
                } else {
                    assert(!line_contributes(last, tid));
                    lemma_no_contribution_transfer(lines, tid);
                    assert(gathered_boundaries(lines, tid, exon_bytes()) == gathered_boundaries(
                        rest,
                        tid,
                        exon_bytes(),
                    ));
                    assert(gathered_boundaries(lines, tid, cds_bytes()) == gathered_boundaries(
                        rest,
                        tid,
                        cds_bytes(),
                    ));
                    let i = choose|i: int|
                        {
                            &&& 0 <= i < rest.len()
                            &&& #[trigger] line_contributes(rest[i], tid)
                            &&& m[tid].chr == line_fields(rest[i])[0]
                            &&& m[tid].strand == line_fields(rest[i])[6]
                        };
                    assert(line_contributes(lines[i], tid));
                }
            }
        }
    }
}

/// Accumulation only ever builds finitely many signatures, each with
/// canonically laid out boundary sets.
pub proof fn lemma_accum_sigs_wf(lines: Seq<Seq<u8>>)
    ensures
        accum_map_spec(lines).dom().finite(),
        forall|tid: Seq<u8>|
            #[trigger] accum_map_spec(lines).dom().contains(tid) ==> sig_view_wf(
                accum_map_spec(lines)[tid],
            ),
    decreases lines.len(),
{
    if lines.len() == 0 {
        assert(accum_map_spec(lines).dom() =~= Set::<Seq<u8>>::empty());
    } else {
        let rest = lines.drop_last();
        let last = lines.last();
        lemma_accum_sigs_wf(rest);
        let m = accum_map_spec(rest);
        if qualifying(last) && get_transcript_id_spec(line_fields(last)) is Some {
            let fs = line_fields(last);
            let t = get_transcript_id_spec(fs)->0;
            let base = if m.dom().contains(t) {
                m[t]
            } else {
                fresh_sig_view(fs[0], fs[6])
            };
            assert(sig_view_wf(base)) by {
                if !m.dom().contains(t) {
                    crate::bytes::lemma_canonical_empty();
                }
            }
            let mid = sig_view_insert(base, fs[2], fs[3]);
            assert(sig_view_wf(mid)) by {
                crate::bytes::lemma_canonical_insert(base.exon_boundaries, fs[3]);
                crate::bytes::lemma_canonical_insert(base.cds_boundaries, fs[3]);
            }
            assert(sig_view_wf(sig_view_insert(mid, fs[2], fs[4]))) by {
                crate::bytes::lemma_canonical_insert(mid.exon_boundaries, fs[4]);
                crate::bytes::lemma_canonical_insert(mid.cds_boundaries, fs[4]);
            }
        }
    }
}

/// Law: feeding a file's lines in any permutation produces the same
/// per-transcript signatures — accumulation is order-independent. The
/// one proviso: all lines of one transcript must agree on chromosome and
/// strand, since the first-seen values are kept and never re-checked (a
/// known limitation); a file whose lines disagree may accumulate
/// differently under reordering.
pub proof fn lemma_accum_map_permutation(l1: Seq<Seq<u8>>, l2: Seq<Seq<u8>>)
    requires
        l1.to_multiset() == l2.to_multiset(),
        consistent_origin(l1),
    ensures
        accum_map_spec(l1) == accum_map_spec(l2),
{
    l1.to_multiset_ensures();
    l2.to_multiset_ensures();
    assert forall|line: Seq<u8>| #[trigger] l1.contains(line) implies l2.contains(line) by {
        assert(l1.to_multiset().count(line) > 0);
        assert(l2.to_multiset().count(line) > 0);
    }
    assert forall|line: Seq<u8>| #[trigger] l2.contains(line) implies l1.contains(line) by {
        assert(l2.to_multiset().count(line) > 0);
        assert(l1.to_multiset().count(line) > 0);
    }
    lemma_accum_characterized(l1);
    lemma_accum_characterized(l2);
    let m1 = accum_map_spec(l1);
    let m2 = accum_map_spec(l2);
    assert forall|tid: Seq<u8>| m1.dom().contains(tid) implies m2.dom().contains(tid) by {
        let i = choose|i: int| 0 <= i < l1.len() && #[trigger] line_contributes(l1[i], tid);
        assert(l1.contains(l1[i]));
        let j = choose|j: int| 0 <= j < l2.len() && l2[j] == l1[i];
        assert(line_contributes(l2[j], tid));
        assert(id_occurs(l2, tid));
    }
    assert forall|tid: Seq<u8>| m2.dom().contains(tid) implies m1.dom().contains(tid) by {
        let i = choose|i: int| 0 <= i < l2.len() && #[trigger] line_contributes(l2[i], tid);
        assert(l2.contains(l2[i]));
        let j = choose|j: int| 0 <= j < l1.len() && l1[j] == l2[i];
        assert(line_contributes(l1[j], tid));
        assert(id_occurs(l1, tid));
    }
    assert forall|tid: Seq<u8>, feature: Seq<u8>| #[trigger] gathered_boundaries(
        l1,
        tid,
        feature,
    ) == #[trigger] gathered_boundaries(l2, tid, feature) by {
        assert(gathered_boundaries(l1, tid, feature) =~= gathered_boundaries(l2, tid, feature))
            by {
            assert forall|v: Seq<u8>| gathered_boundaries(l1, tid, feature).contains(
                v,
            ) implies gathered_boundaries(l2, tid, feature).contains(v) by {
                let i = choose|i: int|
                    0 <= i < l1.len() && #[trigger] line_gives(l1[i], tid, feature, v);
                assert(l1.contains(l1[i]));
                let j = choose|j: int| 0 <= j < l2.len() && l2[j] == l1[i];
                assert(line_gives(l2[j], tid, feature, v));
            }
            assert forall|v: Seq<u8>| gathered_boundaries(l2, tid, feature).contains(
                v,
            ) implies gathered_boundaries(l1, tid, feature).contains(v) by {
                let i = choose|i: int|
                    0 <= i < l2.len() && #[trigger] line_gives(l2[i], tid, feature, v);
                assert(l2.contains(l2[i]));
                let j = choose|j: int| 0 <= j < l1.len() && l1[j] == l2[i];
                assert(line_gives(l1[j], tid, feature, v));
            }
        }
    }
    assert forall|tid: Seq<u8>| #[trigger] m1.dom().contains(tid) implies m1[tid] == m2[tid] by {
        let i1 = choose|i: int|
            {
                &&& 0 <= i < l1.len()
                &&& #[trigger] line_contributes(l1[i], tid)
                &&& m1[tid].chr == line_fields(l1[i])[0]
                &&& m1[tid].strand == line_fields(l1[i])[6]
            };
        let i2 = choose|i: int|
            {
                &&& 0 <= i < l2.len()
                &&& #[trigger] line_contributes(l2[i], tid)
                &&& m2[tid].chr == line_fields(l2[i])[0]
                &&& m2[tid].strand == line_fields(l2[i])[6]
            };
        assert(l2.contains(l2[i2]));
        let j = choose|j: int| 0 <= j < l1.len() && l1[j] == l2[i2];
        assert(line_contributes(l1[j], tid));
        assert(qualifying(l1[i1]) && qualifying(l1[j]));
        assert(line_fields(l1[i1])[0] == line_fields(l1[j])[0] && line_fields(l1[i1])[6]
            == line_fields(l1[j])[6]);
        assert(m1[tid].chr == m2[tid].chr && m1[tid].strand == m2[tid].strand);
        assert(m1[tid] =~= m2[tid]);
    }
    assert(m1 =~= m2);
}

/// Read the unique transcripts from the lines of one annotation file.
///
/// Using the transcript identifier as the differentiating key, builds a
/// `TranscriptSignature` for every unique transcript among the "exon" and
/// "CDS" lines. Comments and other lines are skipped.
///
/// Returns `MissingTranscriptIdError`, carrying the first offending line,
/// exactly when some qualifying line has no transcript identifier.
pub fn read_gtf_gff(lines: &Vec<Vec<u8>>) -> (r: Result<TranscriptMap, GtfGffError>)
    requires
        forall|i: int| 0 <= i < lines@.len() ==> line_readable(#[trigger] deep(lines@)[i]),
    ensures
        r matches Ok(m) ==> {
            &&& forall|i: int|
                0 <= i < lines@.len() ==> !line_missing_id(#[trigger] deep(lines@)[i])
            &&& m.inv()
            &&& m@ == accum_map_spec(deep(lines@))
        },
        r matches Err(e) ==> exists|i: int|
            {
                &&& 0 <= i < lines@.len()
                &&& line_missing_id(#[trigger] deep(lines@)[i])
                &&& forall|j: int| 0 <= j < i ==> !line_missing_id(#[trigger] deep(lines@)[j])
                &&& e matches GtfGffError::MissingTranscriptIdError(l) && l@ == join_spec(
                    line_fields(deep(lines@)[i]),
                    '\t' as u8,
                )
            },
{
    let mut transcripts = TranscriptMap::new();
    let n: usize = lines.len();
    let mut i: usize = 0;
    proof {
        assert(deep(lines@).take(0) =~= Seq::<Seq<u8>>::empty());
    }
    while i < n
        invariant
            0 <= i <= n,
            n == lines@.len(),
            forall|k: int| 0 <= k < lines@.len() ==> line_readable(#[trigger] deep(lines@)[k]),
            forall|j: int| 0 <= j < i ==> !line_missing_id(#[trigger] deep(lines@)[j]),
            transcripts.inv(),
            transcripts@ == accum_map_spec(deep(lines@).take(i as int)),
        decreases n - i,
    {
        let ghost lv = deep(lines@)[i as int];
        let ghost before = transcripts@;
        proof {
            assert(lv == lines@[i as int]@);
            assert(deep(lines@).take(i + 1).drop_last() =~= deep(lines@).take(i as int));
            assert(deep(lines@).take(i + 1).last() == lv);
        }
        let line = &lines[i];
        let commented = line.len() > 0 && line[0] == '#' as u8;
        if !commented {
            let fields = split(line, '\t' as u8);
            proof {
                assert(deep(fields@) == line_fields(lv));
            }
            if GtfGffRecord::is_exon_or_cds(&fields) {
                match GtfGffRecord::from(&fields) {
                    Ok(record) => {
                        transcripts.insert_record(record);
                    },
                    Err(e) => {
                        proof {
                            assert(line_missing_id(lv));
                        }
                        return Err(e);
                    },
                }
            }
        }
        proof {
            assert(transcripts@ == apply_line_spec(before, lv));
            assert(transcripts@ == accum_map_spec(deep(lines@).take(i + 1)));
        }
        i = i + 1;
    }
    proof {
        assert(deep(lines@).take(n as int) =~= deep(lines@));
    }
    Ok(transcripts)
}

/// The extension "gtf".
pub open spec fn gtf_bytes() -> Seq<u8> {
    seq!['g' as u8, 't' as u8, 'f' as u8]
}

/// The extension "gff".
pub open spec fn gff_bytes() -> Seq<u8> {
    seq!['g' as u8, 'f' as u8, 'f' as u8]
}

/// The unified-identifier attribute in GTF syntax: ` tuni_id "<id>";`.
pub open spec fn tuni_attr_gtf(unified_id: Seq<u8>) -> Seq<u8> {
    seq![
        ' ' as u8,
        't' as u8,
        'u' as u8,
        'n' as u8,
        'i' as u8,
        '_' as u8,
        'i' as u8,
        'd' as u8,
        ' ' as u8,
        '"' as u8,
    ] + unified_id + seq!['"' as u8, ';' as u8]
}

/// The unified-identifier attribute in GFF syntax: ` tuni_id=<id>;`.
pub open spec fn tuni_attr_gff(unified_id: Seq<u8>) -> Seq<u8> {
    seq![
        ' ' as u8,
        't' as u8,
        'u' as u8,
        'n' as u8,
        'i' as u8,
        '_' as u8,
        'i' as u8,
        'd' as u8,
        '=' as u8,
    ] + unified_id + seq![';' as u8]
}

/// Format the outputted unified identifier, depending on input file type.
#[derive(Debug)]
pub enum TuniIdFormatter {
    Gtf,
    Gff,
}

/// The attribute text appended for `unified_id` under each dialect.
pub open spec fn format_spec(formatter: TuniIdFormatter, unified_id: Seq<u8>) -> Seq<u8> {
    match formatter {
        TuniIdFormatter::Gtf => tuni_attr_gtf(unified_id),
        TuniIdFormatter::Gff => tuni_attr_gff(unified_id),
    }
}

/// The formatter for an extension: dialects exist for "gtf" and "gff"
/// exactly.
pub open spec fn formatter_of(extension: Seq<u8>) -> Option<TuniIdFormatter> {
    if extension == gtf_bytes() {
        Option::Some(TuniIdFormatter::Gtf)
    } else if extension == gff_bytes() {
        Option::Some(TuniIdFormatter::Gff)
    } else {
        Option::None
    }
}

impl TuniIdFormatter {
    /// Create the output formatter for one input file type.
    ///
    /// Returns `UnknownExtensionError` exactly when the extension is
    /// neither "gtf" nor "gff". Extensions are validated when arguments
    /// are checked, so that error marks a defect in the caller.
    pub fn from(gtf_gff_extension: &Vec<u8>) -> (r: Result<TuniIdFormatter, GtfGffError>)
        ensures
            formatter_of(gtf_gff_extension@) matches Some(f) ==> r matches Ok(g) && g == f,
            formatter_of(gtf_gff_extension@) is None ==> (r matches Err(
                GtfGffError::UnknownExtensionError(e),
            ) && e@ == gtf_gff_extension@),
    {
        let mut gtf: Vec<u8> = Vec::new();
        gtf.push('g' as u8);
        gtf.push('t' as u8);
        gtf.push('f' as u8);
        let mut gff: Vec<u8> = Vec::new();
        gff.push('g' as u8);
        gff.push('f' as u8);
        gff.push('f' as u8);
        proof {
            assert(gtf@ =~= gtf_bytes());
            assert(gff@ =~= gff_bytes());
        }
        if bytes_eq(gtf_gff_extension, &gtf) {
            Ok(TuniIdFormatter::Gtf)
        } else if bytes_eq(gtf_gff_extension, &gff) {
            Ok(TuniIdFormatter::Gff)
        } else {
            Err(GtfGffError::UnknownExtensionError(crate::bytes::clone_bytes(gtf_gff_extension)))
        }
    }

    /// Format a unified identifier as an attribute in this dialect.
    pub fn format(&self, unified_id: &Vec<u8>) -> (r: Vec<u8>)
        ensures
            r@ == format_spec(*self, unified_id@),
    {
        let mut out: Vec<u8> = Vec::new();
        out.push(' ' as u8);
        out.push('t' as u8);
        out.push('u' as u8);
        out.push('n' as u8);
        out.push('i' as u8);
        out.push('_' as u8);
        out.push('i' as u8);
        out.push('d' as u8);
        match self {
            TuniIdFormatter::Gtf => {
                out.push(' ' as u8);
                out.push('"' as u8);
                let mut id = crate::bytes::clone_bytes(unified_id);
                out.append(&mut id);
                out.push('"' as u8);
                out.push(';' as u8);
                proof {
                    assert(out@ =~= tuni_attr_gtf(unified_id@));
                }
            },
            TuniIdFormatter::Gff => {
                out.push('=' as u8);
                let mut id = crate::bytes::clone_bytes(unified_id);
                out.append(&mut id);
                out.push(';' as u8);
                proof {
                    assert(out@ =~= tuni_attr_gff(unified_id@));
                }
            },
        }
        out
    }
}

/// A line that pass 2 can process without panicking: a comment, or a
/// line with the nine tab-separated fields of the annotation format.
pub open spec fn line_writable(line: Seq<u8>) -> bool {
    is_comment(line) || line_fields(line).len() >= 9
}

/// The transcript identifier of a line, where one exists.
pub open spec fn line_tid(line: Seq<u8>) -> Seq<u8> {
    match get_transcript_id_spec(line_fields(line)) {
        Option::Some(t) => t,
        Option::None => Seq::empty(),
    }
}

/// A line that carries a transcript identifier with no unified
/// identifier: it passes through unchanged, with a warning.
pub open spec fn line_unresolved(
    line: Seq<u8>,
    sample: Seq<u8>,
    resolution: Map<crate::unify::SampleTranscriptIdView, Seq<u8>>,
) -> bool {
    &&& !is_comment(line)
    &&& get_transcript_id_spec(line_fields(line)) is Some
    &&& !resolution.dom().contains(
        crate::unify::SampleTranscriptIdView { sample, transcript_id: line_tid(line) },
    )
}

/// One output line: a comment, or a line without a transcript
/// identifier, or one whose identifier has no unified identifier, passes
/// through unchanged; otherwise the dialect's attribute is appended.
pub open spec fn rewrite_line_spec(
    line: Seq<u8>,
    sample: Seq<u8>,
    resolution: Map<crate::unify::SampleTranscriptIdView, Seq<u8>>,
    formatter: TuniIdFormatter,
) -> Seq<u8> {
    if is_comment(line) {
        line
    } else {
        match get_transcript_id_spec(line_fields(line)) {
            Option::None => line,
            Option::Some(tid) => {
                let key = crate::unify::SampleTranscriptIdView { sample, transcript_id: tid };
                if resolution.dom().contains(key) {
                    line + format_spec(formatter, resolution[key])
                } else {
                    line
                }
            },
        }
    }
}

/// Law: every output line of the rewrite either gains exactly one
/// appended label attribute — when the line is no comment and carries a
/// resolvable transcript identifier — or is byte-identical to its input
/// line.
pub proof fn lemma_rewrite_line_shape(
    line: Seq<u8>,
    sample: Seq<u8>,
    resolution: Map<crate::unify::SampleTranscriptIdView, Seq<u8>>,
    formatter: TuniIdFormatter,
)
    ensures
        ({
            let out = rewrite_line_spec(line, sample, resolution, formatter);
            let key = crate::unify::SampleTranscriptIdView {
                sample,
                transcript_id: line_tid(line),
            };
            if !is_comment(line) && get_transcript_id_spec(line_fields(line)) is Some
                && resolution.dom().contains(key) {
                out == line + format_spec(formatter, resolution[key])
            } else {
                out == line
            }
        }),
{
}

/// The identifiers of the unresolved lines, in line order.
pub open spec fn unresolved_ids_spec(
    lines: Seq<Seq<u8>>,
    sample: Seq<u8>,
    resolution: Map<crate::unify::SampleTranscriptIdView, Seq<u8>>,
) -> Seq<Seq<u8>>
    decreases lines.len(),
{
    if lines.len() == 0 {
        Seq::empty()
    } else {
        unresolved_ids_spec(lines.drop_last(), sample, resolution) + (if line_unresolved(
            lines.last(),
            sample,
            resolution,
        ) {
            seq![line_tid(lines.last())]
        } else {
            Seq::empty()
        })
    }
}

/// The rewritten lines of one annotation file, with the identifiers that
/// could not be resolved.
#[derive(Debug)]
pub struct UnifiedGtfGff {
    /// One output line per input line, in order.
    pub lines: Vec<Vec<u8>>,
    /// The transcript identifier of each unresolved line, in line order:
    /// those lines passed through unchanged and deserve a warning.
    pub unresolved: Vec<Vec<u8>>,
}

/// Rewrite one line (see `rewrite_line_spec`), also handing back the
/// identifier when it had no unified identifier.
fn rewrite_line(
    line: &Vec<u8>,
    gtf_gff_file_name: &Vec<u8>,
    transcript_unifier: &crate::unify::TranscriptUnifier,
    formatter: &TuniIdFormatter,
) -> (r: (Vec<u8>, Option<Vec<u8>>))
    requires
        line_writable(line@),
        transcript_unifier.inv(),
    ensures
        r.0@ == rewrite_line_spec(
            line@,
            gtf_gff_file_name@,
            transcript_unifier.resolution(),
            *formatter,
        ),
        line_unresolved(line@, gtf_gff_file_name@, transcript_unifier.resolution()) ==> (
        r.1 matches Some(t) && t@ == line_tid(line@)),
        !line_unresolved(line@, gtf_gff_file_name@, transcript_unifier.resolution()) ==> r.1
            is None,
{
    let commented = line.len() > 0 && line[0] == '#' as u8;
    if commented {
        return (crate::bytes::clone_bytes(line), None);
    }
    let fields = split(line, '\t' as u8);
    match GtfGffRecord::get_transcript_id(&fields) {
        None => (crate::bytes::clone_bytes(line), None),
        Some(tid) => {
            let key = crate::unify::SampleTranscriptId {
                sample: crate::bytes::clone_bytes(gtf_gff_file_name),
                transcript_id: tid,
            };
            match transcript_unifier.get_unified_id(&key) {
                Some(uid) => {
                    let mut out = crate::bytes::clone_bytes(line);
                    let mut attr = formatter.format(uid);
                    out.append(&mut attr);
                    (out, None)
                },
                None => (crate::bytes::clone_bytes(line), Some(key.transcript_id)),
            }
        },
    }
}

/// Rewrite one annotation file with unified transcript identifiers.
///
/// Every line whose transcript identifier has a unified identifier gains
/// exactly one appended attribute in the dialect of the extension; every
/// other line is returned unchanged. Identifiers without a unified
/// identifier are collected for warnings; they never fail the rewrite.
///
/// Returns `UnknownExtensionError` exactly when the extension is neither
/// "gtf" nor "gff".
pub fn write_unified_gtf_gff(
    gtf_gff_extension: &Vec<u8>,
    lines: &Vec<Vec<u8>>,
    gtf_gff_file_name: &Vec<u8>,
    transcript_unifier: &crate::unify::TranscriptUnifier,
) -> (r: Result<UnifiedGtfGff, GtfGffError>)
    requires
        forall|i: int| 0 <= i < lines@.len() ==> line_writable(#[trigger] deep(lines@)[i]),
        transcript_unifier.inv(),
    ensures
        formatter_of(gtf_gff_extension@) matches Some(f) ==> r matches Ok(out) && {
            &&& out.lines@.len() == lines@.len()
            &&& forall|i: int|
                0 <= i < lines@.len() ==> #[trigger] deep(out.lines@)[i] == rewrite_line_spec(
                    deep(lines@)[i],
                    gtf_gff_file_name@,
                    transcript_unifier.resolution(),
                    f,
                )
            &&& deep(out.unresolved@) == unresolved_ids_spec(
                deep(lines@),
                gtf_gff_file_name@,
                transcript_unifier.resolution(),
            )
        },
        formatter_of(gtf_gff_extension@) is None ==> (r matches Err(
            GtfGffError::UnknownExtensionError(e),
        ) && e@ == gtf_gff_extension@),
{
    let formatter = match TuniIdFormatter::from(gtf_gff_extension) {
        Ok(f) => f,
        Err(e) => {
            return Err(e);
        },
    };
    let n: usize = lines.len();
    let mut out_lines: Vec<Vec<u8>> = Vec::new();
    let mut unresolved: Vec<Vec<u8>> = Vec::new();
    let mut i: usize = 0;
    proof {
        assert(deep(lines@).take(0) =~= Seq::<Seq<u8>>::empty());
        assert(deep(unresolved@) =~= Seq::<Seq<u8>>::empty());
    }
    while i < n
        invariant
            0 <= i <= n,
            n == lines@.len(),
            forall|k: int| 0 <= k < lines@.len() ==> line_writable(#[trigger] deep(lines@)[k]),
            transcript_unifier.inv(),
            out_lines@.len() == i,
            forall|k: int|
                0 <= k < i ==> #[trigger] deep(out_lines@)[k] == rewrite_line_spec(
                    deep(lines@)[k],
                    gtf_gff_file_name@,
                    transcript_unifier.resolution(),
                    formatter,
                ),
            deep(unresolved@) == unresolved_ids_spec(
                deep(lines@).take(i as int),
                gtf_gff_file_name@,
                transcript_unifier.resolution(),
            ),
        decreases n - i,
    {
        let ghost prev_out = deep(out_lines@);
        let ghost prev_unres = deep(unresolved@);
        proof {
            assert(deep(lines@).take(i + 1).drop_last() =~= deep(lines@).take(i as int));
            assert(deep(lines@).take(i + 1).last() == deep(lines@)[i as int]);
        }
        let (out_line, unresolved_id) = rewrite_line(
            &lines[i],
            gtf_gff_file_name,
            transcript_unifier,
            &formatter,
        );
        out_lines.push(out_line);
        proof {
            assert(deep(out_lines@) =~= prev_out.push(out_lines@.last()@));
        }
        match unresolved_id {
            Some(t) => {
                unresolved.push(t);
                proof {
                    assert(deep(unresolved@) =~= prev_unres.push(unresolved@.last()@));
                    assert(deep(unresolved@) =~= unresolved_ids_spec(
                        deep(lines@).take(i + 1),
                        gtf_gff_file_name@,
                        transcript_unifier.resolution(),
                    ));
                }
            },
            None => {
                proof {
                    assert(deep(unresolved@) =~= unresolved_ids_spec(
                        deep(lines@).take(i + 1),
                        gtf_gff_file_name@,
                        transcript_unifier.resolution(),
                    ));
                }
            },
        }
        i = i + 1;
    }
    proof {
        assert(deep(lines@).take(n as int) =~= deep(lines@));
    }
    Ok(UnifiedGtfGff { lines: out_lines, unresolved })
}

/// Isolate only the file name from a full path: everything after the
/// last '/' (the whole path when it has none).
///
/// "/path/to/a.gtf" -> "a.gtf"
pub open spec fn file_name_spec(path: Seq<u8>) -> Seq<u8> {
    split_spec(path, '/' as u8).last()
}

/// Isolate only the file name from a full path.
pub fn extract_file_name(gtf_gff_path: &Vec<u8>) -> (r: Vec<u8>)
    ensures
        r@ == file_name_spec(gtf_gff_path@),
{
    let mut parts = split(gtf_gff_path, '/' as u8);
    let ghost all = deep(parts@);
    match parts.pop() {
        Some(last) => {
            proof {
                assert(last@ == all.last());
            }
            last
        },
        None => vstd::pervasive::unreached(),
    }
}

} // verus!
