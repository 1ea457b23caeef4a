//! Unify transcript identifiers across annotation files.
//!
//! Structurally identical transcripts — same chromosome, strand, exon
//! boundary set and CDS boundary set — from any number of annotation
//! files are grouped under one deterministic label. Pass 1 reads each
//! file into a per-file signature map and merges it into the global
//! grouping; labels are then assigned once, in signature order; pass 2
//! rewrites each file, appending the resolved label to every line whose
//! transcript identifier was grouped.

use vstd::prelude::*;

pub mod boundary;
pub mod bytes;
pub mod error;
pub mod gtf_gff;
pub mod text;
pub mod unify;

use crate::bytes::deep;
use crate::error::GtfGffError;
use crate::gtf_gff::{
    accum_map_spec, extract_file_name, file_name_spec, formatter_of, line_fields,
    line_missing_id, line_writable, read_gtf_gff, rewrite_line_spec, unresolved_ids_spec,
    write_unified_gtf_gff, TranscriptSignatureView, TuniIdFormatter, UnifiedGtfGff,
};
use crate::unify::{merged_groups, resolution_props, SampleTranscriptIdView, TranscriptUnifier};

verus! {

/// One annotation file handed to a run: its path and its lines. The
/// caller owns reading the file; the sample name is the path's file
/// name.
pub struct GtfGffFile {
    /// The path of the annotation file.
    pub gtf_gff_path: Vec<u8>,
    /// The file's lines, in order, without line terminators.
    pub lines: Vec<Vec<u8>>,
}

/// An annotation file as mathematical values.
#[verifier::ext_equal]
pub ghost struct GtfGffFileView {
    pub path: Seq<u8>,
    pub lines: Seq<Seq<u8>>,
}

impl View for GtfGffFile {
    type V = GtfGffFileView;

    open spec fn view(&self) -> GtfGffFileView {
        GtfGffFileView { path: self.gtf_gff_path@, lines: deep(self.lines@) }
    }
}

/// The views of a vector of annotation files.
pub open spec fn file_views(files: Seq<GtfGffFile>) -> Seq<GtfGffFileView> {
    files.map_values(|f: GtfGffFile| f@)
}

/// Every line of the file can be processed: a comment, or nine
/// tab-separated fields.
pub open spec fn file_ok(f: GtfGffFileView) -> bool {
    forall|i: int| 0 <= i < f.lines.len() ==> line_writable(#[trigger] f.lines[i])
}

/// Some qualifying line of the file lacks a transcript identifier.
pub open spec fn file_has_missing_id(f: GtfGffFileView) -> bool {
    exists|i: int| 0 <= i < f.lines.len() && line_missing_id(#[trigger] f.lines[i])
}

/// Every qualifying line of every file carries a transcript identifier.
pub open spec fn all_ids_present(files: Seq<GtfGffFileView>) -> bool {
    forall|f: int| 0 <= f < files.len() ==> !file_has_missing_id(#[trigger] files[f])
}

/// The grouping map accumulated over all files, in order: each file's
/// per-file signature map merged under the file's name.
pub open spec fn merged_all(files: Seq<GtfGffFileView>) -> Map<
    TranscriptSignatureView,
    Set<SampleTranscriptIdView>,
>
    decreases files.len(),
{
    if files.len() == 0 {
        Map::empty()
    } else {
        merged_groups(
            merged_all(files.drop_last()),
            file_name_spec(files.last().path),
            accum_map_spec(files.last().lines),
        )
    }
}

/// The grouping merged over any files is finite and holds only
/// signatures with canonically laid out boundary sets.
pub proof fn lemma_merged_all_wf(files: Seq<GtfGffFileView>)
    ensures
        merged_all(files).dom().finite(),
        forall|s: TranscriptSignatureView|
            #[trigger] merged_all(files).dom().contains(s) ==> crate::gtf_gff::sig_view_wf(s),
    decreases files.len(),
{
    if files.len() == 0 {
        assert(merged_all(files).dom() =~= Set::<TranscriptSignatureView>::empty());
    } else {
        let rest = files.drop_last();
        lemma_merged_all_wf(rest);
        let g = merged_all(rest);
        let m = accum_map_spec(files.last().lines);
        crate::gtf_gff::lemma_accum_sigs_wf(files.last().lines);
        vstd::map_lib::lemma_values_finite(m);
        assert(merged_all(files).dom() =~= g.dom().union(m.values()));
        assert forall|s: TranscriptSignatureView|
            #[trigger] merged_all(files).dom().contains(s) implies crate::gtf_gff::sig_view_wf(
            s,
        ) by {
            if !g.dom().contains(s) {
                let id = choose|id: Seq<u8>| #[trigger] m.dom().contains(id) && m[id] == s;
            }
        }
    }
}

/// One rewritten file agrees with its input: each line rewritten under
/// the resolution map, and the unresolved identifiers collected in line
/// order.
pub open spec fn file_output_matches(
    f: GtfGffFileView,
    out: UnifiedGtfGff,
    resolution: Map<SampleTranscriptIdView, Seq<u8>>,
    formatter: TuniIdFormatter,
) -> bool {
    &&& out.lines@.len() == f.lines.len()
    &&& forall|i: int|
        0 <= i < f.lines.len() ==> #[trigger] deep(out.lines@)[i] == rewrite_line_spec(
            f.lines[i],
            file_name_spec(f.path),
            resolution,
            formatter,
        )
    &&& deep(out.unresolved@) == unresolved_ids_spec(f.lines, file_name_spec(f.path), resolution)
}

/// Every rewritten file agrees with its input.
pub open spec fn outputs_match(
    files: Seq<GtfGffFileView>,
    outs: Seq<UnifiedGtfGff>,
    resolution: Map<SampleTranscriptIdView, Seq<u8>>,
    formatter: TuniIdFormatter,
) -> bool {
    &&& outs.len() == files.len()
    &&& forall|f: int|
        0 <= f < files.len() ==> #[trigger] file_output_matches(
            files[f],
            outs[f],
            resolution,
            formatter,
        )
}

/// The resolution map of a run over `files`: the one map satisfying the
/// labeling properties for the merged grouping of all files (one exists
/// for every run, and `lemma_resolution_unique` shows there are no
/// others). A function of the input files alone.
pub open spec fn run_resolution(files: Seq<GtfGffFileView>) -> Map<
    SampleTranscriptIdView,
    Seq<u8>,
> {
    choose|r: Map<SampleTranscriptIdView, Seq<u8>>| resolution_props(merged_all(files), r)
}

/// Law: repeated runs over the same ordered list of input files produce
/// identical label assignments and identical output lines. The labeling
/// properties determine the resolution map of a run's files completely,
/// so any two sets of outputs produced for those files agree.
pub proof fn lemma_run_deterministic(
    files: Seq<GtfGffFileView>,
    outs1: Seq<UnifiedGtfGff>,
    outs2: Seq<UnifiedGtfGff>,
    r1: Map<SampleTranscriptIdView, Seq<u8>>,
    r2: Map<SampleTranscriptIdView, Seq<u8>>,
    formatter: TuniIdFormatter,
)
    requires
        resolution_props(merged_all(files), r1),
        outputs_match(files, outs1, r1, formatter),
        resolution_props(merged_all(files), r2),
        outputs_match(files, outs2, r2, formatter),
    ensures
        r1 == r2,
        forall|f: int|
            0 <= f < files.len() ==> deep(#[trigger] outs1[f].lines@) == deep(outs2[f].lines@)
                && deep(outs1[f].unresolved@) == deep(outs2[f].unresolved@),
{
    lemma_merged_all_wf(files);
    crate::unify::lemma_resolution_unique(merged_all(files), r1, r2);
    assert forall|f: int|
        0 <= f < files.len() implies deep(#[trigger] outs1[f].lines@) == deep(outs2[f].lines@)
        && deep(outs1[f].unresolved@) == deep(outs2[f].unresolved@) by {
        assert(file_output_matches(files[f], outs1[f], r1, formatter));
        assert(file_output_matches(files[f], outs2[f], r2, formatter));
        assert(deep(outs1[f].lines@) =~= deep(outs2[f].lines@));
    }
}

/// Run the whole unification over the given files, in order: accumulate
/// every file's transcripts, group them, assign labels in signature
/// order, and rewrite every file.
///
/// Succeeds exactly when every qualifying line carries a transcript
/// identifier and the extension is "gtf" or "gff" (or there are no
/// files). The outputs are rewritten under `run_resolution` — the one
/// resolution map satisfying the labeling properties for the merged
/// grouping of all files, a function of the input files alone.
pub fn run(gtf_gff_extension: &Vec<u8>, gtf_gff_files: &Vec<GtfGffFile>) -> (r: Result<
    Vec<UnifiedGtfGff>,
    GtfGffError,
>)
    requires
        forall|f: int|
            0 <= f < gtf_gff_files@.len() ==> file_ok(#[trigger] file_views(gtf_gff_files@)[f]),
    ensures
        r matches Ok(outs) ==> {
            &&& all_ids_present(file_views(gtf_gff_files@))
            &&& outs@.len() == gtf_gff_files@.len()
            &&& (gtf_gff_files@.len() > 0 ==> formatter_of(gtf_gff_extension@) is Some)
            &&& resolution_props(
                merged_all(file_views(gtf_gff_files@)),
                run_resolution(file_views(gtf_gff_files@)),
            )
            &&& (formatter_of(gtf_gff_extension@) matches Some(fmt) ==> outputs_match(
                file_views(gtf_gff_files@),
                outs@,
                run_resolution(file_views(gtf_gff_files@)),
                fmt,
            ))
        },
        !all_ids_present(file_views(gtf_gff_files@)) ==> (r matches Err(
            GtfGffError::MissingTranscriptIdError(l),
        ) && exists|f: int|
            {
                &&& 0 <= f < gtf_gff_files@.len()
                &&& file_has_missing_id(#[trigger] file_views(gtf_gff_files@)[f])
                &&& forall|f2: int|
                    0 <= f2 < f ==> !file_has_missing_id(
                        #[trigger] file_views(gtf_gff_files@)[f2],
                    )
                &&& exists|i: int|
                    {
                        &&& 0 <= i < file_views(gtf_gff_files@)[f].lines.len()
                        &&& line_missing_id(#[trigger] file_views(gtf_gff_files@)[f].lines[i])
                        &&& forall|j: int|
                            0 <= j < i ==> !line_missing_id(
                                #[trigger] file_views(gtf_gff_files@)[f].lines[j],
                            )
                        &&& l@ == crate::text::join_spec(
                            line_fields(file_views(gtf_gff_files@)[f].lines[i]),
                            '\t' as u8,
                        )
                    }
            }),
        all_ids_present(file_views(gtf_gff_files@)) && gtf_gff_files@.len() > 0 && formatter_of(
            gtf_gff_extension@,
        ) is None ==> (r matches Err(GtfGffError::UnknownExtensionError(e)) && e@
            == gtf_gff_extension@),
        all_ids_present(file_views(gtf_gff_files@)) && (gtf_gff_files@.len() == 0 || formatter_of(
            gtf_gff_extension@,
        ) is Some) ==> r is Ok,
{
    let ghost fvs = file_views(gtf_gff_files@);
    let mut transcript_unifier = TranscriptUnifier::new();
    let nf: usize = gtf_gff_files.len();
    let mut f: usize = 0;
    proof {
        assert(fvs.take(0) =~= Seq::<GtfGffFileView>::empty());
    }
    while f < nf
        invariant
            0 <= f <= nf,
            nf == gtf_gff_files@.len(),
            fvs == file_views(gtf_gff_files@),
            forall|k: int| 0 <= k < nf ==> file_ok(#[trigger] fvs[k]),
            transcript_unifier.inv(),
            transcript_unifier.groups() == merged_all(fvs.take(f as int)),
            forall|k: int| 0 <= k < f ==> !file_has_missing_id(#[trigger] fvs[k]),
        decreases nf - f,
    {
        let ghost fv = fvs[f as int];
        proof {
            assert(fv.lines == deep(gtf_gff_files@[f as int].lines@));
            assert forall|i: int|
                0 <= i < gtf_gff_files@[f as int].lines@.len() implies crate::gtf_gff::line_readable(
                #[trigger] deep(gtf_gff_files@[f as int].lines@)[i],
            ) by {
                assert(line_writable(fv.lines[i]));
            }
        }
        let file = &gtf_gff_files[f];
        let mut transcripts = match read_gtf_gff(&file.lines) {
            Ok(m) => m,
            Err(e) => {
                proof {
                    assert(file_has_missing_id(fv));
                }
                return Err(e);
            },
        };
        let gtf_gff_file_name = extract_file_name(&file.gtf_gff_path);
        transcript_unifier.group_transcripts(gtf_gff_file_name, &mut transcripts);
        proof {
            assert(fvs.take(f + 1).drop_last() =~= fvs.take(f as int));
            assert(fvs.take(f + 1).last() == fv);
            assert(!file_has_missing_id(fv));
        }
        f = f + 1;
    }
    proof {
        assert(fvs.take(nf as int) =~= fvs);
    }
    transcript_unifier.unify_transcripts();
    let ghost resolution = transcript_unifier.resolution();
    proof {
        assert(resolution_props(merged_all(fvs), resolution));
    }
    let mut unified_gtf_gffs: Vec<UnifiedGtfGff> = Vec::new();
    let mut w: usize = 0;
    while w < nf
        invariant
            0 <= w <= nf,
            nf == gtf_gff_files@.len(),
            fvs == file_views(gtf_gff_files@),
            forall|k: int| 0 <= k < nf ==> file_ok(#[trigger] fvs[k]),
            forall|k: int| 0 <= k < nf ==> !file_has_missing_id(#[trigger] fvs[k]),
            transcript_unifier.inv(),
            transcript_unifier.resolution() == resolution,
            resolution_props(merged_all(fvs), resolution),
            unified_gtf_gffs@.len() == w,
            w > 0 ==> formatter_of(gtf_gff_extension@) is Some,
            forall|k: int, fmt: TuniIdFormatter|
                0 <= k < w && formatter_of(gtf_gff_extension@) == Some(fmt)
                    ==> #[trigger] file_output_matches(
                    fvs[k],
                    unified_gtf_gffs@[k],
                    resolution,
                    fmt,
                ),
        decreases nf - w,
    {
        let ghost fv = fvs[w as int];
        proof {
            assert(fv.lines == deep(gtf_gff_files@[w as int].lines@));
        }
        let file = &gtf_gff_files[w];
        let gtf_gff_file_name = extract_file_name(&file.gtf_gff_path);
        match write_unified_gtf_gff(
            gtf_gff_extension,
            &file.lines,
            &gtf_gff_file_name,
            &transcript_unifier,
        ) {
            Ok(out) => {
                unified_gtf_gffs.push(out);
            },
            Err(e) => {
                return Err(e);
            },
        }
        w = w + 1;
    }
    proof {
        // The run's resolution map satisfies the labeling properties, and
        // those properties have only one solution.
        assert(resolution_props(merged_all(fvs), run_resolution(fvs))) by {
            assert(resolution_props(merged_all(fvs), resolution));
        }
        lemma_merged_all_wf(fvs);
        crate::unify::lemma_resolution_unique(merged_all(fvs), run_resolution(fvs), resolution);
        if formatter_of(gtf_gff_extension@) is Some {
            let fmt = formatter_of(gtf_gff_extension@)->0;
            assert(outputs_match(fvs, unified_gtf_gffs@, run_resolution(fvs), fmt));
        }
    }
    Ok(unified_gtf_gffs)
}

} // verus!
