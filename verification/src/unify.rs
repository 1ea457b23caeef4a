//! Unify transcript identifiers across different samples.
//!
//! Transcripts that share one `TranscriptSignature` are grouped across all
//! samples, the groups are held in the signatures' total order, and each
//! group is assigned one label, "tuni_" followed by the group's rank. The
//! order never depends on file-processing or arrival order, so repeated
//! runs over the same inputs assign the same labels.

use vstd::prelude::*;

use crate::bytes::{bytes_eq, clone_bytes, Comparison};
use crate::gtf_gff::{
    lemma_sig_view_lt_asymmetric, lemma_sig_view_lt_connected, lemma_sig_view_lt_irreflexive,
    lemma_sig_view_lt_transitive, sig_view_lt, sig_view_wf, TranscriptMap,
    TranscriptSignature, TranscriptSignatureView,
};

verus! {

/// Sample name grouped with a transcript identifier.
///
/// Identifies one transcript occurrence across samples: separate samples
/// may use the same identifier for different transcripts.
#[derive(Debug)]
pub struct SampleTranscriptId {
    /// The sample: the name of the annotation file.
    pub sample: Vec<u8>,
    /// The transcript identifier within that sample.
    pub transcript_id: Vec<u8>,
}

/// A sample/identifier pair as mathematical values.
#[verifier::ext_equal]
pub ghost struct SampleTranscriptIdView {
    pub sample: Seq<u8>,
    pub transcript_id: Seq<u8>,
}

impl View for SampleTranscriptId {
    type V = SampleTranscriptIdView;

    open spec fn view(&self) -> SampleTranscriptIdView {
        SampleTranscriptIdView { sample: self.sample@, transcript_id: self.transcript_id@ }
    }
}

impl SampleTranscriptId {
    /// An owned copy.
    pub fn duplicate(&self) -> (r: SampleTranscriptId)
        ensures
            r@ == self@,
    {
        SampleTranscriptId {
            sample: clone_bytes(&self.sample),
            transcript_id: clone_bytes(&self.transcript_id),
        }
    }

    /// Whether two pairs are the same occurrence.
    pub fn same(&self, other: &SampleTranscriptId) -> (r: bool)
        ensures
            r == (self@ == other@),
    {
        let r = bytes_eq(&self.sample, &other.sample) && bytes_eq(
            &self.transcript_id,
            &other.transcript_id,
        );
        proof {
            if r {
                assert(self@ =~= other@);
            }
        }
        r
    }
}

/// The prefix "tuni_" of every unified identifier.
pub open spec fn unified_id_prefix() -> Seq<u8> {
    seq!['t' as u8, 'u' as u8, 'n' as u8, 'i' as u8, '_' as u8]
}

/// The decimal digits of `n`, most significant first, no leading zeros.
pub open spec fn dec_spec(n: nat) -> Seq<u8>
    decreases n,
{
    if n < 10 {
        seq![(n + 48) as u8]
    } else {
        dec_spec(n / 10).push((n % 10 + 48) as u8)
    }
}

/// The unified identifier of the group with rank `n`: "tuni_" then the
/// rank in decimal.
pub open spec fn unified_id_spec(n: nat) -> Seq<u8> {
    unified_id_prefix() + dec_spec(n)
}

proof fn lemma_dec_spec_len(n: nat)
    ensures
        dec_spec(n).len() >= 1,
        n >= 10 ==> dec_spec(n).len() >= 2,
    decreases n,
{
    if n >= 10 {
        lemma_dec_spec_len(n / 10);
    }
}

/// Distinct numbers have distinct decimal renderings.
pub proof fn lemma_dec_spec_injective(a: nat, b: nat)
    requires
        dec_spec(a) == dec_spec(b),
    ensures
        a == b,
    decreases a,
{
    lemma_dec_spec_len(a);
    lemma_dec_spec_len(b);
    if a < 10 && b < 10 {
        assert(dec_spec(a)[0] == (a + 48) as u8 && dec_spec(b)[0] == (b + 48) as u8);
        assert((a + 48) as u8 == a + 48 && (b + 48) as u8 == b + 48);
    } else if a < 10 {
        assert(dec_spec(a).len() == 1);
    } else if b < 10 {
        assert(dec_spec(b).len() == 1);
    } else {
        assert(dec_spec(a) == dec_spec(a / 10).push((a % 10 + 48) as u8));
        assert(dec_spec(b) == dec_spec(b / 10).push((b % 10 + 48) as u8));
        assert(a % 10 < 10 && b % 10 < 10);
        assert((a % 10 + 48) as u8 == a % 10 + 48);
        assert((b % 10 + 48) as u8 == b % 10 + 48);
        assert(dec_spec(a).last() == (a % 10 + 48) as u8);
        assert(dec_spec(b).last() == (b % 10 + 48) as u8);
        assert(a % 10 == b % 10);
        assert(dec_spec(a).drop_last() =~= dec_spec(a / 10));
        assert(dec_spec(b).drop_last() =~= dec_spec(b / 10));
        lemma_dec_spec_injective(a / 10, b / 10);
        assert(a == 10 * (a / 10) + a % 10) by {
            vstd::arithmetic::div_mod::lemma_fundamental_div_mod(a as int, 10);
        }
        assert(b == 10 * (b / 10) + b % 10) by {
            vstd::arithmetic::div_mod::lemma_fundamental_div_mod(b as int, 10);
        }
    }
}

/// Distinct ranks get distinct unified identifiers.
pub proof fn lemma_unified_id_injective(a: nat, b: nat)
    requires
        unified_id_spec(a) == unified_id_spec(b),
    ensures
        a == b,
{
    assert(dec_spec(a) =~= unified_id_spec(a).skip(5));
    assert(dec_spec(b) =~= unified_id_spec(b).skip(5));
    lemma_dec_spec_injective(a, b);
}

/// Append the decimal digits of `n`.
fn push_dec(v: &mut Vec<u8>, n: usize)
    ensures
        final(v)@ == old(v)@ + dec_spec(n as nat),
    decreases n,
{
    if n < 10 {
        v.push((n as u8) + 48);
        proof {
            assert(v@ =~= old(v)@ + dec_spec(n as nat));
        }
    } else {
        let ghost mid = old(v)@ + dec_spec(n as nat / 10);
        push_dec(v, n / 10);
        v.push(((n % 10) as u8) + 48);
        proof {
            assert(v@ =~= mid.push((n as nat % 10 + 48) as u8));
            assert(v@ =~= old(v)@ + dec_spec(n as nat));
        }
    }
}

/// The unified identifier of the group with rank `n`.
pub fn unified_id(n: usize) -> (r: Vec<u8>)
    ensures
        r@ == unified_id_spec(n as nat),
{
    let mut v: Vec<u8> = Vec::new();
    v.push('t' as u8);
    v.push('u' as u8);
    v.push('n' as u8);
    v.push('i' as u8);
    v.push('_' as u8);
    proof {
        assert(v@ =~= unified_id_prefix());
    }
    push_dec(&mut v, n);
    v
}

/// One equivalence class: a signature and every sample/identifier pair
/// that produced it.
struct GroupEntry {
    signature: TranscriptSignature,
    sample_transcript_ids: Vec<SampleTranscriptId>,
}

/// One resolved pair: a sample/identifier pair and its unified identifier.
struct UnifiedEntry {
    sample_transcript_id: SampleTranscriptId,
    unified_id: Vec<u8>,
}

/// The views of a vector of sample/identifier pairs.
pub open spec fn key_views(s: Seq<SampleTranscriptId>) -> Seq<SampleTranscriptIdView> {
    s.map_values(|k: SampleTranscriptId| k@)
}

/// The rank of a signature among a set of signatures: how many of them
/// are smaller. Ranks number the signatures 0, 1, 2, ... in their total
/// order.
pub open spec fn sig_rank(s: TranscriptSignatureView, dom: Set<TranscriptSignatureView>) -> nat {
    dom.filter(|t: TranscriptSignatureView| sig_view_lt(t, s)).len()
}

/// The grouping map held by a sequence of group entries.
spec fn groups_of(entries: Seq<GroupEntry>) -> Map<
    TranscriptSignatureView,
    Set<SampleTranscriptIdView>,
>
    decreases entries.len(),
{
    if entries.len() == 0 {
        Map::empty()
    } else {
        groups_of(entries.drop_last()).insert(
            entries.last().signature@,
            key_views(entries.last().sample_transcript_ids@).to_set(),
        )
    }
}

/// The resolution map held by a sequence of resolved pairs.
spec fn resolution_of(entries: Seq<UnifiedEntry>) -> Map<SampleTranscriptIdView, Seq<u8>>
    decreases entries.len(),
{
    if entries.len() == 0 {
        Map::empty()
    } else {
        resolution_of(entries.drop_last()).insert(
            entries.last().sample_transcript_id@,
            entries.last().unified_id@,
        )
    }
}

spec fn distinct_sig_views(entries: Seq<GroupEntry>) -> bool {
    forall|i: int, j: int|
        0 <= i < j < entries.len() ==> #[trigger] entries[i].signature@ != #[trigger] entries[j].signature@
}

/// Group entries strictly ascending in the signature order.
spec fn groups_sorted(entries: Seq<GroupEntry>) -> bool {
    forall|i: int, j: int|
        0 <= i < j < entries.len() ==> sig_view_lt(
            #[trigger] entries[i].signature@,
            #[trigger] entries[j].signature@,
        )
}

proof fn lemma_sorted_distinct(entries: Seq<GroupEntry>)
    requires
        groups_sorted(entries),
    ensures
        distinct_sig_views(entries),
{
    assert forall|i: int, j: int| 0 <= i < j < entries.len() implies #[trigger] entries[i].signature@
        != #[trigger] entries[j].signature@ by {
        lemma_sig_view_lt_irreflexive(entries[i].signature@);
    }
}

/// What `groups_of` holds, entry by entry, when signature views are
/// distinct.
proof fn lemma_groups_of_entries(entries: Seq<GroupEntry>)
    requires
        distinct_sig_views(entries),
    ensures
        groups_of(entries).dom().finite(),
        groups_of(entries).dom().len() == entries.len(),
        forall|i: int|
            0 <= i < entries.len() ==> groups_of(entries).dom().contains(
                #[trigger] entries[i].signature@,
            ) && groups_of(entries)[entries[i].signature@] == key_views(
                entries[i].sample_transcript_ids@,
            ).to_set(),
        forall|s: TranscriptSignatureView|
            groups_of(entries).dom().contains(s) ==> exists|i: int|
                0 <= i < entries.len() && #[trigger] entries[i].signature@ == s,
    decreases entries.len(),
{
    if entries.len() > 0 {
        let rest = entries.drop_last();
        assert(distinct_sig_views(rest)) by {
            assert(forall|i: int|
                0 <= i < rest.len() ==> rest[i].signature@ == #[trigger] entries[i].signature@);
        }
        lemma_groups_of_entries(rest);
        assert(!groups_of(rest).dom().contains(entries.last().signature@)) by {
            if groups_of(rest).dom().contains(entries.last().signature@) {
                let i = choose|i: int|
                    0 <= i < rest.len() && #[trigger] rest[i].signature@
                        == entries.last().signature@;
                assert(entries[i].signature@ != entries[entries.len() - 1].signature@);
            }
        }
        assert(forall|i: int|
            0 <= i < rest.len() ==> rest[i].signature@ == #[trigger] entries[i].signature@
                && rest[i].sample_transcript_ids@ == entries[i].sample_transcript_ids@);
    }
}

spec fn distinct_keys(entries: Seq<UnifiedEntry>) -> bool {
    forall|i: int, j: int|
        0 <= i < j < entries.len() ==> #[trigger] entries[i].sample_transcript_id@
            != #[trigger] entries[j].sample_transcript_id@
}

/// What `resolution_of` holds, entry by entry, when keys are distinct.
proof fn lemma_resolution_of_entries(entries: Seq<UnifiedEntry>)
    requires
        distinct_keys(entries),
    ensures
        resolution_of(entries).dom().finite(),
        forall|i: int|
            0 <= i < entries.len() ==> resolution_of(entries).dom().contains(
                #[trigger] entries[i].sample_transcript_id@,
            ) && resolution_of(entries)[entries[i].sample_transcript_id@]
                == entries[i].unified_id@,
        forall|k: SampleTranscriptIdView|
            resolution_of(entries).dom().contains(k) ==> exists|i: int|
                0 <= i < entries.len() && #[trigger] entries[i].sample_transcript_id@ == k,
    decreases entries.len(),
{
    if entries.len() > 0 {
        let rest = entries.drop_last();
        assert forall|i: int, j: int| 0 <= i < j < rest.len() implies #[trigger] rest[i].sample_transcript_id@
            != #[trigger] rest[j].sample_transcript_id@ by {
            assert(rest[i] == entries[i] && rest[j] == entries[j]);
        }
        assert(distinct_keys(rest));
        lemma_resolution_of_entries(rest);
        assert(forall|i: int|
            0 <= i < rest.len() ==> rest[i].sample_transcript_id@
                == #[trigger] entries[i].sample_transcript_id@ && rest[i].unified_id@
                == entries[i].unified_id@);
        assert forall|k: SampleTranscriptIdView|
            resolution_of(entries).dom().contains(k) implies exists|i: int|
                0 <= i < entries.len() && #[trigger] entries[i].sample_transcript_id@ == k by {
            if k == entries.last().sample_transcript_id@ {
                assert(entries[entries.len() - 1].sample_transcript_id@ == k);
            } else {
                let i = choose|i: int|
                    0 <= i < rest.len() && #[trigger] rest[i].sample_transcript_id@ == k;
                assert(entries[i].sample_transcript_id@ == k);
            }
        }
    }
}

/// One sample/identifier pair added to its signature's group, the group
/// created if absent.
spec fn groups_insert_view(
    groups: Map<TranscriptSignatureView, Set<SampleTranscriptIdView>>,
    s: TranscriptSignatureView,
    k: SampleTranscriptIdView,
) -> Map<TranscriptSignatureView, Set<SampleTranscriptIdView>> {
    groups.insert(
        s,
        (if groups.dom().contains(s) {
            groups[s]
        } else {
            Set::empty()
        }).insert(k),
    )
}

/// A whole per-file map folded into a grouping map: for every transcript
/// of the file, the pair (sample, identifier) joins the group of the
/// transcript's signature.
pub open spec fn merged_groups(
    groups: Map<TranscriptSignatureView, Set<SampleTranscriptIdView>>,
    sample: Seq<u8>,
    transcripts: Map<Seq<u8>, TranscriptSignatureView>,
) -> Map<TranscriptSignatureView, Set<SampleTranscriptIdView>> {
    Map::new(
        |s: TranscriptSignatureView|
            groups.dom().contains(s) || (exists|id: Seq<u8>|
                #[trigger] transcripts.dom().contains(id) && transcripts[id] == s),
        |s: TranscriptSignatureView|
            (if groups.dom().contains(s) {
                groups[s]
            } else {
                Set::empty()
            }).union(
                Set::new(
                    |k: SampleTranscriptIdView|
                        k.sample == sample && transcripts.dom().contains(k.transcript_id)
                            && transcripts[k.transcript_id] == s,
                ),
            ),
    )
}

/// Merging an empty per-file map changes nothing.
proof fn lemma_merged_groups_empty(
    groups: Map<TranscriptSignatureView, Set<SampleTranscriptIdView>>,
    sample: Seq<u8>,
)
    ensures
        merged_groups(groups, sample, Map::empty()) == groups,
{
    assert(merged_groups(groups, sample, Map::<Seq<u8>, TranscriptSignatureView>::empty())
        =~~= groups);
}

/// Moving one transcript from the per-file map into its group keeps the
/// final merge unchanged.
proof fn lemma_merge_step(
    groups: Map<TranscriptSignatureView, Set<SampleTranscriptIdView>>,
    sample: Seq<u8>,
    transcripts: Map<Seq<u8>, TranscriptSignatureView>,
    id: Seq<u8>,
    k: SampleTranscriptIdView,
)
    requires
        transcripts.dom().contains(id),
        k == (SampleTranscriptIdView { sample, transcript_id: id }),
    ensures
        merged_groups(
            groups_insert_view(groups, transcripts[id], k),
            sample,
            transcripts.remove(id),
        ) == merged_groups(groups, sample, transcripts),
{
    let s0 = transcripts[id];
    let g1 = groups_insert_view(groups, s0, k);
    let m1 = transcripts.remove(id);
    let lhs = merged_groups(g1, sample, m1);
    let rhs = merged_groups(groups, sample, transcripts);
    assert forall|s: TranscriptSignatureView| lhs.dom().contains(s) implies rhs.dom().contains(
        s,
    ) by {
        if !groups.dom().contains(s) && s != s0 {
            let i = choose|i: Seq<u8>| #[trigger] m1.dom().contains(i) && m1[i] == s;
            assert(transcripts.dom().contains(i) && transcripts[i] == s);
        }
    }
    assert forall|s: TranscriptSignatureView| rhs.dom().contains(s) implies lhs.dom().contains(
        s,
    ) by {
        if !groups.dom().contains(s) {
            let i = choose|i: Seq<u8>| #[trigger] transcripts.dom().contains(i) && transcripts[i]
                == s;
            if i != id {
                assert(m1.dom().contains(i) && m1[i] == s);
            }
        }
    }
    assert forall|s: TranscriptSignatureView| lhs.dom().contains(s) implies lhs[s] =~= rhs[s] by {
        assert forall|x: SampleTranscriptIdView| lhs[s].contains(x) implies rhs[s].contains(x) by {
            if s == s0 && !groups.dom().contains(s) {
            }
        }
        assert forall|x: SampleTranscriptIdView| rhs[s].contains(x) implies lhs[s].contains(x) by {
            if x.sample == sample && transcripts.dom().contains(x.transcript_id)
                && transcripts[x.transcript_id] == s {
                if x.transcript_id == id {
                    assert(x =~= k);
                    assert(g1[s0].contains(k));
                } else {
                    assert(m1.dom().contains(x.transcript_id));
                }
            }
        }
    }
    assert(lhs =~~= rhs);
}

/// Unify transcript identifiers across different samples.
///
/// Groups together the same transcripts — those sharing one
/// `TranscriptSignature` — across different samples, then assigns each
/// group one unified identifier.
///
/// The groups are held sorted in the signatures' total order, so every
/// group's rank, and with it every label, depends only on the set of
/// signatures, never on file order or arrival order.
pub struct TranscriptUnifier {
    /// The equivalence classes, strictly ascending in the signature order.
    grouped_transcripts: Vec<GroupEntry>,
    /// The resolved pairs, each with its unified identifier.
    unified_transcripts: Vec<UnifiedEntry>,
}

impl TranscriptUnifier {
    /// The grouping map: each known signature to the set of
    /// sample/identifier pairs that produced it.
    pub closed spec fn groups(&self) -> Map<TranscriptSignatureView, Set<SampleTranscriptIdView>> {
        groups_of(self.grouped_transcripts@)
    }

    /// The resolution map: each resolved sample/identifier pair to its
    /// unified identifier.
    pub closed spec fn resolution(&self) -> Map<SampleTranscriptIdView, Seq<u8>> {
        resolution_of(self.unified_transcripts@)
    }

    /// Groups are strictly sorted by signature, signatures are well
    /// formed, and no group or resolution entry repeats a key.
    pub closed spec fn inv(&self) -> bool {
        &&& groups_sorted(self.grouped_transcripts@)
        &&& forall|i: int|
            0 <= i < self.grouped_transcripts@.len() ==> (
            #[trigger] self.grouped_transcripts@[i].signature).inv()
        &&& forall|i: int|
            0 <= i < self.grouped_transcripts@.len() ==> key_views(
                #[trigger] self.grouped_transcripts@[i].sample_transcript_ids@,
            ).no_duplicates()
        &&& distinct_keys(self.unified_transcripts@)
    }

    /// The grouping map of a well-formed unifier is finite and holds only
    /// well-formed signature views.
    pub proof fn lemma_groups_wf(&self)
        requires
            self.inv(),
        ensures
            self.groups().dom().finite(),
            forall|s: TranscriptSignatureView|
                self.groups().dom().contains(s) ==> #[trigger] sig_view_wf(s),
            self.resolution().dom().finite(),
    {
        lemma_sorted_distinct(self.grouped_transcripts@);
        lemma_groups_of_entries(self.grouped_transcripts@);
        lemma_resolution_of_entries(self.unified_transcripts@);
        assert forall|s: TranscriptSignatureView| self.groups().dom().contains(
            s,
        ) implies #[trigger] sig_view_wf(s) by {
            let i = choose|i: int|
                0 <= i < self.grouped_transcripts@.len()
                    && #[trigger] self.grouped_transcripts@[i].signature@ == s;
            self.grouped_transcripts@[i].signature.lemma_view_wf();
        }
    }

    /// Initialise a `TranscriptUnifier` with no groups and no resolved
    /// pairs.
    pub fn new() -> (r: TranscriptUnifier)
        ensures
            r.inv(),
            r.groups() == Map::<TranscriptSignatureView, Set<SampleTranscriptIdView>>::empty(),
            r.resolution() == Map::<SampleTranscriptIdView, Seq<u8>>::empty(),
    {
        TranscriptUnifier { grouped_transcripts: Vec::new(), unified_transcripts: Vec::new() }
    }

    /// Add `key` to the group at position `i`, whose signature it
    /// produced. A pair already in the group is not repeated.
    #[verifier::rlimit(50)]
    fn push_key_at(&mut self, i: usize, key: SampleTranscriptId)
        requires
            old(self).inv(),
            i < old(self).grouped_transcripts@.len(),
        ensures
            final(self).inv(),
            final(self).groups() == groups_insert_view(
                old(self).groups(),
                old(self).grouped_transcripts@[i as int].signature@,
                key@,
            ),
            final(self).resolution() == old(self).resolution(),
    {
        let ghost prev = self.grouped_transcripts@;
        let ghost kv = key@;
        let mut entry = self.grouped_transcripts.remove(i);
        let ghost oldkeys = key_views(entry.sample_transcript_ids@);
        if !keys_contain(&entry.sample_transcript_ids, &key) {
            entry.sample_transcript_ids.push(key);
            proof {
                assert(key_views(entry.sample_transcript_ids@) =~= oldkeys.push(kv));
            }
        }
        proof {
            // In both cases the group's key set is the old set plus `kv`.
            assert(key_views(entry.sample_transcript_ids@).to_set() =~= oldkeys.to_set().insert(
                kv,
            )) by {
                let nowkeys = key_views(entry.sample_transcript_ids@);
                assert forall|x: SampleTranscriptIdView| nowkeys.to_set().contains(
                    x,
                ) implies oldkeys.to_set().insert(kv).contains(x) by {
                    let j = choose|j: int| 0 <= j < nowkeys.len() && nowkeys[j] == x;
                    if j < oldkeys.len() {
                        assert(oldkeys[j] == x);
                    }
                }
                assert forall|x: SampleTranscriptIdView| oldkeys.to_set().insert(kv).contains(
                    x,
                ) implies nowkeys.to_set().contains(x) by {
                    if x == kv && !oldkeys.to_set().contains(kv) {
                        assert(nowkeys.last() == kv);
                    } else {
                        let j = choose|j: int| 0 <= j < oldkeys.len() && oldkeys[j] == x;
                        assert(nowkeys[j] == x);
                    }
                }
            }
            // The pushed key list stays duplicate-free.
            assert(key_views(entry.sample_transcript_ids@).no_duplicates()) by {
                let nowkeys = key_views(entry.sample_transcript_ids@);
                if nowkeys.len() > oldkeys.len() {
                    assert forall|p: int, q: int|
                        0 <= p < q < nowkeys.len() implies #[trigger] nowkeys[p]
                        != #[trigger] nowkeys[q] by {
                        if q < oldkeys.len() {
                            assert(oldkeys[p] == nowkeys[p] && oldkeys[q] == nowkeys[q]);
                        } else {
                            assert(oldkeys[p] == nowkeys[p]);
                            assert(oldkeys.to_set().contains(oldkeys[p]));
                        }
                    }
                }
            }
        }
        self.grouped_transcripts.insert(i, entry);
        proof {
            let now = self.grouped_transcripts@;
            assert(now =~= prev.update(i as int, entry)) by {
                prev.remove(i as int).insert_ensures(i as int, entry);
                assert forall|j: int| 0 <= j < now.len() implies now[j] == prev.update(
                    i as int,
                    entry,
                )[j] by {
                    if j < i {
                        assert(now[j] == prev.remove(i as int)[j]);
                    } else if j > i {
                        assert(now[j] == prev.remove(i as int)[j - 1]);
                    }
                }
            }
            assert(forall|j: int|
                0 <= j < now.len() ==> #[trigger] now[j].signature@ == prev[j].signature@);
            lemma_sorted_distinct(prev);
            lemma_groups_of_entries(prev);
            assert(distinct_sig_views(now));
            lemma_groups_of_entries(now);
            let sv = prev[i as int].signature@;
            let goal = groups_insert_view(groups_of(prev), sv, kv);
            assert(groups_of(now) =~~= goal) by {
                assert forall|s: TranscriptSignatureView| groups_of(now).dom().contains(
                    s,
                ) implies goal.dom().contains(s) by {
                    let j = choose|j: int|
                        0 <= j < now.len() && #[trigger] now[j].signature@ == s;
                    assert(prev[j].signature@ == s);
                }
                assert forall|s: TranscriptSignatureView| goal.dom().contains(s) implies groups_of(
                    now,
                ).dom().contains(s) by {
                    if s != sv {
                        let j = choose|j: int|
                            0 <= j < prev.len() && #[trigger] prev[j].signature@ == s;
                        assert(now[j].signature@ == s);
                    } else {
                        assert(now[i as int].signature@ == s);
                    }
                }
                assert forall|s: TranscriptSignatureView|
                    groups_of(now).dom().contains(s) implies groups_of(now)[s] == goal[s] by {
                    let j = choose|j: int|
                        0 <= j < now.len() && #[trigger] now[j].signature@ == s;
                    if s == sv {
                        assert(j == i);
                        assert(groups_of(now)[s] == key_views(
                            entry.sample_transcript_ids@,
                        ).to_set());
                    } else {
                        assert(j != i);
                        assert(now[j] == prev[j]);
                        assert(groups_of(now)[s] == key_views(
                            prev[j].sample_transcript_ids@,
                        ).to_set());
                        assert(goal[s] == groups_of(prev)[s]);
                    }
                }
            }
        }
    }

    /// Create a new group for `signature`, holding only `key`, at
    /// position `i`, which must be the position keeping the groups
    /// strictly sorted.
    fn insert_group_at(&mut self, i: usize, signature: TranscriptSignature, key: SampleTranscriptId)
        requires
            old(self).inv(),
            signature.inv(),
            i <= old(self).grouped_transcripts@.len(),
            forall|j: int|
                0 <= j < i ==> sig_view_lt(
                    (#[trigger] old(self).grouped_transcripts@[j]).signature@,
                    signature@,
                ),
            forall|j: int|
                i <= j < old(self).grouped_transcripts@.len() ==> sig_view_lt(
                    signature@,
                    (#[trigger] old(self).grouped_transcripts@[j]).signature@,
                ),
        ensures
            final(self).inv(),
            final(self).groups() == groups_insert_view(old(self).groups(), signature@, key@),
            final(self).resolution() == old(self).resolution(),
    {
        let ghost prev = self.grouped_transcripts@;
        let ghost sv = signature@;
        let ghost kv = key@;
        let mut sample_transcript_ids: Vec<SampleTranscriptId> = Vec::new();
        sample_transcript_ids.push(key);
        let entry = GroupEntry { signature, sample_transcript_ids };
        self.grouped_transcripts.insert(i, entry);
        proof {
            let now = self.grouped_transcripts@;
            prev.insert_ensures(i as int, entry);
            assert(now == prev.insert(i as int, entry));
            assert(key_views(entry.sample_transcript_ids@) =~= seq![kv]);
            assert(key_views(entry.sample_transcript_ids@).no_duplicates());
            // Strict sortedness is preserved.
            assert forall|p: int, q: int| 0 <= p < q < now.len() implies sig_view_lt(
                #[trigger] now[p].signature@,
                #[trigger] now[q].signature@,
            ) by {
                if p < i && q == i {
                } else if p == i && q > i {
                } else if p < i && q > i {
                    assert(now[p] == prev[p] && now[q] == prev[q - 1]);
                } else if q < i {
                    assert(now[p] == prev[p] && now[q] == prev[q]);
                } else if p > i {
                    assert(now[p] == prev[p - 1] && now[q] == prev[q - 1]);
                }
            }
            // The new signature is in no existing group.
            lemma_sorted_distinct(prev);
            lemma_groups_of_entries(prev);
            assert(!groups_of(prev).dom().contains(sv)) by {
                if groups_of(prev).dom().contains(sv) {
                    let j = choose|j: int|
                        0 <= j < prev.len() && #[trigger] prev[j].signature@ == sv;
                    lemma_sig_view_lt_irreflexive(sv);
                }
            }
            assert(distinct_sig_views(now)) by {
                lemma_sorted_distinct(now);
            }
            lemma_groups_of_entries(now);
            let goal = groups_insert_view(groups_of(prev), sv, kv);
            assert(groups_of(now) =~~= goal) by {
                assert forall|s: TranscriptSignatureView| groups_of(now).dom().contains(
                    s,
                ) implies goal.dom().contains(s) by {
                    let j = choose|j: int|
                        0 <= j < now.len() && #[trigger] now[j].signature@ == s;
                    if j < i {
                        assert(prev[j].signature@ == s);
                    } else if j > i {
                        assert(prev[j - 1].signature@ == s);
                    }
                }
                assert forall|s: TranscriptSignatureView| goal.dom().contains(s) implies groups_of(
                    now,
                ).dom().contains(s) by {
                    if s != sv {
                        let j = choose|j: int|
                            0 <= j < prev.len() && #[trigger] prev[j].signature@ == s;
                        if j < i {
                            assert(now[j].signature@ == s);
                        } else {
                            assert(now[j + 1].signature@ == s);
                        }
                    } else {
                        assert(now[i as int].signature@ == s);
                    }
                }
                assert forall|s: TranscriptSignatureView|
                    groups_of(now).dom().contains(s) implies groups_of(now)[s] == goal[s] by {
                    let j = choose|j: int|
                        0 <= j < now.len() && #[trigger] now[j].signature@ == s;
                    if s == sv {
                        assert(j == i) by {
                            if j != i {
                                let pj = if j < i {
                                    j
                                } else {
                                    j - 1
                                };
                                assert(prev[pj].signature@ == s);
                                assert(groups_of(prev).dom().contains(sv));
                            }
                        }
                        assert(groups_of(now)[s] == key_views(
                            entry.sample_transcript_ids@,
                        ).to_set());
                        assert(goal[s] == Set::<SampleTranscriptIdView>::empty().insert(kv));
                        assert(key_views(entry.sample_transcript_ids@).to_set() =~= Set::<
                            SampleTranscriptIdView,
                        >::empty().insert(kv)) by {
                            assert(key_views(entry.sample_transcript_ids@)[0] == kv);
                        }
                    } else {
                        assert(j != i);
                        let pj = if j < i {
                            j
                        } else {
                            j - 1
                        };
                        assert(now[j] == prev[pj]);
                        assert(groups_of(now)[s] == key_views(
                            prev[pj].sample_transcript_ids@,
                        ).to_set());
                        assert(goal[s] == groups_of(prev)[s]);
                    }
                }
            }
        }
    }

    /// Add one sample/identifier pair to the group of its signature,
    /// creating the group, in signature order, when the signature is new.
    fn insert_group_key(&mut self, signature: TranscriptSignature, key: SampleTranscriptId)
        requires
            old(self).inv(),
            signature.inv(),
        ensures
            final(self).inv(),
            final(self).groups() == groups_insert_view(old(self).groups(), signature@, key@),
            final(self).resolution() == old(self).resolution(),
    {
        let n: usize = self.grouped_transcripts.len();
        let mut i: usize = 0;
        while i < n
            invariant
                0 <= i <= n,
                n == self.grouped_transcripts@.len(),
                *self == *old(self),
                old(self).inv(),
                signature.inv(),
                forall|j: int|
                    0 <= j < i ==> sig_view_lt(
                        (#[trigger] self.grouped_transcripts@[j]).signature@,
                        signature@,
                    ),
            decreases n - i,
        {
            match self.grouped_transcripts[i].signature.cmp(&signature) {
                Comparison::Less => {
                    i = i + 1;
                },
                Comparison::Equal => {
                    proof {
                        assert(self.grouped_transcripts@[i as int].signature@ == signature@);
                    }
                    self.push_key_at(i, key);
                    return ;
                },
                Comparison::Greater => {
                    proof {
                        assert forall|j: int|
                            i <= j < self.grouped_transcripts@.len() implies sig_view_lt(
                            signature@,
                            (#[trigger] self.grouped_transcripts@[j]).signature@,
                        ) by {
                            if j > i {
                                lemma_sig_view_lt_transitive(
                                    signature@,
                                    self.grouped_transcripts@[i as int].signature@,
                                    self.grouped_transcripts@[j].signature@,
                                );
                            }
                        }
                    }
                    self.insert_group_at(i, signature, key);
                    return ;
                },
            }
        }
        self.insert_group_at(n, signature, key);
    }

    /// Group the transcripts of one sample under their signatures,
    /// draining the per-file map: every (sample, identifier) pair joins
    /// the group of its signature.
    pub fn group_transcripts(
        &mut self,
        gtf_gff_file_name: Vec<u8>,
        gtf_gff_transcripts: &mut TranscriptMap,
    )
        requires
            old(self).inv(),
            old(gtf_gff_transcripts).inv(),
        ensures
            final(self).inv(),
            final(gtf_gff_transcripts).inv(),
            final(gtf_gff_transcripts)@ == Map::<Seq<u8>, TranscriptSignatureView>::empty(),
            final(self).groups() == merged_groups(
                old(self).groups(),
                gtf_gff_file_name@,
                old(gtf_gff_transcripts)@,
            ),
            final(self).resolution() == old(self).resolution(),
    {
        let ghost g0 = self.groups();
        let ghost r0 = self.resolution();
        let ghost m0 = gtf_gff_transcripts@;
        loop
            invariant_except_break
                self.inv(),
                gtf_gff_transcripts.inv(),
                merged_groups(self.groups(), gtf_gff_file_name@, gtf_gff_transcripts@)
                    == merged_groups(g0, gtf_gff_file_name@, m0),
                self.resolution() == r0,
            ensures
                self.inv(),
                gtf_gff_transcripts.inv(),
                gtf_gff_transcripts@ == Map::<Seq<u8>, TranscriptSignatureView>::empty(),
                merged_groups(self.groups(), gtf_gff_file_name@, gtf_gff_transcripts@)
                    == merged_groups(g0, gtf_gff_file_name@, m0),
                self.resolution() == r0,
            decreases gtf_gff_transcripts@.dom().len(),
        {
            proof {
                gtf_gff_transcripts.lemma_finite();
            }
            let ghost gprev = self.groups();
            let ghost mprev = gtf_gff_transcripts@;
            match gtf_gff_transcripts.pop() {
                None => {
                    break ;
                },
                Some(entry) => {
                    let ghost id = entry.transcript_id@;
                    let key = SampleTranscriptId {
                        sample: clone_bytes(&gtf_gff_file_name),
                        transcript_id: entry.transcript_id,
                    };
                    proof {
                        assert(key@ =~= (SampleTranscriptIdView {
                            sample: gtf_gff_file_name@,
                            transcript_id: id,
                        }));
                    }
                    self.insert_group_key(entry.signature, key);
                    proof {
                        lemma_merge_step(gprev, gtf_gff_file_name@, mprev, id, key@);
                    }
                },
            }
        }
        proof {
            lemma_merged_groups_empty(self.groups(), gtf_gff_file_name@);
            lemma_merged_groups_empty(merged_groups(g0, gtf_gff_file_name@, m0), gtf_gff_file_name@);
        }
    }

    /// Create a unified identifier for each unique `TranscriptSignature`.
    ///
    /// The group with rank `i` in the signature order gets the label
    /// "tuni_i", and every sample/identifier pair of that group resolves
    /// to its group's label. A pair that sits in several groups — the
    /// same sample and identifier fed in with different signatures —
    /// resolves to the label of the greatest of those signatures.
    pub fn unify_transcripts(&mut self)
        requires
            old(self).inv(),
        ensures
            final(self).inv(),
            final(self).groups() == old(self).groups(),
            resolution_props(old(self).groups(), final(self).resolution()),
    {
        self.unified_transcripts = Vec::new();
        let n: usize = self.grouped_transcripts.len();
        let mut i: usize = 0;
        while i < n
            invariant
                0 <= i <= n,
                n == self.grouped_transcripts@.len(),
                self.grouped_transcripts@ == old(self).grouped_transcripts@,
                old(self).inv(),
                distinct_keys(self.unified_transcripts@),
                resolution_of(self.unified_transcripts@) == labels_upto(
                    self.grouped_transcripts@,
                    i as int,
                ),
            decreases n - i,
        {
            let label = unified_id(i);
            apply_group_labels(
                &mut self.unified_transcripts,
                &self.grouped_transcripts[i].sample_transcript_ids,
                &label,
            );
            i = i + 1;
        }
        proof {
            let entries = self.grouped_transcripts@;
            let len = entries.len() as int;
            lemma_labels_upto(entries, len);
            lemma_sorted_distinct(entries);
            lemma_groups_of_entries(entries);
            let g = groups_of(entries);
            let r = self.resolution();
            assert forall|k: SampleTranscriptIdView| #[trigger] r.dom().contains(k) implies exists|s:
                TranscriptSignatureView|
                #[trigger] g.dom().contains(s) && g[s].contains(k) by {
                let j = choose|j: int| 0 <= j < len && #[trigger] group_keys(entries, j).contains(k);
                assert(g.dom().contains(entries[j].signature@) && g[entries[j].signature@].contains(
                    k,
                ));
            }
            assert forall|k: SampleTranscriptIdView| (exists|s: TranscriptSignatureView|
                #[trigger] g.dom().contains(s) && g[s].contains(k)) implies #[trigger] r.dom().contains(
                k,
            ) by {
                let s = choose|s: TranscriptSignatureView|
                    #[trigger] g.dom().contains(s) && g[s].contains(k);
                let j = choose|j: int| 0 <= j < len && #[trigger] entries[j].signature@ == s;
                assert(group_keys(entries, j).contains(k));
            }
            assert forall|s: TranscriptSignatureView, k: SampleTranscriptIdView|
                g.dom().contains(s) && #[trigger] g[s].contains(k) && (forall|t:
                    TranscriptSignatureView|
                    #[trigger] g.dom().contains(t) && sig_view_lt(s, t) ==> !g[t].contains(
                        k,
                    )) implies #[trigger] r[k] == unified_id_spec(sig_rank(s, g.dom())) by {
                let j = choose|j: int| 0 <= j < len && #[trigger] entries[j].signature@ == s;
                assert(group_keys(entries, j).contains(k));
                assert forall|j2: int| j < j2 < len implies !(#[trigger] group_keys(
                    entries,
                    j2,
                ).contains(k)) by {
                    if group_keys(entries, j2).contains(k) {
                        let t = entries[j2].signature@;
                        assert(sig_view_lt(s, t));
                        assert(g.dom().contains(t) && g[t].contains(k));
                    }
                }
                assert(r[k] == unified_id_spec(j as nat));
                lemma_rank_of_sorted(entries, j);
            }
        }
    }

    /// Obtain the unified identifier of a (sample, transcript identifier)
    /// pair, or `None` when the pair was never grouped.
    pub fn get_unified_id(&self, sample_transcript_id: &SampleTranscriptId) -> (r: Option<
        &Vec<u8>,
    >)
        requires
            self.inv(),
        ensures
            r matches Some(v) ==> self.resolution().dom().contains(sample_transcript_id@) && v@
                == self.resolution()[sample_transcript_id@],
            r is None ==> !self.resolution().dom().contains(sample_transcript_id@),
    {
        proof {
            lemma_resolution_of_entries(self.unified_transcripts@);
        }
        let n: usize = self.unified_transcripts.len();
        let mut i: usize = 0;
        while i < n
            invariant
                0 <= i <= n,
                n == self.unified_transcripts@.len(),
                self.inv(),
                forall|j: int|
                    0 <= j < i ==> #[trigger] self.unified_transcripts@[j].sample_transcript_id@
                        != sample_transcript_id@,
            decreases n - i,
        {
            if self.unified_transcripts[i].sample_transcript_id.same(sample_transcript_id) {
                proof {
                    lemma_resolution_of_entries(self.unified_transcripts@);
                }
                return Some(&self.unified_transcripts[i].unified_id);
            }
            i = i + 1;
        }
        proof {
            if self.resolution().dom().contains(sample_transcript_id@) {
                let j = choose|j: int|
                    0 <= j < self.unified_transcripts@.len()
                        && #[trigger] self.unified_transcripts@[j].sample_transcript_id@
                        == sample_transcript_id@;
            }
        }
        None
    }

    /// The number of distinct signatures grouped so far.
    pub fn group_count(&self) -> (n: usize)
        requires
            self.inv(),
        ensures
            n == self.groups().dom().len(),
    {
        proof {
            lemma_sorted_distinct(self.grouped_transcripts@);
            lemma_groups_of_entries(self.grouped_transcripts@);
        }
        self.grouped_transcripts.len()
    }

    /// The sample/identifier pairs grouped under `signature`, or `None`
    /// when no transcript produced that signature.
    pub fn get_group(&self, signature: &TranscriptSignature) -> (r: Option<
        &Vec<SampleTranscriptId>,
    >)
        requires
            self.inv(),
            signature.inv(),
        ensures
            r matches Some(keys) ==> self.groups().dom().contains(signature@) && key_views(
                keys@,
            ).to_set() == self.groups()[signature@],
            r is None ==> !self.groups().dom().contains(signature@),
    {
        proof {
            lemma_sorted_distinct(self.grouped_transcripts@);
            lemma_groups_of_entries(self.grouped_transcripts@);
        }
        let n: usize = self.grouped_transcripts.len();
        let mut i: usize = 0;
        while i < n
            invariant
                0 <= i <= n,
                n == self.grouped_transcripts@.len(),
                self.inv(),
                signature.inv(),
                forall|j: int|
                    0 <= j < i ==> #[trigger] self.grouped_transcripts@[j].signature@
                        != signature@,
            decreases n - i,
        {
            match self.grouped_transcripts[i].signature.cmp(signature) {
                Comparison::Equal => {
                    proof {
                        lemma_sorted_distinct(self.grouped_transcripts@);
                        lemma_groups_of_entries(self.grouped_transcripts@);
                    }
                    return Some(&self.grouped_transcripts[i].sample_transcript_ids);
                },
                _ => {},
            }
            i = i + 1;
        }
        proof {
            if self.groups().dom().contains(signature@) {
                let j = choose|j: int|
                    0 <= j < self.grouped_transcripts@.len()
                        && #[trigger] self.grouped_transcripts@[j].signature@ == signature@;
            }
        }
        None
    }
}

/// What label assignment promises: exactly the grouped pairs are
/// resolved, and a pair in the group of signature `s` — of the greatest
/// such signature, when the pair was fed in with several — carries the
/// label "tuni_" followed by the rank of `s` among all known signatures.
pub open spec fn resolution_props(
    groups: Map<TranscriptSignatureView, Set<SampleTranscriptIdView>>,
    resolution: Map<SampleTranscriptIdView, Seq<u8>>,
) -> bool {
    &&& forall|k: SampleTranscriptIdView|
        #[trigger] resolution.dom().contains(k) <==> exists|s: TranscriptSignatureView|
            #[trigger] groups.dom().contains(s) && groups[s].contains(k)
    &&& forall|s: TranscriptSignatureView, k: SampleTranscriptIdView|
        groups.dom().contains(s) && #[trigger] groups[s].contains(k) && (forall|t:
            TranscriptSignatureView|
            #[trigger] groups.dom().contains(t) && sig_view_lt(s, t) ==> !groups[t].contains(k))
            ==> resolution[k] == unified_id_spec(sig_rank(s, groups.dom()))
}

/// The key set of the group at position `j`.
spec fn group_keys(entries: Seq<GroupEntry>, j: int) -> Set<SampleTranscriptIdView> {
    key_views(entries[j].sample_transcript_ids@).to_set()
}

/// Every key of `ks` mapped to `label`, the rest of `r` kept.
spec fn insert_all(
    r: Map<SampleTranscriptIdView, Seq<u8>>,
    ks: Seq<SampleTranscriptIdView>,
    label: Seq<u8>,
) -> Map<SampleTranscriptIdView, Seq<u8>>
    decreases ks.len(),
{
    if ks.len() == 0 {
        r
    } else {
        insert_all(r, ks.drop_last(), label).insert(ks.last(), label)
    }
}

proof fn lemma_insert_all(
    r: Map<SampleTranscriptIdView, Seq<u8>>,
    ks: Seq<SampleTranscriptIdView>,
    label: Seq<u8>,
)
    ensures
        forall|k: SampleTranscriptIdView|
            insert_all(r, ks, label).dom().contains(k) <==> r.dom().contains(k)
                || ks.to_set().contains(k),
        forall|k: SampleTranscriptIdView|
            ks.to_set().contains(k) ==> insert_all(r, ks, label)[k] == label,
        forall|k: SampleTranscriptIdView|
            r.dom().contains(k) && !ks.to_set().contains(k) ==> insert_all(r, ks, label)[k]
                == r[k],
    decreases ks.len(),
{
    if ks.len() > 0 {
        let rest = ks.drop_last();
        lemma_insert_all(r, rest, label);
        assert(ks.to_set() =~= rest.to_set().insert(ks.last())) by {
            assert forall|k: SampleTranscriptIdView| ks.to_set().contains(k) implies rest.to_set().insert(
                ks.last(),
            ).contains(k) by {
                let j = choose|j: int| 0 <= j < ks.len() && ks[j] == k;
                if j < ks.len() - 1 {
                    assert(rest[j] == k);
                }
            }
            assert forall|k: SampleTranscriptIdView| rest.to_set().insert(ks.last()).contains(
                k,
            ) implies ks.to_set().contains(k) by {
                if rest.to_set().contains(k) {
                    let j = choose|j: int| 0 <= j < rest.len() && rest[j] == k;
                    assert(ks[j] == k);
                } else {
                    assert(ks[ks.len() - 1] == k);
                }
            }
        }
    }
}

/// The resolution map after the first `i` groups have been labeled, in
/// order.
spec fn labels_upto(entries: Seq<GroupEntry>, i: int) -> Map<SampleTranscriptIdView, Seq<u8>>
    decreases i,
{
    if i <= 0 {
        Map::empty()
    } else {
        insert_all(
            labels_upto(entries, i - 1),
            key_views(entries[i - 1].sample_transcript_ids@),
            unified_id_spec((i - 1) as nat),
        )
    }
}

/// After labeling the first `i` groups: exactly their keys are resolved,
/// and each key carries the label of the last of those groups holding it.
proof fn lemma_labels_upto(entries: Seq<GroupEntry>, i: int)
    requires
        0 <= i <= entries.len(),
    ensures
        forall|k: SampleTranscriptIdView|
            #[trigger] labels_upto(entries, i).dom().contains(k) <==> exists|j: int|
                0 <= j < i && #[trigger] group_keys(entries, j).contains(k),
        forall|j: int, k: SampleTranscriptIdView|
            0 <= j < i && #[trigger] group_keys(entries, j).contains(k) && (forall|j2: int|
                j < j2 < i ==> !(#[trigger] group_keys(entries, j2).contains(k)))
                ==> labels_upto(entries, i)[k] == unified_id_spec(j as nat),
    decreases i,
{
    if i > 0 {
        lemma_labels_upto(entries, i - 1);
        lemma_insert_all(
            labels_upto(entries, i - 1),
            key_views(entries[i - 1].sample_transcript_ids@),
            unified_id_spec((i - 1) as nat),
        );
        assert forall|k: SampleTranscriptIdView| #[trigger] labels_upto(
            entries,
            i,
        ).dom().contains(k) implies exists|j: int|
            0 <= j < i && #[trigger] group_keys(entries, j).contains(k) by {
            if labels_upto(entries, i - 1).dom().contains(k) {
                let j = choose|j: int| 0 <= j < i - 1 && #[trigger] group_keys(entries, j).contains(k);
                assert(0 <= j < i && group_keys(entries, j).contains(k));
            } else {
                assert(group_keys(entries, i - 1).contains(k));
            }
        }
        assert forall|k: SampleTranscriptIdView| (exists|j: int|
            0 <= j < i && #[trigger] group_keys(entries, j).contains(k)) implies #[trigger] labels_upto(
            entries,
            i,
        ).dom().contains(k) by {
            let j = choose|j: int| 0 <= j < i && #[trigger] group_keys(entries, j).contains(k);
            if j < i - 1 {
                assert(labels_upto(entries, i - 1).dom().contains(k));
            }
        }
        assert forall|j: int, k: SampleTranscriptIdView|
            0 <= j < i && #[trigger] group_keys(entries, j).contains(k) && (forall|j2: int|
                j < j2 < i ==> !(#[trigger] group_keys(entries, j2).contains(k)))
            implies labels_upto(entries, i)[k] == unified_id_spec(j as nat) by {
            if j == i - 1 {
            } else {
                assert(!group_keys(entries, i - 1).contains(k));
                assert(forall|j2: int| j < j2 < i - 1 ==> !(#[trigger] group_keys(entries, j2).contains(k)));
                assert(labels_upto(entries, i - 1)[k] == unified_id_spec(j as nat));
                assert(labels_upto(entries, i - 1).dom().contains(k));
            }
        }
    }
}

/// Within strictly sorted groups, the rank of the `i`-th signature among
/// all of them is exactly `i`.
proof fn lemma_rank_of_sorted(entries: Seq<GroupEntry>, i: int)
    requires
        groups_sorted(entries),
        0 <= i < entries.len(),
    ensures
        sig_rank(entries[i].signature@, groups_of(entries).dom()) == i,
{
    lemma_sorted_distinct(entries);
    lemma_groups_of_entries(entries);
    let dom = groups_of(entries).dom();
    let s = entries[i].signature@;
    let f = dom.filter(|t: TranscriptSignatureView| sig_view_lt(t, s));
    let svs = entries.map_values(|e: GroupEntry| e.signature@);
    let pre = svs.take(i);
    assert(f =~= pre.to_set()) by {
        assert forall|t: TranscriptSignatureView| f.contains(t) implies pre.to_set().contains(
            t,
        ) by {
            let j = choose|j: int| 0 <= j < entries.len() && #[trigger] entries[j].signature@ == t;
            if j == i {
                lemma_sig_view_lt_irreflexive(t);
            } else if j > i {
                lemma_sig_view_lt_asymmetric(t, s);
            }
            assert(pre[j] == t);
        }
        assert forall|t: TranscriptSignatureView| pre.to_set().contains(t) implies f.contains(
            t,
        ) by {
            let j = choose|j: int| 0 <= j < pre.len() && pre[j] == t;
            assert(entries[j].signature@ == t);
        }
    }
    assert(pre.no_duplicates()) by {
        assert forall|p: int, q: int| 0 <= p < q < pre.len() implies pre[p] != pre[q] by {
            assert(pre[p] == entries[p].signature@ && pre[q] == entries[q].signature@);
        }
    }
    pre.unique_seq_to_set();
}

/// Replace the label of `key`, or add the pair when it is new.
fn upsert_label(entries: &mut Vec<UnifiedEntry>, key: SampleTranscriptId, label: Vec<u8>)
    requires
        distinct_keys(old(entries)@),
    ensures
        distinct_keys(final(entries)@),
        resolution_of(final(entries)@) == resolution_of(old(entries)@).insert(key@, label@),
{
    let ghost prev = entries@;
    proof {
        lemma_resolution_of_entries(prev);
    }
    let n: usize = entries.len();
    let mut i: usize = 0;
    while i < n
        invariant
            0 <= i <= n,
            n == entries@.len(),
            entries@ == prev,
            prev == old(entries)@,
            distinct_keys(prev),
            forall|j: int| 0 <= j < i ==> #[trigger] prev[j].sample_transcript_id@ != key@,
        decreases n - i,
    {
        if entries[i].sample_transcript_id.same(&key) {
            let ghost iv = i as int;
            entries.remove(i);
            entries.push(UnifiedEntry { sample_transcript_id: key, unified_id: label });
            proof {
                lemma_resolution_of_entries(prev);
                let now = entries@;
                let removed = prev.remove(iv);
                assert(now.drop_last() =~= removed);
                assert(forall|p: int|
                    0 <= p < removed.len() ==> #[trigger] removed[p] == prev[if p < iv {
                        p
                    } else {
                        p + 1
                    }]);
                assert(forall|p: int|
                    0 <= p < now.len() - 1 ==> #[trigger] now[p] == removed[p]);
                assert(now.last().sample_transcript_id@ == prev[iv].sample_transcript_id@);
                assert(distinct_keys(now)) by {
                    assert forall|p: int, q: int| 0 <= p < q < now.len() implies #[trigger] now[p].sample_transcript_id@
                        != #[trigger] now[q].sample_transcript_id@ by {
                        let lift = |x: int| if x < iv { x } else { x + 1 };
                        if q < now.len() - 1 {
                            assert(now[p] == prev[lift(p)] && now[q] == prev[lift(q)]);
                        } else {
                            assert(now[p] == prev[lift(p)]);
                            assert(now[q].sample_transcript_id@ == prev[iv].sample_transcript_id@);
                        }
                    }
                }
                assert(distinct_keys(removed)) by {
                    assert(forall|p: int|
                        0 <= p < removed.len() ==> #[trigger] removed[p] == prev[if p < iv {
                            p
                        } else {
                            p + 1
                        }]);
                }
                lemma_resolution_of_entries(now);
                lemma_resolution_of_entries(removed);
                assert(resolution_of(now) =~= resolution_of(prev).insert(
                    prev[iv].sample_transcript_id@,
                    now.last().unified_id@,
                )) by {
                    assert forall|k: SampleTranscriptIdView| resolution_of(now).dom().contains(
                        k,
                    ) implies resolution_of(prev).dom().contains(k) by {
                        let p = choose|p: int|
                            0 <= p < now.len() && #[trigger] now[p].sample_transcript_id@ == k;
                        if p < now.len() - 1 {
                            assert(now[p] == prev[if p < iv {
                                p
                            } else {
                                p + 1
                            }]);
                        } else {
                            assert(k == prev[iv].sample_transcript_id@);
                        }
                    }
                    assert forall|k: SampleTranscriptIdView| resolution_of(prev).dom().contains(
                        k,
                    ) implies resolution_of(now).dom().contains(k) by {
                        let p = choose|p: int|
                            0 <= p < prev.len() && #[trigger] prev[p].sample_transcript_id@ == k;
                        if p != iv {
                            assert(removed[if p < iv {
                                p
                            } else {
                                p - 1
                            }] == prev[p]);
                            assert(now[if p < iv {
                                p
                            } else {
                                p - 1
                            }] == prev[p]);
                        } else {
                            assert(now.last().sample_transcript_id@ == k);
                        }
                    }
                    assert forall|k: SampleTranscriptIdView|
                        resolution_of(now).dom().contains(k) && k
                            != prev[iv].sample_transcript_id@ implies resolution_of(now)[k]
                        == resolution_of(prev)[k] by {
                        let p = choose|p: int|
                            0 <= p < now.len() && #[trigger] now[p].sample_transcript_id@ == k;
                        assert(p < now.len() - 1);
                        assert(now[p] == prev[if p < iv {
                            p
                        } else {
                            p + 1
                        }]);
                    }
                }
            }
            return ;
        }
        i = i + 1;
    }
    let ghost kv = key@;
    entries.push(UnifiedEntry { sample_transcript_id: key, unified_id: label });
    proof {
        assert(entries@.drop_last() =~= prev);
        assert(distinct_keys(entries@)) by {
            assert forall|p: int, q: int| 0 <= p < q < entries@.len() implies #[trigger] entries@[p].sample_transcript_id@
                != #[trigger] entries@[q].sample_transcript_id@ by {
                if q < entries@.len() - 1 {
                    assert(entries@[p] == prev[p] && entries@[q] == prev[q]);
                } else {
                    assert(entries@[p] == prev[p]);
                    assert(entries@[q].sample_transcript_id@ == kv);
                    assert(prev[p].sample_transcript_id@ != kv);
                }
            }
        }
    }
}

/// Label every pair of one group: each gets this group's label, replacing
/// any label from an earlier group.
fn apply_group_labels(
    entries: &mut Vec<UnifiedEntry>,
    keys: &Vec<SampleTranscriptId>,
    label: &Vec<u8>,
)
    requires
        distinct_keys(old(entries)@),
    ensures
        distinct_keys(final(entries)@),
        resolution_of(final(entries)@) == insert_all(
            resolution_of(old(entries)@),
            key_views(keys@),
            label@,
        ),
{
    let ghost r0 = resolution_of(entries@);
    let n: usize = keys.len();
    let mut i: usize = 0;
    proof {
        assert(key_views(keys@).take(0) =~= Seq::<SampleTranscriptIdView>::empty());
    }
    while i < n
        invariant
            0 <= i <= n,
            n == keys@.len(),
            distinct_keys(entries@),
            resolution_of(entries@) == insert_all(r0, key_views(keys@).take(i as int), label@),
        decreases n - i,
    {
        upsert_label(entries, keys[i].duplicate(), clone_bytes(label));
        proof {
            assert(key_views(keys@).take(i + 1).drop_last() =~= key_views(keys@).take(i as int));
            assert(key_views(keys@).take(i + 1).last() == keys@[i as int]@);
        }
        i = i + 1;
    }
    proof {
        assert(key_views(keys@).take(n as int) =~= key_views(keys@));
    }
}

/// A smaller signature has a strictly smaller rank.
proof fn lemma_rank_strict(
    dom: Set<TranscriptSignatureView>,
    a: TranscriptSignatureView,
    b: TranscriptSignatureView,
)
    requires
        dom.finite(),
        dom.contains(a),
        sig_view_lt(a, b),
    ensures
        sig_rank(a, dom) < sig_rank(b, dom),
{
    let fa = dom.filter(|t: TranscriptSignatureView| sig_view_lt(t, a));
    let fb = dom.filter(|t: TranscriptSignatureView| sig_view_lt(t, b));
    dom.lemma_len_filter(|t: TranscriptSignatureView| sig_view_lt(t, a));
    dom.lemma_len_filter(|t: TranscriptSignatureView| sig_view_lt(t, b));
    assert forall|t: TranscriptSignatureView| fa.contains(t) implies fb.contains(t) by {
        lemma_sig_view_lt_transitive(t, a, b);
    }
    assert(!fa.contains(a)) by {
        lemma_sig_view_lt_irreflexive(a);
    }
    assert(fb.contains(a));
    assert(fa.insert(a).subset_of(fb));
    vstd::set_lib::lemma_len_subset(fa.insert(a), fb);
    assert(fa.insert(a).len() == fa.len() + 1);
}

/// Law: transcripts with identical signatures resolve to the same label,
/// regardless of source file. `s` is the one signature both pairs were
/// grouped under; as the grouping invariant has it, each pair appears in
/// exactly one group.
pub proof fn lemma_same_signature_same_label(
    groups: Map<TranscriptSignatureView, Set<SampleTranscriptIdView>>,
    resolution: Map<SampleTranscriptIdView, Seq<u8>>,
    s: TranscriptSignatureView,
    k1: SampleTranscriptIdView,
    k2: SampleTranscriptIdView,
)
    requires
        resolution_props(groups, resolution),
        groups.dom().contains(s),
        groups[s].contains(k1),
        groups[s].contains(k2),
        forall|t: TranscriptSignatureView|
            #[trigger] groups.dom().contains(t) && t != s ==> !groups[t].contains(k1)
                && !groups[t].contains(k2),
    ensures
        resolution[k1] == resolution[k2],
{
    assert forall|t: TranscriptSignatureView|
        #[trigger] groups.dom().contains(t) && sig_view_lt(s, t) implies !groups[t].contains(k1)
        && !groups[t].contains(k2) by {
        if t == s {
            lemma_sig_view_lt_irreflexive(s);
        }
    }
    assert(resolution[k1] == unified_id_spec(sig_rank(s, groups.dom())));
    assert(resolution[k2] == unified_id_spec(sig_rank(s, groups.dom())));
}

/// Law: transcripts with different signatures resolve to different
/// labels. Each pair appears in exactly one group, as the grouping
/// invariant has it.
pub proof fn lemma_different_signature_different_label(
    groups: Map<TranscriptSignatureView, Set<SampleTranscriptIdView>>,
    resolution: Map<SampleTranscriptIdView, Seq<u8>>,
    s1: TranscriptSignatureView,
    s2: TranscriptSignatureView,
    k1: SampleTranscriptIdView,
    k2: SampleTranscriptIdView,
)
    requires
        resolution_props(groups, resolution),
        groups.dom().finite(),
        forall|t: TranscriptSignatureView|
            #[trigger] groups.dom().contains(t) ==> sig_view_wf(t),
        groups.dom().contains(s1),
        groups[s1].contains(k1),
        groups.dom().contains(s2),
        groups[s2].contains(k2),
        s1 != s2,
        forall|t: TranscriptSignatureView|
            #[trigger] groups.dom().contains(t) && t != s1 ==> !groups[t].contains(k1),
        forall|t: TranscriptSignatureView|
            #[trigger] groups.dom().contains(t) && t != s2 ==> !groups[t].contains(k2),
    ensures
        resolution[k1] != resolution[k2],
{
    assert forall|t: TranscriptSignatureView|
        #[trigger] groups.dom().contains(t) && sig_view_lt(s1, t) implies !groups[t].contains(
        k1,
    ) by {
        if t == s1 {
            lemma_sig_view_lt_irreflexive(s1);
        }
    }
    assert forall|t: TranscriptSignatureView|
        #[trigger] groups.dom().contains(t) && sig_view_lt(s2, t) implies !groups[t].contains(
        k2,
    ) by {
        if t == s2 {
            lemma_sig_view_lt_irreflexive(s2);
        }
    }
    assert(resolution[k1] == unified_id_spec(sig_rank(s1, groups.dom())));
    assert(resolution[k2] == unified_id_spec(sig_rank(s2, groups.dom())));
    lemma_sig_view_lt_connected(s1, s2);
    if sig_view_lt(s1, s2) {
        lemma_rank_strict(groups.dom(), s1, s2);
    } else {
        lemma_rank_strict(groups.dom(), s2, s1);
    }
    if resolution[k1] == resolution[k2] {
        lemma_unified_id_injective(sig_rank(s1, groups.dom()), sig_rank(s2, groups.dom()));
    }
}

/// A finite, non-empty set of well-formed signature views has a greatest
/// element.
proof fn lemma_set_has_greatest(s: Set<TranscriptSignatureView>) -> (m: TranscriptSignatureView)
    requires
        s.finite(),
        s.len() > 0,
        forall|t: TranscriptSignatureView| #[trigger] s.contains(t) ==> sig_view_wf(t),
    ensures
        s.contains(m),
        forall|t: TranscriptSignatureView|
            #[trigger] s.contains(t) ==> t == m || sig_view_lt(t, m),
    decreases s.len(),
{
    let x = s.choose();
    assert(s.contains(x));
    let rest = s.remove(x);
    if rest.len() == 0 {
        assert forall|t: TranscriptSignatureView| #[trigger] s.contains(t) implies t == x by {
            if t != x {
                assert(rest.contains(t));
                assert(rest.len() > 0) by {
                    if rest.len() == 0 {
                        assert(rest =~= Set::<TranscriptSignatureView>::empty());
                    }
                }
            }
        }
        x
    } else {
        let m0 = lemma_set_has_greatest(rest);
        lemma_sig_view_lt_connected(m0, x);
        let m = if sig_view_lt(m0, x) {
            x
        } else {
            m0
        };
        assert forall|t: TranscriptSignatureView| #[trigger] s.contains(t) implies t == m
            || sig_view_lt(t, m) by {
            if t != x {
                assert(rest.contains(t));
                if t != m0 && sig_view_lt(m0, x) && t != m {
                    lemma_sig_view_lt_transitive(t, m0, x);
                }
            }
        }
        m
    }
}

/// Law: the label assignment is deterministic. The labeling properties
/// determine the resolution map completely, so any two runs over the
/// same grouping — hence over the same ordered list of input files —
/// assign identical labels.
pub proof fn lemma_resolution_unique(
    groups: Map<TranscriptSignatureView, Set<SampleTranscriptIdView>>,
    r1: Map<SampleTranscriptIdView, Seq<u8>>,
    r2: Map<SampleTranscriptIdView, Seq<u8>>,
)
    requires
        resolution_props(groups, r1),
        resolution_props(groups, r2),
        groups.dom().finite(),
        forall|t: TranscriptSignatureView|
            #[trigger] groups.dom().contains(t) ==> sig_view_wf(t),
    ensures
        r1 == r2,
{
    assert forall|k: SampleTranscriptIdView| r1.dom().contains(k) implies r2.dom().contains(
        k,
    ) && #[trigger] r1[k] == #[trigger] r2[k] by {
        let holders = groups.dom().filter(|t: TranscriptSignatureView| groups[t].contains(k));
        groups.dom().lemma_len_filter(|t: TranscriptSignatureView| groups[t].contains(k));
        assert(holders.len() > 0) by {
            let s0 = choose|s0: TranscriptSignatureView|
                #[trigger] groups.dom().contains(s0) && groups[s0].contains(k);
            assert(holders.contains(s0));
            if holders.len() == 0 {
                assert(holders =~= Set::<TranscriptSignatureView>::empty());
            }
        }
        let m = lemma_set_has_greatest(holders);
        assert forall|t: TranscriptSignatureView|
            #[trigger] groups.dom().contains(t) && sig_view_lt(m, t) implies !groups[t].contains(
            k,
        ) by {
            if groups[t].contains(k) {
                assert(holders.contains(t));
                lemma_sig_view_lt_asymmetric(m, t);
            }
        }
        assert(r1[k] == unified_id_spec(sig_rank(m, groups.dom())));
        assert(r2[k] == unified_id_spec(sig_rank(m, groups.dom())));
    }
    assert forall|k: SampleTranscriptIdView| r2.dom().contains(k) implies r1.dom().contains(
        k,
    ) by {
    }
    assert(r1 =~= r2);
}

/// Whether `key` is one of the pairs in `keys`.
fn keys_contain(keys: &Vec<SampleTranscriptId>, key: &SampleTranscriptId) -> (r: bool)
    ensures
        r == key_views(keys@).to_set().contains(key@),
{
    let n: usize = keys.len();
    let mut i: usize = 0;
    while i < n
        invariant
            0 <= i <= n,
            n == keys@.len(),
            forall|j: int| 0 <= j < i ==> key_views(keys@)[j] != key@,
        decreases n - i,
    {
        if keys[i].same(key) {
            proof {
                assert(key_views(keys@)[i as int] == key@);
                assert(key_views(keys@).contains(key@));
            }
            return true;
        }
        i = i + 1;
    }
    proof {
        if key_views(keys@).to_set().contains(key@) {
            let j = choose|j: int|
                0 <= j < key_views(keys@).len() && key_views(keys@)[j] == key@;
        }
    }
    false
}

} // verus!
