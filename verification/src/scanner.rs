//! The scan pipeline: eligibility filtering of walked entries, the
//! case-insensitive comparison of each candidate's extension against its
//! detected extension set, and the order-independent reduction of per-file
//! outcomes into one summary.
//!
//! Detection itself (reading file content and classifying it) happens outside
//! this crate; workers hand the detected extension lists in as plain values.
//! Every step here is a function of its inputs alone, which is what makes the
//! parallel scan deterministic: however the candidate list is cut into chunks
//! and spread over workers, concatenating the chunk results reproduces the
//! sequential result exactly (`lemma_partition_independent`).

use vstd::prelude::*;
use crate::app::{Config, EngineType};
use crate::error::Error;
use crate::magic::LibMagicScanner;
use crate::magika::MagikaScanner;
use crate::pathname::{
    eq_ignore_case, eq_ignore_ascii_case, extension_of, seq_views, spec_extension, str_eq,
};

verus! {

/// What the directory walker reports of one entry: its path, whether it is a
/// regular file, and its byte length. The walk itself is a collaborator at
/// the boundary; eligibility is decided here.
#[derive(Debug)]
pub struct WalkEntry {
    pub path: String,
    pub is_file: bool,
    pub size: u64,
}

#[verifier::ext_equal]
pub ghost struct EntryView {
    pub path: Seq<char>,
    pub is_file: bool,
    pub size: nat,
}

impl View for WalkEntry {
    type V = EntryView;

    open spec fn view(&self) -> EntryView {
        EntryView { path: self.path@, is_file: self.is_file, size: self.size as nat }
    }
}

/// An eligible file: a regular file of non-zero size whose name carries a
/// non-empty extension. Only such files reach detection.
#[derive(Debug)]
pub struct FileCandidate {
    pub path: String,
    pub ext: String,
}

#[verifier::ext_equal]
pub ghost struct CandidateView {
    pub path: Seq<char>,
    pub ext: Seq<char>,
}

impl View for FileCandidate {
    type V = CandidateView;

    open spec fn view(&self) -> CandidateView {
        CandidateView { path: self.path@, ext: self.ext@ }
    }
}

/// One mismatch: a file path together with the extension set its content was
/// detected as — the set its name was expected to draw from.
#[derive(Debug)]
pub struct MismatchRecord {
    pub path: String,
    pub expected: Vec<String>,
}

#[verifier::ext_equal]
pub ghost struct RecordView {
    pub path: Seq<char>,
    pub expected: Seq<Seq<char>>,
}

impl View for MismatchRecord {
    type V = RecordView;

    open spec fn view(&self) -> RecordView {
        RecordView { path: self.path@, expected: seq_views(self.expected@) }
    }
}

/// The outcome of one scan: how many eligible files were considered, and the
/// mismatches among them in candidate order.
#[derive(Debug)]
pub struct ScanSummary {
    pub mismatched_files: Vec<MismatchRecord>,
    pub total_num: usize,
}

#[verifier::ext_equal]
pub ghost struct SummaryView {
    pub mismatched: Seq<RecordView>,
    pub total: int,
}

impl View for ScanSummary {
    type V = SummaryView;

    open spec fn view(&self) -> SummaryView {
        SummaryView { mismatched: record_views(self.mismatched_files@), total: self.total_num as int }
    }
}

impl ScanSummary {
    /// No more files mismatch than were considered.
    pub open spec fn wf(&self) -> bool {
        self@.mismatched.len() <= self@.total
    }

    /// The summary as a mapping from path to expected extension set.
    pub open spec fn spec_map(&self) -> Map<Seq<char>, Seq<Seq<char>>> {
        records_map(self@.mismatched)
    }

    /// The expected extension set recorded for `path`, if that file
    /// mismatched: the lookup the map view describes, the last record
    /// winning where a path repeats.
    pub fn expected_for(&self, path: &str) -> (r: Option<&Vec<String>>)
        ensures
            match r {
                Some(v) => self.spec_map().contains_key(path@) && seq_views(v@)
                    == self.spec_map().index(path@),
                None => !self.spec_map().contains_key(path@),
            },
    {
        let n = self.mismatched_files.len();
        let mut i: usize = n;
        while i > 0
            invariant
                0 <= i <= n,
                n == self.mismatched_files@.len(),
                forall|j: int|
                    i <= j < n ==> record_views(self.mismatched_files@)[j].path != path@,
            decreases i,
        {
            i = i - 1;
            if str_eq(self.mismatched_files[i].path.as_str(), path) {
                proof {
                    lemma_records_map(self@.mismatched, path@);
                    let l = last_path_index(self@.mismatched, path@);
                    if l < i as int {
                        assert(self@.mismatched[i as int].path != path@);
                    } else if l > i as int {
                        assert(self@.mismatched[l].path != path@);
                    }
                }
                return Some(&self.mismatched_files[i].expected);
            }
        }
        proof {
            lemma_records_map(self@.mismatched, path@);
            let l = last_path_index(self@.mismatched, path@);
            if l >= 0 {
                assert(self@.mismatched[l].path != path@);
            }
        }
        None
    }
}

/// The views of a sequence of walked entries.
pub open spec fn entry_views(v: Seq<WalkEntry>) -> Seq<EntryView> {
    v.map_values(|e: WalkEntry| e@)
}

/// The views of a sequence of candidates.
pub open spec fn candidate_views(v: Seq<FileCandidate>) -> Seq<CandidateView> {
    v.map_values(|c: FileCandidate| c@)
}

/// The views of a sequence of mismatch records.
pub open spec fn record_views(v: Seq<MismatchRecord>) -> Seq<RecordView> {
    v.map_values(|r: MismatchRecord| r@)
}

/// The views of a sequence of detected extension lists.
pub open spec fn detection_views(v: Seq<Vec<String>>) -> Seq<Seq<Seq<char>>> {
    v.map_values(|d: Vec<String>| seq_views(d@))
}

/// The views of the workers' partial record lists.
pub open spec fn partial_views(ps: Seq<Vec<MismatchRecord>>) -> Seq<Seq<RecordView>> {
    ps.map_values(|p: Vec<MismatchRecord>| record_views(p@))
}

/// A sequence of records as a map, later records overriding earlier ones.
pub open spec fn records_map(rs: Seq<RecordView>) -> Map<Seq<char>, Seq<Seq<char>>>
    decreases rs.len(),
{
    if rs.len() == 0 {
        Map::empty()
    } else {
        records_map(rs.drop_last()).insert(rs.last().path, rs.last().expected)
    }
}

/// The index of the last record for `path`, or `-1` if no record is. The
/// last one is what the map view keeps when a path repeats.
pub open spec fn last_path_index(rs: Seq<RecordView>, path: Seq<char>) -> int
    decreases rs.len(),
{
    if rs.len() == 0 {
        -1
    } else if rs.last().path == path {
        rs.len() - 1
    } else {
        last_path_index(rs.drop_last(), path)
    }
}

/// The map view keeps exactly the recorded paths, each with the expected
/// set of its last record.
pub proof fn lemma_records_map(rs: Seq<RecordView>, path: Seq<char>)
    ensures
        -1 <= last_path_index(rs, path) < rs.len(),
        records_map(rs).contains_key(path) <==> last_path_index(rs, path) >= 0,
        last_path_index(rs, path) >= 0 ==> rs[last_path_index(rs, path)].path == path
            && records_map(rs)[path] == rs[last_path_index(rs, path)].expected,
        forall|j: int| last_path_index(rs, path) < j < rs.len() ==> rs[j].path != path,
    decreases rs.len(),
{
    if rs.len() > 0 && rs.last().path != path {
        lemma_records_map(rs.drop_last(), path);
        assert(forall|j: int| 0 <= j < rs.len() - 1 ==> rs[j] == rs.drop_last()[j]);
    }
}

/// Whether a walked entry is an eligible file: a regular file, non-empty,
/// with a non-empty extension.
pub open spec fn eligible(e: EntryView) -> bool {
    &&& e.is_file
    &&& e.size > 0
    &&& match spec_extension(e.path) {
        Some(x) => x.len() > 0,
        None => false,
    }
}

/// The candidate an eligible entry becomes: its path and its extension as
/// written in the name.
pub open spec fn candidate_of(e: EntryView) -> CandidateView {
    CandidateView {
        path: e.path,
        ext: match spec_extension(e.path) {
            Some(x) => x,
            None => Seq::empty(),
        },
    }
}

/// The candidate list a walk produces: the eligible entries, in walk order.
pub open spec fn candidates_of(entries: Seq<EntryView>) -> Seq<CandidateView>
    decreases entries.len(),
{
    if entries.len() == 0 {
        Seq::empty()
    } else {
        let rest = candidates_of(entries.drop_last());
        if eligible(entries.last()) {
            rest.push(candidate_of(entries.last()))
        } else {
            rest
        }
    }
}

/// Whether the actual extension is, up to ASCII case, a member of the
/// detected extension set.
pub open spec fn matches_any(actual: Seq<char>, detected: Seq<Seq<char>>) -> bool {
    exists|k: int| 0 <= k < detected.len() && eq_ignore_case(detected[k], actual)
}

/// A candidate mismatches exactly when its extension matches no member of
/// its detected set.
pub open spec fn is_mismatch(c: CandidateView, detected: Seq<Seq<char>>) -> bool {
    !matches_any(c.ext, detected)
}

/// The record a mismatching candidate produces.
pub open spec fn record_of(c: CandidateView, detected: Seq<Seq<char>>) -> RecordView {
    RecordView { path: c.path, expected: detected }
}

/// The records a chunk of candidates produces, in order: one per mismatching
/// candidate, nothing for the rest.
pub open spec fn chunk_records(cands: Seq<CandidateView>, dets: Seq<Seq<Seq<char>>>) -> Seq<
    RecordView,
>
    decreases cands.len(),
{
    if cands.len() == 0 || dets.len() == 0 {
        Seq::empty()
    } else {
        let head = if is_mismatch(cands[0], dets[0]) {
            seq![record_of(cands[0], dets[0])]
        } else {
            Seq::empty()
        };
        head + chunk_records(cands.drop_first(), dets.drop_first())
    }
}

/// The summary of a fully detected candidate list.
pub open spec fn summary_of(cands: Seq<CandidateView>, dets: Seq<Seq<Seq<char>>>) -> SummaryView {
    SummaryView { mismatched: chunk_records(cands, dets), total: cands.len() as int }
}

/// A chunk produces at most one record per candidate.
pub proof fn lemma_chunk_records_len(cands: Seq<CandidateView>, dets: Seq<Seq<Seq<char>>>)
    ensures
        chunk_records(cands, dets).len() <= cands.len(),
    decreases cands.len(),
{
    if cands.len() > 0 && dets.len() > 0 {
        lemma_chunk_records_len(cands.drop_first(), dets.drop_first());
    }
}

/// The per-chunk record lists of a partitioned scan: chunk by chunk, the
/// records that chunk produces.
pub open spec fn chunk_results(
    cc: Seq<Seq<CandidateView>>,
    dd: Seq<Seq<Seq<Seq<char>>>>,
) -> Seq<Seq<RecordView>>
    decreases cc.len(),
{
    if cc.len() == 0 {
        Seq::empty()
    } else {
        seq![chunk_records(cc.first(), dd.first())] + chunk_results(cc.drop_first(), dd.drop_first())
    }
}

/// The views of a partitioned candidate list, chunk by chunk.
pub open spec fn chunk_cand_views(cc: Seq<Vec<FileCandidate>>) -> Seq<Seq<CandidateView>> {
    cc.map_values(|v: Vec<FileCandidate>| candidate_views(v@))
}

/// The views of partitioned detected sets, chunk by chunk.
pub open spec fn chunk_det_views(dd: Seq<Vec<Vec<String>>>) -> Seq<Seq<Seq<Seq<char>>>> {
    dd.map_values(|v: Vec<Vec<String>>| detection_views(v@))
}

/// Per-chunk results concatenate as the chunk lists do.
pub proof fn lemma_chunk_results_concat(
    cc1: Seq<Seq<CandidateView>>,
    dd1: Seq<Seq<Seq<Seq<char>>>>,
    cc2: Seq<Seq<CandidateView>>,
    dd2: Seq<Seq<Seq<Seq<char>>>>,
)
    requires
        cc1.len() == dd1.len(),
    ensures
        chunk_results(cc1 + cc2, dd1 + dd2) == chunk_results(cc1, dd1) + chunk_results(cc2, dd2),
    decreases cc1.len(),
{
    if cc1.len() == 0 {
        assert(cc1 + cc2 =~= cc2);
        assert(dd1 + dd2 =~= dd2);
        assert(chunk_results(cc1, dd1) + chunk_results(cc2, dd2) =~= chunk_results(cc2, dd2));
    } else {
        assert((cc1 + cc2).first() == cc1.first());
        assert((dd1 + dd2).first() == dd1.first());
        assert((cc1 + cc2).drop_first() =~= cc1.drop_first() + cc2);
        assert((dd1 + dd2).drop_first() =~= dd1.drop_first() + dd2);
        lemma_chunk_results_concat(cc1.drop_first(), dd1.drop_first(), cc2, dd2);
        assert(seq![chunk_records(cc1.first(), dd1.first())] + (chunk_results(
            cc1.drop_first(),
            dd1.drop_first(),
        ) + chunk_results(cc2, dd2)) =~= (seq![chunk_records(cc1.first(), dd1.first())]
            + chunk_results(cc1.drop_first(), dd1.drop_first())) + chunk_results(cc2, dd2));
    }
}

/// Concatenation splits the record list as it splits the inputs.
pub proof fn lemma_chunk_concat(
    c1: Seq<CandidateView>,
    d1: Seq<Seq<Seq<char>>>,
    c2: Seq<CandidateView>,
    d2: Seq<Seq<Seq<char>>>,
)
    requires
        c1.len() == d1.len(),
    ensures
        chunk_records(c1 + c2, d1 + d2) == chunk_records(c1, d1) + chunk_records(c2, d2),
    decreases c1.len(),
{
    if c1.len() == 0 {
        assert(c1 + c2 =~= c2);
        assert(d1 + d2 =~= d2);
        assert(chunk_records(c1, d1) + chunk_records(c2, d2) =~= chunk_records(c2, d2));
    } else {
        assert((c1 + c2)[0] == c1[0]);
        assert((d1 + d2)[0] == d1[0]);
        assert((c1 + c2).drop_first() =~= c1.drop_first() + c2);
        assert((d1 + d2).drop_first() =~= d1.drop_first() + d2);
        lemma_chunk_concat(c1.drop_first(), d1.drop_first(), c2, d2);
        let head = if is_mismatch(c1[0], d1[0]) {
            seq![record_of(c1[0], d1[0])]
        } else {
            Seq::<RecordView>::empty()
        };
        assert(head + (chunk_records(c1.drop_first(), d1.drop_first()) + chunk_records(c2, d2))
            =~= (head + chunk_records(c1.drop_first(), d1.drop_first())) + chunk_records(c2, d2));
    }
}

/// Order-independence of the parallel scan: cut the candidate list (with its
/// detected sets) into consecutive chunks however you like — one chunk or
/// one per worker — and concatenate the per-chunk records in chunk order;
/// the result is exactly the record list of scanning the whole list at once,
/// and therefore the same summary.
pub proof fn lemma_partition_independent(cc: Seq<Seq<CandidateView>>, dd: Seq<Seq<Seq<Seq<char>>>>)
    requires
        cc.len() == dd.len(),
        forall|k: int| 0 <= k < cc.len() ==> (#[trigger] cc[k]).len() == dd[k].len(),
    ensures
        chunk_results(cc, dd).flatten() == chunk_records(cc.flatten(), dd.flatten()),
        summary_of(cc.flatten(), dd.flatten()) == (SummaryView {
            mismatched: chunk_results(cc, dd).flatten(),
            total: cc.flatten().len() as int,
        }),
    decreases cc.len(),
{
    if cc.len() == 0 {
        assert(chunk_results(cc, dd).flatten() =~= Seq::<RecordView>::empty());
        assert(cc.flatten() =~= Seq::<CandidateView>::empty());
        assert(dd.flatten() =~= Seq::<Seq<Seq<char>>>::empty());
    } else {
        assert(forall|k: int|
            0 <= k < cc.drop_first().len() ==> (#[trigger] cc.drop_first()[k]).len()
                == dd.drop_first()[k].len());
        lemma_partition_independent(cc.drop_first(), dd.drop_first());
        lemma_chunk_concat(
            cc.first(),
            dd.first(),
            cc.drop_first().flatten(),
            dd.drop_first().flatten(),
        );
        let results = chunk_results(cc, dd);
        assert(results.first() == chunk_records(cc.first(), dd.first()));
        assert(results.drop_first() =~= chunk_results(cc.drop_first(), dd.drop_first()));
        assert(results.flatten() == results.first() + results.drop_first().flatten());
        assert(cc.flatten() == cc.first() + cc.drop_first().flatten());
        assert(dd.flatten() == dd.first() + dd.drop_first().flatten());
    }
    assert(summary_of(cc.flatten(), dd.flatten()) =~= (SummaryView {
        mismatched: chunk_results(cc, dd).flatten(),
        total: cc.flatten().len() as int,
    }));
}

/// Scanning an unmodified tree twice yields the same summary: the summary is
/// a function of the candidate list and the detected sets alone, so equal
/// inputs force equal outcomes.
pub proof fn lemma_scan_deterministic(
    cands: Seq<CandidateView>,
    dets: Seq<Seq<Seq<char>>>,
    s1: SummaryView,
    s2: SummaryView,
)
    requires
        s1 == summary_of(cands, dets),
        s2 == summary_of(cands, dets),
    ensures
        s1 == s2,
{
}

/// A file of size zero (like any other ineligible entry) produces no
/// candidate, reaches no detection, and so produces no mismatch record:
/// every candidate stems from an eligible entry, and eligibility requires a
/// regular file of non-zero size.
pub proof fn lemma_candidates_eligible(entries: Seq<EntryView>, k: int)
    requires
        0 <= k < candidates_of(entries).len(),
    ensures
        exists|j: int|
            0 <= j < entries.len() && eligible(#[trigger] entries[j]) && candidates_of(entries)[k]
                == candidate_of(entries[j]),
    decreases entries.len(),
{
    if entries.len() > 0 {
        let rest = candidates_of(entries.drop_last());
        if eligible(entries.last()) && k == rest.len() {
            assert(0 <= entries.len() - 1 < entries.len() && eligible(entries[entries.len() - 1])
                && candidates_of(entries)[k] == candidate_of(entries[entries.len() - 1]));
        } else {
            lemma_candidates_eligible(entries.drop_last(), k);
            let j = choose|j: int|
                0 <= j < entries.drop_last().len() && eligible(#[trigger] entries.drop_last()[j])
                    && candidates_of(entries.drop_last())[k] == candidate_of(
                    entries.drop_last()[j],
                );
            assert(entries.drop_last()[j] == entries[j]);
            assert(0 <= j < entries.len() && eligible(entries[j]) && candidates_of(entries)[k]
                == candidate_of(entries[j]));
        }
    }
}

/// The filter drops nothing it should keep: every eligible entry's candidate
/// is in the candidate list and reaches detection.
pub proof fn lemma_eligible_included(entries: Seq<EntryView>, j: int)
    requires
        0 <= j < entries.len(),
        eligible(entries[j]),
    ensures
        candidates_of(entries).contains(candidate_of(entries[j])),
    decreases entries.len(),
{
    let cands = candidates_of(entries);
    if j == entries.len() - 1 {
        assert(cands.last() == candidate_of(entries[j]));
        assert(cands.contains(candidate_of(entries[j])));
    } else {
        assert(entries.drop_last()[j] == entries[j]);
        lemma_eligible_included(entries.drop_last(), j);
        let rest = candidates_of(entries.drop_last());
        let i = choose|i: int| 0 <= i < rest.len() && rest[i] == candidate_of(entries[j]);
        assert(cands[i] == candidate_of(entries[j]));
        assert(cands.contains(candidate_of(entries[j])));
    }
}

/// Candidate paths repeat at most once each.
pub open spec fn distinct_paths(cands: Seq<CandidateView>) -> bool {
    forall|i: int, j: int|
        0 <= i < j < cands.len() ==> (#[trigger] cands[i]).path != (#[trigger] cands[j]).path
}

/// Record paths repeat at most once each: the summary's mapping has unique
/// keys.
pub open spec fn distinct_record_paths(rs: Seq<RecordView>) -> bool {
    forall|i: int, j: int|
        0 <= i < j < rs.len() ==> (#[trigger] rs[i]).path != (#[trigger] rs[j]).path
}

/// Every record's path is the path of some candidate of its chunk.
pub proof fn lemma_record_from_candidate(
    cands: Seq<CandidateView>,
    dets: Seq<Seq<Seq<char>>>,
    k: int,
)
    requires
        cands.len() == dets.len(),
        0 <= k < chunk_records(cands, dets).len(),
    ensures
        exists|i: int|
            0 <= i < cands.len() && chunk_records(cands, dets)[k].path == (#[trigger] cands[i]).path,
    decreases cands.len(),
{
    let rs = chunk_records(cands, dets);
    if cands.len() > 0 {
        let head_len: int = if is_mismatch(cands[0], dets[0]) {
            1
        } else {
            0
        };
        if k < head_len {
            assert(rs[k].path == cands[0].path);
        } else {
            lemma_record_from_candidate(cands.drop_first(), dets.drop_first(), k - head_len);
            let rest = chunk_records(cands.drop_first(), dets.drop_first());
            let i = choose|i: int|
                0 <= i < cands.drop_first().len() && rest[k - head_len].path == (
                #[trigger] cands.drop_first()[i]).path;
            assert(rs[k].path == rest[k - head_len].path);
            assert(cands.drop_first()[i] == cands[i + 1]);
            assert(rs[k].path == cands[i + 1].path);
        }
    }
}

/// Disjoint work gives disjoint results: when the candidate paths are
/// distinct — each file is processed by exactly one worker — the records'
/// paths are distinct too, so the summary's mapping has unique keys.
pub proof fn lemma_records_distinct(cands: Seq<CandidateView>, dets: Seq<Seq<Seq<char>>>)
    requires
        cands.len() == dets.len(),
        distinct_paths(cands),
    ensures
        distinct_record_paths(chunk_records(cands, dets)),
    decreases cands.len(),
{
    let rs = chunk_records(cands, dets);
    if cands.len() > 0 {
        assert(forall|i: int, j: int|
            0 <= i < j < cands.drop_first().len() ==> (#[trigger] cands.drop_first()[i]).path != (
            #[trigger] cands.drop_first()[j]).path) by {
            assert(forall|i: int|
                0 <= i < cands.drop_first().len() ==> #[trigger] cands.drop_first()[i] == cands[i
                    + 1]);
        }
        lemma_records_distinct(cands.drop_first(), dets.drop_first());
        let rest = chunk_records(cands.drop_first(), dets.drop_first());
        let head_len: int = if is_mismatch(cands[0], dets[0]) {
            1
        } else {
            0
        };
        assert forall|i: int, j: int| 0 <= i < j < rs.len() implies (#[trigger] rs[i]).path != (
        #[trigger] rs[j]).path by {
            if i >= head_len {
                assert(rs[i] == rest[i - head_len] && rs[j] == rest[j - head_len]);
            } else {
                assert(rs[i].path == cands[0].path);
                assert(rs[j] == rest[j - head_len]);
                lemma_record_from_candidate(cands.drop_first(), dets.drop_first(), j - head_len);
                let w = choose|w: int|
                    0 <= w < cands.drop_first().len() && rest[j - head_len].path == (
                    #[trigger] cands.drop_first()[w]).path;
                assert(cands.drop_first()[w] == cands[w + 1]);
                assert(cands[0].path != cands[w + 1].path);
            }
        }
    }
}

/// An eligible file whose actual extension is, up to ASCII case, a member of
/// its detected set is recorded as no mismatch.
pub proof fn lemma_match_no_record(c: CandidateView, det: Seq<Seq<char>>)
    requires
        matches_any(c.ext, det),
    ensures
        chunk_records(seq![c], seq![det]) == Seq::<RecordView>::empty(),
{
    assert(seq![c].drop_first() =~= Seq::<CandidateView>::empty());
    assert(seq![det].drop_first() =~= Seq::<Seq<Seq<char>>>::empty());
    assert(seq![c][0] == c);
    assert(seq![det][0] == det);
    assert(!is_mismatch(c, det));
    assert(chunk_records(Seq::<CandidateView>::empty(), Seq::<Seq<Seq<char>>>::empty())
        == Seq::<RecordView>::empty());
    assert(chunk_records(seq![c], seq![det]) == Seq::<RecordView>::empty() + chunk_records(
        Seq::<CandidateView>::empty(),
        Seq::<Seq<Seq<char>>>::empty(),
    ));
    assert(Seq::<RecordView>::empty() + Seq::<RecordView>::empty()
        =~= Seq::<RecordView>::empty());
}

/// Copies of the strings in `v`, same characters in the same order.
fn clone_strings(v: &Vec<String>) -> (r: Vec<String>)
    ensures
        seq_views(r@) == seq_views(v@),
{
    let mut out: Vec<String> = Vec::new();
    let n = v.len();
    let mut i: usize = 0;
    while i < n
        invariant
            0 <= i <= n,
            n == v@.len(),
            out@.len() == i,
            forall|j: int| 0 <= j < i ==> out@[j]@ == v@[j]@,
        decreases n - i,
    {
        out.push(v[i].clone());
        i += 1;
    }
    assert(seq_views(out@) =~= seq_views(v@));
    out
}

/// Applies the eligibility filter to a walked entry list: keeps the regular,
/// non-empty files whose name carries a non-empty extension, and derives each
/// one's candidate. Entries of size zero, directories and extension-less
/// names never reach detection.
pub fn filter_candidates(entries: &Vec<WalkEntry>) -> (r: Vec<FileCandidate>)
    ensures
        candidate_views(r@) == candidates_of(entry_views(entries@)),
{
    let mut out: Vec<FileCandidate> = Vec::new();
    let n = entries.len();
    let mut i: usize = 0;
    proof {
        assert(entry_views(entries@).take(0) =~= Seq::<EntryView>::empty());
        assert(candidate_views(out@) =~= candidates_of(entry_views(entries@).take(0)));
    }
    while i < n
        invariant
            0 <= i <= n,
            n == entries@.len(),
            candidate_views(out@) == candidates_of(entry_views(entries@).take(i as int)),
        decreases n - i,
    {
        let e = &entries[i];
        let ext_opt = extension_of(e.path.as_str());
        let ghost s = entry_views(entries@);
        proof {
            assert(s.take(i + 1).drop_last() =~= s.take(i as int));
            assert(s.take(i + 1).last() == s[i as int]);
            assert(s[i as int] == e@);
        }
        let mut added = false;
        match ext_opt {
            Some(x) => {
                if e.is_file && e.size > 0 && x.as_str().unicode_len() > 0 {
                    let c = FileCandidate { path: e.path.clone(), ext: x };
                    proof {
                        assert(eligible(e@));
                        assert(c@ =~= candidate_of(e@));
                        assert(candidates_of(s.take(i + 1)) == candidates_of(s.take(i as int)).push(
                            candidate_of(e@),
                        ));
                        assert(candidate_views(out@.push(c)) =~= candidate_views(out@).push(c@));
                    }
                    out.push(c);
                    added = true;
                } else {
                    proof {
                        assert(!eligible(e@));
                    }
                }
            },
            None => {
                proof {
                    assert(!eligible(e@));
                }
            },
        }
        proof {
            if !added {
                assert(!eligible(s.take(i + 1).last()));
                assert(candidates_of(s.take(i + 1)) == candidates_of(s.take(i as int)));
            }
        }
        i += 1;
    }
    proof {
        assert(entry_views(entries@).take(n as int) =~= entry_views(entries@));
    }
    out
}

/// The pure mismatch evaluation: if the actual extension equals, up to ASCII
/// case, any member of the detected set, there is no mismatch (`None`);
/// otherwise the whole detected set is returned as the expected set.
pub fn evaluate(actual_ext: &str, detected: &Vec<String>) -> (r: Option<Vec<String>>)
    ensures
        match r {
            Some(exp) => !matches_any(actual_ext@, seq_views(detected@)) && seq_views(exp@)
                == seq_views(detected@),
            None => matches_any(actual_ext@, seq_views(detected@)),
        },
{
    let n = detected.len();
    let mut k: usize = 0;
    while k < n
        invariant
            0 <= k <= n,
            n == detected@.len(),
            forall|j: int| 0 <= j < k ==> !eq_ignore_case(seq_views(detected@)[j], actual_ext@),
        decreases n - k,
    {
        if eq_ignore_ascii_case(detected[k].as_str(), actual_ext) {
            assert(eq_ignore_case(seq_views(detected@)[k as int], actual_ext@));
            return None;
        }
        k += 1;
    }
    Some(clone_strings(detected))
}

/// The per-candidate step: evaluates the candidate's extension against the
/// detected set and produces its mismatch record, if any.
pub fn check_candidate(c: &FileCandidate, detected: &Vec<String>) -> (r: Option<MismatchRecord>)
    ensures
        match r {
            Some(rec) => is_mismatch(c@, seq_views(detected@)) && rec@ == record_of(
                c@,
                seq_views(detected@),
            ),
            None => !is_mismatch(c@, seq_views(detected@)),
        },
{
    match evaluate(c.ext.as_str(), detected) {
        Some(exp) => {
            let rec = MismatchRecord { path: c.path.clone(), expected: exp };
            proof {
                assert(rec@ =~= record_of(c@, seq_views(detected@)));
            }
            Some(rec)
        },
        None => None,
    }
}

/// One worker's share of the scan: evaluates each candidate of a chunk
/// against its detected set and collects the mismatch records, in chunk
/// order.
pub fn scan_chunk(cands: &Vec<FileCandidate>, dets: &Vec<Vec<String>>) -> (r: Vec<MismatchRecord>)
    requires
        cands@.len() == dets@.len(),
    ensures
        record_views(r@) == chunk_records(candidate_views(cands@), detection_views(dets@)),
{
    let ghost cs = candidate_views(cands@);
    let ghost ds = detection_views(dets@);
    let mut out: Vec<MismatchRecord> = Vec::new();
    let n = cands.len();
    let mut i: usize = 0;
    proof {
        assert(cs.skip(0) =~= cs);
        assert(ds.skip(0) =~= ds);
        assert(record_views(out@) + chunk_records(cs, ds) =~= chunk_records(cs, ds));
    }
    while i < n
        invariant
            0 <= i <= n,
            n == cands@.len(),
            n == dets@.len(),
            cs == candidate_views(cands@),
            ds == detection_views(dets@),
            record_views(out@) + chunk_records(cs.skip(i as int), ds.skip(i as int))
                == chunk_records(cs, ds),
        decreases n - i,
    {
        let rec_opt = check_candidate(&cands[i], &dets[i]);
        proof {
            let csi = cs.skip(i as int);
            let dsi = ds.skip(i as int);
            assert(csi.len() > 0 && dsi.len() > 0);
            assert(csi[0] == cs[i as int] && csi[0] == cands@[i as int]@);
            assert(dsi[0] == ds[i as int] && dsi[0] == seq_views(dets@[i as int]@));
            assert(csi.drop_first() =~= cs.skip(i + 1));
            assert(dsi.drop_first() =~= ds.skip(i + 1));
        }
        match rec_opt {
            Some(rec) => {
                proof {
                    let csi = cs.skip(i as int);
                    let dsi = ds.skip(i as int);
                    assert(chunk_records(csi, dsi) == seq![rec@] + chunk_records(
                        cs.skip(i + 1),
                        ds.skip(i + 1),
                    ));
                    assert(record_views(out@.push(rec)) =~= record_views(out@) + seq![rec@]);
                    assert((record_views(out@) + seq![rec@]) + chunk_records(
                        cs.skip(i + 1),
                        ds.skip(i + 1),
                    ) =~= record_views(out@) + (seq![rec@] + chunk_records(
                        cs.skip(i + 1),
                        ds.skip(i + 1),
                    )));
                }
                out.push(rec);
            },
            None => {
                proof {
                    let csi = cs.skip(i as int);
                    let dsi = ds.skip(i as int);
                    assert(chunk_records(csi, dsi) == Seq::<RecordView>::empty() + chunk_records(
                        cs.skip(i + 1),
                        ds.skip(i + 1),
                    ));
                    assert(Seq::<RecordView>::empty() + chunk_records(cs.skip(i + 1), ds.skip(i + 1))
                        =~= chunk_records(cs.skip(i + 1), ds.skip(i + 1)));
                }
            },
        }
        i += 1;
    }
    proof {
        assert(cs.skip(n as int) =~= Seq::<CandidateView>::empty());
        assert(record_views(out@) + chunk_records(cs.skip(n as int), ds.skip(n as int))
            =~= record_views(out@));
    }
    out
}

/// The reduction: concatenates the workers' partial record lists in chunk
/// order into one list.
pub fn merge_partials(partials: Vec<Vec<MismatchRecord>>) -> (r: Vec<MismatchRecord>)
    ensures
        record_views(r@) == partial_views(partials@).flatten(),
{
    let ghost whole = partial_views(partials@).flatten();
    let mut rest = partials;
    let mut out: Vec<MismatchRecord> = Vec::new();
    proof {
        assert(record_views(out@) + partial_views(rest@).flatten() =~= whole);
    }
    while rest.len() > 0
        invariant
            record_views(out@) + partial_views(rest@).flatten() == whole,
        decreases rest@.len(),
    {
        let ghost rv = partial_views(rest@);
        let mut first = rest.remove(0);
        proof {
            assert(rv.len() > 0);
            assert(rv[0] == record_views(first@));
            assert(rv.flatten() == rv.first() + rv.drop_first().flatten());
            assert(rv.drop_first() =~= partial_views(rest@));
            assert(record_views(out@ + first@) =~= record_views(out@) + record_views(first@));
            assert((record_views(out@) + record_views(first@)) + rv.drop_first().flatten()
                =~= record_views(out@) + (record_views(first@) + rv.drop_first().flatten()));
        }
        out.append(&mut first);
    }
    proof {
        assert(partial_views(rest@).flatten() =~= Seq::<RecordView>::empty());
        assert(record_views(out@) + Seq::<RecordView>::empty() =~= record_views(out@));
    }
    out
}

/// Builds the summary from the merged records and the candidate count.
pub fn make_summary(records: Vec<MismatchRecord>, total_num: usize) -> (r: ScanSummary)
    requires
        records@.len() <= total_num,
    ensures
        r@.mismatched == record_views(records@),
        r@.total == total_num as int,
        r.wf(),
{
    ScanSummary { mismatched_files: records, total_num }
}

/// The whole pipeline after detection, sequentially: evaluates every
/// candidate against its detected set and builds the summary. This is the
/// one-worker reference that any parallel split of the same work reproduces.
pub fn scan_files(cands: &Vec<FileCandidate>, dets: &Vec<Vec<String>>) -> (r: ScanSummary)
    requires
        cands@.len() == dets@.len(),
    ensures
        r@ == summary_of(candidate_views(cands@), detection_views(dets@)),
        r.wf(),
{
    let records = scan_chunk(cands, dets);
    proof {
        lemma_chunk_records_len(candidate_views(cands@), detection_views(dets@));
    }
    let r = make_summary(records, cands.len());
    proof {
        assert(r@ =~= summary_of(candidate_views(cands@), detection_views(dets@)));
    }
    r
}

/// The whole pipeline after detection, over an already partitioned candidate
/// list: each chunk is evaluated on its own — exactly the work one worker
/// does — and the partial results are merged in chunk order. The outcome is
/// the summary of the flattened list: the partition does not show in the
/// result, only the thread scheduling itself stays outside this crate.
pub fn scan_partitioned(chunks_c: &Vec<Vec<FileCandidate>>, chunks_d: &Vec<Vec<Vec<String>>>) -> (r:
    ScanSummary)
    requires
        chunks_c@.len() == chunks_d@.len(),
        forall|k: int|
            0 <= k < chunks_c@.len() ==> (#[trigger] chunks_c@[k])@.len() == chunks_d@[k]@.len(),
        chunk_cand_views(chunks_c@).flatten().len() <= usize::MAX,
    ensures
        r@ == summary_of(
            chunk_cand_views(chunks_c@).flatten(),
            chunk_det_views(chunks_d@).flatten(),
        ),
        r.wf(),
{
    broadcast use Seq::lemma_flatten_push;

    let ghost ccv = chunk_cand_views(chunks_c@);
    let ghost ddv = chunk_det_views(chunks_d@);
    let n = chunks_c.len();
    let mut partials: Vec<Vec<MismatchRecord>> = Vec::new();
    let mut total: usize = 0;
    let mut i: usize = 0;
    proof {
        assert(ccv.take(0) =~= Seq::<Seq<CandidateView>>::empty());
        assert(ddv.take(0) =~= Seq::<Seq<Seq<Seq<char>>>>::empty());
        assert(partial_views(partials@) =~= chunk_results(ccv.take(0), ddv.take(0)));
        assert(ccv.take(0).flatten() =~= Seq::<CandidateView>::empty());
    }
    while i < n
        invariant
            0 <= i <= n,
            n == chunks_c@.len(),
            n == chunks_d@.len(),
            ccv == chunk_cand_views(chunks_c@),
            ddv == chunk_det_views(chunks_d@),
            forall|k: int| 0 <= k < n ==> (#[trigger] chunks_c@[k])@.len() == chunks_d@[k]@.len(),
            ccv.flatten().len() <= usize::MAX,
            partial_views(partials@) == chunk_results(ccv.take(i as int), ddv.take(i as int)),
            total == ccv.take(i as int).flatten().len(),
        decreases n - i,
    {
        broadcast use Seq::lemma_flatten_push;

        let part = scan_chunk(&chunks_c[i], &chunks_d[i]);
        proof {
            assert(ccv.take(i + 1) =~= ccv.take(i as int).push(ccv[i as int]));
            assert(ddv.take(i + 1) =~= ddv.take(i as int).push(ddv[i as int]));
            assert(ccv.take(i + 1) =~= ccv.take(i as int) + seq![ccv[i as int]]);
            assert(ddv.take(i + 1) =~= ddv.take(i as int) + seq![ddv[i as int]]);
            let c1 = seq![ccv[i as int]];
            let d1 = seq![ddv[i as int]];
            lemma_chunk_results_concat(ccv.take(i as int), ddv.take(i as int), c1, d1);
            assert(c1.first() == ccv[i as int]);
            assert(d1.first() == ddv[i as int]);
            assert(c1.drop_first() =~= Seq::<Seq<CandidateView>>::empty());
            assert(d1.drop_first() =~= Seq::<Seq<Seq<Seq<char>>>>::empty());
            assert(chunk_results(c1.drop_first(), d1.drop_first()) =~= Seq::<
                Seq<RecordView>,
            >::empty());
            assert(chunk_results(c1, d1) == seq![chunk_records(ccv[i as int], ddv[i as int])]
                + chunk_results(c1.drop_first(), d1.drop_first()));
            assert(chunk_results(c1, d1) =~= seq![chunk_records(ccv[i as int], ddv[i as int])]);
            assert(partial_views(partials@.push(part)) =~= partial_views(partials@) + seq![
                record_views(part@),
            ]);
            // The flattened prefix stays within the whole list's length.
            assert(ccv =~= ccv.take(i + 1) + ccv.skip(i + 1));
            vstd::seq_lib::lemma_flatten_concat(ccv.take(i + 1), ccv.skip(i + 1));
            assert(ccv.take(i + 1).flatten().len() <= ccv.flatten().len());
            assert(ccv.take(i + 1).flatten() =~= ccv.take(i as int).flatten() + ccv[i as int]);
        }
        partials.push(part);
        total = total + chunks_c[i].len();
        i += 1;
    }
    proof {
        assert(ccv.take(n as int) =~= ccv);
        assert(ddv.take(n as int) =~= ddv);
        assert forall|k: int| 0 <= k < ccv.len() implies (#[trigger] ccv[k]).len()
            == ddv[k].len() by {
            assert(ccv[k] == candidate_views(chunks_c@[k]@));
            assert(ddv[k] == detection_views(chunks_d@[k]@));
        }
        lemma_partition_independent(ccv, ddv);
        lemma_chunk_records_len(ccv.flatten(), ddv.flatten());
    }
    let records = merge_partials(partials);
    let r = make_summary(records, total);
    proof {
        assert(r@ =~= summary_of(ccv.flatten(), ddv.flatten()));
    }
    r
}

/// The capability a scan driver offers: run the scan it was built for and
/// produce the summary. The drivers — which walk the tree, keep one detector
/// per worker and call the pipeline above — live outside this crate and
/// implement this for their own types. The error policy is fail-fast: a
/// detector that cannot be built, and the first per-file detection failure,
/// abort the scan with the error, and no summary is produced.
pub trait Scanner {
    fn scan(&self) -> Result<ScanSummary, Error>;
}

/// The scanner a configuration selects: one closed set of variants, so that
/// callers depend on the selection, not on a backend type.
#[derive(Debug)]
pub enum SelectedScanner {
    LibMagic(LibMagicScanner),
    Magika(MagikaScanner),
}

/// Selects the scanner the configuration asks for and hands it the
/// configuration.
pub fn build_scanner(config: &Config) -> (r: SelectedScanner)
    ensures
        match r {
            SelectedScanner::LibMagic(s) => config.engine_type == EngineType::LibMagic
                && s.spec_config()@ == config@,
            SelectedScanner::Magika(s) => config.engine_type == EngineType::Magika
                && s.spec_config()@ == config@,
        },
{
    match config.engine_type {
        EngineType::LibMagic => SelectedScanner::LibMagic(LibMagicScanner::new(config.clone())),
        EngineType::Magika => SelectedScanner::Magika(MagikaScanner::new(config.clone())),
    }
}

} // verus!
