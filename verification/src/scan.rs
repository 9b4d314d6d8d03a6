//! The list-driven scan: one pass over a flat list of walked entries, each
//! already classified as a directory, an empty file, or a file with a
//! detected extension string, folded into counters and a mismatch map.
//!
//! This front end counts everything it is handed — directories and empty
//! files included — in `total_num`, keeps each of those in its own counter,
//! treats a detection whose first candidate is the sentinel `"???"` as
//! unrecognized (counted, never reported as a mismatch), and records a
//! mismatch whenever the lowercased actual extension is absent from the
//! detected candidates, or the name has no extension at all. Walking the
//! tree, reading sizes and querying the detection engine happen outside this
//! crate; the renames a fix-up asks for are planned here and performed
//! outside.

use vstd::prelude::*;
use crate::pathname::{
    lower, lowered_equals, seq_views, spec_extension, spec_with_extension, split_char, split_seq,
    str_eq, with_extension, extension_of,
};

verus! {

/// What one walked entry turned out to be: a directory, an empty file, or a
/// file whose content was detected as the held `/`-separated extension
/// candidates.
#[derive(Debug)]
pub enum FsEntryKind {
    Directory,
    Empty,
    Detected(String),
}

/// One walked entry: its path and what it turned out to be.
#[derive(Debug)]
pub struct FsEntry {
    pub filename: String,
    pub kind: FsEntryKind,
}

#[verifier::ext_equal]
pub ghost enum FsKindView {
    Directory,
    Empty,
    Detected(Seq<char>),
}

#[verifier::ext_equal]
pub ghost struct FsEntryView {
    pub name: Seq<char>,
    pub kind: FsKindView,
}

impl View for FsEntry {
    type V = FsEntryView;

    open spec fn view(&self) -> FsEntryView {
        FsEntryView {
            name: self.filename@,
            kind: match self.kind {
                FsEntryKind::Directory => FsKindView::Directory,
                FsEntryKind::Empty => FsKindView::Empty,
                FsEntryKind::Detected(s) => FsKindView::Detected(s@),
            },
        }
    }
}

/// The views of a sequence of walked entries.
pub open spec fn fs_views(v: Seq<FsEntry>) -> Seq<FsEntryView> {
    v.map_values(|e: FsEntry| e@)
}

/// The views of a sequence of string pairs.
pub open spec fn pair_views(v: Seq<(String, String)>) -> Seq<(Seq<char>, Seq<char>)> {
    v.map_values(|p: (String, String)| (p.0@, p.1@))
}

/// What a scan of the given entries adds up to.
#[derive(Debug)]
pub struct SummaryInfo {
    /// Each mismatched file with the extension its content suggests, unique
    /// by file name, in first-seen order.
    pub mismatched_files: Vec<(String, String)>,
    pub total_num: usize,
    pub empty_num: usize,
    pub unknown_num: usize,
    pub dir_num: usize,
}

#[verifier::ext_equal]
pub ghost struct SummaryInfoView {
    pub mismatched: Seq<(Seq<char>, Seq<char>)>,
    pub total: int,
    pub empty: int,
    pub unknown: int,
    pub dir: int,
}

impl View for SummaryInfo {
    type V = SummaryInfoView;

    open spec fn view(&self) -> SummaryInfoView {
        SummaryInfoView {
            mismatched: pair_views(self.mismatched_files@),
            total: self.total_num as int,
            empty: self.empty_num as int,
            unknown: self.unknown_num as int,
            dir: self.dir_num as int,
        }
    }
}

/// The index of the first pair keyed `k`, or `-1` if no pair is.
pub open spec fn index_of_key(m: Seq<(Seq<char>, Seq<char>)>, k: Seq<char>) -> int
    decreases m.len(),
{
    if m.len() == 0 {
        -1
    } else if m[0].0 == k {
        0
    } else {
        let r = index_of_key(m.drop_first(), k);
        if r == -1 {
            -1
        } else {
            r + 1
        }
    }
}

pub proof fn lemma_index_of_key(m: Seq<(Seq<char>, Seq<char>)>, k: Seq<char>)
    ensures
        -1 <= index_of_key(m, k) < m.len(),
        index_of_key(m, k) >= 0 ==> m[index_of_key(m, k)].0 == k,
        forall|j: int| 0 <= j < index_of_key(m, k) ==> (#[trigger] m[j]).0 != k,
        index_of_key(m, k) == -1 ==> forall|j: int| 0 <= j < m.len() ==> (#[trigger] m[j]).0 != k,
    decreases m.len(),
{
    if m.len() > 0 && m[0].0 != k {
        lemma_index_of_key(m.drop_first(), k);
        assert forall|j: int| 0 <= j < index_of_key(m, k) implies (#[trigger] m[j]).0 != k by {
            if j > 0 {
                assert(m.drop_first()[j - 1] == m[j]);
            }
        }
        if index_of_key(m, k) == -1 {
            assert forall|j: int| 0 <= j < m.len() implies (#[trigger] m[j]).0 != k by {
                if j > 0 {
                    assert(m.drop_first()[j - 1] == m[j]);
                }
            }
        }
    }
}

/// The map updated at `k`: the first pair keyed `k` gets the new value, or
/// the pair is appended if the key is new.
pub open spec fn assoc_update(
    m: Seq<(Seq<char>, Seq<char>)>,
    k: Seq<char>,
    v: Seq<char>,
) -> Seq<(Seq<char>, Seq<char>)> {
    let i = index_of_key(m, k);
    if i == -1 {
        m.push((k, v))
    } else {
        m.update(i, (k, v))
    }
}

/// Keys appear at most once.
pub open spec fn unique_keys(m: Seq<(Seq<char>, Seq<char>)>) -> bool {
    forall|i: int, j: int| 0 <= i < j < m.len() ==> (#[trigger] m[i]).0 != (#[trigger] m[j]).0
}

pub proof fn lemma_assoc_update_unique(m: Seq<(Seq<char>, Seq<char>)>, k: Seq<char>, v: Seq<char>)
    requires
        unique_keys(m),
    ensures
        unique_keys(assoc_update(m, k, v)),
        m.len() <= assoc_update(m, k, v).len() <= m.len() + 1,
{
    lemma_index_of_key(m, k);
}

/// The counters an empty scan starts from.
pub open spec fn summary_empty() -> SummaryInfoView {
    SummaryInfoView { mismatched: Seq::empty(), total: 0, empty: 0, unknown: 0, dir: 0 }
}

/// One entry folded into the summary. Every entry counts toward the total;
/// directories, empty files and unrecognized content (first detected
/// candidate `"???"`) go to their own counters and are never mismatches; any
/// other detected file mismatches exactly when its lowercased actual
/// extension is absent from the detected candidates — a name without an
/// extension always mismatches — and is recorded under its name with the
/// first detected candidate as the expected extension.
pub open spec fn summary_step(acc: SummaryInfoView, e: FsEntryView) -> SummaryInfoView {
    match e.kind {
        FsKindView::Directory => SummaryInfoView { total: acc.total + 1, dir: acc.dir + 1, ..acc },
        FsKindView::Empty => SummaryInfoView { total: acc.total + 1, empty: acc.empty + 1, ..acc },
        FsKindView::Detected(exts) => {
            let parts = split_seq(exts, '/');
            if parts[0] == "???"@ {
                SummaryInfoView { total: acc.total + 1, unknown: acc.unknown + 1, ..acc }
            } else {
                let matched = match spec_extension(e.name) {
                    Some(a) => parts.contains(lower(a)),
                    None => false,
                };
                if matched {
                    SummaryInfoView { total: acc.total + 1, ..acc }
                } else {
                    SummaryInfoView {
                        total: acc.total + 1,
                        mismatched: assoc_update(acc.mismatched, e.name, parts[0]),
                        ..acc
                    }
                }
            }
        },
    }
}

/// The whole scan as a fold over the entry list.
pub open spec fn summary_fold(entries: Seq<FsEntryView>) -> SummaryInfoView
    decreases entries.len(),
{
    if entries.len() == 0 {
        summary_empty()
    } else {
        summary_step(summary_fold(entries.drop_last()), entries.last())
    }
}

/// The counters stay consistent: the special counters never outgrow the
/// total, nor does the mismatch map, and its keys stay unique.
pub open spec fn summary_wf(v: SummaryInfoView) -> bool {
    &&& 0 <= v.empty
    &&& 0 <= v.unknown
    &&& 0 <= v.dir
    &&& v.empty + v.unknown + v.dir <= v.total
    &&& v.mismatched.len() <= v.total
    &&& unique_keys(v.mismatched)
}

/// Every entry — directory, empty file or detected file — counts toward the
/// total, so the total is the number of entries scanned.
pub proof fn lemma_summary_fold_total(entries: Seq<FsEntryView>)
    ensures
        summary_fold(entries).total == entries.len(),
    decreases entries.len(),
{
    if entries.len() > 0 {
        lemma_summary_fold_total(entries.drop_last());
    }
}

/// A scan of any entry list leaves the counters consistent.
pub proof fn lemma_summary_fold_wf(entries: Seq<FsEntryView>)
    ensures
        summary_wf(summary_fold(entries)),
    decreases entries.len(),
{
    if entries.len() > 0 {
        lemma_summary_fold_wf(entries.drop_last());
        let acc = summary_fold(entries.drop_last());
        let e = entries.last();
        match e.kind {
            FsKindView::Detected(exts) => {
                let parts = split_seq(exts, '/');
                if parts[0] != "???"@ {
                    lemma_assoc_update_unique(acc.mismatched, e.name, parts[0]);
                }
            },
            _ => {},
        }
    }
}

/// Scanning an unmodified entry list twice yields the same counters and the
/// same mismatch map: the fold is a function of the entries alone.
pub proof fn lemma_summary_fold_deterministic(
    entries: Seq<FsEntryView>,
    s1: SummaryInfoView,
    s2: SummaryInfoView,
)
    requires
        s1 == summary_fold(entries),
        s2 == summary_fold(entries),
    ensures
        s1 == s2,
{
}

/// The index of the first pair of `m` keyed `k`, if any.
fn find_key(m: &Vec<(String, String)>, k: &str) -> (r: Option<usize>)
    ensures
        match r {
            Some(i) => i == index_of_key(pair_views(m@), k@),
            None => index_of_key(pair_views(m@), k@) == -1,
        },
{
    let n = m.len();
    let mut i: usize = 0;
    while i < n
        invariant
            0 <= i <= n,
            n == m@.len(),
            forall|j: int| 0 <= j < i ==> (#[trigger] pair_views(m@)[j]).0 != k@,
        decreases n - i,
    {
        if str_eq(m[i].0.as_str(), k) {
            proof {
                lemma_index_of_key(pair_views(m@), k@);
                let l = index_of_key(pair_views(m@), k@);
                assert(pair_views(m@)[i as int].0 == k@);
                if l < i as int {
                    assert(pair_views(m@)[l].0 != k@);
                } else if l > i as int {
                    assert(pair_views(m@)[i as int].0 != k@);
                }
            }
            return Some(i);
        }
        i += 1;
    }
    proof {
        lemma_index_of_key(pair_views(m@), k@);
        let l = index_of_key(pair_views(m@), k@);
        if l >= 0 {
            assert(pair_views(m@)[l].0 != k@);
        }
    }
    None
}

/// `m` with the value under `k` set to `v`: the first pair keyed `k` is
/// replaced, or the pair is appended if the key is new.
fn assoc_insert(m: Vec<(String, String)>, k: String, v: String) -> (r: Vec<(String, String)>)
    ensures
        pair_views(r@) == assoc_update(pair_views(m@), k@, v@),
{
    let idx = find_key(&m, k.as_str());
    let mut out = m;
    let ghost mv = pair_views(out@);
    match idx {
        Some(i) => {
            proof {
                lemma_index_of_key(mv, k@);
            }
            out.remove(i);
            out.insert(i, (k, v));
            proof {
                assert(pair_views(out@) =~= assoc_update(mv, k@, v@));
            }
        },
        None => {
            out.push((k, v));
            proof {
                assert(pair_views(out@) =~= assoc_update(mv, k@, v@));
            }
        },
    }
    out
}

/// Whether the lowercased actual extension appears verbatim among the
/// detected candidates.
fn contains_lowered(parts: &Vec<String>, actual: &str) -> (r: bool)
    ensures
        r == seq_views(parts@).contains(lower(actual@)),
{
    let n = parts.len();
    let mut j: usize = 0;
    while j < n
        invariant
            0 <= j <= n,
            n == parts@.len(),
            forall|l: int| 0 <= l < j ==> seq_views(parts@)[l] != lower(actual@),
        decreases n - j,
    {
        if lowered_equals(actual, parts[j].as_str()) {
            assert(seq_views(parts@)[j as int] == lower(actual@));
            return true;
        }
        j += 1;
    }
    assert(!seq_views(parts@).contains(lower(actual@)));
    false
}

/// One pass over the walked entries, folding each into the counters and the
/// mismatch map, per `summary_step`.
pub fn scan(entries: &Vec<FsEntry>) -> (r: SummaryInfo)
    ensures
        r@ == summary_fold(fs_views(entries@)),
        summary_wf(r@),
{
    let n = entries.len();
    let mut mismatched: Vec<(String, String)> = Vec::new();
    let mut total: usize = 0;
    let mut empty: usize = 0;
    let mut unknown: usize = 0;
    let mut dir: usize = 0;
    let mut i: usize = 0;
    proof {
        assert(fs_views(entries@).take(0) =~= Seq::<FsEntryView>::empty());
        assert(pair_views(mismatched@) =~= summary_empty().mismatched);
    }
    while i < n
        invariant
            0 <= i <= n,
            n == entries@.len(),
            pair_views(mismatched@) == summary_fold(fs_views(entries@).take(i as int)).mismatched,
            total == summary_fold(fs_views(entries@).take(i as int)).total,
            empty == summary_fold(fs_views(entries@).take(i as int)).empty,
            unknown == summary_fold(fs_views(entries@).take(i as int)).unknown,
            dir == summary_fold(fs_views(entries@).take(i as int)).dir,
        decreases n - i,
    {
        let ghost s = fs_views(entries@);
        let ghost acc = summary_fold(s.take(i as int));
        proof {
            lemma_summary_fold_total(s.take(i as int));
            lemma_summary_fold_wf(s.take(i as int));
            assert(s.take(i + 1).drop_last() =~= s.take(i as int));
            assert(s.take(i + 1).last() == s[i as int]);
            assert(s[i as int] == entries@[i as int]@);
        }
        let e = &entries[i];
        match &e.kind {
            FsEntryKind::Directory => {
                total += 1;
                dir += 1;
            },
            FsEntryKind::Empty => {
                total += 1;
                empty += 1;
            },
            FsEntryKind::Detected(exts) => {
                let parts = split_char(exts.as_str(), '/');
                total += 1;
                if str_eq(parts[0].as_str(), "???") {
                    unknown += 1;
                } else {
                    let ext_opt = extension_of(e.filename.as_str());
                    let matched = match ext_opt {
                        Some(a) => contains_lowered(&parts, a.as_str()),
                        None => false,
                    };
                    proof {
                        assert(seq_views(parts@)[0] == split_seq(exts@, '/')[0]);
                    }
                    if !matched {
                        mismatched = assoc_insert(
                            mismatched,
                            e.filename.clone(),
                            parts[0].clone(),
                        );
                    }
                }
            },
        }
        proof {
            assert(summary_fold(s.take(i + 1)) == summary_step(acc, s[i as int]));
        }
        i += 1;
    }
    proof {
        assert(fs_views(entries@).take(n as int) =~= fs_views(entries@));
        lemma_summary_fold_wf(fs_views(entries@));
    }
    SummaryInfo {
        mismatched_files: mismatched,
        total_num: total,
        empty_num: empty,
        unknown_num: unknown,
        dir_num: dir,
    }
}

impl SummaryInfo {
    /// How many scanned entries were ordinary, recognized, non-empty files:
    /// the total less the empty files, the unrecognized ones and the
    /// directories.
    pub fn other_num(&self) -> (r: usize)
        requires
            self@.empty + self@.unknown + self@.dir <= self@.total,
        ensures
            r == self@.total - self@.empty - self@.unknown - self@.dir,
    {
        self.total_num - self.empty_num - self.unknown_num - self.dir_num
    }
}

/// The renames a fix-up performs: each mismatched file, paired with its name
/// under the expected extension — directory and base name kept, only the
/// extension replaced. The renames themselves happen outside this crate, one
/// by one, a failure of one never blocking the rest.
pub fn fix_exts(info: &SummaryInfo) -> (r: Vec<(String, String)>)
    ensures
        r@.len() == info@.mismatched.len(),
        forall|i: int|
            0 <= i < r@.len() ==> (#[trigger] r@[i]).0@ == info@.mismatched[i].0 && r@[i].1@
                == spec_with_extension(info@.mismatched[i].0, info@.mismatched[i].1),
{
    let n = info.mismatched_files.len();
    let mut out: Vec<(String, String)> = Vec::new();
    let mut i: usize = 0;
    while i < n
        invariant
            0 <= i <= n,
            n == info.mismatched_files@.len(),
            out@.len() == i,
            forall|j: int|
                0 <= j < i ==> (#[trigger] out@[j]).0@ == pair_views(info.mismatched_files@)[j].0
                    && out@[j].1@ == spec_with_extension(
                    pair_views(info.mismatched_files@)[j].0,
                    pair_views(info.mismatched_files@)[j].1,
                ),
        decreases n - i,
    {
        let filename = &info.mismatched_files[i].0;
        let expected = &info.mismatched_files[i].1;
        let renamed = with_extension(filename.as_str(), expected.as_str());
        out.push((filename.clone(), renamed));
        i += 1;
    }
    out
}

/// What to do about the mismatches: fix them, skip them, or first ask
/// whoever runs the scan.
#[derive(Debug, Clone, Copy, PartialEq, Eq, Structural)]
pub enum FixChoice {
    Fix,
    Skip,
    AwaitAnswer,
}

/// The batch-mode decision: "yes to all" fixes without asking, "no to all"
/// skips without asking, and neither leaves the decision to a prompt.
pub fn fix_choice(yes: bool, no: bool) -> (r: FixChoice)
    ensures
        r == (if yes {
            FixChoice::Fix
        } else if no {
            FixChoice::Skip
        } else {
            FixChoice::AwaitAnswer
        }),
{
    if yes {
        FixChoice::Fix
    } else if no {
        FixChoice::Skip
    } else {
        FixChoice::AwaitAnswer
    }
}

/// Resolves an awaited prompt answer into the final decision; a decision
/// already made stays as it is.
pub fn apply_answer(c: FixChoice, answer: bool) -> (r: FixChoice)
    ensures
        r == (match c {
            FixChoice::AwaitAnswer => if answer {
                FixChoice::Fix
            } else {
                FixChoice::Skip
            },
            _ => c,
        }),
        c == FixChoice::AwaitAnswer ==> r != FixChoice::AwaitAnswer,
{
    match c {
        FixChoice::AwaitAnswer => if answer {
            FixChoice::Fix
        } else {
            FixChoice::Skip
        },
        _ => c,
    }
}

} // verus!
