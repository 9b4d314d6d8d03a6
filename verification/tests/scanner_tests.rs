use extscan::scanner::{
    build_scanner, check_candidate, evaluate, filter_candidates, make_summary, merge_partials,
    scan_chunk, scan_files, scan_partitioned, FileCandidate, MismatchRecord, ScanSummary,
    SelectedScanner, WalkEntry,
};
use extscan::{Config, EngineType};

fn s(x: &str) -> String {
    String::from(x)
}

fn strings(xs: &[&str]) -> Vec<String> {
    xs.iter().map(|x| String::from(*x)).collect()
}

fn entry(path: &str, is_file: bool, size: u64) -> WalkEntry {
    WalkEntry { path: s(path), is_file, size }
}

fn candidate(path: &str, ext: &str) -> FileCandidate {
    FileCandidate { path: s(path), ext: s(ext) }
}

fn config(engine_type: EngineType) -> Config {
    Config {
        file_path: s("tests/data/"),
        engine_type,
        magic_file: None,
        recursive: false,
        ignore: false,
    }
}

#[test]
fn empty_file_is_excluded_from_detection() {
    // A file of size zero never becomes a candidate, so it can produce no
    // mismatch record.
    let entries = vec![
        entry("zero.pdf", true, 0),
        entry("real.pdf", true, 10),
    ];
    let cands = filter_candidates(&entries);
    assert_eq!(cands.len(), 1);
    assert_eq!(cands[0].path, "real.pdf");
    assert_eq!(cands[0].ext, "pdf");
}

#[test]
fn directories_and_extensionless_files_are_excluded() {
    let entries = vec![
        entry("somedir", false, 4096),
        entry("README", true, 10),
        entry(".gitignore", true, 10),
        entry("trailing.", true, 10),
        entry("kept.txt", true, 1),
    ];
    let cands = filter_candidates(&entries);
    assert_eq!(cands.len(), 1);
    assert_eq!(cands[0].path, "kept.txt");
}

#[test]
fn largest_size_is_eligible() {
    let entries = vec![entry("huge.bin", true, u64::MAX)];
    let cands = filter_candidates(&entries);
    assert_eq!(cands.len(), 1);
    assert_eq!(cands[0].ext, "bin");
}

#[test]
fn matching_extension_is_no_mismatch() {
    // The actual extension is a member of the detected set: no record.
    let detected = strings(&["pdf"]);
    assert!(evaluate("pdf", &detected).is_none());
    let rec = check_candidate(&candidate("a.pdf", "pdf"), &detected);
    assert!(rec.is_none());
}

#[test]
fn case_insensitive_match_succeeds() {
    // doc.TXT against {"txt"}: the comparison folds ASCII case.
    let detected = strings(&["txt"]);
    let cand = candidate("doc.TXT", "TXT");
    assert!(check_candidate(&cand, &detected).is_none());
}

#[test]
fn mismatch_reports_whole_detected_set() {
    // photo.pdf whose content is detected as {"jpg", "jpeg"}.
    let detected = strings(&["jpg", "jpeg"]);
    let cand = candidate("photo.pdf", "pdf");
    let rec = check_candidate(&cand, &detected).expect("mismatch expected");
    assert_eq!(rec.path, "photo.pdf");
    assert_eq!(rec.expected, strings(&["jpg", "jpeg"]));
}

#[test]
fn summary_contains_expected_set() {
    let cands = vec![candidate("photo.pdf", "pdf")];
    let dets = vec![strings(&["jpg", "jpeg"])];
    let summary = scan_files(&cands, &dets);
    assert_eq!(summary.total_num, 1);
    assert_eq!(summary.mismatched_files.len(), 1);
    assert_eq!(summary.mismatched_files[0].path, "photo.pdf");
    assert_eq!(summary.mismatched_files[0].expected, strings(&["jpg", "jpeg"]));
}

#[test]
fn summary_lookup_by_path() {
    let cands = vec![candidate("photo.pdf", "pdf"), candidate("fine.txt", "txt")];
    let dets = vec![strings(&["jpg", "jpeg"]), strings(&["txt"])];
    let summary = scan_files(&cands, &dets);
    assert_eq!(summary.expected_for("photo.pdf"), Some(&strings(&["jpg", "jpeg"])));
    assert_eq!(summary.expected_for("fine.txt"), None);
    assert_eq!(summary.expected_for("absent.gif"), None);
}

#[test]
fn one_worker_and_two_workers_agree() {
    // The same candidate list, processed whole and processed as two chunks
    // whose results are merged, yields the same summary.
    let cands = vec![
        candidate("a.pdf", "pdf"),
        candidate("b.jpg", "jpg"),
        candidate("c.png", "png"),
        candidate("d.TXT", "TXT"),
    ];
    let dets = vec![
        strings(&["jpg", "jpeg"]),
        strings(&["jpg", "jpeg"]),
        strings(&["pdf"]),
        strings(&["txt"]),
    ];
    let whole = scan_files(&cands, &dets);

    let cands_a = vec![candidate("a.pdf", "pdf"), candidate("b.jpg", "jpg")];
    let dets_a = vec![strings(&["jpg", "jpeg"]), strings(&["jpg", "jpeg"])];
    let cands_b = vec![candidate("c.png", "png"), candidate("d.TXT", "TXT")];
    let dets_b = vec![strings(&["pdf"]), strings(&["txt"])];
    let part_a = scan_chunk(&cands_a, &dets_a);
    let part_b = scan_chunk(&cands_b, &dets_b);
    let merged = merge_partials(vec![part_a, part_b]);
    let split = make_summary(merged, cands.len());

    assert_eq!(whole.total_num, split.total_num);
    assert_eq!(whole.mismatched_files.len(), split.mismatched_files.len());
    for (a, b) in whole.mismatched_files.iter().zip(split.mismatched_files.iter()) {
        assert_eq!(a.path, b.path);
        assert_eq!(a.expected, b.expected);
    }
    assert_eq!(whole.mismatched_files.len(), 2);
    assert_eq!(whole.mismatched_files[0].path, "a.pdf");
    assert_eq!(whole.mismatched_files[1].path, "c.png");
}

#[test]
fn partitioned_scan_matches_sequential_scan() {
    // The same work cut into three uneven chunks, one per worker.
    let cands = vec![
        candidate("a.pdf", "pdf"),
        candidate("b.jpg", "jpg"),
        candidate("c.png", "png"),
        candidate("d.TXT", "TXT"),
    ];
    let dets = vec![
        strings(&["jpg", "jpeg"]),
        strings(&["jpg", "jpeg"]),
        strings(&["pdf"]),
        strings(&["txt"]),
    ];
    let whole = scan_files(&cands, &dets);

    let chunks_c = vec![
        vec![candidate("a.pdf", "pdf")],
        vec![candidate("b.jpg", "jpg"), candidate("c.png", "png")],
        vec![candidate("d.TXT", "TXT")],
    ];
    let chunks_d = vec![
        vec![strings(&["jpg", "jpeg"])],
        vec![strings(&["jpg", "jpeg"]), strings(&["pdf"])],
        vec![strings(&["txt"])],
    ];
    let split = scan_partitioned(&chunks_c, &chunks_d);

    assert_eq!(whole.total_num, split.total_num);
    assert_eq!(whole.mismatched_files.len(), split.mismatched_files.len());
    for (a, b) in whole.mismatched_files.iter().zip(split.mismatched_files.iter()) {
        assert_eq!(a.path, b.path);
        assert_eq!(a.expected, b.expected);
    }
}

#[test]
fn scanning_twice_yields_equal_summaries() {
    // Idempotence without fix-up: the summary is a function of the inputs.
    let cands = vec![candidate("a.pdf", "pdf"), candidate("b.txt", "txt")];
    let dets = vec![strings(&["jpg"]), strings(&["txt"])];
    let first = scan_files(&cands, &dets);
    let second = scan_files(&cands, &dets);
    assert_eq!(first.total_num, second.total_num);
    assert_eq!(first.mismatched_files.len(), second.mismatched_files.len());
    for (a, b) in first.mismatched_files.iter().zip(second.mismatched_files.iter()) {
        assert_eq!(a.path, b.path);
        assert_eq!(a.expected, b.expected);
    }
}

#[test]
fn recursion_boundary_totals() {
    // A root with one direct eligible file and one eligible file in a
    // subdirectory: a non-recursive walk hands the scan only the direct
    // child, a recursive walk hands it both.
    let shallow = vec![
        entry("root/direct.txt", true, 5),
        entry("root/sub", false, 4096),
    ];
    let deep = vec![
        entry("root/direct.txt", true, 5),
        entry("root/sub", false, 4096),
        entry("root/sub/nested.txt", true, 5),
    ];
    let dets = |n: usize| vec![strings(&["txt"]); n];

    let cands = filter_candidates(&shallow);
    let summary = scan_files(&cands, &dets(cands.len()));
    assert_eq!(summary.total_num, 1);

    let cands = filter_candidates(&deep);
    let summary = scan_files(&cands, &dets(cands.len()));
    assert_eq!(summary.total_num, 2);
}

#[test]
fn unknown_detection_is_mismatch_here() {
    // The sentinel answer is not special-cased in this pipeline: a file whose
    // content no signature matched mismatches like any other.
    let detected = strings(&["???"]);
    let rec = check_candidate(&candidate("odd.bin", "bin"), &detected);
    assert!(rec.is_some());
}

#[test]
fn merge_of_empty_partials_is_empty() {
    let merged = merge_partials(Vec::new());
    assert_eq!(merged.len(), 0);
    let merged = merge_partials(vec![Vec::new(), Vec::new()]);
    assert_eq!(merged.len(), 0);
}

#[test]
fn merge_keeps_chunk_order() {
    let a = MismatchRecord { path: s("a.pdf"), expected: strings(&["jpg"]) };
    let b = MismatchRecord { path: s("b.pdf"), expected: strings(&["png"]) };
    let merged = merge_partials(vec![vec![a], Vec::new(), vec![b]]);
    assert_eq!(merged.len(), 2);
    assert_eq!(merged[0].path, "a.pdf");
    assert_eq!(merged[1].path, "b.pdf");
}

#[test]
fn summary_counts_all_candidates() {
    let summary: ScanSummary = make_summary(Vec::new(), 7);
    assert_eq!(summary.total_num, 7);
    assert_eq!(summary.mismatched_files.len(), 0);
}

#[test]
fn build_scanner_selects_engine() {
    match build_scanner(&config(EngineType::LibMagic)) {
        SelectedScanner::LibMagic(sc) => assert_eq!(sc.config().file_path, "tests/data/"),
        SelectedScanner::Magika(_) => panic!("wrong engine selected"),
    }
    match build_scanner(&config(EngineType::Magika)) {
        SelectedScanner::Magika(sc) => assert_eq!(sc.config().file_path, "tests/data/"),
        SelectedScanner::LibMagic(_) => panic!("wrong engine selected"),
    }
}
