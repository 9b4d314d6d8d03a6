use extscan::scan::{
    apply_answer, fix_choice, fix_exts, scan, FixChoice, FsEntry, FsEntryKind, SummaryInfo,
};

fn s(x: &str) -> String {
    String::from(x)
}

fn dir(name: &str) -> FsEntry {
    FsEntry { filename: s(name), kind: FsEntryKind::Directory }
}

fn empty(name: &str) -> FsEntry {
    FsEntry { filename: s(name), kind: FsEntryKind::Empty }
}

fn detected(name: &str, exts: &str) -> FsEntry {
    FsEntry { filename: s(name), kind: FsEntryKind::Detected(s(exts)) }
}

#[test]
fn counters_add_up() {
    // One directory, one empty file, one unrecognized file, one matching
    // file, two mismatches: every entry counts toward the total.
    let entries = vec![
        dir("data"),
        empty("blank.txt"),
        detected("odd.bin", "???"),
        detected("fine.pdf", "pdf"),
        detected("fake.pdf", "jpeg/jpg"),
        detected("wrong.gif", "png"),
    ];
    let info = scan(&entries);
    assert_eq!(info.total_num, 6);
    assert_eq!(info.dir_num, 1);
    assert_eq!(info.empty_num, 1);
    assert_eq!(info.unknown_num, 1);
    assert_eq!(info.mismatched_files.len(), 2);
    assert_eq!(info.other_num(), 3);
}

#[test]
fn empty_file_is_never_a_mismatch() {
    let entries = vec![empty("blank.pdf")];
    let info = scan(&entries);
    assert_eq!(info.total_num, 1);
    assert_eq!(info.empty_num, 1);
    assert_eq!(info.mismatched_files.len(), 0);
}

#[test]
fn unknown_content_is_counted_not_reported() {
    let entries = vec![detected("mystery.pdf", "???")];
    let info = scan(&entries);
    assert_eq!(info.unknown_num, 1);
    assert_eq!(info.mismatched_files.len(), 0);
}

#[test]
fn mismatch_records_first_expected_extension() {
    let entries = vec![detected("photo.pdf", "jpeg/jpg/jpe/jfif")];
    let info = scan(&entries);
    assert_eq!(info.mismatched_files.len(), 1);
    assert_eq!(info.mismatched_files[0].0, "photo.pdf");
    assert_eq!(info.mismatched_files[0].1, "jpeg");
}

#[test]
fn uppercase_actual_extension_matches() {
    // The actual extension is lowercased before the membership test.
    let entries = vec![detected("doc.TXT", "txt")];
    let info = scan(&entries);
    assert_eq!(info.mismatched_files.len(), 0);
}

#[test]
fn missing_extension_is_a_mismatch() {
    let entries = vec![detected("README", "txt")];
    let info = scan(&entries);
    assert_eq!(info.mismatched_files.len(), 1);
    assert_eq!(info.mismatched_files[0].1, "txt");
}

#[test]
fn repeated_name_keeps_one_entry() {
    let entries = vec![
        detected("twice.pdf", "jpeg/jpg"),
        detected("twice.pdf", "png"),
    ];
    let info = scan(&entries);
    assert_eq!(info.total_num, 2);
    assert_eq!(info.mismatched_files.len(), 1);
    assert_eq!(info.mismatched_files[0].0, "twice.pdf");
    assert_eq!(info.mismatched_files[0].1, "png");
}

#[test]
fn fix_plan_renames_to_expected_extension() {
    // A mismatch of a.pdf expecting jpg plans the rename a.pdf -> a.jpg.
    let entries = vec![detected("a.pdf", "jpg")];
    let info = scan(&entries);
    assert_eq!(info.mismatched_files.len(), 1);
    let plan = fix_exts(&info);
    assert_eq!(plan.len(), 1);
    assert_eq!(plan[0].0, "a.pdf");
    assert_eq!(plan[0].1, "a.jpg");
}

#[test]
fn fix_plan_keeps_directory_and_base_name() {
    let info = SummaryInfo {
        mismatched_files: vec![
            (s("some/dir/photo.pdf"), s("jpeg")),
            (s("plain"), s("txt")),
        ],
        total_num: 2,
        empty_num: 0,
        unknown_num: 0,
        dir_num: 0,
    };
    let plan = fix_exts(&info);
    assert_eq!(plan.len(), 2);
    assert_eq!(plan[0].1, "some/dir/photo.jpeg");
    assert_eq!(plan[1].1, "plain.txt");
}

#[test]
fn scan_twice_gives_equal_counts() {
    let entries = vec![
        dir("data"),
        detected("fake.pdf", "jpeg/jpg"),
        detected("fine.txt", "txt"),
    ];
    let first = scan(&entries);
    let second = scan(&entries);
    assert_eq!(first.total_num, second.total_num);
    assert_eq!(first.empty_num, second.empty_num);
    assert_eq!(first.unknown_num, second.unknown_num);
    assert_eq!(first.dir_num, second.dir_num);
    assert_eq!(first.mismatched_files, second.mismatched_files);
}

#[test]
fn batch_flags_decide_without_prompt() {
    assert_eq!(fix_choice(true, false), FixChoice::Fix);
    assert_eq!(fix_choice(false, true), FixChoice::Skip);
    assert_eq!(fix_choice(false, false), FixChoice::AwaitAnswer);
}

#[test]
fn prompt_answer_resolves_decision() {
    assert_eq!(apply_answer(FixChoice::AwaitAnswer, true), FixChoice::Fix);
    assert_eq!(apply_answer(FixChoice::AwaitAnswer, false), FixChoice::Skip);
    assert_eq!(apply_answer(FixChoice::Fix, false), FixChoice::Fix);
    assert_eq!(apply_answer(FixChoice::Skip, true), FixChoice::Skip);
}
