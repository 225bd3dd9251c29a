use pod::change::{apply_changes, diff_bytes, Change};
use pod::commit::Commit;
use pod::engine::{create_pod, prepare_commit};
use pod::ignore::{walk_dir, IgnoreSet, WalkMethod};
use pod::log::{write_changes, Entry};
use pod::replay::{apply_entry, reconstruct, LogEntry, ReplayError};
use pod::tree::Tree;

fn b(s: &str) -> Vec<u8> {
    s.as_bytes().to_vec()
}

fn tree(dirs: &[&str], files: &[(&str, &[u8])]) -> Tree {
    Tree {
        dirs: dirs.iter().map(|d| b(d)).collect(),
        files: files.iter().map(|(p, c)| (b(p), c.to_vec())).collect(),
    }
}

fn no_ignore() -> IgnoreSet {
    IgnoreSet::new(None)
}

fn file_of(t: &Tree, p: &str) -> Option<Vec<u8>> {
    t.lookup(&b(p)).cloned()
}

fn sorted_dirs(t: &Tree) -> Vec<Vec<u8>> {
    let mut d = t.dirs.clone();
    d.sort();
    d.dedup();
    d
}

fn change_body(e: &Entry, path: &str) -> Option<String> {
    let name = hex_of(path);
    e.changes
        .iter()
        .find(|(n, _)| *n == name)
        .map(|(_, body)| String::from_utf8(body.clone()).unwrap())
}

fn hex_of(path: &str) -> String {
    path.bytes().map(|x| format!("{:02x}", x)).collect()
}

fn text(v: &Option<Vec<u8>>) -> Option<String> {
    v.as_ref().map(|x| String::from_utf8(x.clone()).unwrap())
}

/// Commits `working` over the snapshot and log, and appends the entry.
fn commit(working: &Tree, snapshot: &Tree, log: &mut Vec<LogEntry>, name: &str) -> (Commit, Entry) {
    let (c, e) = prepare_commit(working, clone_tree(snapshot), log, &no_ignore()).unwrap();
    log.push(LogEntry { name: b(name), entry: clone_entry(&e) });
    (c, e)
}

fn clone_tree(t: &Tree) -> Tree {
    Tree { dirs: t.dirs.clone(), files: t.files.clone() }
}

fn clone_entry(e: &Entry) -> Entry {
    Entry {
        dirs: e.dirs.clone(),
        files: e.files.clone(),
        removed_files: e.removed_files.clone(),
        changes: e.changes.clone(),
    }
}

#[test]
fn noop_commit_after_init() {
    let w = tree(&[], &[("x", &[0x01])]);
    let snapshot = create_pod(&w, &no_ignore());
    assert_eq!(file_of(&snapshot, "x"), Some(vec![0x01]));
    let mut log = Vec::new();
    let (c, e) = commit(&w, &snapshot, &mut log, "1");
    assert!(c.new_dirs.is_empty() && c.removed_dirs.is_empty());
    assert!(c.new_files.is_empty() && c.removed_files.is_empty());
    assert!(c.changed_files.iter().all(|(_, ops)| ops.is_empty()));
    assert!(e.dirs.is_none());
    assert!(e.files.is_none());
    assert!(e.removed_files.is_none());
    assert!(e.changes.iter().all(|(_, body)| body.is_empty()));
}

#[test]
fn new_file_lists_every_byte() {
    let snapshot = tree(&[], &[]);
    let w = tree(&[], &[("a.txt", &[0x41, 0x42, 0x43])]);
    let mut log = Vec::new();
    let (c, e) = commit(&w, &snapshot, &mut log, "1");
    assert_eq!(c.new_files, vec![b("a.txt")]);
    assert_eq!(change_body(&e, "a.txt"), Some("0 65\n1 66\n2 67\n".to_string()));
    assert_eq!(e.changes[0].0, "612e747874");
}

#[test]
fn deleted_file_is_removed_without_change_file() {
    let snapshot = tree(&[], &[("a.txt", &[0x41])]);
    let w = tree(&[], &[]);
    let mut log = Vec::new();
    let (c, e) = commit(&w, &snapshot, &mut log, "1");
    assert_eq!(c.removed_files, vec![b("a.txt")]);
    assert_eq!(text(&e.removed_files), Some("a.txt\n".to_string()));
    assert_eq!(text(&e.files), Some("- a.txt\n".to_string()));
    assert_eq!(change_body(&e, "a.txt"), None);
    assert!(e.changes.is_empty());
}

#[test]
fn shrinking_file_deletes_tail() {
    let ops = diff_bytes(&vec![1, 2, 3], &vec![1, 2, 3, 4, 5]);
    assert_eq!(ops, vec![(3, Change::Delete), (4, Change::Delete)]);
    assert_eq!(write_changes(&ops), b("- 3\n- 4\n"));
}

#[test]
fn growing_file_updates_tail() {
    let ops = diff_bytes(&vec![7, 8, 0x10, 0x20], &vec![7, 8]);
    assert_eq!(ops, vec![(2, Change::Update(0x10)), (3, Change::Update(0x20))]);
    assert_eq!(write_changes(&ops), b("2 16\n3 32\n"));
}

#[test]
fn identical_bytes_have_no_delta() {
    assert!(diff_bytes(&vec![9, 9, 9], &vec![9, 9, 9]).is_empty());
    assert!(diff_bytes(&vec![], &vec![]).is_empty());
}

#[test]
fn patch_undoes_delta() {
    let base = vec![1, 2, 3, 4, 5, 6];
    let cur = vec![1, 9, 3];
    let ops = diff_bytes(&cur, &base);
    assert_eq!(ops, vec![(1, Change::Update(9)), (3, Change::Delete), (4, Change::Delete), (5, Change::Delete)]);
    assert_eq!(apply_changes(&base, &ops), cur);
    let longer = vec![1, 2, 3, 4, 5, 6, 7, 8];
    assert_eq!(apply_changes(&base, &diff_bytes(&longer, &base)), longer);
}

#[test]
fn update_inside_buffer_takes_effect() {
    assert_eq!(apply_changes(&vec![1, 2], &vec![(0, Change::Update(5))]), vec![5, 2]);
    assert_eq!(apply_changes(&vec![1], &vec![(3, Change::Update(5))]), vec![1, 5]);
    assert_eq!(apply_changes(&vec![1], &vec![(4, Change::Delete)]), vec![1]);
}

#[test]
fn file_absent_in_working_tree_is_removed() {
    let snapshot = tree(&[], &[("k", &[1, 2]), ("m", &[3])]);
    let w = tree(&[], &[("m", &[3])]);
    let mut log = Vec::new();
    let (c, e) = commit(&w, &snapshot, &mut log, "5");
    assert_eq!(c.removed_files, vec![b("k")]);
    assert!(c.changed_files.is_empty());
    assert!(e.changes.is_empty());
}

#[test]
fn file_absent_in_baseline_is_new() {
    let snapshot = tree(&[], &[]);
    let w = tree(&[], &[("n", &[0, 255])]);
    let mut log = Vec::new();
    let (c, e) = commit(&w, &snapshot, &mut log, "5");
    assert_eq!(c.new_files, vec![b("n")]);
    assert_eq!(change_body(&e, "n"), Some("0 0\n1 255\n".to_string()));
    assert_eq!(text(&e.files), Some("+ n\n".to_string()));
    assert!(e.removed_files.is_none());
}

#[test]
fn single_byte_flip() {
    let w0 = tree(&[], &[("x", &[0x01])]);
    let snapshot = create_pod(&w0, &no_ignore());
    let mut log = Vec::new();
    commit(&w0, &snapshot, &mut log, "10");
    let w1 = tree(&[], &[("x", &[0x02])]);
    let (_, e) = commit(&w1, &snapshot, &mut log, "20");
    assert_eq!(change_body(&e, "x"), Some("0 2\n".to_string()));
    let rebuilt = reconstruct(clone_tree(&snapshot), &log).unwrap();
    assert_eq!(file_of(&rebuilt, "x"), Some(vec![0x02]));
}

#[test]
fn add_directory_and_file() {
    let w0 = tree(&[], &[("x", &[1])]);
    let snapshot = create_pod(&w0, &no_ignore());
    let mut log = Vec::new();
    let w1 = tree(&["d"], &[("x", &[1]), ("d/y", &[0x7A])]);
    let (_, e) = commit(&w1, &snapshot, &mut log, "10");
    assert_eq!(text(&e.dirs), Some("+ d\n".to_string()));
    assert_eq!(text(&e.files), Some("+ d/y\n".to_string()));
    assert_eq!(change_body(&e, "d/y"), Some("0 122\n".to_string()));
    let rebuilt = reconstruct(clone_tree(&snapshot), &log).unwrap();
    assert_eq!(sorted_dirs(&rebuilt), vec![b("d")]);
    assert_eq!(file_of(&rebuilt, "d/y"), Some(vec![0x7A]));
}

#[test]
fn remove_directory() {
    let w0 = tree(&["d"], &[("d/y", &[0x7A]), ("x", &[1])]);
    let snapshot = create_pod(&w0, &no_ignore());
    let mut log = Vec::new();
    let w1 = tree(&[], &[("x", &[1])]);
    let (c, e) = commit(&w1, &snapshot, &mut log, "10");
    assert_eq!(c.removed_dirs, vec![b("d")]);
    assert_eq!(text(&e.dirs), Some("- d\n".to_string()));
    assert_eq!(text(&e.removed_files), Some("d/y\n".to_string()));
    let rebuilt = reconstruct(clone_tree(&snapshot), &log).unwrap();
    assert!(sorted_dirs(&rebuilt).is_empty());
    assert_eq!(file_of(&rebuilt, "d/y"), None);
    assert_eq!(file_of(&rebuilt, "x"), Some(vec![1]));
}

#[test]
fn reconstruction_after_three_commits() {
    let w0 = tree(&[], &[("x", &[0x01])]);
    let snapshot = create_pod(&w0, &no_ignore());
    let mut log = Vec::new();
    commit(&tree(&[], &[("x", &[0x01, 0x02])]), &snapshot, &mut log, "100");
    commit(&tree(&[], &[("x", &[0x02])]), &snapshot, &mut log, "200");
    commit(&tree(&[], &[("x", &[0x02, 0x03])]), &snapshot, &mut log, "300");
    let rebuilt = reconstruct(clone_tree(&snapshot), &log).unwrap();
    assert_eq!(file_of(&rebuilt, "x"), Some(vec![0x02, 0x03]));
    // the log is replayed by numeric name, whatever order it is listed in
    log.reverse();
    let rebuilt = reconstruct(clone_tree(&snapshot), &log).unwrap();
    assert_eq!(file_of(&rebuilt, "x"), Some(vec![0x02, 0x03]));
}

#[test]
fn names_sort_by_value_not_text() {
    let snapshot = tree(&[], &[("x", &[0])]);
    let mut log = Vec::new();
    let mut first = Entry { dirs: None, files: None, removed_files: None, changes: vec![] };
    first.changes.push((hex_of("x"), b("0 9\n")));
    let mut second = Entry { dirs: None, files: None, removed_files: None, changes: vec![] };
    second.changes.push((hex_of("x"), b("0 7\n")));
    log.push(LogEntry { name: b("10"), entry: second });
    log.push(LogEntry { name: b("9"), entry: first });
    let rebuilt = reconstruct(clone_tree(&snapshot), &log).unwrap();
    assert_eq!(file_of(&rebuilt, "x"), Some(vec![7]));
}

#[test]
fn ignore_respected() {
    let ignore = IgnoreSet::new(Some(&b("tmp.log\n")));
    let w0 = tree(&[], &[("x", &[1])]);
    let snapshot = create_pod(&w0, &ignore);
    let w1 = tree(&[], &[("x", &[1]), ("tmp.log", &[5, 5])]);
    let (c, e) = prepare_commit(&w1, snapshot, &vec![], &ignore).unwrap();
    assert!(c.new_files.is_empty() && c.removed_files.is_empty() && c.changed_files.is_empty());
    assert!(e.files.is_none() && e.changes.is_empty());
}

#[test]
fn ignored_directory_hides_its_subtree() {
    let ignore = IgnoreSet::new(Some(&b("build\n")));
    let listing = vec![
        (b("build"), true),
        (b("build/out"), false),
        (b("src"), true),
        (b("src/build"), true),
        (b("src/a"), false),
        (b(".pod"), true),
        (b(".pod/x"), false),
    ];
    let mut dirs = Vec::new();
    walk_dir(&listing, &ignore, WalkMethod::Dirs, &mut dirs);
    assert_eq!(dirs, vec![b("src")]);
    let mut files = Vec::new();
    walk_dir(&listing, &ignore, WalkMethod::Files, &mut files);
    assert_eq!(files, vec![b("src/a")]);
}

#[test]
fn ignore_set_holds_reserved_names() {
    let ignore = IgnoreSet::new(None);
    assert!(ignore.contains(&b(".pod")));
    assert!(ignore.contains(&b(".commits")));
    assert!(!ignore.contains(&b("x")));
    let ignore = IgnoreSet::new(Some(&b("a\nb")));
    assert!(ignore.contains(&b("a")) && ignore.contains(&b("b")));
    assert!(!ignore.is_visible(&b("q/b/c")));
    assert!(ignore.is_visible(&b("q/bb/c")));
}

#[test]
fn malformed_dir_line_is_refused() {
    let mut t = tree(&[], &[]);
    let e = Entry { dirs: Some(b("* d\n")), files: None, removed_files: None, changes: vec![] };
    assert_eq!(apply_entry(&mut t, &e), Err(ReplayError::Malformed));
}

#[test]
fn malformed_change_line_is_refused() {
    let mut t = tree(&[], &[("x", &[1])]);
    let e = Entry { dirs: None, files: None, removed_files: None, changes: vec![(hex_of("x"), b("0 256\n"))] };
    assert_eq!(apply_entry(&mut t, &e), Err(ReplayError::Malformed));
    let e = Entry { dirs: None, files: None, removed_files: None, changes: vec![(hex_of("x"), b("zero 1\n"))] };
    assert_eq!(apply_entry(&mut t, &e), Err(ReplayError::Malformed));
}

#[test]
fn bad_change_name_is_refused() {
    let mut t = tree(&[], &[]);
    let e = Entry { dirs: None, files: None, removed_files: None, changes: vec![("7".to_string(), b("0 1\n"))] };
    assert_eq!(apply_entry(&mut t, &e), Err(ReplayError::BadName));
    let e = Entry { dirs: None, files: None, removed_files: None, changes: vec![("zz".to_string(), b("0 1\n"))] };
    assert_eq!(apply_entry(&mut t, &e), Err(ReplayError::BadName));
}

#[test]
fn upper_case_change_name_is_read() {
    let mut t = tree(&[], &[]);
    let e = Entry { dirs: None, files: None, removed_files: None, changes: vec![("4A".to_string(), b("0 1\n"))] };
    assert_eq!(apply_entry(&mut t, &e), Ok(()));
    assert_eq!(file_of(&t, "J"), Some(vec![1]));
}

#[test]
fn existing_dir_cannot_be_created() {
    let mut t = tree(&["d"], &[]);
    let e = Entry { dirs: Some(b("+ d\n")), files: None, removed_files: None, changes: vec![] };
    assert_eq!(apply_entry(&mut t, &e), Err(ReplayError::DirExists));
}

#[test]
fn bad_entry_name_is_refused() {
    let log = vec![LogEntry {
        name: b("12a"),
        entry: Entry { dirs: None, files: None, removed_files: None, changes: vec![] },
    }];
    assert_eq!(reconstruct(tree(&[], &[]), &log).err(), Some(ReplayError::BadEntryName));
}

#[test]
fn fresh_file_takes_byte_after_space() {
    let mut t = tree(&[], &[]);
    let e = Entry { dirs: None, files: None, removed_files: None, changes: vec![(hex_of("f"), b("- 7\n3 9\n"))] };
    assert_eq!(apply_entry(&mut t, &e), Ok(()));
    assert_eq!(file_of(&t, "f"), Some(vec![7, 9]));
}

#[test]
fn large_index_is_written_in_decimal() {
    let ops = vec![(1234567usize, Change::Update(0)), (18446744073709551615usize, Change::Delete)];
    assert_eq!(write_changes(&ops), b("1234567 0\n- 18446744073709551615\n"));
}
