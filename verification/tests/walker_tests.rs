use fcom::fstree::FsDir;
use fcom::fstree::FsEntry;
use fcom::fstree::FsFile;
use fcom::render::create_folder_tree;
use fcom::walker::collect_files;
use fcom::walker::create_file_list;

fn file(name: &str, content: &str) -> FsEntry {
    FsEntry::File(FsFile {
        name: name.as_bytes().to_vec(),
        content: Some(content.as_bytes().to_vec()),
        mtime: b"2024-01-01 00:00:00".to_vec(),
    })
}

fn dir(name: &str, entries: Vec<FsEntry>) -> FsEntry {
    FsEntry::Dir(FsDir { name: name.as_bytes().to_vec(), entries })
}

fn root(entries: Vec<FsEntry>) -> FsDir {
    FsDir { name: b"root".to_vec(), entries }
}

fn ignores(names: &[&str]) -> Vec<Vec<u8>> {
    names.iter().map(|n| n.as_bytes().to_vec()).collect()
}

fn exts(names: &[&str]) -> Option<Vec<Vec<u8>>> {
    Some(names.iter().map(|n| n.as_bytes().to_vec()).collect())
}

#[test]
fn collect_is_strictly_sorted_by_full_path() {
    let tree = root(vec![
        dir("b", vec![file("a.txt", ""), file("z.txt", "")]),
        dir("node_modules", vec![file("x.rs", "")]),
        file("a.txt", ""),
        file("m.rs", ""),
    ]);
    let paths = collect_files(&tree, &None, &ignores(&["node_modules"]));
    let expected: Vec<Vec<u8>> = vec![
        b"a.txt".to_vec(),
        b"b/a.txt".to_vec(),
        b"b/z.txt".to_vec(),
        b"m.rs".to_vec(),
    ];
    assert_eq!(paths, expected);
    for w in paths.windows(2) {
        assert!(w[0] < w[1]);
    }
}

#[test]
fn extension_filter_keeps_matching_files_only() {
    let tree = root(vec![file("a.rs", ""), file("b.md", ""), file("c.rs", "")]);
    let paths = collect_files(&tree, &exts(&["rs"]), &Vec::new());
    assert_eq!(paths, vec![b"a.rs".to_vec(), b"c.rs".to_vec()]);
}

#[test]
fn extension_filter_accepts_leading_dot() {
    let tree = root(vec![file("a.rs", ""), file("b.md", "")]);
    let with_dot = collect_files(&tree, &exts(&[".rs"]), &Vec::new());
    let without = collect_files(&tree, &exts(&["rs"]), &Vec::new());
    assert_eq!(with_dot, without);
    assert_eq!(with_dot, vec![b"a.rs".to_vec()]);
}

#[test]
fn ignored_directory_is_pruned_with_its_subtree() {
    let tree = root(vec![
        dir("skip", vec![file("deep.rs", ""), dir("inner", vec![file("deeper.rs", "")])]),
        file("top.rs", ""),
    ]);
    let paths = collect_files(&tree, &exts(&["rs"]), &ignores(&["skip"]));
    assert_eq!(paths, vec![b"top.rs".to_vec()]);
    let diagram = create_folder_tree(&tree, &exts(&["rs"]), &ignores(&["skip"]));
    let text = String::from_utf8(diagram).unwrap();
    assert!(!text.contains("skip"));
    assert!(!text.contains("deep.rs"));
    assert!(text.contains("top.rs"));
}

#[test]
fn ignored_file_is_excluded() {
    let tree = root(vec![file("keep.rs", ""), file("drop.rs", "")]);
    let paths = collect_files(&tree, &None, &ignores(&["drop.rs"]));
    assert_eq!(paths, vec![b"keep.rs".to_vec()]);
}

#[test]
fn tree_lists_directories_before_files() {
    let tree = root(vec![dir("b", vec![]), file("a.txt", "")]);
    let diagram = create_folder_tree(&tree, &None, &Vec::new());
    assert_eq!(String::from_utf8(diagram).unwrap(), "├── b/\n└── a.txt\n");
}

#[test]
fn tree_indents_nested_entries() {
    let tree = root(vec![dir("b", vec![file("inner.txt", "")]), file("a.txt", "")]);
    let diagram = create_folder_tree(&tree, &None, &Vec::new());
    assert_eq!(
        String::from_utf8(diagram).unwrap(),
        "├── b/\n│   └── inner.txt\n└── a.txt\n"
    );
}

#[test]
fn tree_filters_files_but_shows_directories() {
    let tree = root(vec![dir("docs", vec![file("note.md", "")]), file("x.rs", ""), file(
        "y.md",
        "",
    )]);
    let diagram = create_folder_tree(&tree, &exts(&["rs"]), &Vec::new());
    let text = String::from_utf8(diagram).unwrap();
    assert!(text.contains("docs/"));
    assert!(text.contains("x.rs"));
    assert!(!text.contains("y.md"));
    assert!(!text.contains("note.md"));
}

#[test]
fn file_list_is_bulleted_in_sorted_order() {
    let tree = root(vec![dir("b", vec![file("n.txt", "")]), file("a.txt", "")]);
    let list = create_file_list(&tree, &None, &Vec::new());
    assert_eq!(String::from_utf8(list).unwrap(), "- a.txt\n- b/n.txt");
}

#[test]
fn empty_tree_yields_empty_outputs() {
    let tree = root(vec![]);
    assert_eq!(collect_files(&tree, &None, &Vec::new()), Vec::<Vec<u8>>::new());
    assert_eq!(create_folder_tree(&tree, &None, &Vec::new()), Vec::<u8>::new());
    assert_eq!(create_file_list(&tree, &None, &Vec::new()), Vec::<u8>::new());
}

#[test]
fn constructor_orders_entries_for_display() {
    let mut d = FsDir::new(b"root".to_vec());
    d.add_entry(file("z.txt", ""));
    d.add_entry(dir("a", vec![]));
    d.add_entry(file("b.txt", ""));
    d.add_entry(dir("m", vec![]));
    let diagram = create_folder_tree(&d, &None, &Vec::new());
    assert_eq!(
        String::from_utf8(diagram).unwrap(),
        "├── a/\n├── m/\n├── b.txt\n└── z.txt\n"
    );
    assert!(!d.contains_name(&b"q".to_vec()));
    assert!(d.contains_name(&b"m".to_vec()));
}
