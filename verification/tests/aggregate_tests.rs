use fcom::aggregate::default_ignore_patterns;
use fcom::aggregate::parse_ignore_file;
use fcom::aggregate::CombineError;
use fcom::aggregate::FolderProcessOptions;
use fcom::aggregate::OutputMode;
use fcom::aggregate::parse_mode;
use fcom::aggregate::process_folder;
use fcom::aggregate::xml_file_template;
use fcom::aggregate::xml_output_template;
use fcom::clock::format_epoch_local;
use fcom::clock::now_local_formatted;
use fcom::fstree::FsDir;
use fcom::fstree::FsEntry;
use fcom::fstree::FsFile;
use fcom::template::CombinerTemplate;

fn file(name: &str, content: &str) -> FsEntry {
    FsEntry::File(FsFile {
        name: name.as_bytes().to_vec(),
        content: Some(content.as_bytes().to_vec()),
        mtime: b"2024-01-01 00:00:00".to_vec(),
    })
}

fn unreadable(name: &str) -> FsEntry {
    FsEntry::File(FsFile {
        name: name.as_bytes().to_vec(),
        content: None,
        mtime: b"2024-01-01 00:00:00".to_vec(),
    })
}

fn root(entries: Vec<FsEntry>) -> FsDir {
    FsDir { name: b"root".to_vec(), entries }
}

fn options(mode: OutputMode) -> FolderProcessOptions {
    FolderProcessOptions {
        file_extensions: None,
        ignore_patterns: Vec::new(),
        add_line_numbers: false,
        mode,
        custom_output_template: None,
        custom_file_template: None,
        generated: b"2024-06-01 12:00:00".to_vec(),
    }
}

fn count_occurrences(text: &str, needle: &str) -> usize {
    text.match_indices(needle).count()
}

#[test]
fn parse_mode_is_case_insensitive() {
    assert!(matches!(parse_mode(&b"xml".to_vec()), Some(OutputMode::Xml)));
    assert!(matches!(parse_mode(&b"XML".to_vec()), Some(OutputMode::Xml)));
    assert!(matches!(parse_mode(&b"Markdown".to_vec()), Some(OutputMode::Markdown)));
    assert!(matches!(parse_mode(&b"CUSTOM".to_vec()), Some(OutputMode::Custom)));
    assert!(parse_mode(&b"yaml".to_vec()).is_none());
    assert!(parse_mode(&b"".to_vec()).is_none());
}

#[test]
fn builtin_templates_carry_their_placeholders() {
    let outer = String::from_utf8(xml_output_template().template).unwrap();
    assert!(outer.contains("{TOTAL_FILES}"));
    assert!(outer.contains("{FILE_CONTENTS}"));
    let inner = String::from_utf8(xml_file_template().template).unwrap();
    assert!(inner.contains("{FILE_PATH}"));
    assert!(inner.contains("{FILE_CONTENT}"));
}

#[test]
fn round_trip_counts_every_readable_file() {
    let tree = root(vec![file("a.txt", "a\nb"), file("b.txt", "one"), file("c.txt", "x\ny\nz")]);
    let out = process_folder(&tree, &options(OutputMode::Xml)).unwrap();
    assert_eq!(out.total_files, 3);
    assert!(out.skipped.is_empty());
    let doc = String::from_utf8(out.document).unwrap();
    assert!(doc.contains("Total files: 3"));
    assert_eq!(count_occurrences(&doc, "<file path="), 3);
    assert!(doc.contains("<file path=\"a.txt\" lines=\"2\""));
    assert!(doc.contains("<file path=\"b.txt\" lines=\"1\""));
    assert!(doc.contains("<file path=\"c.txt\" lines=\"3\""));
    assert!(doc.contains("Date generated: 2024-06-01 12:00:00"));
}

#[test]
fn extension_filter_reaches_document_and_tree() {
    let ten = "1\n2\n3\n4\n5\n6\n7\n8\n9\n10";
    let five = "1\n2\n3\n4\n5";
    let tree = root(vec![file("x.rs", ten), file("y.md", five)]);
    let mut opts = options(OutputMode::Xml);
    opts.file_extensions = Some(vec![b"rs".to_vec()]);
    let out = process_folder(&tree, &opts).unwrap();
    assert_eq!(out.total_files, 1);
    let doc = String::from_utf8(out.document).unwrap();
    assert!(doc.contains("Total files: 1"));
    assert!(doc.contains("<file path=\"x.rs\" lines=\"10\""));
    assert_eq!(count_occurrences(&doc, "<file path="), 1);
    assert!(!doc.contains("y.md"));
}

#[test]
fn custom_mode_without_file_template_is_a_fatal_error() {
    let tree = root(vec![file("a.txt", "hi")]);
    let mut opts = options(OutputMode::Custom);
    opts.custom_output_template = Some(CombinerTemplate::from_string("{FILE_CONTENTS}"));
    opts.custom_file_template = None;
    let r = process_folder(&tree, &opts);
    assert!(matches!(r, Err(CombineError::MissingCustomTemplate)));
    let e = process_folder(&tree, &opts).err().unwrap();
    assert_eq!(e.message(), "Custom mode requires both custom output and file templates.");
}

#[test]
fn custom_mode_with_both_templates_renders() {
    let tree = root(vec![file("a.txt", "line")]);
    let mut opts = options(OutputMode::Custom);
    opts.custom_output_template = Some(CombinerTemplate::from_string(
        "total={TOTAL_FILES};{FILE_CONTENTS}",
    ));
    opts.custom_file_template = Some(CombinerTemplate::from_string("[{FILE_NAME}:{FILE_CONTENT}]"));
    let out = process_folder(&tree, &opts).unwrap();
    assert_eq!(String::from_utf8(out.document).unwrap(), "total=1;[a.txt:line]");
}

#[test]
fn unreadable_file_is_skipped_and_not_counted() {
    let tree = root(vec![file("a.txt", "hi"), file("c.txt", "ho"), unreadable("b.txt")]);
    let out = process_folder(&tree, &options(OutputMode::Xml)).unwrap();
    assert_eq!(out.total_files, 2);
    assert_eq!(out.skipped, vec![b"b.txt".to_vec()]);
    let doc = String::from_utf8(out.document).unwrap();
    assert!(doc.contains("Total files: 2"));
    assert_eq!(count_occurrences(&doc, "<file path="), 2);
    // the unreadable file was still discovered, so the listing names it
    assert!(doc.contains("- b.txt"));
    assert!(!doc.contains("<file path=\"b.txt\""));
}

#[test]
fn line_numbering_reaches_the_blocks() {
    let tree = root(vec![file("a.txt", "a\nb")]);
    let mut opts = options(OutputMode::Xml);
    opts.add_line_numbers = true;
    let out = process_folder(&tree, &opts).unwrap();
    let doc = String::from_utf8(out.document).unwrap();
    assert!(doc.contains("1     | a\n2     | b"));
}

#[test]
fn markdown_mode_uses_markdown_scaffold() {
    let tree = root(vec![file("a.txt", "hi")]);
    let out = process_folder(&tree, &options(OutputMode::Markdown)).unwrap();
    let doc = String::from_utf8(out.document).unwrap();
    assert!(doc.contains("# File Overview"));
    assert!(doc.contains("- **Total files:** 1"));
    assert!(doc.contains("### a.txt"));
}

#[test]
fn clock_wrappers_render_nineteen_byte_stamps() {
    let now = now_local_formatted();
    assert_eq!(now.len(), 19);
    let epoch = format_epoch_local(0).unwrap();
    assert_eq!(epoch.len(), 19);
    assert!(epoch.starts_with(b"19") || epoch.starts_with(b"20"));
}

#[test]
fn ignore_file_parsing_trims_and_drops_comments() {
    let text = b"  target \n\n# a comment\nbuild\n   \n.cache".to_vec();
    let tokens = parse_ignore_file(&text);
    assert_eq!(tokens, vec![b"target".to_vec(), b"build".to_vec(), b".cache".to_vec()]);
}

#[test]
fn default_ignores_cover_the_usual_directories() {
    let defaults = default_ignore_patterns();
    assert_eq!(
        defaults,
        vec![
            b".git".to_vec(),
            b"node_modules".to_vec(),
            b"__pycache__".to_vec(),
            b"target".to_vec(),
        ]
    );
}
