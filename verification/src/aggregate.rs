//! The aggregation engine: resolves the output mode's template pair,
//! walks the snapshot, renders one block per readable file through the
//! inner template, and assembles the whole document through the outer
//! template. A file that could not be read is skipped and reported, not
//! fatal; a missing custom template is a configuration error.
use vstd::prelude::*;

use crate::fstree::FsDir;
use crate::fstree::FsEntry;
use crate::render::render_entries;
use crate::template::CombinerTemplate;
use crate::template::TemplateField;
use crate::template::fields_view;
use crate::template::subst;
use crate::text::bullet_list;
use crate::text::base_name;
use crate::text::base_name_of;
use crate::text::bytes_eq;
use crate::text::dec;
use crate::text::format_content;
use crate::text::formatted_content;
use crate::text::line_count;
use crate::text::lines_of;
use crate::text::split_lines;
use crate::text::push_bytes;
use crate::text::trim;
use crate::text::trim_bytes;
use crate::text::u64_to_dec;
use crate::walker::collect_records;
use crate::walker::create_file_list;
use crate::walker::paths_of;
use crate::walker::rec_entries;
use crate::walker::recs_view;
use crate::walker::sort_recs;
use crate::render::create_folder_tree;
use vstd::string::StrSliceExecFns;
use vstd::string::StringSliceAdditionalSpecFns;

verus! {

/// The three output modes.
pub enum OutputMode {
    Xml,
    Markdown,
    Custom,
}

/// A configuration error: custom mode without both template sources.
#[derive(Debug)]
pub enum CombineError {
    MissingCustomTemplate,
}

impl CombineError {
    /// A human-readable description of the error.
    pub fn message(&self) -> String {
        "Custom mode requires both custom output and file templates.".to_owned()
    }
}

/// ASCII lowercasing, byte by byte.
pub open spec fn ascii_lower(s: Seq<u8>) -> Seq<u8> {
    s.map_values(|b: u8| if 65 <= b <= 90 { (b + 32) as u8 } else { b })
}

/// The mode a name selects, compared after ASCII lowercasing; an unknown
/// name selects none.
pub open spec fn mode_of(s: Seq<u8>) -> Option<OutputMode> {
    if ascii_lower(s) == "xml".spec_bytes() {
        Option::Some(OutputMode::Xml)
    } else if ascii_lower(s) == "markdown".spec_bytes() {
        Option::Some(OutputMode::Markdown)
    } else if ascii_lower(s) == "custom".spec_bytes() {
        Option::Some(OutputMode::Custom)
    } else {
        Option::None
    }
}

/// Parse an output-mode name, case-insensitively.
pub fn parse_mode(mode: &Vec<u8>) -> (r: Option<OutputMode>)
    ensures
        r == mode_of(mode@),
{
    let mut low: Vec<u8> = Vec::new();
    let mut i: usize = 0;
    while i < mode.len()
        invariant
            i <= mode.len(),
            low@ =~= ascii_lower(mode@).take(i as int),
        decreases mode.len() - i,
    {
        let b = mode[i];
        if 65 <= b && b <= 90 {
            low.push(b + 32);
        } else {
            low.push(b);
        }
        proof {
            assert(low@ =~= ascii_lower(mode@).take(i + 1));
        }
        i = i + 1;
    }
    proof {
        assert(low@ =~= ascii_lower(mode@));
    }
    if bytes_eq(&low, &("xml").as_bytes_vec()) {
        Option::Some(OutputMode::Xml)
    } else if bytes_eq(&low, &("markdown").as_bytes_vec()) {
        Option::Some(OutputMode::Markdown)
    } else if bytes_eq(&low, &("custom").as_bytes_vec()) {
        Option::Some(OutputMode::Custom)
    } else {
        Option::None
    }
}

/// The built-in document scaffold of `xml` mode.
pub open spec fn xml_output_bytes() -> Seq<u8> {
    "<file_overview>\nTotal files: {TOTAL_FILES}\nDate generated: {DATE_GENERATED}\nFolder Structure:\n{FOLDER_TREE}\n\nFiles included:\n{FILES_INCLUDED}\n</file_overview>\n\n{FILE_CONTENTS}".spec_bytes()
}

/// The built-in per-file block of `xml` mode.
pub open spec fn xml_file_bytes() -> Seq<u8> {
    "<file path=\"{FILE_PATH}\" lines=\"{LINES_COUNT}\" modified=\"{MODIFIED_TIME}\">\n{FILE_CONTENT}\n</file>\n\n".spec_bytes()
}

/// The built-in document scaffold of `markdown` mode.
pub open spec fn markdown_output_bytes() -> Seq<u8> {
    "# File Overview\n\n- **Total files:** {TOTAL_FILES}\n- **Date generated:** {DATE_GENERATED}\n\n## Folder Structure\n\n```\n{FOLDER_TREE}\n```\n\n## Files Included\n\n{FILES_INCLUDED}\n\n\n## Files Contents\n\n---\n{FILE_CONTENTS}".spec_bytes()
}

/// The built-in per-file block of `markdown` mode.
pub open spec fn markdown_file_bytes() -> Seq<u8> {
    "### {FILE_NAME}\n\n- **Path:** `{FILE_PATH}`\n- **Lines:** {LINES_COUNT}\n- **Modified:** {MODIFIED_TIME}\n\n```\n{FILE_CONTENT}\n```\n\n---\n\n".spec_bytes()
}

/// The built-in `xml` document template.
pub fn xml_output_template() -> (r: CombinerTemplate)
    ensures
        r.template@ == xml_output_bytes(),
{
    CombinerTemplate::from_string(
        "<file_overview>\nTotal files: {TOTAL_FILES}\nDate generated: {DATE_GENERATED}\nFolder Structure:\n{FOLDER_TREE}\n\nFiles included:\n{FILES_INCLUDED}\n</file_overview>\n\n{FILE_CONTENTS}",
    )
}

/// The built-in `xml` per-file template.
pub fn xml_file_template() -> (r: CombinerTemplate)
    ensures
        r.template@ == xml_file_bytes(),
{
    CombinerTemplate::from_string(
        "<file path=\"{FILE_PATH}\" lines=\"{LINES_COUNT}\" modified=\"{MODIFIED_TIME}\">\n{FILE_CONTENT}\n</file>\n\n",
    )
}

/// The built-in `markdown` document template.
pub fn markdown_output_template() -> (r: CombinerTemplate)
    ensures
        r.template@ == markdown_output_bytes(),
{
    CombinerTemplate::from_string(
        "# File Overview\n\n- **Total files:** {TOTAL_FILES}\n- **Date generated:** {DATE_GENERATED}\n\n## Folder Structure\n\n```\n{FOLDER_TREE}\n```\n\n## Files Included\n\n{FILES_INCLUDED}\n\n\n## Files Contents\n\n---\n{FILE_CONTENTS}",
    )
}

/// The built-in `markdown` per-file template.
pub fn markdown_file_template() -> (r: CombinerTemplate)
    ensures
        r.template@ == markdown_file_bytes(),
{
    CombinerTemplate::from_string(
        "### {FILE_NAME}\n\n- **Path:** `{FILE_PATH}`\n- **Lines:** {LINES_COUNT}\n- **Modified:** {MODIFIED_TIME}\n\n```\n{FILE_CONTENT}\n```\n\n---\n\n",
    )
}

/// The per-file template fields: relative path, file name, line count,
/// modification time, and the formatted content block.
pub open spec fn inner_fields(
    path: Seq<u8>,
    mtime: Seq<u8>,
    content: Seq<u8>,
    add_line_numbers: bool,
) -> Seq<(Seq<u8>, Seq<u8>)> {
    seq![
        ("FILE_PATH".spec_bytes(), path),
        ("FILE_NAME".spec_bytes(), base_name(path)),
        ("LINES_COUNT".spec_bytes(), dec(line_count(content))),
        ("MODIFIED_TIME".spec_bytes(), mtime),
        ("FILE_CONTENT".spec_bytes(), formatted_content(content, add_line_numbers)),
    ]
}

/// The rendered block of one collected record: the inner template filled
/// in for a readable file, nothing for an unreadable one.
pub open spec fn file_block(
    r: (Seq<u8>, Option<Seq<u8>>, Seq<u8>),
    inner: Seq<u8>,
    add_line_numbers: bool,
) -> Seq<u8> {
    match r.1 {
        Option::Some(c) => subst(inner, inner_fields(r.0, r.2, c, add_line_numbers)),
        Option::None => Seq::empty(),
    }
}

/// The concatenated blocks of a record list, in order.
pub open spec fn file_blocks(
    rs: Seq<(Seq<u8>, Option<Seq<u8>>, Seq<u8>)>,
    inner: Seq<u8>,
    add_line_numbers: bool,
) -> Seq<u8>
    decreases rs.len(),
{
    if rs.len() == 0 {
        Seq::empty()
    } else {
        file_block(rs[0], inner, add_line_numbers) + file_blocks(
            rs.drop_first(),
            inner,
            add_line_numbers,
        )
    }
}

/// How many records were readable.
pub open spec fn ok_count(rs: Seq<(Seq<u8>, Option<Seq<u8>>, Seq<u8>)>) -> nat
    decreases rs.len(),
{
    if rs.len() == 0 {
        0
    } else {
        (if rs[0].1 is Some {
            1nat
        } else {
            0nat
        }) + ok_count(rs.drop_first())
    }
}

/// The paths of the records that were not readable, in order.
pub open spec fn skipped_paths(rs: Seq<(Seq<u8>, Option<Seq<u8>>, Seq<u8>)>) -> Seq<Seq<u8>>
    decreases rs.len(),
{
    if rs.len() == 0 {
        Seq::empty()
    } else {
        (if rs[0].1 is None {
            seq![rs[0].0]
        } else {
            Seq::empty()
        }) + skipped_paths(rs.drop_first())
    }
}

/// The document-level template fields: readable-file total, generation
/// time, trimmed folder tree, bullet file list, concatenated blocks.
pub open spec fn outer_fields(
    total: nat,
    generated: Seq<u8>,
    tree: Seq<u8>,
    files_included: Seq<u8>,
    contents: Seq<u8>,
) -> Seq<(Seq<u8>, Seq<u8>)> {
    seq![
        ("TOTAL_FILES".spec_bytes(), dec(total)),
        ("DATE_GENERATED".spec_bytes(), generated),
        ("FOLDER_TREE".spec_bytes(), trim(tree)),
        ("FILES_INCLUDED".spec_bytes(), files_included),
        ("FILE_CONTENTS".spec_bytes(), contents),
    ]
}

/// The whole combined document of a snapshot, for the given filter and
/// ignore rules, template pair, and generation timestamp.
pub open spec fn spec_document(
    es: Seq<FsEntry>,
    filter: Option<Seq<Seq<u8>>>,
    ignores: Seq<Seq<u8>>,
    add_line_numbers: bool,
    generated: Seq<u8>,
    outer: Seq<u8>,
    inner: Seq<u8>,
) -> Seq<u8> {
    let recs = sort_recs(rec_entries(es, filter, ignores));
    subst(
        outer,
        outer_fields(
            ok_count(recs),
            generated,
            render_entries(es, filter, ignores, Seq::empty()),
            bullet_list(paths_of(recs)),
            file_blocks(recs, inner, add_line_numbers),
        ),
    )
}

/// Everything a run needs beyond the snapshot itself.
pub struct FolderProcessOptions {
    pub file_extensions: Option<Vec<Vec<u8>>>,
    pub ignore_patterns: Vec<Vec<u8>>,
    pub add_line_numbers: bool,
    pub mode: OutputMode,
    pub custom_output_template: Option<CombinerTemplate>,
    pub custom_file_template: Option<CombinerTemplate>,
    pub generated: Vec<u8>,
}

/// The outcome of a run: the document, the paths skipped as unreadable,
/// and the count of files included in the document.
pub struct CombineOutput {
    pub document: Vec<u8>,
    pub skipped: Vec<Vec<u8>>,
    pub total_files: usize,
}

/// Whether custom mode was chosen without both of its template sources.
pub open spec fn custom_missing(o: FolderProcessOptions) -> bool {
    o.mode is Custom && (o.custom_output_template is None || o.custom_file_template is None)
}

/// The document template the options select.
pub open spec fn resolved_outer(o: FolderProcessOptions) -> Seq<u8> {
    match o.mode {
        OutputMode::Xml => xml_output_bytes(),
        OutputMode::Markdown => markdown_output_bytes(),
        OutputMode::Custom => match o.custom_output_template {
            Option::Some(t) => t.template@,
            Option::None => Seq::empty(),
        },
    }
}

/// The per-file template the options select.
pub open spec fn resolved_inner(o: FolderProcessOptions) -> Seq<u8> {
    match o.mode {
        OutputMode::Xml => xml_file_bytes(),
        OutputMode::Markdown => markdown_file_bytes(),
        OutputMode::Custom => match o.custom_file_template {
            Option::Some(t) => t.template@,
            Option::None => Seq::empty(),
        },
    }
}

/// Copy a byte string.
fn copy_bytes(v: &Vec<u8>) -> (r: Vec<u8>)
    ensures
        r@ == v@,
{
    let mut w: Vec<u8> = Vec::new();
    push_bytes(&mut w, v);
    proof {
        assert(w@ =~= v@);
    }
    w
}

/// Combine the snapshot's files into one document. Fails exactly when
/// custom mode lacks a template source; a file without readable content
/// is left out of the document and reported in `skipped`, and
/// `total_files` counts only the files whose blocks are in the document.
pub fn process_folder(dir: &FsDir, options: &FolderProcessOptions) -> (r: Result<
    CombineOutput,
    CombineError,
>)
    ensures
        r is Ok <==> !custom_missing(*options),
        r matches Ok(out) ==> {
            let recs = sort_recs(
                rec_entries(
                    dir.entries@,
                    options.file_extensions.deep_view(),
                    options.ignore_patterns.deep_view(),
                ),
            );
            &&& out.document@ == spec_document(
                dir.entries@,
                options.file_extensions.deep_view(),
                options.ignore_patterns.deep_view(),
                options.add_line_numbers,
                options.generated@,
                resolved_outer(*options),
                resolved_inner(*options),
            )
            &&& out.skipped.deep_view() == skipped_paths(recs)
            &&& out.total_files == ok_count(recs)
        },
{
    let add_ln = options.add_line_numbers;
    let (outer, inner) = match options.mode {
        OutputMode::Xml => (xml_output_template(), xml_file_template()),
        OutputMode::Markdown => (markdown_output_template(), markdown_file_template()),
        OutputMode::Custom => {
            match (&options.custom_output_template, &options.custom_file_template) {
                (Option::Some(ot), Option::Some(ft)) => (
                    CombinerTemplate { template: copy_bytes(&ot.template) },
                    CombinerTemplate { template: copy_bytes(&ft.template) },
                ),
                _ => {
                    return Result::Err(CombineError::MissingCustomTemplate);
                },
            }
        },
    };
    proof {
        assert(outer.template@ == resolved_outer(*options));
        assert(inner.template@ == resolved_inner(*options));
    }
    let recs = collect_records(dir, &options.file_extensions, &options.ignore_patterns);
    let ghost rv = recs_view(recs@);
    let tree = create_folder_tree(dir, &options.file_extensions, &options.ignore_patterns);
    let files_included = create_file_list(dir, &options.file_extensions, &options.ignore_patterns);
    let mut blocks: Vec<u8> = Vec::new();
    let mut skipped: Vec<Vec<u8>> = Vec::new();
    let mut total: usize = 0;
    let mut i: usize = 0;
    proof {
        assert(rv.skip(0) =~= rv);
        assert(blocks@ + file_blocks(rv, inner.template@, add_ln) =~= file_blocks(
            rv,
            inner.template@,
            add_ln,
        ));
        assert(skipped.deep_view() + skipped_paths(rv) =~= skipped_paths(rv));
    }
    while i < recs.len()
        invariant
            i <= recs.len(),
            total <= i,
            rv == recs_view(recs@),
            rv.len() == recs@.len(),
            file_blocks(rv, inner.template@, add_ln) =~= blocks@ + file_blocks(
                rv.skip(i as int),
                inner.template@,
                add_ln,
            ),
            skipped_paths(rv) =~= skipped.deep_view() + skipped_paths(rv.skip(i as int)),
            ok_count(rv) == total + ok_count(rv.skip(i as int)),
        decreases recs.len() - i,
    {
        let ghost rem = rv.skip(i as int);
        proof {
            assert(rem[0] == rv[i as int]);
            assert(rv[i as int] == crate::walker::rec_view(recs@[i as int]));
            assert(rem.drop_first() =~= rv.skip(i + 1));
        }
        let rec = &recs[i];
        match &rec.content {
            Option::Some(c) => {
                let nlines = lines_of(c).len();
                let mut flds: Vec<TemplateField> = Vec::new();
                flds.push(
                    TemplateField {
                        name: ("FILE_PATH").as_bytes_vec(),
                        value: copy_bytes(&rec.path),
                    },
                );
                flds.push(
                    TemplateField {
                        name: ("FILE_NAME").as_bytes_vec(),
                        value: base_name_of(&rec.path),
                    },
                );
                flds.push(
                    TemplateField {
                        name: ("LINES_COUNT").as_bytes_vec(),
                        value: u64_to_dec(nlines as u64),
                    },
                );
                flds.push(
                    TemplateField {
                        name: ("MODIFIED_TIME").as_bytes_vec(),
                        value: copy_bytes(&rec.mtime),
                    },
                );
                flds.push(
                    TemplateField { name: ("FILE_CONTENT").as_bytes_vec(), value: format_content(c, add_ln) },
                );
                proof {
                    assert(fields_view(flds@) =~= inner_fields(
                        rec.path@,
                        rec.mtime@,
                        c@,
                        add_ln,
                    ));
                }
                let block = inner.generate_output_file_content(&flds);
                let ghost bb = blocks@;
                push_bytes(&mut blocks, &block);
                total = total + 1;
                proof {
                    assert(rem[0].1 == Option::Some(c@));
                    assert(file_block(rem[0], inner.template@, add_ln) == block@);
                    assert(blocks@ =~= bb + block@);
                    assert(file_blocks(rv, inner.template@, add_ln) =~= blocks@ + file_blocks(
                        rv.skip(i + 1),
                        inner.template@,
                        add_ln,
                    ));
                    assert(skipped_paths(rem) =~= skipped_paths(rv.skip(i + 1)));
                    assert(ok_count(rem) == 1 + ok_count(rv.skip(i + 1)));
                }
            },
            Option::None => {
                let ghost sb = skipped.deep_view();
                let pb = copy_bytes(&rec.path);
                proof {
                    assert(pb.deep_view() =~= pb@);
                }
                skipped.push(pb);
                proof {
                    assert(skipped.deep_view() =~= sb.push(rec.path@));
                    assert(rem[0].1 is None);
                    assert(rem[0].0 == rec.path@);
                    assert(skipped_paths(rem) =~= seq![rem[0].0] + skipped_paths(
                        rv.skip(i + 1),
                    ));
                    assert(skipped_paths(rv) =~= skipped.deep_view() + skipped_paths(
                        rv.skip(i + 1),
                    ));
                    assert(file_blocks(rem, inner.template@, add_ln) =~= file_blocks(
                        rv.skip(i + 1),
                        inner.template@,
                        add_ln,
                    ));
                    assert(ok_count(rem) == ok_count(rv.skip(i + 1)));
                }
            },
        }
        i = i + 1;
    }
    proof {
        assert(rv.skip(rv.len() as int) =~= Seq::<(Seq<u8>, Option<Seq<u8>>, Seq<u8>)>::empty());
        assert(blocks@ =~= file_blocks(rv, inner.template@, add_ln));
        assert(skipped.deep_view() =~= skipped_paths(rv));
        assert(ok_count(rv) == total);
    }
    let mut oflds: Vec<TemplateField> = Vec::new();
    oflds.push(
        TemplateField { name: ("TOTAL_FILES").as_bytes_vec(), value: u64_to_dec(total as u64) },
    );
    oflds.push(
        TemplateField {
            name: ("DATE_GENERATED").as_bytes_vec(),
            value: copy_bytes(&options.generated),
        },
    );
    oflds.push(TemplateField { name: ("FOLDER_TREE").as_bytes_vec(), value: trim_bytes(&tree) });
    oflds.push(TemplateField { name: ("FILES_INCLUDED").as_bytes_vec(), value: files_included });
    oflds.push(TemplateField { name: ("FILE_CONTENTS").as_bytes_vec(), value: blocks });
    proof {
        assert(fields_view(oflds@) =~= outer_fields(
            ok_count(rv),
            options.generated@,
            render_entries(
                dir.entries@,
                options.file_extensions.deep_view(),
                options.ignore_patterns.deep_view(),
                Seq::empty(),
            ),
            bullet_list(paths_of(rv)),
            file_blocks(rv, inner.template@, add_ln),
        ));
    }
    let document = outer.generate_output_file_content(&oflds);
    Result::Ok(CombineOutput { document, skipped, total_files: total })
}


/// Whether a trimmed ignore-file line contributes a token: nonempty and
/// not a comment.
pub open spec fn keep_token(l: Seq<u8>) -> bool {
    trim(l).len() > 0 && trim(l)[0] != 35
}

/// The tokens of a list of ignore-file lines: each line trimmed, blank
/// lines and `#` comments dropped.
pub open spec fn tokens_of_lines(ls: Seq<Seq<u8>>) -> Seq<Seq<u8>>
    decreases ls.len(),
{
    if ls.len() == 0 {
        Seq::empty()
    } else {
        (if keep_token(ls[0]) {
            seq![trim(ls[0])]
        } else {
            Seq::empty()
        }) + tokens_of_lines(ls.drop_first())
    }
}

/// The ignore tokens an ignore file's text contributes: one per
/// non-empty, non-comment line, trimmed, in file order. Only these exact
/// names are matched; this is deliberately narrower than glob patterns.
pub open spec fn ignore_file_tokens(s: Seq<u8>) -> Seq<Seq<u8>> {
    tokens_of_lines(split_lines(s))
}

/// Parse an ignore file's text into its tokens.
pub fn parse_ignore_file(s: &Vec<u8>) -> (r: Vec<Vec<u8>>)
    ensures
        r.deep_view() == ignore_file_tokens(s@),
{
    let ls = lines_of(s);
    let ghost lsv = ls.deep_view();
    let mut out: Vec<Vec<u8>> = Vec::new();
    let mut i: usize = 0;
    proof {
        assert(lsv.skip(0) =~= lsv);
        assert(out.deep_view() + tokens_of_lines(lsv) =~= tokens_of_lines(lsv));
    }
    while i < ls.len()
        invariant
            i <= ls.len(),
            lsv == ls.deep_view(),
            ls.len() == lsv.len(),
            tokens_of_lines(lsv) =~= out.deep_view() + tokens_of_lines(lsv.skip(i as int)),
        decreases ls.len() - i,
    {
        let ghost rem = lsv.skip(i as int);
        proof {
            assert(rem[0] == lsv[i as int]);
            assert(lsv[i as int] =~= ls@[i as int]@);
            assert(rem.drop_first() =~= lsv.skip(i + 1));
        }
        let t = trim_bytes(&ls[i]);
        if t.len() > 0 && t[0] != 35 {
            let ghost before = out.deep_view();
            proof {
                assert(t.deep_view() =~= t@);
            }
            out.push(t);
            proof {
                assert(out.deep_view() =~= before.push(trim(rem[0])));
                assert(tokens_of_lines(rem) =~= seq![trim(rem[0])] + tokens_of_lines(
                    lsv.skip(i + 1),
                ));
                assert(tokens_of_lines(lsv) =~= out.deep_view() + tokens_of_lines(
                    lsv.skip(i + 1),
                ));
            }
        } else {
            proof {
                assert(!keep_token(rem[0]));
                assert(tokens_of_lines(rem) =~= tokens_of_lines(lsv.skip(i + 1)));
            }
        }
        i = i + 1;
    }
    proof {
        assert(lsv.skip(lsv.len() as int) =~= Seq::<Seq<u8>>::empty());
        assert(out.deep_view() =~= tokens_of_lines(lsv));
    }
    out
}

/// The names every run ignores before any ignore file or flag is read.
pub open spec fn default_ignore_names() -> Seq<Seq<u8>> {
    seq![
        ".git".spec_bytes(),
        "node_modules".spec_bytes(),
        "__pycache__".spec_bytes(),
        "target".spec_bytes(),
    ]
}

/// The fixed default ignore set of a run.
pub fn default_ignore_patterns() -> (r: Vec<Vec<u8>>)
    ensures
        r.deep_view() == default_ignore_names(),
{
    let mut r: Vec<Vec<u8>> = Vec::new();
    r.push((".git").as_bytes_vec());
    r.push(("node_modules").as_bytes_vec());
    r.push(("__pycache__").as_bytes_vec());
    r.push(("target").as_bytes_vec());
    proof {
        assert(r.deep_view() =~~= default_ignore_names());
    }
    r
}


} // verus!
