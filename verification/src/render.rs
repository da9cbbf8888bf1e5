//! The folder-tree renderer: an indented text diagram with box-drawing
//! connectors. Directories whose names are ignore tokens are pruned with
//! their subtrees; files are shown under the same extension-filter rule
//! as collection, while directories are always shown.
use vstd::prelude::*;

use crate::fstree::FsDir;
use crate::fstree::FsEntry;
use crate::fstree::entry_name;
use crate::fstree::entry_name_ref;
use crate::text::list_contains;
use crate::text::passes_filter;
use crate::text::passes_filter_exec;
use crate::text::push_bytes;

verus! {

/// The connector drawn before an entry: `└──` for the last visible
/// sibling, `├──` otherwise.
pub open spec fn connector(last: bool) -> Seq<u8> {
    if last {
        seq![0xe2u8, 0x94u8, 0x94u8, 0xe2u8, 0x94u8, 0x80u8, 0xe2u8, 0x94u8, 0x80u8]
    } else {
        seq![0xe2u8, 0x94u8, 0x9cu8, 0xe2u8, 0x94u8, 0x80u8, 0xe2u8, 0x94u8, 0x80u8]
    }
}

/// What a nested level adds to the indent prefix: blanks under a last
/// sibling, a `│` continuation line otherwise.
pub open spec fn child_pad(last: bool) -> Seq<u8> {
    if last {
        seq![32u8, 32u8, 32u8, 32u8]
    } else {
        seq![0xe2u8, 0x94u8, 0x82u8, 32u8, 32u8, 32u8]
    }
}

/// Whether some entry of `es` is not an ignore token, so would be shown.
pub open spec fn has_visible(es: Seq<FsEntry>, ignores: Seq<Seq<u8>>) -> bool {
    exists|i: int| 0 <= i < es.len() && !ignores.contains(entry_name(#[trigger] es[i]))
}

/// The rendered lines of one visible entry. A file is shown only when it
/// passes the extension filter (it still counts for connector choice); a
/// directory is always shown, with its subtree indented below it.
pub open spec fn render_one(
    e: FsEntry,
    last: bool,
    filter: Option<Seq<Seq<u8>>>,
    ignores: Seq<Seq<u8>>,
    prefix: Seq<u8>,
) -> Seq<u8>
    decreases e,
{
    match e {
        FsEntry::File(f) => if passes_filter(f.name@, filter) {
            prefix + connector(last) + seq![32u8] + f.name@ + seq![10u8]
        } else {
            Seq::empty()
        },
        FsEntry::Dir(d) => prefix + connector(last) + seq![32u8] + d.name@ + seq![47u8, 10u8]
            + render_entries(d.entries@, filter, ignores, prefix + child_pad(last)),
    }
}

/// The rendered lines of an entry list: ignored entries are dropped with
/// their subtrees, and the last visible entry gets the closing connector.
pub open spec fn render_entries(
    es: Seq<FsEntry>,
    filter: Option<Seq<Seq<u8>>>,
    ignores: Seq<Seq<u8>>,
    prefix: Seq<u8>,
) -> Seq<u8>
    decreases es,
{
    if es.len() == 0 {
        Seq::empty()
    } else if ignores.contains(entry_name(es[0])) {
        render_entries(es.drop_first(), filter, ignores, prefix)
    } else {
        render_one(es[0], !has_visible(es.drop_first(), ignores), filter, ignores, prefix)
            + render_entries(es.drop_first(), filter, ignores, prefix)
    }
}

/// The whole tree diagram of a snapshot.
pub open spec fn render_tree_spec(
    dir: FsDir,
    filter: Option<Seq<Seq<u8>>>,
    ignores: Seq<Seq<u8>>,
) -> Seq<u8> {
    render_entries(dir.entries@, filter, ignores, Seq::empty())
}

/// Whether any entry at or after `from` is not ignored.
fn has_visible_from(es: &Vec<FsEntry>, from: usize, ignores: &Vec<Vec<u8>>) -> (r: bool)
    requires
        from <= es.len(),
    ensures
        r == has_visible(es@.skip(from as int), ignores.deep_view()),
{
    let ghost igv = ignores.deep_view();
    let ghost rest = es@.skip(from as int);
    let mut j: usize = from;
    while j < es.len()
        invariant
            from <= j <= es.len(),
            igv == ignores.deep_view(),
            rest == es@.skip(from as int),
            forall|k: int| from <= k < j ==> igv.contains(entry_name(#[trigger] es@[k])),
        decreases es.len() - j,
    {
        let name = entry_name_ref(&es[j]);
        let ignored = list_contains(ignores, name);
        if !ignored {
            proof {
                assert(rest[j - from] == es@[j as int]);
                assert(!igv.contains(entry_name(rest[j - from])));
            }
            return true;
        }
        j = j + 1;
    }
    proof {
        assert forall|i: int| 0 <= i < rest.len() implies igv.contains(
            entry_name(#[trigger] rest[i]),
        ) by {
            assert(rest[i] == es@[i + from]);
        }
    }
    false
}

/// Append the connector for a sibling position.
fn push_connector(out: &mut Vec<u8>, last: bool)
    ensures
        final(out)@ == old(out)@ + connector(last),
{
    out.push(0xe2);
    out.push(0x94);
    if last {
        out.push(0x94);
    } else {
        out.push(0x9c);
    }
    out.push(0xe2);
    out.push(0x94);
    out.push(0x80);
    out.push(0xe2);
    out.push(0x94);
    out.push(0x80);
    proof {
        assert(out@ =~= old(out)@ + connector(last));
    }
}

/// The indent prefix of the next nesting level.
fn child_prefix(prefix: &Vec<u8>, last: bool) -> (r: Vec<u8>)
    ensures
        r@ == prefix@ + child_pad(last),
{
    let mut r: Vec<u8> = Vec::new();
    push_bytes(&mut r, prefix);
    if last {
        r.push(32);
        r.push(32);
        r.push(32);
        r.push(32);
    } else {
        r.push(0xe2);
        r.push(0x94);
        r.push(0x82);
        r.push(32);
        r.push(32);
        r.push(32);
    }
    proof {
        assert(r@ =~= prefix@ + child_pad(last));
    }
    r
}

/// Append the rendered lines of an entry list.
fn render_entries_exec(
    es: &Vec<FsEntry>,
    filter: &Option<Vec<Vec<u8>>>,
    ignores: &Vec<Vec<u8>>,
    prefix: &Vec<u8>,
    out: &mut Vec<u8>,
)
    ensures
        final(out)@ == old(out)@ + render_entries(
            es@,
            filter.deep_view(),
            ignores.deep_view(),
            prefix@,
        ),
    decreases es@,
{
    let ghost fv = filter.deep_view();
    let ghost igv = ignores.deep_view();
    let ghost pv = prefix@;
    let mut i: usize = 0;
    proof {
        assert(es@.skip(0) =~= es@);
    }
    while i < es.len()
        invariant
            i <= es.len(),
            fv == filter.deep_view(),
            igv == ignores.deep_view(),
            pv == prefix@,
            old(out)@ + render_entries(es@, fv, igv, pv) =~= out@ + render_entries(
                es@.skip(i as int),
                fv,
                igv,
                pv,
            ),
        decreases es.len() - i,
    {
        let ghost rest = es@.skip(i as int);
        proof {
            assert(rest[0] == es@[i as int]);
            assert(rest.drop_first() =~= es@.skip(i + 1));
        }
        let name = entry_name_ref(&es[i]);
        let ignored = list_contains(ignores, name);
        if !ignored {
            let last = !has_visible_from(es, i + 1, ignores);
            let ghost before = out@;
            match &es[i] {
                FsEntry::File(f) => {
                    let passes = passes_filter_exec(&f.name, filter);
                    if passes {
                        push_bytes(out, prefix);
                        push_connector(out, last);
                        out.push(32);
                        push_bytes(out, &f.name);
                        out.push(10);
                        proof {
                            assert(out@ =~= before + (pv + connector(last) + seq![32u8] + f.name@
                                + seq![10u8]));
                        }
                    }
                    proof {
                        assert(out@ + render_entries(es@.skip(i + 1), fv, igv, pv) =~= before
                            + render_one(rest[0], last, fv, igv, pv) + render_entries(
                            es@.skip(i + 1),
                            fv,
                            igv,
                            pv,
                        ));
                    }
                },
                FsEntry::Dir(d) => {
                    push_bytes(out, prefix);
                    push_connector(out, last);
                    out.push(32);
                    push_bytes(out, &d.name);
                    out.push(47);
                    out.push(10);
                    proof {
                        assert(out@ =~= before + (pv + connector(last) + seq![32u8] + d.name@
                            + seq![47u8, 10u8]));
                    }
                    let sub_prefix = child_prefix(prefix, last);
                    render_entries_exec(&d.entries, filter, ignores, &sub_prefix, out);
                    proof {
                        assert(out@ =~= before + render_one(rest[0], last, fv, igv, pv));
                    }
                },
            }
            proof {
                assert(render_entries(rest, fv, igv, pv) == render_one(
                    rest[0],
                    !has_visible(rest.drop_first(), igv),
                    fv,
                    igv,
                    pv,
                ) + render_entries(rest.drop_first(), fv, igv, pv));
                assert(old(out)@ + render_entries(es@, fv, igv, pv) =~= out@ + render_entries(
                    es@.skip(i + 1),
                    fv,
                    igv,
                    pv,
                ));
            }
        } else {
            proof {
                assert(render_entries(rest, fv, igv, pv) == render_entries(
                    rest.drop_first(),
                    fv,
                    igv,
                    pv,
                ));
            }
        }
        i = i + 1;
    }
    proof {
        assert(es@.skip(es@.len() as int) =~= Seq::<FsEntry>::empty());
        assert(out@ =~= old(out)@ + render_entries(es@, fv, igv, pv));
    }
}

/// The folder-tree diagram of a snapshot, with box-drawing connectors,
/// subdirectories before files at each level, ignored names pruned with
/// their subtrees, and files shown under the extension filter.
pub fn create_folder_tree(dir: &FsDir, filter: &Option<Vec<Vec<u8>>>, ignores: &Vec<Vec<u8>>) -> (r:
    Vec<u8>)
    ensures
        r@ == render_tree_spec(*dir, filter.deep_view(), ignores.deep_view()),
{
    let mut out: Vec<u8> = Vec::new();
    let prefix: Vec<u8> = Vec::new();
    render_entries_exec(&dir.entries, filter, ignores, &prefix, &mut out);
    proof {
        assert(prefix@ =~= Seq::<u8>::empty());
    }
    out
}

} // verus!
