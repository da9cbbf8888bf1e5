//! The directory walker: collecting the filtered files of a snapshot as a
//! sorted record list, and deriving the sorted path list and the bullet
//! file list from it.
use vstd::prelude::*;

use crate::fstree::FsDir;
use crate::fstree::FsEntry;
use crate::text::bullet_list;
use crate::text::included_file;
use crate::text::lex_le;
use crate::text::lex_lt;
use crate::text::lex_less;
use crate::text::list_contains;
use crate::text::passes_filter_exec;
use crate::text::push_bytes;

verus! {

/// One collected file: its path relative to the walked root, its content
/// if it was readable, and its formatted modification time.
pub struct FileRec {
    pub path: Vec<u8>,
    pub content: Option<Vec<u8>>,
    pub mtime: Vec<u8>,
}

/// The mathematical view of a collected file record.
pub open spec fn rec_view(r: FileRec) -> (Seq<u8>, Option<Seq<u8>>, Seq<u8>) {
    (r.path@, r.content.deep_view(), r.mtime@)
}

/// The view of a record list.
pub open spec fn recs_view(rs: Seq<FileRec>) -> Seq<(Seq<u8>, Option<Seq<u8>>, Seq<u8>)> {
    rs.map_values(|r: FileRec| rec_view(r))
}

/// The paths of a record list.
pub open spec fn paths_of(rs: Seq<(Seq<u8>, Option<Seq<u8>>, Seq<u8>)>) -> Seq<Seq<u8>> {
    rs.map_values(|r: (Seq<u8>, Option<Seq<u8>>, Seq<u8>)| r.0)
}

/// Each record of `rs` with `name/` prepended to its path.
pub open spec fn prefix_recs(
    name: Seq<u8>,
    rs: Seq<(Seq<u8>, Option<Seq<u8>>, Seq<u8>)>,
) -> Seq<(Seq<u8>, Option<Seq<u8>>, Seq<u8>)> {
    rs.map_values(
        |r: (Seq<u8>, Option<Seq<u8>>, Seq<u8>)| (name + seq![47u8] + r.0, r.1, r.2),
    )
}

/// The records one entry contributes, in traversal order: an included
/// file contributes itself; a directory whose name is an ignore token is
/// pruned with its whole subtree; any other directory contributes its
/// own records with its name prepended.
pub open spec fn rec_entry(
    e: FsEntry,
    filter: Option<Seq<Seq<u8>>>,
    ignores: Seq<Seq<u8>>,
) -> Seq<(Seq<u8>, Option<Seq<u8>>, Seq<u8>)>
    decreases e,
{
    match e {
        FsEntry::File(f) => if included_file(f.name@, filter, ignores) {
            seq![(f.name@, f.content.deep_view(), f.mtime@)]
        } else {
            Seq::empty()
        },
        FsEntry::Dir(d) => if ignores.contains(d.name@) {
            Seq::empty()
        } else {
            prefix_recs(d.name@, rec_entries(d.entries@, filter, ignores))
        },
    }
}

/// The records of an entry list, in traversal order.
pub open spec fn rec_entries(
    es: Seq<FsEntry>,
    filter: Option<Seq<Seq<u8>>>,
    ignores: Seq<Seq<u8>>,
) -> Seq<(Seq<u8>, Option<Seq<u8>>, Seq<u8>)>
    decreases es,
{
    if es.len() == 0 {
        Seq::empty()
    } else {
        rec_entry(es[0], filter, ignores) + rec_entries(es.drop_first(), filter, ignores)
    }
}

/// A one-entry list contributes exactly that entry's records.
pub proof fn lemma_rec_entries_one(x: FsEntry, filter: Option<Seq<Seq<u8>>>, ignores: Seq<Seq<u8>>)
    ensures
        rec_entries(seq![x], filter, ignores) == rec_entry(x, filter, ignores),
{
    assert(seq![x].drop_first() =~= Seq::<FsEntry>::empty());
    assert(seq![x][0] == x);
    assert(rec_entries(Seq::<FsEntry>::empty(), filter, ignores) =~= Seq::<(
        Seq<u8>,
        Option<Seq<u8>>,
        Seq<u8>,
    )>::empty());
    assert(rec_entry(x, filter, ignores) + Seq::<(Seq<u8>, Option<Seq<u8>>, Seq<u8>)>::empty()
        =~= rec_entry(x, filter, ignores));
    assert(rec_entries(seq![x], filter, ignores) =~= rec_entry(x, filter, ignores));
}

/// View of a record list distributes over push.
pub proof fn lemma_recs_view_push(s: Seq<FileRec>, r: FileRec)
    ensures
        recs_view(s.push(r)) =~= recs_view(s).push(rec_view(r)),
{
}

/// Prefixing distributes over push.
pub proof fn lemma_prefix_recs_push(
    name: Seq<u8>,
    s: Seq<(Seq<u8>, Option<Seq<u8>>, Seq<u8>)>,
    r: (Seq<u8>, Option<Seq<u8>>, Seq<u8>),
)
    ensures
        prefix_recs(name, s.push(r)) =~= prefix_recs(name, s).push(
            (name + seq![47u8] + r.0, r.1, r.2),
        ),
{
}

/// Splitting an entry list splits its records.
pub proof fn lemma_rec_entries_concat(
    a: Seq<FsEntry>,
    b: Seq<FsEntry>,
    filter: Option<Seq<Seq<u8>>>,
    ignores: Seq<Seq<u8>>,
)
    ensures
        rec_entries(a + b, filter, ignores) == rec_entries(a, filter, ignores) + rec_entries(
            b,
            filter,
            ignores,
        ),
    decreases a.len(),
{
    if a.len() == 0 {
        assert(a + b =~= b);
        assert(rec_entries(a, filter, ignores) + rec_entries(b, filter, ignores) =~= rec_entries(
            b,
            filter,
            ignores,
        ));
    } else {
        assert((a + b)[0] == a[0]);
        assert((a + b).drop_first() =~= a.drop_first() + b);
        lemma_rec_entries_concat(a.drop_first(), b, filter, ignores);
        assert(rec_entries(a + b, filter, ignores) =~= rec_entries(a, filter, ignores)
            + rec_entries(b, filter, ignores));
    }
}

/// Join a directory name and a relative path with a separator.
fn join_path(dir: &Vec<u8>, rest: &Vec<u8>) -> (r: Vec<u8>)
    ensures
        r@ == dir@ + seq![47u8] + rest@,
{
    let mut r: Vec<u8> = Vec::new();
    push_bytes(&mut r, dir);
    r.push(47);
    push_bytes(&mut r, rest);
    proof {
        assert(r@ =~= dir@ + seq![47u8] + rest@);
    }
    r
}

/// Copy an optional byte string.
fn clone_content(c: &Option<Vec<u8>>) -> (r: Option<Vec<u8>>)
    ensures
        r.deep_view() == c.deep_view(),
{
    match c {
        Option::Some(v) => {
            let mut w: Vec<u8> = Vec::new();
            push_bytes(&mut w, v);
            proof {
                assert(w@ =~= v@);
            }
            Option::Some(w)
        },
        Option::None => Option::None,
    }
}

/// Copy a byte string.
fn clone_bytes(v: &Vec<u8>) -> (r: Vec<u8>)
    ensures
        r@ == v@,
{
    let mut w: Vec<u8> = Vec::new();
    push_bytes(&mut w, v);
    proof {
        assert(w@ =~= v@);
    }
    w
}

/// Collect the records of one entry, in traversal order.
fn collect_entry(e: &FsEntry, filter: &Option<Vec<Vec<u8>>>, ignores: &Vec<Vec<u8>>) -> (r: Vec<
    FileRec,
>)
    ensures
        recs_view(r@) == rec_entry(*e, filter.deep_view(), ignores.deep_view()),
    decreases *e,
{
    let ghost fv = filter.deep_view();
    let ghost igv = ignores.deep_view();
    match e {
        FsEntry::File(f) => {
            let mut out: Vec<FileRec> = Vec::new();
            let ignored = list_contains(ignores, &f.name);
            let passes = passes_filter_exec(&f.name, filter);
            if !ignored && passes {
                out.push(
                    FileRec {
                        path: clone_bytes(&f.name),
                        content: clone_content(&f.content),
                        mtime: clone_bytes(&f.mtime),
                    },
                );
                proof {
                    assert(recs_view(out@) =~= rec_entry(*e, fv, igv));
                }
            } else {
                proof {
                    assert(recs_view(out@) =~= rec_entry(*e, fv, igv));
                }
            }
            out
        },
        FsEntry::Dir(d) => {
            let mut out: Vec<FileRec> = Vec::new();
            if list_contains(ignores, &d.name) {
                proof {
                    assert(recs_view(out@) =~= rec_entry(*e, fv, igv));
                }
                return out;
            }
            let r = collect_dir(d, filter, ignores);
            proof {
                assert(recs_view(r@) =~= rec_entry(*e, fv, igv));
            }
            r
        },
    }
}

/// Collect the records of a directory, each path prefixed with its name.
fn collect_dir(d: &FsDir, filter: &Option<Vec<Vec<u8>>>, ignores: &Vec<Vec<u8>>) -> (r: Vec<
    FileRec,
>)
    ensures
        recs_view(r@) == prefix_recs(
            d.name@,
            rec_entries(d.entries@, filter.deep_view(), ignores.deep_view()),
        ),
    decreases *d,
{
    let ghost fv = filter.deep_view();
    let ghost igv = ignores.deep_view();
    let mut out: Vec<FileRec> = Vec::new();
    let mut i: usize = 0;
    proof {
        assert(d.entries@.take(0) =~= Seq::<FsEntry>::empty());
        assert(recs_view(out@) =~= prefix_recs(
            d.name@,
            rec_entries(d.entries@.take(0), fv, igv),
        ));
    }
    while i < d.entries.len()
        invariant
            i <= d.entries.len(),
            fv == filter.deep_view(),
            igv == ignores.deep_view(),
            recs_view(out@) =~= prefix_recs(
                d.name@,
                rec_entries(d.entries@.take(i as int), fv, igv),
            ),
        decreases d.entries.len() - i,
    {
        let sub = collect_entry(&d.entries[i], filter, ignores);
        let ghost before = out@;
        let mut k: usize = 0;
        proof {
            assert(sub@.take(0) =~= Seq::<FileRec>::empty());
            assert(recs_view(out@) =~= recs_view(before) + prefix_recs(
                d.name@,
                recs_view(sub@.take(0)),
            ));
        }
        while k < sub.len()
            invariant
                k <= sub.len(),
                recs_view(sub@) == rec_entry(d.entries@[i as int], fv, igv),
                recs_view(out@) =~= recs_view(before) + prefix_recs(
                    d.name@,
                    recs_view(sub@.take(k as int)),
                ),
                fv == filter.deep_view(),
                igv == ignores.deep_view(),
            decreases sub.len() - k,
        {
            let rec = &sub[k];
            let ghost outv = out@;
            let newrec = FileRec {
                path: join_path(&d.name, &rec.path),
                content: clone_content(&rec.content),
                mtime: clone_bytes(&rec.mtime),
            };
            proof {
                assert(rec_view(newrec) == (
                    d.name@ + seq![47u8] + sub@[k as int].path@,
                    sub@[k as int].content.deep_view(),
                    sub@[k as int].mtime@,
                ));
            }
            out.push(newrec);
            proof {
                lemma_recs_view_push(outv, newrec);
                assert(sub@.take(k + 1) =~= sub@.take(k as int).push(sub@[k as int]));
                lemma_recs_view_push(sub@.take(k as int), sub@[k as int]);
                lemma_prefix_recs_push(
                    d.name@,
                    recs_view(sub@.take(k as int)),
                    rec_view(sub@[k as int]),
                );
                assert(recs_view(out@) =~= recs_view(before) + prefix_recs(
                    d.name@,
                    recs_view(sub@.take(k + 1)),
                ));
            }
            k = k + 1;
        }
        proof {
            assert(sub@.take(sub@.len() as int) =~= sub@);
            assert(d.entries@.take(i + 1) =~= d.entries@.take(i as int) + seq![
                d.entries@[i as int],
            ]);
            lemma_rec_entries_concat(
                d.entries@.take(i as int),
                seq![d.entries@[i as int]],
                fv,
                igv,
            );
            lemma_rec_entries_one(d.entries@[i as int], fv, igv);
            assert(prefix_recs(
                d.name@,
                rec_entries(d.entries@.take(i as int), fv, igv) + rec_entry(
                    d.entries@[i as int],
                    fv,
                    igv,
                ),
            ) =~= prefix_recs(d.name@, rec_entries(d.entries@.take(i as int), fv, igv))
                + prefix_recs(d.name@, rec_entry(d.entries@[i as int], fv, igv)));
            assert(recs_view(out@) =~= recs_view(before) + prefix_recs(
                d.name@,
                rec_entry(d.entries@[i as int], fv, igv),
            ));
            assert(recs_view(out@) =~= prefix_recs(
                d.name@,
                rec_entries(d.entries@.take(i + 1), fv, igv),
            ));
        }
        i = i + 1;
    }
    proof {
        assert(d.entries@.take(d.entries@.len() as int) =~= d.entries@);
    }
    out
}

/// Collect the records of a whole directory level, in traversal order.
fn collect_level(dir: &FsDir, filter: &Option<Vec<Vec<u8>>>, ignores: &Vec<Vec<u8>>) -> (r: Vec<
    FileRec,
>)
    ensures
        recs_view(r@) == rec_entries(dir.entries@, filter.deep_view(), ignores.deep_view()),
{
    let ghost fv = filter.deep_view();
    let ghost igv = ignores.deep_view();
    let mut out: Vec<FileRec> = Vec::new();
    let mut i: usize = 0;
    proof {
        assert(dir.entries@.take(0) =~= Seq::<FsEntry>::empty());
        assert(recs_view(out@) =~= rec_entries(dir.entries@.take(0), fv, igv));
    }
    while i < dir.entries.len()
        invariant
            i <= dir.entries.len(),
            fv == filter.deep_view(),
            igv == ignores.deep_view(),
            recs_view(out@) =~= rec_entries(dir.entries@.take(i as int), fv, igv),
        decreases dir.entries.len() - i,
    {
        let mut sub = collect_entry(&dir.entries[i], filter, ignores);
        let ghost before = out@;
        let ghost subv = sub@;
        out.append(&mut sub);
        proof {
            assert(recs_view(out@) =~= recs_view(before) + recs_view(subv));
            assert(dir.entries@.take(i + 1) =~= dir.entries@.take(i as int) + seq![
                dir.entries@[i as int],
            ]);
            lemma_rec_entries_concat(
                dir.entries@.take(i as int),
                seq![dir.entries@[i as int]],
                fv,
                igv,
            );
            lemma_rec_entries_one(dir.entries@[i as int], fv, igv);
            assert(recs_view(out@) =~= rec_entries(dir.entries@.take(i + 1), fv, igv));
        }
        i = i + 1;
    }
    proof {
        assert(dir.entries@.take(dir.entries@.len() as int) =~= dir.entries@);
    }
    out
}


/// A record list sorted (non-strictly) by path.
pub open spec fn sorted_recs(rs: Seq<(Seq<u8>, Option<Seq<u8>>, Seq<u8>)>) -> bool {
    forall|i: int, j: int| 0 <= i < j < rs.len() ==> lex_le(rs[i].0, rs[j].0)
}

/// Insertion of a record into a sorted list, before the first record
/// whose path is not below the new one.
pub open spec fn insert_rec(
    e: (Seq<u8>, Option<Seq<u8>>, Seq<u8>),
    s: Seq<(Seq<u8>, Option<Seq<u8>>, Seq<u8>)>,
) -> Seq<(Seq<u8>, Option<Seq<u8>>, Seq<u8>)>
    decreases s.len(),
{
    if s.len() == 0 {
        seq![e]
    } else if !lex_lt(s[0].0, e.0) {
        seq![e] + s
    } else {
        seq![s[0]] + insert_rec(e, s.drop_first())
    }
}

/// Insertion sort of a record list by path.
pub open spec fn sort_recs(s: Seq<(Seq<u8>, Option<Seq<u8>>, Seq<u8>)>) -> Seq<(
    Seq<u8>,
    Option<Seq<u8>>,
    Seq<u8>,
)>
    decreases s.len(),
{
    if s.len() == 0 {
        s
    } else {
        insert_rec(s[0], sort_recs(s.drop_first()))
    }
}

/// Inserting adds exactly the new record.
pub proof fn lemma_insert_rec_multiset(
    e: (Seq<u8>, Option<Seq<u8>>, Seq<u8>),
    s: Seq<(Seq<u8>, Option<Seq<u8>>, Seq<u8>)>,
)
    ensures
        insert_rec(e, s).to_multiset() =~= s.to_multiset().insert(e),
        insert_rec(e, s).len() == s.len() + 1,
    decreases s.len(),
{
    broadcast use vstd::seq_lib::group_to_multiset_ensures;
    broadcast use vstd::multiset::group_multiset_axioms;

    if s.len() == 0 {
        assert(seq![e] =~= Seq::<(Seq<u8>, Option<Seq<u8>>, Seq<u8>)>::empty().push(e));
    } else if !lex_lt(s[0].0, e.0) {
        vstd::seq_lib::lemma_multiset_commutative(seq![e], s);
        assert(seq![e] =~= Seq::<(Seq<u8>, Option<Seq<u8>>, Seq<u8>)>::empty().push(e));
    } else {
        lemma_insert_rec_multiset(e, s.drop_first());
        vstd::seq_lib::lemma_multiset_commutative(seq![s[0]], insert_rec(e, s.drop_first()));
        assert(seq![s[0]] =~= Seq::<(Seq<u8>, Option<Seq<u8>>, Seq<u8>)>::empty().push(s[0]));
        assert(s =~= seq![s[0]] + s.drop_first());
        vstd::seq_lib::lemma_multiset_commutative(seq![s[0]], s.drop_first());
    }
}

/// Every record of the inserted list is the new one or one of the old.
pub proof fn lemma_insert_rec_elems(
    e: (Seq<u8>, Option<Seq<u8>>, Seq<u8>),
    s: Seq<(Seq<u8>, Option<Seq<u8>>, Seq<u8>)>,
)
    ensures
        forall|k: int|
            0 <= k < insert_rec(e, s).len() ==> insert_rec(e, s)[k] == e || s.contains(
                #[trigger] insert_rec(e, s)[k],
            ),
    decreases s.len(),
{
    if s.len() == 0 {
    } else if !lex_lt(s[0].0, e.0) {
        assert forall|k: int| 0 <= k < insert_rec(e, s).len() implies insert_rec(e, s)[k] == e
            || s.contains(#[trigger] insert_rec(e, s)[k]) by {
            if k > 0 {
                assert(insert_rec(e, s)[k] == s[k - 1]);
            }
        }
    } else {
        lemma_insert_rec_elems(e, s.drop_first());
        assert forall|k: int| 0 <= k < insert_rec(e, s).len() implies insert_rec(e, s)[k] == e
            || s.contains(#[trigger] insert_rec(e, s)[k]) by {
            let r = insert_rec(e, s);
            let tail = insert_rec(e, s.drop_first());
            if k == 0 {
                assert(r[0] == s[0]);
                assert(s.contains(s[0]));
            } else {
                assert(r[k] == tail[k - 1]);
                if tail[k - 1] != e {
                    assert(s.drop_first().contains(tail[k - 1]));
                    let m = choose|m: int|
                        0 <= m < s.drop_first().len() && s.drop_first()[m] == tail[k - 1];
                    assert(s[m + 1] == tail[k - 1]);
                    assert(s.contains(s[m + 1]));
                }
            }
        }
    }
}

/// Inserting into a sorted list keeps it sorted.
pub proof fn lemma_insert_rec_sorted(
    e: (Seq<u8>, Option<Seq<u8>>, Seq<u8>),
    s: Seq<(Seq<u8>, Option<Seq<u8>>, Seq<u8>)>,
)
    requires
        sorted_recs(s),
    ensures
        sorted_recs(insert_rec(e, s)),
    decreases s.len(),
{
    if s.len() == 0 {
    } else if !lex_lt(s[0].0, e.0) {
        let r = seq![e] + s;
        assert forall|i: int, j: int| 0 <= i < j < r.len() implies lex_le(r[i].0, r[j].0) by {
            if i == 0 {
                crate::text::lemma_lex_total(s[0].0, e.0);
                assert(r[j] == s[j - 1]);
                if j > 1 {
                    assert(lex_le(s[0].0, s[j - 1].0));
                }
                crate::text::lemma_lex_le_trans(e.0, s[0].0, s[j - 1].0);
            } else {
                assert(r[i] == s[i - 1] && r[j] == s[j - 1]);
            }
        }
    } else {
        assert forall|i: int, j: int| 0 <= i < j < s.drop_first().len() implies lex_le(
            s.drop_first()[i].0,
            s.drop_first()[j].0,
        ) by {
            assert(s.drop_first()[i] == s[i + 1] && s.drop_first()[j] == s[j + 1]);
        }
        lemma_insert_rec_sorted(e, s.drop_first());
        lemma_insert_rec_elems(e, s.drop_first());
        let tail = insert_rec(e, s.drop_first());
        let r = seq![s[0]] + tail;
        assert forall|i: int, j: int| 0 <= i < j < r.len() implies lex_le(r[i].0, r[j].0) by {
            if i == 0 {
                assert(r[j] == tail[j - 1]);
                if tail[j - 1] == e {
                    assert(lex_le(s[0].0, e.0));
                } else {
                    assert(s.drop_first().contains(tail[j - 1]));
                    let m = choose|m: int|
                        0 <= m < s.drop_first().len() && s.drop_first()[m] == tail[j - 1];
                    assert(s[m + 1] == tail[j - 1]);
                    assert(lex_le(s[0].0, s[m + 1].0));
                }
            } else {
                assert(r[i] == tail[i - 1] && r[j] == tail[j - 1]);
            }
        }
    }
}

/// The sorted record list holds the same records, sorted by path.
pub proof fn lemma_sort_recs_props(s: Seq<(Seq<u8>, Option<Seq<u8>>, Seq<u8>)>)
    ensures
        sorted_recs(sort_recs(s)),
        sort_recs(s).to_multiset() =~= s.to_multiset(),
        sort_recs(s).len() == s.len(),
    decreases s.len(),
{
    broadcast use vstd::seq_lib::group_to_multiset_ensures;
    broadcast use vstd::multiset::group_multiset_axioms;

    if s.len() != 0 {
        lemma_sort_recs_props(s.drop_first());
        lemma_insert_rec_sorted(s[0], sort_recs(s.drop_first()));
        lemma_insert_rec_multiset(s[0], sort_recs(s.drop_first()));
        assert(s =~= seq![s[0]] + s.drop_first());
        vstd::seq_lib::lemma_multiset_commutative(seq![s[0]], s.drop_first());
        assert(seq![s[0]] =~= Seq::<(Seq<u8>, Option<Seq<u8>>, Seq<u8>)>::empty().push(s[0]));
        assert(sort_recs(s).to_multiset() =~= s.to_multiset());
    }
}

/// Insert a record into a sorted vector of records.
fn insert_rec_exec(e: FileRec, s: Vec<FileRec>) -> (r: Vec<FileRec>)
    ensures
        recs_view(r@) == insert_rec(rec_view(e), recs_view(s@)),
    decreases s@.len(),
{
    let ghost origv = s@;
    let mut s = s;
    if s.len() == 0 {
        s.push(e);
        proof {
            assert(recs_view(s@) =~= seq![rec_view(e)]);
            assert(insert_rec(rec_view(e), recs_view(origv)) =~= seq![rec_view(e)]);
        }
        return s;
    }
    let go_right = lex_less(&s[0].path, &e.path);
    proof {
        assert(recs_view(origv)[0] == rec_view(origv[0]));
    }
    if !go_right {
        s.insert(0, e);
        proof {
            assert(s@ =~= seq![e] + origv);
            assert(recs_view(seq![e] + origv) =~= seq![rec_view(e)] + recs_view(origv));
        }
        s
    } else {
        let first = s.remove(0);
        let ghost tailv = s@;
        proof {
            assert(tailv =~= origv.drop_first());
            assert(first == origv[0]);
        }
        let sub = insert_rec_exec(e, s);
        let mut r = sub;
        let ghost subv = r@;
        r.insert(0, first);
        proof {
            assert(r@ =~= seq![first] + subv);
            assert(recs_view(seq![first] + subv) =~= seq![rec_view(first)] + recs_view(subv));
            assert(recs_view(origv).drop_first() =~= recs_view(origv.drop_first()));
            assert(insert_rec(rec_view(e), recs_view(origv)) =~= seq![recs_view(origv)[0]]
                + insert_rec(rec_view(e), recs_view(origv).drop_first()));
            assert(recs_view(r@) =~= insert_rec(rec_view(e), recs_view(origv)));
        }
        r
    }
}

/// Sort a vector of records by path.
fn sort_recs_exec(v: Vec<FileRec>) -> (r: Vec<FileRec>)
    ensures
        recs_view(r@) == sort_recs(recs_view(v@)),
    decreases v@.len(),
{
    let ghost origv = v@;
    let mut v = v;
    if v.len() == 0 {
        proof {
            assert(recs_view(v@) =~= sort_recs(recs_view(origv)));
        }
        return v;
    }
    let first = v.remove(0);
    proof {
        assert(v@ =~= origv.drop_first());
        assert(first == origv[0]);
        assert(recs_view(origv).drop_first() =~= recs_view(origv.drop_first()));
        assert(recs_view(origv)[0] == rec_view(origv[0]));
    }
    let sorted = sort_recs_exec(v);
    let r = insert_rec_exec(first, sorted);
    proof {
        assert(recs_view(r@) =~= sort_recs(recs_view(origv)));
    }
    r
}

/// The records of the walked snapshot under the filter and ignore rules:
/// exactly the included files, sorted by path.
pub fn collect_records(dir: &FsDir, filter: &Option<Vec<Vec<u8>>>, ignores: &Vec<Vec<u8>>) -> (r:
    Vec<FileRec>)
    ensures
        recs_view(r@) == sort_recs(
            rec_entries(dir.entries@, filter.deep_view(), ignores.deep_view()),
        ),
        sorted_recs(recs_view(r@)),
        recs_view(r@).to_multiset() == rec_entries(
            dir.entries@,
            filter.deep_view(),
            ignores.deep_view(),
        ).to_multiset(),
{
    let raw = collect_level(dir, filter, ignores);
    let r = sort_recs_exec(raw);
    proof {
        lemma_sort_recs_props(rec_entries(dir.entries@, filter.deep_view(), ignores.deep_view()));
    }
    r
}

/// The sorted relative paths of the included files.
pub fn collect_files(dir: &FsDir, filter: &Option<Vec<Vec<u8>>>, ignores: &Vec<Vec<u8>>) -> (r:
    Vec<Vec<u8>>)
    ensures
        r.deep_view() == paths_of(
            sort_recs(rec_entries(dir.entries@, filter.deep_view(), ignores.deep_view())),
        ),
{
    let recs = collect_records(dir, filter, ignores);
    let ghost target = paths_of(
        sort_recs(rec_entries(dir.entries@, filter.deep_view(), ignores.deep_view())),
    );
    let mut out: Vec<Vec<u8>> = Vec::new();
    let mut i: usize = 0;
    while i < recs.len()
        invariant
            i <= recs.len(),
            target == paths_of(recs_view(recs@)),
            target.len() == recs@.len(),
            out.deep_view() =~= target.take(i as int),
        decreases recs.len() - i,
    {
        let p = clone_bytes(&recs[i].path);
        let ghost beforedv = out.deep_view();
        out.push(p);
        proof {
            assert(p.deep_view() =~= p@);
            assert(out.deep_view() =~= beforedv.push(p@));
            assert(recs_view(recs@)[i as int] == rec_view(recs@[i as int]));
            assert(target[i as int] == recs@[i as int].path@);
            assert(target.take(i + 1) =~= target.take(i as int).push(target[i as int]));
            assert(out.deep_view() =~= target.take(i + 1));
        }
        i = i + 1;
    }
    proof {
        assert(target.take(target.len() as int) =~= target);
        assert(out.deep_view() =~~= target);
    }
    out
}

/// The bullet list of the included files, one `- <path>` line per file in
/// sorted order.
pub fn create_file_list(dir: &FsDir, filter: &Option<Vec<Vec<u8>>>, ignores: &Vec<Vec<u8>>) -> (r:
    Vec<u8>)
    ensures
        r@ == bullet_list(
            paths_of(sort_recs(rec_entries(dir.entries@, filter.deep_view(), ignores.deep_view()))),
        ),
{
    let paths = collect_files(dir, filter, ignores);
    bullet_lines(&paths)
}

/// Render a bullet list from a list of paths.
pub fn bullet_lines(paths: &Vec<Vec<u8>>) -> (r: Vec<u8>)
    ensures
        r@ == bullet_list(paths.deep_view()),
{
    let ghost pv = paths.deep_view();
    let mut out: Vec<u8> = Vec::new();
    let mut i: usize = 0;
    proof {
        assert(pv.skip(0) =~= pv);
        assert(out@ + bullet_list(pv) =~= bullet_list(pv));
    }
    while i < paths.len()
        invariant
            i <= paths.len(),
            pv == paths.deep_view(),
            pv.len() == paths@.len(),
            bullet_list(pv) =~= out@ + bullet_list(pv.skip(i as int)),
        decreases paths.len() - i,
    {
        let ghost before = out@;
        let ghost rem = pv.skip(i as int);
        out.push(45);
        out.push(32);
        push_bytes(&mut out, &paths[i]);
        proof {
            assert(pv[i as int] =~= paths@[i as int]@);
            assert(rem[0] == pv[i as int]);
        }
        if i + 1 < paths.len() {
            out.push(10);
            proof {
                assert(out@ =~= before + seq![45u8, 32u8] + rem[0] + seq![10u8]);
            }
        } else {
            proof {
                assert(out@ =~= before + seq![45u8, 32u8] + rem[0]);
            }
        }
        proof {
            assert(rem.drop_first() =~= pv.skip(i + 1));
        }
        i = i + 1;
    }
    proof {
        assert(pv.skip(pv.len() as int) =~= Seq::<Seq<u8>>::empty());
        assert(out@ =~= bullet_list(pv));
    }
    out
}


} // verus!
