//! The library's general laws, each stated and proved over the same spec
//! functions the executable contracts use.
use vstd::prelude::*;

use crate::fstree::FsEntry;
use crate::fstree::entry_lt;
use crate::fstree::valid_name;
use crate::fstree::wf_entries;
use crate::fstree::wf_entry;
use crate::fstree::entry_name;
use crate::render::has_visible;
use crate::render::render_entries;
use crate::template::is_prefix;
use crate::template::lemma_first_match_char;
use crate::template::subst;
use crate::template::token;
use crate::text::lex_le;
use crate::text::lex_lt;
use crate::walker::rec_entries;
use crate::walker::rec_entry;
use crate::walker::sort_recs;
use crate::walker::lemma_sort_recs_props;
use crate::walker::prefix_recs;

verus! {

/// Whether `p` occurs anywhere in `t`.
pub open spec fn occurs(p: Seq<u8>, t: Seq<u8>) -> bool {
    exists|k: int| 0 <= k <= t.len() - p.len() && #[trigger] t.subrange(k, k + p.len()) == p
}

/// A well-shaped placeholder name: nonempty, without braces.
pub open spec fn name_ok(n: Seq<u8>) -> bool {
    n.len() > 0 && forall|i: int| 0 <= i < n.len() ==> n[i] != 123 && n[i] != 125
}

proof fn lemma_prefix_occurs(p: Seq<u8>, t: Seq<u8>)
    requires
        is_prefix(p, t),
    ensures
        occurs(p, t),
{
    let z: int = 0;
    assert(t.subrange(z, z + p.len()) =~= t.take(p.len() as int));
    assert(0 <= z <= t.len() - p.len() && t.subrange(z, z + p.len()) == p);
}

proof fn lemma_occurs_tail(p: Seq<u8>, t: Seq<u8>)
    requires
        t.len() > 0,
        !occurs(p, t),
    ensures
        !occurs(p, t.drop_first()),
{
    if occurs(p, t.drop_first()) {
        let k = choose|k: int|
            0 <= k <= t.drop_first().len() - p.len() && #[trigger] t.drop_first().subrange(
                k,
                k + p.len(),
            ) == p;
        assert(t.subrange(k + 1, k + 1 + p.len()) =~= t.drop_first().subrange(k, k + p.len()));
    }
}

/// A template in which no field's token occurs is left untouched:
/// unrecognized placeholders and ordinary text pass through literally.
pub proof fn lemma_subst_untouched(t: Seq<u8>, fields: Seq<(Seq<u8>, Seq<u8>)>)
    requires
        forall|j: int| 0 <= j < fields.len() ==> !occurs(token(#[trigger] fields[j].0), t),
    ensures
        subst(t, fields) == t,
    decreases t.len(),
{
    if t.len() == 0 {
        assert(subst(t, fields) =~= t);
    } else {
        assert forall|j: int| 0 <= j < fields.len() implies !is_prefix(
            token(#[trigger] fields[j].0),
            t,
        ) by {
            if is_prefix(token(fields[j].0), t) {
                lemma_prefix_occurs(token(fields[j].0), t);
            }
        }
        lemma_first_match_char(t, fields, fields.len() as int);
        assert forall|j: int| 0 <= j < fields.len() implies !occurs(
            token(#[trigger] fields[j].0),
            t.drop_first(),
        ) by {
            lemma_occurs_tail(token(fields[j].0), t);
        }
        lemma_subst_untouched(t.drop_first(), fields);
        assert(seq![t[0]] + t.drop_first() =~= t);
    }
}

/// Two well-shaped distinct tokens never start at the same position.
proof fn lemma_tokens_no_common_prefix(n1: Seq<u8>, n2: Seq<u8>, t: Seq<u8>)
    requires
        name_ok(n1),
        name_ok(n2),
        n1 != n2,
    ensures
        !(is_prefix(token(n1), t) && is_prefix(token(n2), t)),
{
    if is_prefix(token(n1), t) && is_prefix(token(n2), t) {
        let t1 = token(n1);
        let t2 = token(n2);
        if t1.len() == t2.len() {
            assert forall|k: int| 0 <= k < n1.len() implies n1[k] == n2[k] by {
                assert(t1[k + 1] == n1[k]);
                assert(t2[k + 1] == n2[k]);
                assert(t.take(t1.len() as int)[k + 1] == t[k + 1]);
                assert(t.take(t2.len() as int)[k + 1] == t[k + 1]);
            }
            assert(n1 =~= n2);
        } else if t1.len() < t2.len() {
            let m = n1.len() as int;
            assert(t1[m + 1] == 125);
            assert(t.take(t1.len() as int)[m + 1] == t[m + 1]);
            assert(t.take(t2.len() as int)[m + 1] == t[m + 1]);
            assert(t2[m + 1] == n2[m]);
            assert(n2[m] == 125);
        } else {
            let m = n2.len() as int;
            assert(t2[m + 1] == 125);
            assert(t.take(t2.len() as int)[m + 1] == t[m + 1]);
            assert(t.take(t1.len() as int)[m + 1] == t[m + 1]);
            assert(t1[m + 1] == n1[m]);
            assert(n1[m] == 125);
        }
    }
}

/// Substitution of two fields with distinct well-shaped names does not
/// depend on the order the fields are given in.
pub proof fn lemma_subst_two_commute(
    t: Seq<u8>,
    a: (Seq<u8>, Seq<u8>),
    b: (Seq<u8>, Seq<u8>),
)
    requires
        name_ok(a.0),
        name_ok(b.0),
        a.0 != b.0,
    ensures
        subst(t, seq![a, b]) == subst(t, seq![b, a]),
    decreases t.len(),
{
    let ab = seq![a, b];
    let ba = seq![b, a];
    assert(ab.drop_first() =~= seq![b]);
    assert(ba.drop_first() =~= seq![a]);
    assert(seq![b].drop_first() =~= Seq::<(Seq<u8>, Seq<u8>)>::empty());
    assert(seq![a].drop_first() =~= Seq::<(Seq<u8>, Seq<u8>)>::empty());
    if t.len() == 0 {
        assert(subst(t, ab) =~= subst(t, ba));
    } else {
        lemma_tokens_no_common_prefix(a.0, b.0, t);
        if is_prefix(token(a.0), t) {
            lemma_first_match_char(t, ab, 0);
            lemma_first_match_char(t, ba, 1);
            lemma_subst_two_commute(t.skip(token(a.0).len() as int), a, b);
            assert(subst(t, ab) == a.1 + subst(t.skip(token(a.0).len() as int), ab));
            assert(subst(t, ba) == a.1 + subst(t.skip(token(a.0).len() as int), ba));
        } else if is_prefix(token(b.0), t) {
            lemma_first_match_char(t, ab, 1);
            lemma_first_match_char(t, ba, 0);
            lemma_subst_two_commute(t.skip(token(b.0).len() as int), a, b);
            assert(subst(t, ab) == b.1 + subst(t.skip(token(b.0).len() as int), ab));
            assert(subst(t, ba) == b.1 + subst(t.skip(token(b.0).len() as int), ba));
        } else {
            lemma_first_match_char(t, ab, 2);
            lemma_first_match_char(t, ba, 2);
            lemma_subst_two_commute(t.drop_first(), a, b);
        }
    }
}

/// Removing an entry whose name is an ignore token changes nothing that
/// the collector sees: its whole subtree was already pruned.
pub proof fn lemma_prune_collect(
    es: Seq<FsEntry>,
    i: int,
    filter: Option<Seq<Seq<u8>>>,
    ignores: Seq<Seq<u8>>,
)
    requires
        0 <= i < es.len(),
        ignores.contains(entry_name(es[i])),
    ensures
        rec_entries(es, filter, ignores) == rec_entries(es.remove(i), filter, ignores),
{
    assert(rec_entry(es[i], filter, ignores) =~= Seq::<(
        Seq<u8>,
        Option<Seq<u8>>,
        Seq<u8>,
    )>::empty()) by {
        match es[i] {
            FsEntry::File(f) => {
                assert(!crate::text::included_file(f.name@, filter, ignores));
            },
            FsEntry::Dir(d) => {},
        }
    }
    assert(es =~= es.take(i) + seq![es[i]] + es.skip(i + 1));
    assert(es.remove(i) =~= es.take(i) + es.skip(i + 1));
    crate::walker::lemma_rec_entries_concat(es.take(i) + seq![es[i]], es.skip(i + 1), filter, ignores);
    crate::walker::lemma_rec_entries_concat(es.take(i), seq![es[i]], filter, ignores);
    crate::walker::lemma_rec_entries_one(es[i], filter, ignores);
    crate::walker::lemma_rec_entries_concat(es.take(i), es.skip(i + 1), filter, ignores);
    assert((es.take(i) + seq![es[i]]) + es.skip(i + 1) =~= es);
    assert(rec_entries(es, filter, ignores) =~= rec_entries(es.remove(i), filter, ignores));
}

proof fn lemma_has_visible_remove_ignored(es: Seq<FsEntry>, i: int, ignores: Seq<Seq<u8>>)
    requires
        0 <= i < es.len(),
        ignores.contains(entry_name(es[i])),
    ensures
        has_visible(es.remove(i), ignores) == has_visible(es, ignores),
{
    if has_visible(es.remove(i), ignores) {
        let k = choose|k: int|
            0 <= k < es.remove(i).len() && !ignores.contains(entry_name(es.remove(i)[k]));
        if k < i {
            assert(es.remove(i)[k] == es[k]);
        } else {
            assert(es.remove(i)[k] == es[k + 1]);
        }
    }
    if has_visible(es, ignores) {
        let k = choose|k: int| 0 <= k < es.len() && !ignores.contains(entry_name(es[k]));
        if k < i {
            assert(es.remove(i)[k] == es[k]);
        } else {
            assert(k > i);
            assert(es.remove(i)[k - 1] == es[k]);
        }
    }
}

/// Removing an entry whose name is an ignore token changes nothing that
/// the tree renderer draws: it was pruned, subtree and all, and the
/// connectors of its siblings did not count it.
pub proof fn lemma_prune_render(
    es: Seq<FsEntry>,
    i: int,
    filter: Option<Seq<Seq<u8>>>,
    ignores: Seq<Seq<u8>>,
    prefix: Seq<u8>,
)
    requires
        0 <= i < es.len(),
        ignores.contains(entry_name(es[i])),
    ensures
        render_entries(es, filter, ignores, prefix) == render_entries(
            es.remove(i),
            filter,
            ignores,
            prefix,
        ),
    decreases es.len(),
{
    if i == 0 {
        assert(es.remove(0) =~= es.drop_first());
    } else {
        assert(es.remove(i)[0] == es[0]);
        assert(es.remove(i).drop_first() =~= es.drop_first().remove(i - 1));
        assert(es.drop_first()[i - 1] == es[i]);
        lemma_prune_render(es.drop_first(), i - 1, filter, ignores, prefix);
        if !ignores.contains(entry_name(es[0])) {
            lemma_has_visible_remove_ignored(es.drop_first(), i - 1, ignores);
            assert(render_entries(es, filter, ignores, prefix) =~= render_entries(
                es.remove(i),
                filter,
                ignores,
                prefix,
            ));
        }
    }
}

/// When every collected record carries content, the document's total is
/// the full record count and nothing is skipped.
pub proof fn lemma_all_readable(rs: Seq<(Seq<u8>, Option<Seq<u8>>, Seq<u8>)>)
    requires
        forall|k: int| 0 <= k < rs.len() ==> rs[k].1 is Some,
    ensures
        crate::aggregate::ok_count(rs) == rs.len(),
        crate::aggregate::skipped_paths(rs) == Seq::<Seq<u8>>::empty(),
    decreases rs.len(),
{
    if rs.len() > 0 {
        assert forall|k: int| 0 <= k < rs.drop_first().len() implies rs.drop_first()[k].1
            is Some by {
            assert(rs.drop_first()[k] == rs[k + 1]);
        }
        lemma_all_readable(rs.drop_first());
        assert(crate::aggregate::skipped_paths(rs) =~= Seq::<Seq<u8>>::empty());
    }
}


/// The shape a collected path has relative to the entry it came from:
/// a file's own name, or a directory's name followed by a separator.
pub open spec fn path_of_entry(p: Seq<u8>, e: FsEntry) -> bool {
    if e is File {
        p == entry_name(e)
    } else {
        p.len() > entry_name(e).len() && p.take(entry_name(e).len() as int) == entry_name(e)
            && p[entry_name(e).len() as int] == 47
    }
}

proof fn lemma_entry_path_shape(e: FsEntry, filter: Option<Seq<Seq<u8>>>, ignores: Seq<Seq<u8>>)
    ensures
        forall|k: int|
            0 <= k < rec_entry(e, filter, ignores).len() ==> path_of_entry(
                #[trigger] rec_entry(e, filter, ignores)[k].0,
                e,
            ),
{
    match e {
        FsEntry::File(f) => {},
        FsEntry::Dir(d) => {
            let sub = rec_entries(d.entries@, filter, ignores);
            assert forall|k: int| 0 <= k < rec_entry(e, filter, ignores).len() implies path_of_entry(
                #[trigger] rec_entry(e, filter, ignores)[k].0,
                e,
            ) by {
                let p = rec_entry(e, filter, ignores)[k].0;
                assert(p == d.name@ + seq![47u8] + sub[k].0);
                assert(p.take(d.name@.len() as int) =~= d.name@);
                assert(p[d.name@.len() as int] == 47);
            }
        },
    }
}

/// Two paths shaped by entries with distinct separator-free names differ.
proof fn lemma_shapes_distinct(p1: Seq<u8>, p2: Seq<u8>, e1: FsEntry, e2: FsEntry)
    requires
        path_of_entry(p1, e1),
        path_of_entry(p2, e2),
        valid_name(entry_name(e1)),
        valid_name(entry_name(e2)),
        entry_name(e1) != entry_name(e2),
    ensures
        p1 != p2,
{
    let n1 = entry_name(e1);
    let n2 = entry_name(e2);
    if p1 == p2 {
        if e1 is File && e2 is File {
            assert(n1 == n2);
        } else if e1 is File {
            assert(p1 == n1);
            assert(p2.take(n2.len() as int) == n2);
            assert(p2[n2.len() as int] == 47);
            assert(n1[n2.len() as int] == 47);
        } else if e2 is File {
            assert(p2 == n2);
            assert(p1.take(n1.len() as int) == n1);
            assert(p1[n1.len() as int] == 47);
            assert(n2[n1.len() as int] == 47);
        } else {
            if n1.len() == n2.len() {
                assert forall|k: int| 0 <= k < n1.len() implies n1[k] == n2[k] by {
                    assert(p1.take(n1.len() as int)[k] == p1[k]);
                    assert(p2.take(n2.len() as int)[k] == p2[k]);
                }
                assert(n1 =~= n2);
            } else if n1.len() < n2.len() {
                assert(p1[n1.len() as int] == 47);
                assert(p2.take(n2.len() as int)[n1.len() as int] == p2[n1.len() as int]);
                assert(n2[n1.len() as int] == 47);
            } else {
                assert(p2[n2.len() as int] == 47);
                assert(p1.take(n1.len() as int)[n2.len() as int] == p1[n2.len() as int]);
                assert(n1[n2.len() as int] == 47);
            }
        }
    }
}

/// Pairwise distinct paths.
pub open spec fn distinct_paths(rs: Seq<(Seq<u8>, Option<Seq<u8>>, Seq<u8>)>) -> bool {
    forall|i: int, j: int| 0 <= i < j < rs.len() ==> rs[i].0 != rs[j].0
}

proof fn lemma_entry_paths_distinct(e: FsEntry, filter: Option<Seq<Seq<u8>>>, ignores: Seq<Seq<u8>>)
    requires
        wf_entry(e),
    ensures
        distinct_paths(rec_entry(e, filter, ignores)),
    decreases e,
{
    match e {
        FsEntry::File(f) => {},
        FsEntry::Dir(d) => {
            if !ignores.contains(d.name@) {
                lemma_entries_paths_distinct(d.entries@, filter, ignores);
                let sub = rec_entries(d.entries@, filter, ignores);
                let rec = rec_entry(e, filter, ignores);
                assert forall|i: int, j: int| 0 <= i < j < rec.len() implies rec[i].0
                    != rec[j].0 by {
                    assert(rec[i].0 == d.name@ + seq![47u8] + sub[i].0);
                    assert(rec[j].0 == d.name@ + seq![47u8] + sub[j].0);
                    if rec[i].0 == rec[j].0 {
                        assert forall|k: int| 0 <= k < sub[i].0.len() implies sub[i].0[k]
                            == sub[j].0[k] by {
                            assert(rec[i].0[d.name@.len() + 1 + k] == sub[i].0[k]);
                            assert(rec[j].0[d.name@.len() + 1 + k] == sub[j].0[k]);
                        }
                        assert(sub[i].0 =~= sub[j].0);
                    }
                }
            }
        },
    }
}

proof fn lemma_entries_paths_distinct(
    es: Seq<FsEntry>,
    filter: Option<Seq<Seq<u8>>>,
    ignores: Seq<Seq<u8>>,
)
    requires
        wf_entries(es),
    ensures
        distinct_paths(rec_entries(es, filter, ignores)),
        forall|k: int|
            0 <= k < rec_entries(es, filter, ignores).len() ==> exists|idx: int|
                0 <= idx < es.len() && path_of_entry(
                    #[trigger] rec_entries(es, filter, ignores)[k].0,
                    es[idx],
                ),
    decreases es,
{
    if es.len() > 0 {
        let head = rec_entry(es[0], filter, ignores);
        let tail = rec_entries(es.drop_first(), filter, ignores);
        let raw = rec_entries(es, filter, ignores);
        assert(raw == head + tail);
        assert(wf_entry(es[0]));
        assert forall|i: int| 0 <= i < es.drop_first().len() implies wf_entry(
            #[trigger] es.drop_first()[i],
        ) && valid_name(entry_name(es.drop_first()[i])) by {
            assert(es.drop_first()[i] == es[i + 1]);
        }
        assert forall|i: int, j: int| 0 <= i < j < es.drop_first().len() implies entry_lt(
            es.drop_first()[i],
            es.drop_first()[j],
        ) && entry_name(es.drop_first()[i]) != entry_name(es.drop_first()[j]) by {
            assert(es.drop_first()[i] == es[i + 1]);
            assert(es.drop_first()[j] == es[j + 1]);
        }
        lemma_entry_paths_distinct(es[0], filter, ignores);
        lemma_entry_path_shape(es[0], filter, ignores);
        lemma_entries_paths_distinct(es.drop_first(), filter, ignores);
        assert forall|i: int, j: int| 0 <= i < j < raw.len() implies raw[i].0 != raw[j].0 by {
            if j < head.len() {
                assert(raw[i] == head[i] && raw[j] == head[j]);
            } else if i >= head.len() {
                assert(raw[i] == tail[i - head.len()] && raw[j] == tail[j - head.len()]);
            } else {
                assert(raw[i] == head[i] && raw[j] == tail[j - head.len()]);
                assert(path_of_entry(raw[i].0, es[0]));
                let idx = choose|idx: int|
                    0 <= idx < es.drop_first().len() && path_of_entry(
                        tail[j - head.len()].0,
                        es.drop_first()[idx],
                    );
                assert(es.drop_first()[idx] == es[idx + 1]);
                assert(entry_name(es[0]) != entry_name(es[idx + 1]));
                assert(valid_name(entry_name(es[0])));
                assert(valid_name(entry_name(es[idx + 1])));
                lemma_shapes_distinct(raw[i].0, raw[j].0, es[0], es[idx + 1]);
            }
        }
        assert forall|k: int| 0 <= k < raw.len() implies exists|idx: int|
            0 <= idx < es.len() && path_of_entry(#[trigger] raw[k].0, es[idx]) by {
            if k < head.len() {
                assert(raw[k] == head[k]);
                assert(path_of_entry(raw[k].0, es[0]));
            } else {
                assert(raw[k] == tail[k - head.len()]);
                let idx = choose|idx: int|
                    0 <= idx < es.drop_first().len() && path_of_entry(
                        tail[k - head.len()].0,
                        es.drop_first()[idx],
                    );
                assert(es.drop_first()[idx] == es[idx + 1]);
                assert(path_of_entry(raw[k].0, es[idx + 1]));
            }
        }
    }
}

/// The collected file list of a well-formed snapshot is strictly
/// ascending by path, and holds a record exactly when the traversal
/// rules produce it: an included file, not under any pruned directory.
pub proof fn lemma_collect_strictly_sorted(
    es: Seq<FsEntry>,
    filter: Option<Seq<Seq<u8>>>,
    ignores: Seq<Seq<u8>>,
)
    requires
        wf_entries(es),
    ensures
        ({
            let sorted = sort_recs(rec_entries(es, filter, ignores));
            &&& forall|i: int, j: int|
                0 <= i < j < sorted.len() ==> lex_lt(sorted[i].0, sorted[j].0)
            &&& forall|r: (Seq<u8>, Option<Seq<u8>>, Seq<u8>)|
                sorted.contains(r) <==> rec_entries(es, filter, ignores).contains(r)
        }),
{
    broadcast use vstd::seq_lib::group_to_multiset_ensures;
    broadcast use vstd::multiset::group_multiset_axioms;

    let raw = rec_entries(es, filter, ignores);
    let sorted = sort_recs(raw);
    lemma_sort_recs_props(raw);
    lemma_entries_paths_distinct(es, filter, ignores);
    assert forall|r: (Seq<u8>, Option<Seq<u8>>, Seq<u8>)| sorted.contains(r) <==> raw.contains(
        r,
    ) by {
        assert(sorted.contains(r) <==> sorted.to_multiset().count(r) > 0);
        assert(raw.contains(r) <==> raw.to_multiset().count(r) > 0);
    }
    assert(raw.no_duplicates()) by {
        assert forall|i: int, j: int|
            0 <= i < raw.len() && 0 <= j < raw.len() && i != j implies raw[i] != raw[j] by {
            if i < j {
                assert(raw[i].0 != raw[j].0);
            } else {
                assert(raw[j].0 != raw[i].0);
            }
        }
    }
    raw.lemma_multiset_has_no_duplicates();
    sorted.lemma_multiset_has_no_duplicates_conv();
    assert forall|i: int, j: int| 0 <= i < j < sorted.len() implies lex_lt(
        sorted[i].0,
        sorted[j].0,
    ) by {
        assert(lex_le(sorted[i].0, sorted[j].0));
        if sorted[i].0 == sorted[j].0 {
            assert(sorted[i] != sorted[j]);
            assert(sorted.contains(sorted[i]));
            assert(sorted.contains(sorted[j]));
            assert(raw.contains(sorted[i]));
            assert(raw.contains(sorted[j]));
            let i1 = choose|i1: int| 0 <= i1 < raw.len() && raw[i1] == sorted[i];
            let j1 = choose|j1: int| 0 <= j1 < raw.len() && raw[j1] == sorted[j];
            if i1 < j1 {
                assert(raw[i1].0 != raw[j1].0);
            } else {
                assert(raw[j1].0 != raw[i1].0);
            }
        }
    }
}

/// Whether every file in the snapshot carries readable content.
pub open spec fn entry_all_readable(e: FsEntry) -> bool
    decreases e,
{
    match e {
        FsEntry::File(f) => f.content is Some,
        FsEntry::Dir(d) => entries_all_readable(d.entries@),
    }
}

/// Whether every file at or below this entry list is readable.
pub open spec fn entries_all_readable(es: Seq<FsEntry>) -> bool
    decreases es,
{
    forall|i: int| 0 <= i < es.len() ==> entry_all_readable(#[trigger] es[i])
}

proof fn lemma_entry_readable(e: FsEntry, filter: Option<Seq<Seq<u8>>>, ignores: Seq<Seq<u8>>)
    requires
        entry_all_readable(e),
    ensures
        forall|k: int|
            0 <= k < rec_entry(e, filter, ignores).len() ==> (#[trigger] rec_entry(
                e,
                filter,
                ignores,
            )[k]).1 is Some,
    decreases e,
{
    match e {
        FsEntry::File(f) => {},
        FsEntry::Dir(d) => {
            if !ignores.contains(d.name@) {
                lemma_entries_readable(d.entries@, filter, ignores);
            }
        },
    }
}

proof fn lemma_entries_readable(
    es: Seq<FsEntry>,
    filter: Option<Seq<Seq<u8>>>,
    ignores: Seq<Seq<u8>>,
)
    requires
        entries_all_readable(es),
    ensures
        forall|k: int|
            0 <= k < rec_entries(es, filter, ignores).len() ==> (#[trigger] rec_entries(
                es,
                filter,
                ignores,
            )[k]).1 is Some,
    decreases es,
{
    if es.len() > 0 {
        lemma_entry_readable(es[0], filter, ignores);
        assert forall|i: int| 0 <= i < es.drop_first().len() implies entry_all_readable(
            #[trigger] es.drop_first()[i],
        ) by {
            assert(es.drop_first()[i] == es[i + 1]);
        }
        lemma_entries_readable(es.drop_first(), filter, ignores);
        let head = rec_entry(es[0], filter, ignores);
        let tail = rec_entries(es.drop_first(), filter, ignores);
        assert forall|k: int| 0 <= k < rec_entries(es, filter, ignores).len() implies (
        #[trigger] rec_entries(es, filter, ignores)[k]).1 is Some by {
            if k < head.len() {
                assert(rec_entries(es, filter, ignores)[k] == head[k]);
            } else {
                assert(rec_entries(es, filter, ignores)[k] == tail[k - head.len()]);
            }
        }
    }
}

/// When every file of the snapshot is readable, the document reports all
/// the collected files and skips none: the total equals the number of
/// included files.
pub proof fn lemma_all_readable_total(
    es: Seq<FsEntry>,
    filter: Option<Seq<Seq<u8>>>,
    ignores: Seq<Seq<u8>>,
)
    requires
        entries_all_readable(es),
    ensures
        ({
            let sorted = sort_recs(rec_entries(es, filter, ignores));
            &&& crate::aggregate::ok_count(sorted) == rec_entries(es, filter, ignores).len()
            &&& crate::aggregate::skipped_paths(sorted) == Seq::<Seq<u8>>::empty()
        }),
{
    broadcast use vstd::seq_lib::group_to_multiset_ensures;
    broadcast use vstd::multiset::group_multiset_axioms;

    let raw = rec_entries(es, filter, ignores);
    let sorted = sort_recs(raw);
    lemma_sort_recs_props(raw);
    lemma_entries_readable(es, filter, ignores);
    assert forall|k: int| 0 <= k < sorted.len() implies sorted[k].1 is Some by {
        assert(sorted.contains(sorted[k]));
        assert(sorted.to_multiset().count(sorted[k]) > 0);
        assert(raw.to_multiset().count(sorted[k]) > 0);
        assert(raw.contains(sorted[k]));
        let m = choose|m: int| 0 <= m < raw.len() && raw[m] == sorted[k];
    }
    lemma_all_readable(sorted);
}


} // verus!
