//! The in-memory model of a directory tree. A run takes a snapshot of the
//! walked folder as an [`FsDir`]: names, nesting, and per-file payload
//! (content as read, or nothing when the file was unreadable, and the
//! formatted modification time). All the walking, filtering and rendering
//! rules are verified against this model.
use vstd::prelude::*;

use crate::text::bytes_eq;
use crate::text::lemma_lex_total;
use crate::text::lemma_lex_trans;
use crate::text::lex_less;
use crate::text::lex_lt;

verus! {

/// A file in the snapshot: its name, its content (`None` when the file
/// could not be read) and its formatted last-modified time.
pub struct FsFile {
    pub name: Vec<u8>,
    pub content: Option<Vec<u8>>,
    pub mtime: Vec<u8>,
}

/// A directory in the snapshot.
pub struct FsDir {
    pub name: Vec<u8>,
    pub entries: Vec<FsEntry>,
}

/// One directory entry.
pub enum FsEntry {
    File(FsFile),
    Dir(FsDir),
}

/// The name of an entry.
pub open spec fn entry_name(e: FsEntry) -> Seq<u8> {
    match e {
        FsEntry::File(f) => f.name@,
        FsEntry::Dir(d) => d.name@,
    }
}

/// Whether the entry is a directory.
pub open spec fn entry_is_dir(e: FsEntry) -> bool {
    e is Dir
}

/// A usable entry name: nonempty and free of path separators.
pub open spec fn valid_name(n: Seq<u8>) -> bool {
    n.len() > 0 && forall|i: int| 0 <= i < n.len() ==> n[i] != 47u8
}

/// Display order of two entries: directories come before files, and
/// within a kind names are compared lexicographically.
pub open spec fn entry_lt(a: FsEntry, b: FsEntry) -> bool {
    if entry_is_dir(a) != entry_is_dir(b) {
        entry_is_dir(a)
    } else {
        lex_lt(entry_name(a), entry_name(b))
    }
}

/// Well-formedness of one entry: its own name is usable and, for a
/// directory, its entries are well-formed in turn.
pub open spec fn wf_entry(e: FsEntry) -> bool
    decreases e,
{
    valid_name(entry_name(e)) && match e {
        FsEntry::File(_) => true,
        FsEntry::Dir(d) => wf_entries(d.entries@),
    }
}

/// Well-formedness of a directory's entry list: every entry well-formed,
/// entries in strict display order, and names pairwise distinct.
pub open spec fn wf_entries(es: Seq<FsEntry>) -> bool
    decreases es,
{
    &&& forall|i: int| 0 <= i < es.len() ==> wf_entry(#[trigger] es[i])
    &&& forall|i: int, j: int| 0 <= i < j < es.len() ==> entry_lt(es[i], es[j])
    &&& forall|i: int, j: int|
        0 <= i < j < es.len() ==> entry_name(es[i]) != entry_name(es[j])
}


/// The name of an entry, by reference.
pub fn entry_name_ref(e: &FsEntry) -> (r: &Vec<u8>)
    ensures
        r@ == entry_name(*e),
{
    match e {
        FsEntry::File(f) => &f.name,
        FsEntry::Dir(d) => &d.name,
    }
}

/// Executable display-order comparison of two entries.
fn entry_less(a: &FsEntry, b: &FsEntry) -> (r: bool)
    ensures
        r == entry_lt(*a, *b),
{
    let adir = matches!(a, FsEntry::Dir(_));
    let bdir = matches!(b, FsEntry::Dir(_));
    if adir != bdir {
        adir
    } else {
        lex_less(entry_name_ref(a), entry_name_ref(b))
    }
}

/// Entries with distinct names always compare one way or the other.
pub proof fn lemma_entry_lt_total(a: FsEntry, b: FsEntry)
    requires
        entry_name(a) != entry_name(b),
    ensures
        entry_lt(a, b) || entry_lt(b, a),
{
    if entry_is_dir(a) == entry_is_dir(b) {
        lemma_lex_total(entry_name(a), entry_name(b));
    }
}

/// The display order is transitive.
pub proof fn lemma_entry_lt_trans(a: FsEntry, b: FsEntry, c: FsEntry)
    requires
        entry_lt(a, b),
        entry_lt(b, c),
    ensures
        entry_lt(a, c),
{
    if entry_is_dir(a) == entry_is_dir(b) && entry_is_dir(b) == entry_is_dir(c) {
        lemma_lex_trans(entry_name(a), entry_name(b), entry_name(c));
    }
}

/// The display position a new entry belongs at: the first index whose
/// entry it precedes.
fn insert_pos(es: &Vec<FsEntry>, e: &FsEntry) -> (k: usize)
    ensures
        k <= es@.len(),
        forall|i: int| 0 <= i < k ==> !entry_lt(*e, #[trigger] es@[i]),
        k < es@.len() ==> entry_lt(*e, es@[k as int]),
{
    let mut k: usize = 0;
    while k < es.len()
        invariant
            k <= es.len(),
            forall|i: int| 0 <= i < k ==> !entry_lt(*e, #[trigger] es@[i]),
        decreases es.len() - k,
    {
        if entry_less(e, &es[k]) {
            return k;
        }
        k = k + 1;
    }
    k
}

impl FsDir {
    /// An empty directory of this name, trivially well-formed.
    pub fn new(name: Vec<u8>) -> (r: FsDir)
        ensures
            r.name@ == name@,
            r.entries@.len() == 0,
            wf_entries(r.entries@),
    {
        FsDir { name, entries: Vec::new() }
    }

    /// Whether this directory already holds an entry of the given name.
    pub fn contains_name(&self, name: &Vec<u8>) -> (r: bool)
        ensures
            r == exists|i: int|
                0 <= i < self.entries@.len() && entry_name(#[trigger] self.entries@[i]) == name@,
    {
        let mut i: usize = 0;
        while i < self.entries.len()
            invariant
                i <= self.entries.len(),
                forall|k: int|
                    0 <= k < i ==> entry_name(#[trigger] self.entries@[k]) != name@,
            decreases self.entries.len() - i,
        {
            let hit = bytes_eq(entry_name_ref(&self.entries[i]), name);
            if hit {
                return true;
            }
            i = i + 1;
        }
        false
    }

    /// Insert an entry at its display position: directories before files,
    /// alphabetical within each kind. Keeps the directory well-formed.
    pub fn add_entry(&mut self, e: FsEntry)
        requires
            wf_entries(old(self).entries@),
            wf_entry(e),
            forall|k: int|
                0 <= k < old(self).entries@.len() ==> entry_name(
                    #[trigger] old(self).entries@[k],
                ) != entry_name(e),
        ensures
            wf_entries(final(self).entries@),
            final(self).entries@.to_multiset() == old(self).entries@.to_multiset().insert(e),
            final(self).name@ == old(self).name@,
    {
        broadcast use vstd::seq_lib::group_to_multiset_ensures;
        broadcast use vstd::multiset::group_multiset_axioms;

        let ghost oldes = self.entries@;
        let k = insert_pos(&self.entries, &e);
        self.entries.insert(k, e);
        proof {
            let newes = self.entries@;
            assert(newes =~= oldes.take(k as int) + seq![e] + oldes.skip(k as int));
            assert forall|i: int| 0 <= i < newes.len() implies wf_entry(#[trigger] newes[i])
                && valid_name(entry_name(newes[i])) by {
                if i < k {
                    assert(newes[i] == oldes[i]);
                } else if i == k {
                    assert(newes[i] == e);
                } else {
                    assert(newes[i] == oldes[i - 1]);
                }
            }
            assert forall|i: int, j: int| 0 <= i < j < newes.len() implies entry_name(newes[i])
                != entry_name(newes[j]) by {
                if i < k && j < k {
                    assert(newes[i] == oldes[i] && newes[j] == oldes[j]);
                } else if i < k && j == k {
                    assert(newes[i] == oldes[i] && newes[j] == e);
                } else if i < k && j > k {
                    assert(newes[i] == oldes[i] && newes[j] == oldes[j - 1]);
                } else if i == k {
                    assert(newes[i] == e && newes[j] == oldes[j - 1]);
                } else {
                    assert(newes[i] == oldes[i - 1] && newes[j] == oldes[j - 1]);
                }
            }
            assert forall|i: int, j: int| 0 <= i < j < newes.len() implies entry_lt(
                newes[i],
                newes[j],
            ) by {
                if j < k {
                    assert(newes[i] == oldes[i] && newes[j] == oldes[j]);
                } else if i > k {
                    assert(newes[i] == oldes[i - 1] && newes[j] == oldes[j - 1]);
                } else if i < k && j == k {
                    assert(newes[i] == oldes[i] && newes[j] == e);
                    assert(!entry_lt(e, oldes[i]));
                    assert(entry_name(oldes[i]) != entry_name(e));
                    lemma_entry_lt_total(oldes[i], e);
                } else if i == k {
                    assert(newes[i] == e && newes[j] == oldes[j - 1]);
                    assert(entry_lt(e, oldes[k as int]));
                    if j - 1 > k {
                        assert(entry_lt(oldes[k as int], oldes[j - 1]));
                        lemma_entry_lt_trans(e, oldes[k as int], oldes[j - 1]);
                    }
                } else {
                    assert(i < k && j > k);
                    assert(newes[i] == oldes[i] && newes[j] == oldes[j - 1]);
                    assert(entry_lt(oldes[i], oldes[j - 1]));
                }
            }
            assert(newes.to_multiset() =~= oldes.to_multiset().insert(e)) by {
                vstd::seq_lib::lemma_multiset_commutative(oldes.take(k as int), seq![e]);
                vstd::seq_lib::lemma_multiset_commutative(
                    oldes.take(k as int) + seq![e],
                    oldes.skip(k as int),
                );
                vstd::seq_lib::lemma_multiset_commutative(
                    oldes.take(k as int),
                    oldes.skip(k as int),
                );
                assert(oldes.take(k as int) + oldes.skip(k as int) =~= oldes);
                assert(seq![e] =~= Seq::<FsEntry>::empty().push(e));
            }
        }
    }
}


} // verus!
