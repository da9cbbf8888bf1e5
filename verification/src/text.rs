//! Byte-level text utilities: lexicographic ordering, substring tests,
//! decimal rendering, line splitting, whitespace trimming and line numbering.
//!
//! The whole library works on UTF-8 text as byte sequences, so every
//! text rule is stated over `Seq<u8>`.
use vstd::prelude::*;

verus! {

/// Strict lexicographic (byte-wise) order on byte sequences.
pub open spec fn lex_lt(a: Seq<u8>, b: Seq<u8>) -> bool
    decreases a.len(),
{
    if b.len() == 0 {
        false
    } else if a.len() == 0 {
        true
    } else if a[0] < b[0] {
        true
    } else if a[0] > b[0] {
        false
    } else {
        lex_lt(a.drop_first(), b.drop_first())
    }
}

/// Non-strict companion of [`lex_lt`].
pub open spec fn lex_le(a: Seq<u8>, b: Seq<u8>) -> bool {
    lex_lt(a, b) || a == b
}

/// The order is total: two distinct sequences compare strictly one way.
pub proof fn lemma_lex_total(a: Seq<u8>, b: Seq<u8>)
    ensures
        lex_lt(a, b) || lex_lt(b, a) || a == b,
    decreases a.len(),
{
    if a.len() == 0 && b.len() == 0 {
        assert(a =~= b);
    } else if a.len() != 0 && b.len() != 0 && a[0] == b[0] {
        lemma_lex_total(a.drop_first(), b.drop_first());
        if a.drop_first() == b.drop_first() {
            assert(a.drop_first().len() == a.len() - 1);
            assert(b.drop_first().len() == b.len() - 1);
            assert(a.len() == b.len());
            assert forall|i: int| 0 <= i < a.len() implies a[i] == b[i] by {
                if i > 0 {
                    assert(a[i] == a.drop_first()[i - 1]);
                    assert(b[i] == b.drop_first()[i - 1]);
                }
            }
            assert(a =~= b);
        }
    }
}

/// The order is transitive.
pub proof fn lemma_lex_trans(a: Seq<u8>, b: Seq<u8>, c: Seq<u8>)
    requires
        lex_lt(a, b),
        lex_lt(b, c),
    ensures
        lex_lt(a, c),
    decreases a.len(),
{
    if a.len() != 0 && b.len() != 0 && c.len() != 0 && a[0] == b[0] && b[0] == c[0] {
        lemma_lex_trans(a.drop_first(), b.drop_first(), c.drop_first());
    }
}

/// The non-strict order is transitive.
pub proof fn lemma_lex_le_trans(a: Seq<u8>, b: Seq<u8>, c: Seq<u8>)
    requires
        lex_le(a, b),
        lex_le(b, c),
    ensures
        lex_le(a, c),
{
    if lex_lt(a, b) && lex_lt(b, c) {
        lemma_lex_trans(a, b, c);
    }
}

/// Executable strict lexicographic comparison.
pub fn lex_less(a: &Vec<u8>, b: &Vec<u8>) -> (r: bool)
    ensures
        r == lex_lt(a@, b@),
{
    let mut i: usize = 0;
    proof {
        assert(a@.skip(0) =~= a@);
        assert(b@.skip(0) =~= b@);
    }
    loop
        invariant
            i <= a.len(),
            i <= b.len(),
            a@.take(i as int) =~= b@.take(i as int),
            lex_lt(a@, b@) == lex_lt(a@.skip(i as int), b@.skip(i as int)),
        decreases a.len() - i,
    {
        if i == b.len() {
            return false;
        }
        if i == a.len() {
            return true;
        }
        let x = a[i];
        let y = b[i];
        if x < y {
            return true;
        }
        if x > y {
            return false;
        }
        proof {
            assert(a@.skip(i as int).drop_first() =~= a@.skip(i + 1));
            assert(b@.skip(i as int).drop_first() =~= b@.skip(i + 1));
            assert(a@.take(i + 1) =~= b@.take(i + 1));
        }
        i = i + 1;
    }
}

/// Executable byte-sequence equality.
pub fn bytes_eq(a: &Vec<u8>, b: &Vec<u8>) -> (r: bool)
    ensures
        r == (a@ == b@),
{
    if a.len() != b.len() {
        return false;
    }
    let mut i: usize = 0;
    while i < a.len()
        invariant
            i <= a.len(),
            a.len() == b.len(),
            a@.take(i as int) =~= b@.take(i as int),
        decreases a.len() - i,
    {
        if a[i] != b[i] {
            proof {
                assert(a@[i as int] != b@[i as int]);
            }
            return false;
        }
        proof {
            assert(a@.take(i + 1) =~= b@.take(i + 1));
        }
        i = i + 1;
    }
    proof {
        assert(a@.take(a@.len() as int) =~= a@);
        assert(b@.take(b@.len() as int) =~= b@);
        assert(a@ =~= b@);
    }
    true
}

/// Executable membership test over a list of byte strings.
pub fn list_contains(hay: &Vec<Vec<u8>>, needle: &Vec<u8>) -> (r: bool)
    ensures
        r == hay.deep_view().contains(needle@),
{
    let mut i: usize = 0;
    while i < hay.len()
        invariant
            i <= hay.len(),
            forall|k: int| 0 <= k < i ==> hay.deep_view()[k] != needle@,
        decreases hay.len() - i,
    {
        let hit = bytes_eq(&hay[i], needle);
        proof {
            assert(hay.deep_view()[i as int] =~= hay@[i as int]@);
        }
        if hit {
            return true;
        }
        i = i + 1;
    }
    proof {
        assert(forall|k: int| 0 <= k < hay.deep_view().len() ==> hay.deep_view()[k] != needle@);
    }
    false
}


/// Append every byte of `s` to `out`.
pub fn push_bytes(out: &mut Vec<u8>, s: &Vec<u8>)
    ensures
        final(out)@ == old(out)@ + s@,
{
    let mut i: usize = 0;
    while i < s.len()
        invariant
            i <= s.len(),
            out@ =~= old(out)@ + s@.take(i as int),
        decreases s.len() - i,
    {
        out.push(s[i]);
        proof {
            assert(out@ =~= old(out)@ + s@.take(i + 1));
        }
        i = i + 1;
    }
    proof {
        assert(s@.take(s@.len() as int) =~= s@);
    }
}

/// Decimal digits of `n`, most significant first.
pub open spec fn dec(n: nat) -> Seq<u8>
    decreases n,
{
    if n < 10 {
        seq![(48 + n) as u8]
    } else {
        dec(n / 10) + seq![(48 + n % 10) as u8]
    }
}

/// Render `n` in decimal.
pub fn u64_to_dec(n: u64) -> (r: Vec<u8>)
    ensures
        r@ == dec(n as nat),
    decreases n,
{
    if n < 10 {
        let mut v: Vec<u8> = Vec::new();
        v.push(48 + (n as u8));
        proof {
            assert(v@ =~= dec(n as nat));
        }
        v
    } else {
        let mut v = u64_to_dec(n / 10);
        v.push(48 + ((n % 10) as u8));
        proof {
            assert(v@ =~= dec(n as nat));
        }
        v
    }
}

/// Index of the first line feed in `s`, or `s.len()` if there is none.
pub open spec fn find_nl(s: Seq<u8>) -> int
    decreases s.len(),
{
    if s.len() == 0 {
        0
    } else if s[0] == 10 {
        0
    } else {
        1 + find_nl(s.drop_first())
    }
}

pub proof fn lemma_find_nl_char(s: Seq<u8>, i: int)
    requires
        0 <= i <= s.len(),
        forall|k: int| 0 <= k < i ==> s[k] != 10,
        i == s.len() || s[i] == 10,
    ensures
        find_nl(s) == i,
    decreases s.len(),
{
    if s.len() != 0 && s[0] != 10 {
        lemma_find_nl_char(s.drop_first(), i - 1);
    }
}

pub proof fn lemma_find_nl_bounds(s: Seq<u8>)
    ensures
        0 <= find_nl(s) <= s.len(),
        forall|k: int| 0 <= k < find_nl(s) ==> s[k] != 10,
        find_nl(s) < s.len() ==> s[find_nl(s)] == 10,
    decreases s.len(),
{
    if s.len() != 0 && s[0] != 10 {
        lemma_find_nl_bounds(s.drop_first());
        assert forall|k: int| 0 <= k < find_nl(s) implies s[k] != 10 by {
            if k > 0 {
                assert(s.drop_first()[k - 1] == s[k]);
            }
        }
    }
}

/// Drop one trailing carriage return, as `str::lines` does.
pub open spec fn strip_cr(s: Seq<u8>) -> Seq<u8> {
    if s.len() > 0 && s.last() == 13 {
        s.drop_last()
    } else {
        s
    }
}

/// The newline-delimited lines of `s`, following `str::lines`: the text is
/// split at each line feed, a trailing carriage return of each line is
/// dropped, and a final empty segment after a trailing line feed is not
/// counted as a line.
pub open spec fn split_lines(s: Seq<u8>) -> Seq<Seq<u8>>
    decreases s.len(),
    via split_lines_dec
{
    if s.len() == 0 {
        Seq::empty()
    } else {
        let i = find_nl(s);
        if i == s.len() {
            seq![strip_cr(s)]
        } else {
            seq![strip_cr(s.take(i))] + split_lines(s.skip(i + 1))
        }
    }
}

#[via_fn]
proof fn split_lines_dec(s: Seq<u8>) {
    lemma_find_nl_bounds(s);
}

/// Number of newline-delimited lines of `s`.
pub open spec fn line_count(s: Seq<u8>) -> nat {
    split_lines(s).len()
}

/// Split `s` into its lines.
pub fn lines_of(s: &Vec<u8>) -> (r: Vec<Vec<u8>>)
    ensures
        r.deep_view() == split_lines(s@),
{
    let mut out: Vec<Vec<u8>> = Vec::new();
    let mut pos: usize = 0;
    proof {
        assert(s@.skip(0) =~= s@);
        assert(out.deep_view() + split_lines(s@) =~= split_lines(s@));
    }
    while pos < s.len()
        invariant
            pos <= s.len(),
            split_lines(s@) =~= out.deep_view() + split_lines(s@.skip(pos as int)),
        decreases s.len() - pos,
    {
        // find the next line feed at or after pos
        let mut j: usize = pos;
        while j < s.len() && s[j] != 10
            invariant
                pos <= j <= s.len(),
                forall|k: int| pos <= k < j ==> s@[k] != 10,
            decreases s.len() - j,
        {
            j = j + 1;
        }
        proof {
            let rest = s@.skip(pos as int);
            assert(forall|k: int| 0 <= k < j - pos ==> rest[k] == s@[k + pos] && rest[k] != 10);
            lemma_find_nl_char(rest, j - pos);
        }
        // copy the segment, without a trailing carriage return
        let mut seg_end: usize = j;
        if j > pos && s[j - 1] == 13 {
            seg_end = j - 1;
        }
        let mut seg: Vec<u8> = Vec::new();
        let mut k: usize = pos;
        while k < seg_end
            invariant
                pos <= k <= seg_end <= s.len(),
                seg@ =~= s@.subrange(pos as int, k as int),
            decreases seg_end - k,
        {
            seg.push(s[k]);
            proof {
                assert(seg@ =~= s@.subrange(pos as int, k + 1));
            }
            k = k + 1;
        }
        proof {
            let rest = s@.skip(pos as int);
            let i = find_nl(rest);
            assert(i == j - pos);
            assert(rest.take(i) =~= s@.subrange(pos as int, j as int));
            if i == rest.len() {
                assert(j == s.len());
                assert(rest.take(i) =~= rest);
            }
            assert(seg@ =~= strip_cr(rest.take(i))) by {
                if j > pos && s@[j - 1] == 13 {
                    assert(rest.take(i).len() > 0);
                    assert(rest.take(i).last() == s@[j - 1]);
                    assert(rest.take(i).drop_last() =~= s@.subrange(pos as int, j - 1));
                } else {
                    if rest.take(i).len() > 0 && rest.take(i).last() == 13 {
                        assert(s@[j - 1] == 13);
                    }
                }
            }
        }
        let ghost old_out = out.deep_view();
        out.push(seg);
        proof {
            assert(out.deep_view() =~~= old_out + seq![seg@]);
            let rest = s@.skip(pos as int);
            let i = find_nl(rest);
            if i < rest.len() {
                assert(rest.skip(i + 1) =~= s@.skip(j + 1));
                assert(split_lines(rest) == seq![strip_cr(rest.take(i))] + split_lines(
                    s@.skip(j + 1),
                ));
                assert(split_lines(s@) =~= out.deep_view() + split_lines(s@.skip(j + 1)));
            } else {
                assert(split_lines(rest) == seq![strip_cr(rest)]);
                assert(s@.skip(s@.len() as int) =~= Seq::<u8>::empty());
                assert(split_lines(s@) =~= out.deep_view() + split_lines(
                    s@.skip(s@.len() as int),
                ));
            }
        }
        if j >= s.len() {
            pos = s.len();
        } else {
            pos = j + 1;
        }
    }
    proof {
        assert(s@.skip(s@.len() as int) =~= Seq::<u8>::empty());
        assert(out.deep_view() + Seq::<Seq<u8>>::empty() =~= out.deep_view());
    }
    out
}

/// True when `b` is an ASCII whitespace byte: space, tab, line feed,
/// vertical tab, form feed or carriage return.
pub open spec fn is_space(b: u8) -> bool {
    b == 32 || b == 9 || b == 10 || b == 11 || b == 12 || b == 13
}

/// Executable test for [`is_space`].
pub fn byte_is_space(b: u8) -> (r: bool)
    ensures
        r == is_space(b),
{
    b == 32 || b == 9 || b == 10 || b == 11 || b == 12 || b == 13
}

/// `s` without leading ASCII whitespace.
pub open spec fn trim_start(s: Seq<u8>) -> Seq<u8>
    decreases s.len(),
{
    if s.len() > 0 && is_space(s[0]) {
        trim_start(s.drop_first())
    } else {
        s
    }
}

/// `s` without trailing ASCII whitespace.
pub open spec fn trim_end(s: Seq<u8>) -> Seq<u8>
    decreases s.len(),
{
    if s.len() > 0 && is_space(s.last()) {
        trim_end(s.drop_last())
    } else {
        s
    }
}

/// `s` without leading or trailing ASCII whitespace.
pub open spec fn trim(s: Seq<u8>) -> Seq<u8> {
    trim_end(trim_start(s))
}

proof fn lemma_trim_start_skip(s: Seq<u8>, a: int)
    requires
        0 <= a <= s.len(),
        forall|k: int| 0 <= k < a ==> is_space(s[k]),
    ensures
        trim_start(s) == trim_start(s.skip(a)),
    decreases a,
{
    if a > 0 {
        assert(is_space(s[0]));
        assert(s.drop_first() =~= s.skip(1));
        lemma_trim_start_skip(s.skip(1), a - 1);
        assert(s.skip(1).skip(a - 1) =~= s.skip(a));
    } else {
        assert(s.skip(0) =~= s);
    }
}

proof fn lemma_trim_end_take(s: Seq<u8>, e: int)
    requires
        0 <= e <= s.len(),
        forall|k: int| e <= k < s.len() ==> is_space(s[k]),
    ensures
        trim_end(s) == trim_end(s.take(e)),
    decreases s.len(),
{
    if e < s.len() {
        assert(is_space(s.last()));
        assert(s.drop_last() =~= s.take(s.len() - 1));
        lemma_trim_end_take(s.take(s.len() - 1), e);
        assert(s.take(s.len() - 1).take(e) =~= s.take(e));
    } else {
        assert(s.take(e) =~= s);
    }
}

/// Remove leading and trailing ASCII whitespace.
pub fn trim_bytes(s: &Vec<u8>) -> (r: Vec<u8>)
    ensures
        r@ == trim(s@),
{
    let mut a: usize = 0;
    while a < s.len() && byte_is_space(s[a])
        invariant
            a <= s.len(),
            forall|k: int| 0 <= k < a ==> is_space(s@[k]),
        decreases s.len() - a,
    {
        a = a + 1;
    }
    proof {
        lemma_trim_start_skip(s@, a as int);
        if a < s.len() {
            assert(s@.skip(a as int)[0] == s@[a as int]);
        }
        assert(trim_start(s@) == s@.skip(a as int));
    }
    let mut e: usize = s.len();
    while e > a && byte_is_space(s[e - 1])
        invariant
            a <= e <= s.len(),
            forall|k: int| e <= k < s.len() ==> is_space(s@[k]),
        decreases e,
    {
        e = e - 1;
    }
    proof {
        let t = s@.skip(a as int);
        assert(forall|k: int| e - a <= k < t.len() ==> t[k] == s@[k + a] && is_space(t[k]));
        lemma_trim_end_take(t, e - a);
        if e > a {
            assert(t.take(e - a).last() == s@[e - 1]);
        }
        assert(trim_end(t.take(e - a)) == t.take(e - a));
    }
    let mut r: Vec<u8> = Vec::new();
    let mut k: usize = a;
    while k < e
        invariant
            a <= k <= e <= s.len(),
            r@ =~= s@.subrange(a as int, k as int),
        decreases e - k,
    {
        r.push(s[k]);
        proof {
            assert(r@ =~= s@.subrange(a as int, k + 1));
        }
        k = k + 1;
    }
    proof {
        assert(r@ =~= s@.skip(a as int).take(e - a));
    }
    r
}

/// `n` space bytes.
pub open spec fn spaces(n: nat) -> Seq<u8> {
    Seq::new(n, |i: int| 32u8)
}

/// The prefix put before line `k` when line numbering is on: the decimal
/// index left-justified in a six-column field, then a bar and a space.
pub open spec fn num_prefix(k: nat) -> Seq<u8> {
    let d = dec(k);
    (if d.len() < 6 {
        d + spaces((6 - d.len()) as nat)
    } else {
        d
    }) + seq![124u8, 32u8]
}

/// Lines `ls` joined with line feeds, line `i` prefixed with its 1-based
/// index `k + i` per [`num_prefix`].
pub open spec fn number_lines_from(ls: Seq<Seq<u8>>, k: nat) -> Seq<u8>
    decreases ls.len(),
{
    if ls.len() == 0 {
        Seq::empty()
    } else {
        num_prefix(k) + ls[0] + (if ls.len() > 1 {
            seq![10u8]
        } else {
            Seq::empty()
        }) + number_lines_from(ls.drop_first(), k + 1)
    }
}

/// The line-numbered form of `s`.
pub open spec fn numbered(s: Seq<u8>) -> Seq<u8> {
    number_lines_from(split_lines(s), 1)
}

/// A file's content block: raw or line-numbered, then trimmed.
pub open spec fn formatted_content(s: Seq<u8>, add_line_numbers: bool) -> Seq<u8> {
    if add_line_numbers {
        trim(numbered(s))
    } else {
        trim(s)
    }
}

/// Prefix each line of `s` with its 1-based number and join with line feeds.
pub fn number_content(s: &Vec<u8>) -> (r: Vec<u8>)
    ensures
        r@ == numbered(s@),
{
    let ls = lines_of(s);
    let ghost lsv = ls.deep_view();
    let mut out: Vec<u8> = Vec::new();
    let mut i: usize = 0;
    proof {
        assert(lsv.skip(0) =~= lsv);
        assert(out@ + number_lines_from(lsv, 1) =~= numbered(s@));
    }
    while i < ls.len()
        invariant
            i <= ls.len(),
            lsv == ls.deep_view(),
            ls.len() == lsv.len(),
            numbered(s@) =~= out@ + number_lines_from(lsv.skip(i as int), (i + 1) as nat),
        decreases ls.len() - i,
    {
        let ghost before = out@;
        let ghost rem = lsv.skip(i as int);
        let d = u64_to_dec((i as u64) + 1);
        let dlen = d.len();
        push_bytes(&mut out, &d);
        proof {
            assert(spaces(0) =~= Seq::<u8>::empty());
            assert(out@ =~= before + dec((i + 1) as nat) + spaces(0));
        }
        let mut p: usize = dlen;
        while p < 6
            invariant
                out@ =~= before + dec((i + 1) as nat) + spaces((p - dlen) as nat),
                dlen == dec((i + 1) as nat).len(),
                dlen <= p,
                p <= 6 || p == dlen,
            decreases 6 - p,
        {
            out.push(32);
            proof {
                assert(out@ =~= before + dec((i + 1) as nat) + spaces((p + 1 - dlen) as nat));
            }
            p = p + 1;
        }
        out.push(124);
        out.push(32);
        proof {
            let k = (i + 1) as nat;
            let dd = dec(k);
            if dd.len() < 6 {
                assert(out@ =~= before + (dd + spaces((6 - dd.len()) as nat)) + seq![124u8, 32u8]);
            } else {
                assert(spaces((p - dlen) as nat) =~= Seq::<u8>::empty());
                assert(out@ =~= before + dd + seq![124u8, 32u8]);
            }
            assert(out@ =~= before + num_prefix(k));
        }
        let line = &ls[i];
        proof {
            assert(line@ =~= lsv[i as int]);
            assert(rem[0] == lsv[i as int]);
        }
        push_bytes(&mut out, line);
        if i + 1 < ls.len() {
            out.push(10);
            proof {
                assert(rem.len() > 1);
                assert(out@ =~= before + num_prefix((i + 1) as nat) + rem[0] + seq![10u8]);
            }
        } else {
            proof {
                assert(rem.len() == 1);
                assert(out@ =~= before + num_prefix((i + 1) as nat) + rem[0]);
            }
        }
        proof {
            assert(rem.drop_first() =~= lsv.skip(i + 1));
        }
        i = i + 1;
    }
    proof {
        assert(lsv.skip(lsv.len() as int) =~= Seq::<Seq<u8>>::empty());
        assert(out@ =~= numbered(s@));
    }
    out
}

/// `ext` with one leading dot removed, so `"rs"` and `".rs"` select alike.
pub open spec fn strip_dot(ext: Seq<u8>) -> Seq<u8> {
    if ext.len() > 0 && ext[0] == 46 {
        ext.drop_first()
    } else {
        ext
    }
}

/// Whether a file name ends with the extension `ext`, compared after
/// stripping an optional leading dot from `ext`.
pub open spec fn ext_matches(name: Seq<u8>, ext: Seq<u8>) -> bool {
    let e = strip_dot(ext);
    e.len() <= name.len() && name.subrange(name.len() - e.len(), name.len() as int) == e
}

/// Whether a file name passes the optional extension filter: no filter
/// accepts every file, a filter accepts a file ending in one of its entries.
/// Whether some entry of `exts` matches the file name.
pub open spec fn some_ext_matches(name: Seq<u8>, exts: Seq<Seq<u8>>) -> bool {
    exists|i: int| 0 <= i < exts.len() && #[trigger] ext_matches(name, exts[i])
}

pub open spec fn passes_filter(name: Seq<u8>, filter: Option<Seq<Seq<u8>>>) -> bool {
    match filter {
        Option::None => true,
        Option::Some(exts) => some_ext_matches(name, exts),
    }
}

/// Whether a file of this name is included: not an ignore token, and
/// passing the extension filter.
pub open spec fn included_file(name: Seq<u8>, filter: Option<Seq<Seq<u8>>>, ignores: Seq<Seq<u8>>) -> bool {
    !ignores.contains(name) && passes_filter(name, filter)
}

/// Executable test for [`ext_matches`].
pub fn ext_match(name: &Vec<u8>, ext: &Vec<u8>) -> (r: bool)
    ensures
        r == ext_matches(name@, ext@),
{
    let start: usize = if ext.len() > 0 && ext[0] == 46 {
        1
    } else {
        0
    };
    proof {
        assert(strip_dot(ext@) =~= ext@.skip(start as int));
    }
    let elen = ext.len() - start;
    if elen > name.len() {
        return false;
    }
    let base = name.len() - elen;
    let mut i: usize = 0;
    while i < elen
        invariant
            i <= elen,
            start + elen == ext.len(),
            base + elen == name.len(),
            strip_dot(ext@) == ext@.skip(start as int),
            forall|k: int| 0 <= k < i ==> #[trigger] name@[base + k] == ext@[start + k],
        decreases elen - i,
    {
        if name[base + i] != ext[start + i] {
            proof {
                let e = strip_dot(ext@);
                assert(e == ext@.skip(start as int));
                assert(e[i as int] == ext@.skip(start as int)[i as int]);
                assert(ext@.skip(start as int)[i as int] == ext@[start + i]);
                if name@.subrange(base as int, name@.len() as int) == e {
                    assert(name@.subrange(base as int, name@.len() as int)[i as int] == name@[base
                        + i]);
                }
            }
            return false;
        }
        i = i + 1;
    }
    proof {
        let e = strip_dot(ext@);
        assert(e == ext@.skip(start as int));
        assert forall|k: int| 0 <= k < elen implies name@.subrange(
            base as int,
            name@.len() as int,
        )[k] == e[k] by {
            assert(name@[base + k] == ext@[start + k]);
            assert(e[k] == ext@.skip(start as int)[k]);
        }
        assert(name@.subrange(base as int, name@.len() as int) =~= e);
    }
    true
}

/// Executable test for [`passes_filter`].
pub fn passes_filter_exec(name: &Vec<u8>, filter: &Option<Vec<Vec<u8>>>) -> (r: bool)
    ensures
        r == passes_filter(name@, filter.deep_view()),
{
    match filter {
        Option::None => true,
        Option::Some(exts) => {
            let mut i: usize = 0;
            while i < exts.len()
                invariant
                    i <= exts.len(),
                    filter.deep_view() == Option::Some(exts.deep_view()),
                    forall|k: int| 0 <= k < i ==> !ext_matches(name@, exts.deep_view()[k]),
                decreases exts.len() - i,
            {
                let hit = ext_match(name, &exts[i]);
                proof {
                    assert(exts.deep_view()[i as int] =~= exts@[i as int]@);
                }
                if hit {
                    proof {
                        assert(exts.deep_view().len() == exts@.len());
                        assert(ext_matches(name@, exts.deep_view()[i as int]));
                        lemma_passes_filter_witness(name@, exts.deep_view(), i as int);
                        assert(passes_filter(name@, filter.deep_view()));
                    }
                    return true;
                }
                i = i + 1;
            }
            false
        },
    }
}

/// The bullet list of `paths`: one `- <path>` line per path, joined with
/// line feeds.
pub open spec fn bullet_list(paths: Seq<Seq<u8>>) -> Seq<u8>
    decreases paths.len(),
{
    if paths.len() == 0 {
        Seq::empty()
    } else {
        seq![45u8, 32u8] + paths[0] + (if paths.len() > 1 {
            seq![10u8]
        } else {
            Seq::empty()
        }) + bullet_list(paths.drop_first())
    }
}

/// Concatenation of all the byte strings in `parts`, in order.
pub open spec fn concat_all(parts: Seq<Seq<u8>>) -> Seq<u8>
    decreases parts.len(),
{
    if parts.len() == 0 {
        Seq::empty()
    } else {
        parts[0] + concat_all(parts.drop_first())
    }
}


/// A single matching extension makes the filter pass.
proof fn lemma_passes_filter_witness(name: Seq<u8>, dv: Seq<Seq<u8>>, i: int)
    requires
        0 <= i < dv.len(),
        ext_matches(name, dv[i]),
    ensures
        passes_filter(name, Option::Some(dv)),
{
    assert(some_ext_matches(name, dv));
}


/// The file name of a path: what follows the last separator.
pub open spec fn base_name(p: Seq<u8>) -> Seq<u8>
    decreases p.len(),
{
    if p.len() == 0 {
        p
    } else if p.last() == 47 {
        Seq::empty()
    } else {
        base_name(p.drop_last()).push(p.last())
    }
}

proof fn lemma_base_name_after(p: Seq<u8>, idx: int)
    requires
        0 <= idx < p.len(),
        p[idx] == 47,
        forall|k: int| idx < k < p.len() ==> p[k] != 47,
    ensures
        base_name(p) == p.skip(idx + 1),
    decreases p.len(),
{
    if idx == p.len() - 1 {
        assert(p.skip(idx + 1) =~= Seq::<u8>::empty());
    } else {
        assert(p.last() != 47);
        lemma_base_name_after(p.drop_last(), idx);
        assert(p.drop_last().skip(idx + 1) =~= p.skip(idx + 1).drop_last());
        assert(base_name(p) =~= p.skip(idx + 1));
    }
}

proof fn lemma_base_name_none(p: Seq<u8>)
    requires
        forall|k: int| 0 <= k < p.len() ==> p[k] != 47,
    ensures
        base_name(p) == p,
    decreases p.len(),
{
    if p.len() > 0 {
        lemma_base_name_none(p.drop_last());
        assert(base_name(p) =~= p);
    }
}

/// The file name of a path.
pub fn base_name_of(p: &Vec<u8>) -> (r: Vec<u8>)
    ensures
        r@ == base_name(p@),
{
    let mut start: usize = p.len();
    while start > 0 && p[start - 1] != 47
        invariant
            start <= p.len(),
            forall|k: int| start <= k < p.len() ==> p@[k] != 47,
        decreases start,
    {
        start = start - 1;
    }
    proof {
        if start == 0 {
            lemma_base_name_none(p@);
            assert(p@.skip(0) =~= p@);
        } else {
            lemma_base_name_after(p@, start - 1);
        }
    }
    let mut r: Vec<u8> = Vec::new();
    let mut k: usize = start;
    while k < p.len()
        invariant
            start <= k <= p.len(),
            r@ =~= p@.subrange(start as int, k as int),
        decreases p.len() - k,
    {
        r.push(p[k]);
        proof {
            assert(r@ =~= p@.subrange(start as int, k + 1));
        }
        k = k + 1;
    }
    proof {
        assert(r@ =~= p@.skip(start as int));
    }
    r
}

/// Produce a file's content block: line-numbered when asked, and trimmed.
pub fn format_content(c: &Vec<u8>, add_line_numbers: bool) -> (r: Vec<u8>)
    ensures
        r@ == formatted_content(c@, add_line_numbers),
{
    if add_line_numbers {
        let n = number_content(c);
        trim_bytes(&n)
    } else {
        trim_bytes(c)
    }
}


} // verus!
