//! The template engine: a template is text with `{NAME}` placeholder
//! tokens; rendering substitutes named values for their tokens in one
//! left-to-right pass, so a substituted value is never itself re-expanded
//! and unrecognized placeholders stay as literal text.
use vstd::prelude::*;

use crate::text::push_bytes;
use vstd::string::StrSliceExecFns;
use vstd::string::StringSliceAdditionalSpecFns;

verus! {

/// One placeholder binding: `{name}` in a template is replaced by `value`.
pub struct TemplateField {
    pub name: Vec<u8>,
    pub value: Vec<u8>,
}

/// A template held as UTF-8 bytes.
pub struct CombinerTemplate {
    pub template: Vec<u8>,
}

/// The placeholder token for a field name: `{` + name + `}`.
pub open spec fn token(name: Seq<u8>) -> Seq<u8> {
    seq![123u8] + name + seq![125u8]
}

/// Whether `p` is a prefix of `t`.
pub open spec fn is_prefix(p: Seq<u8>, t: Seq<u8>) -> bool {
    p.len() <= t.len() && t.take(p.len() as int) == p
}

/// The mathematical view of a field list: (name, value) pairs.
pub open spec fn fields_view(fs: Seq<TemplateField>) -> Seq<(Seq<u8>, Seq<u8>)> {
    fs.map_values(|f: TemplateField| (f.name@, f.value@))
}

/// Index of the first field whose token is a prefix of `t`, or
/// `fields.len()` when none is.
pub open spec fn first_match(t: Seq<u8>, fields: Seq<(Seq<u8>, Seq<u8>)>) -> int
    decreases fields.len(),
{
    if fields.len() == 0 {
        0
    } else if is_prefix(token(fields[0].0), t) {
        0
    } else {
        1 + first_match(t, fields.drop_first())
    }
}

pub proof fn lemma_first_match_bounds(t: Seq<u8>, fields: Seq<(Seq<u8>, Seq<u8>)>)
    ensures
        0 <= first_match(t, fields) <= fields.len(),
        first_match(t, fields) < fields.len() ==> is_prefix(
            token(fields[first_match(t, fields)].0),
            t,
        ),
        forall|k: int| 0 <= k < first_match(t, fields) ==> !is_prefix(token(fields[k].0), t),
    decreases fields.len(),
{
    if fields.len() != 0 && !is_prefix(token(fields[0].0), t) {
        lemma_first_match_bounds(t, fields.drop_first());
        assert forall|k: int| 0 <= k < first_match(t, fields) implies !is_prefix(
            token(fields[k].0),
            t,
        ) by {
            if k > 0 {
                assert(fields.drop_first()[k - 1] == fields[k]);
            }
        }
    }
}

pub proof fn lemma_first_match_char(t: Seq<u8>, fields: Seq<(Seq<u8>, Seq<u8>)>, j: int)
    requires
        0 <= j <= fields.len(),
        forall|k: int| 0 <= k < j ==> !is_prefix(token(fields[k].0), t),
        j == fields.len() || is_prefix(token(fields[j].0), t),
    ensures
        first_match(t, fields) == j,
    decreases fields.len(),
{
    if fields.len() != 0 && !is_prefix(token(fields[0].0), t) {
        assert forall|k: int| 0 <= k < j - 1 implies !is_prefix(
            token(fields.drop_first()[k].0),
            t,
        ) by {
            assert(fields.drop_first()[k] == fields[k + 1]);
        }
        if j < fields.len() {
            assert(fields.drop_first()[j - 1] == fields[j]);
        }
        lemma_first_match_char(t, fields.drop_first(), j - 1);
    }
}

/// Single-pass simultaneous substitution: scanning `t` left to right, at
/// each position the first field whose token starts there has its value
/// emitted and the token skipped; other bytes are copied. Substituted
/// values are never rescanned.
pub open spec fn subst(t: Seq<u8>, fields: Seq<(Seq<u8>, Seq<u8>)>) -> Seq<u8>
    decreases t.len(),
    via subst_dec
{
    if t.len() == 0 {
        Seq::empty()
    } else {
        let j = first_match(t, fields);
        if j < fields.len() {
            fields[j].1 + subst(t.skip(token(fields[j].0).len() as int), fields)
        } else {
            seq![t[0]] + subst(t.drop_first(), fields)
        }
    }
}

#[via_fn]
proof fn subst_dec(t: Seq<u8>, fields: Seq<(Seq<u8>, Seq<u8>)>) {
    lemma_first_match_bounds(t, fields);
}

/// Build the token bytes for a field name.
fn make_token(name: &Vec<u8>) -> (r: Vec<u8>)
    ensures
        r@ == token(name@),
{
    let mut r: Vec<u8> = Vec::new();
    r.push(123);
    push_bytes(&mut r, name);
    r.push(125);
    proof {
        assert(r@ =~= token(name@));
    }
    r
}

/// Whether `p` starts at offset `pos` of `t`.
fn is_prefix_at(t: &Vec<u8>, p: &Vec<u8>, pos: usize) -> (r: bool)
    requires
        pos <= t.len(),
    ensures
        r == is_prefix(p@, t@.skip(pos as int)),
{
    if p.len() > t.len() - pos {
        return false;
    }
    let mut i: usize = 0;
    while i < p.len()
        invariant
            i <= p.len(),
            pos + p.len() <= t.len(),
            forall|k: int| 0 <= k < i ==> #[trigger] t@[pos + k] == p@[k],
        decreases p.len() - i,
    {
        if t[pos + i] != p[i] {
            proof {
                let rest = t@.skip(pos as int);
                if rest.take(p@.len() as int) == p@ {
                    assert(rest.take(p@.len() as int)[i as int] == rest[i as int]);
                    assert(rest[i as int] == t@[pos + i]);
                }
            }
            return false;
        }
        i = i + 1;
    }
    proof {
        let rest = t@.skip(pos as int);
        assert forall|k: int| 0 <= k < p@.len() implies rest.take(p@.len() as int)[k] == p@[k] by {
            assert(t@[pos + k] == p@[k]);
        }
        assert(rest.take(p@.len() as int) =~= p@);
    }
    true
}

impl CombinerTemplate {
    /// Hold the given text as this template's content.
    pub fn from_string(template_string: &str) -> (r: Self)
        ensures
            r.template@ == template_string.spec_bytes(),
    {
        CombinerTemplate { template: template_string.as_bytes_vec() }
    }

    /// Render the template: every occurrence of `{name}` for a field
    /// `(name, value)` is replaced by `value` in one left-to-right pass.
    pub fn generate_output_file_content(&self, template_fields: &Vec<TemplateField>) -> (r: Vec<
        u8,
    >)
        ensures
            r@ == subst(self.template@, fields_view(template_fields@)),
    {
        let ghost fv = fields_view(template_fields@);
        // precompute the token of each field
        let mut tokens: Vec<Vec<u8>> = Vec::new();
        let mut j: usize = 0;
        while j < template_fields.len()
            invariant
                j <= template_fields.len(),
                tokens.len() == j,
                fv == fields_view(template_fields@),
                fv.len() == template_fields@.len(),
                forall|k: int| 0 <= k < j ==> #[trigger] tokens@[k]@ == token(fv[k].0),
            decreases template_fields.len() - j,
        {
            let tok = make_token(&template_fields[j].name);
            tokens.push(tok);
            j = j + 1;
        }
        let t = &self.template;
        let mut out: Vec<u8> = Vec::new();
        let mut pos: usize = 0;
        proof {
            assert(t@.skip(0) =~= t@);
            assert(out@ + subst(t@, fv) =~= subst(t@, fv));
        }
        while pos < t.len()
            invariant
                pos <= t.len(),
                fv == fields_view(template_fields@),
                fv.len() == template_fields@.len(),
                tokens.len() == fv.len(),
                forall|k: int| 0 <= k < tokens.len() ==> #[trigger] tokens@[k]@ == token(fv[k].0),
                subst(t@, fv) =~= out@ + subst(t@.skip(pos as int), fv),
                t == &self.template,
            decreases t.len() - pos,
        {
            let ghost rest = t@.skip(pos as int);
            // find the first field whose token starts here
            let mut m: usize = 0;
            let mut found = false;
            while m < tokens.len() && !found
                invariant
                    m <= tokens.len(),
                    pos <= t.len(),
                    tokens.len() == fv.len(),
                    rest == t@.skip(pos as int),
                    forall|k: int|
                        0 <= k < tokens.len() ==> #[trigger] tokens@[k]@ == token(fv[k].0),
                    found ==> m < tokens.len() && is_prefix(token(fv[m as int].0), rest),
                    forall|k: int| 0 <= k < m ==> !is_prefix(token(#[trigger] fv[k].0), rest),
                decreases tokens.len() - m, (if found { 0int } else { 1int }),
            {
                if is_prefix_at(t, &tokens[m], pos) {
                    found = true;
                } else {
                    m = m + 1;
                }
            }
            proof {
                if found {
                    lemma_first_match_char(rest, fv, m as int);
                } else {
                    lemma_first_match_char(rest, fv, fv.len() as int);
                }
            }
            if found {
                let ghost before = out@;
                push_bytes(&mut out, &template_fields[m].value);
                proof {
                    assert(fv[m as int].1 == template_fields@[m as int].value@);
                    assert(out@ =~= before + fv[m as int].1);
                }
                let toklen = tokens[m].len();
                proof {
                    assert(tokens@[m as int]@.len() == token(fv[m as int].0).len());
                    assert(token(fv[m as int].0).len() <= rest.len());
                    assert(rest.skip(token(fv[m as int].0).len() as int) =~= t@.skip(
                        pos + toklen,
                    ));
                }
                pos = pos + toklen;
            } else {
                out.push(t[pos]);
                proof {
                    assert(rest[0] == t@[pos as int]);
                    assert(rest.drop_first() =~= t@.skip(pos + 1));
                }
                pos = pos + 1;
            }
        }
        proof {
            assert(t@.skip(t@.len() as int) =~= Seq::<u8>::empty());
            assert(out@ =~= subst(t@, fv));
        }
        out
    }
}

} // verus!
