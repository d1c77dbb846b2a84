//! The case-shape strategy: a compound token is expanded into every
//! recognized casing convention, each variant paired with the matching
//! casing of the replacement's inner variable, and substitution tries the
//! variants longest key first so that no shorter variant matches inside a
//! longer one.

use vstd::prelude::*;

verus! {

use vstd::string::StringExecFns;
use vstd::multiset::Multiset;
use crate::text::{
    occurs, replace_all_spec, last_segment_spec, trim_spec, str_to_chars, chars_to_string,
    occurs_exec, replace_all_vec, last_segment_vec, trim_range, extend_range, chars_eq,
};
use crate::jinja::{find_expr, expr_text, lemma_expr_end_bounds, find_expr_from};
use crate::exact::{normalize_seps, normalize_vec};
use crate::TemplateError;

/// The seven casing conventions a compound token expands into.
#[derive(Debug, Clone, Copy, PartialEq, Eq, Structural)]
pub enum CaseShape {
    Camel,
    Pascal,
    Kebab,
    Snake,
    Train,
    ScreamingSnake,
    Cobol,
}

impl CaseShape {
    /// A fixed numbering of the conventions, in the order the table is
    /// generated.
    pub open spec fn idx(self) -> int {
        match self {
            CaseShape::Camel => 0,
            CaseShape::Pascal => 1,
            CaseShape::Kebab => 2,
            CaseShape::Snake => 3,
            CaseShape::Train => 4,
            CaseShape::ScreamingSnake => 5,
            CaseShape::Cobol => 6,
        }
    }
}

/// The text the outside case converter returns for the convention numbered
/// `shape` applied to `s`.
pub uninterp spec fn cased(shape: int, s: Seq<char>) -> Seq<char>;

/// Relies on convert_case's `Casing::to_case` with the crate's default word
/// boundaries: the result is a function of the input text and the chosen
/// case alone.
#[verifier::external_body]
fn case_convert(s: &str, shape: CaseShape) -> (r: String)
    ensures
        r@ == cased(shape.idx(), s@),
{
    let case = match shape {
        CaseShape::Camel => convert_case::Case::Camel,
        CaseShape::Pascal => convert_case::Case::Pascal,
        CaseShape::Kebab => convert_case::Case::Kebab,
        CaseShape::Snake => convert_case::Case::Snake,
        CaseShape::Train => convert_case::Case::Train,
        CaseShape::ScreamingSnake => convert_case::Case::Constant,
        CaseShape::Cobol => convert_case::Case::Cobol,
    };
    convert_case::Casing::to_case(&s, case)
}

/// Whether a character counts as uppercase.
pub uninterp spec fn is_upper(c: char) -> bool;

/// Relies on `char::is_uppercase`: true exactly of characters with the
/// Uppercase property.
#[verifier::external_body]
fn char_is_upper(c: char) -> (r: bool)
    ensures
        r == is_upper(c),
{
    c.is_uppercase()
}

/// A compound word shows an internal boundary: a hyphen, an underscore, or
/// an uppercase letter past the first character.
pub open spec fn is_compound(w: Seq<char>) -> bool {
    (exists|i: int| 0 <= i < w.len() && (w[i] == '-' || w[i] == '_')) || (exists|i: int|
        1 <= i < w.len() && is_upper(w[i]))
}

/// The word validation inspects: the trimmed inner text when the word
/// carries placeholder syntax, the word itself otherwise.
pub open spec fn clean_word(w: Seq<char>) -> Seq<char> {
    match find_expr(w, 0) {
        Some(ie) => trim_spec(w.subrange(ie.0 + 2, ie.1)),
        None => w,
    }
}

fn clean_vec(w: &Vec<char>) -> (r: Vec<char>)
    ensures
        r@ == clean_word(w@),
{
    match find_expr_from(w, 0) {
        Some((i, e)) => {
            proof {
                crate::jinja::lemma_find_expr_props(w@, 0);
                lemma_expr_end_bounds(w@, i as int);
            }
            trim_range(w, i + 2, e)
        },
        None => {
            let mut r: Vec<char> = Vec::new();
            extend_range(&mut r, w, 0, w.len());
            proof {
                assert(r@ =~= w@);
            }
            r
        },
    }
}

fn compound_exec(w: &Vec<char>) -> (b: bool)
    ensures
        b == is_compound(w@),
{
    let mut i: usize = 0;
    while i < w.len()
        invariant
            i <= w@.len(),
            forall|j: int| 0 <= j < i ==> w@[j] != '-' && w@[j] != '_',
            forall|j: int| 1 <= j < i ==> !is_upper(w@[j]),
        decreases w@.len() - i,
    {
        if w[i] == '-' || w[i] == '_' {
            return true;
        }
        if i >= 1 && char_is_upper(w[i]) {
            return true;
        }
        i += 1;
    }
    false
}

/// The message a failed validation carries: it names the offending field
/// and the word that is not compound.
pub open spec fn not_compound_message(field: Seq<char>, word: Seq<char>) -> Seq<char> {
    "the "@ + field + " '"@ + word + "' is not a compound word"@
}

fn build_not_compound_message(field: &str, word: &str) -> (r: String)
    ensures
        r@ == not_compound_message(field@, word@),
{
    let mut m = String::new();
    m.append("the ");
    m.append(field);
    m.append(" '");
    m.append(word);
    m.append("' is not a compound word");
    m
}

/// One entry of the generated table, as the callers see it.
#[derive(Debug, Clone)]
pub struct CaseShapeMapping {
    pub original: String,
    pub replacement: String,
}

impl View for CaseShapeMapping {
    type V = (Seq<char>, Seq<char>);

    open spec fn view(&self) -> (Seq<char>, Seq<char>) {
        (self.original@, self.replacement@)
    }
}

/// The views of a table of entries held as character vectors.
pub open spec fn entry_views(m: Seq<(Vec<char>, Vec<char>)>) -> Seq<(Seq<char>, Seq<char>)> {
    Seq::new(m.len(), |i: int| (m[i].0@, m[i].1@))
}

/// The replacement text for the convention numbered `shape`: when the
/// replacement carries placeholder syntax its inner variable is converted
/// and re-wrapped, otherwise the whole replacement is converted.
pub open spec fn replacement_variant(rep: Seq<char>, shape: int) -> Seq<char> {
    match find_expr(rep, 0) {
        Some(ie) => expr_text(cased(shape, trim_spec(rep.subrange(ie.0 + 2, ie.1)))),
        None => cased(shape, rep),
    }
}

/// `m` with the value at key `k` replaced, or the pair appended when the
/// key is new.
pub open spec fn upsert(
    m: Seq<(Seq<char>, Seq<char>)>,
    k: Seq<char>,
    v: Seq<char>,
) -> Seq<(Seq<char>, Seq<char>)>
    decreases m.len(),
{
    if m.len() == 0 {
        seq![(k, v)]
    } else if m[0].0 == k {
        seq![(k, v)] + m.skip(1)
    } else {
        seq![m[0]] + upsert(m.skip(1), k, v)
    }
}

/// The table after inserting the conventions numbered below `n`, in order.
pub open spec fn pairs_upto(tok: Seq<char>, rep: Seq<char>, n: int) -> Seq<
    (Seq<char>, Seq<char>),
>
    decreases n,
{
    if n <= 0 {
        Seq::empty()
    } else {
        upsert(pairs_upto(tok, rep, n - 1), cased(n - 1, tok), replacement_variant(rep, n - 1))
    }
}

/// Every pair of the table: the seven conventions, then the literal pair,
/// a later insertion overriding an earlier one with the same key.
pub open spec fn mapping_pairs(tok: Seq<char>, rep: Seq<char>) -> Seq<(Seq<char>, Seq<char>)> {
    upsert(pairs_upto(tok, rep, 7), tok, rep)
}

/// Insertion into a list ordered by descending key length, placed after
/// every key at least as long.
pub open spec fn insert_by_len(
    m: Seq<(Seq<char>, Seq<char>)>,
    p: (Seq<char>, Seq<char>),
) -> Seq<(Seq<char>, Seq<char>)>
    decreases m.len(),
{
    if m.len() == 0 {
        seq![p]
    } else if p.0.len() > m[0].0.len() {
        seq![p] + m
    } else {
        seq![m[0]] + insert_by_len(m.skip(1), p)
    }
}

/// Stable sort by descending key length.
pub open spec fn sort_by_len(m: Seq<(Seq<char>, Seq<char>)>) -> Seq<(Seq<char>, Seq<char>)>
    decreases m.len(),
{
    if m.len() == 0 {
        m
    } else {
        insert_by_len(sort_by_len(m.drop_last()), m.last())
    }
}

fn clone_chars(v: &Vec<char>) -> (r: Vec<char>)
    ensures
        r@ == v@,
{
    let mut r: Vec<char> = Vec::new();
    extend_range(&mut r, v, 0, v.len());
    proof {
        assert(r@ =~= v@);
    }
    r
}

/// `m` updated at key `k`, mirroring `upsert`.
fn upsert_exec(m: &Vec<(Vec<char>, Vec<char>)>, k: Vec<char>, v: Vec<char>) -> (r: Vec<
    (Vec<char>, Vec<char>),
>)
    ensures
        entry_views(r@) == upsert(entry_views(m@), k@, v@),
{
    let ghost kv = k@;
    let ghost vv = v@;
    let mut out: Vec<(Vec<char>, Vec<char>)> = Vec::new();
    let mut i: usize = 0;
    proof {
        assert(entry_views(m@).subrange(0, m@.len() as int) =~= entry_views(m@));
        assert(entry_views(m@).subrange(0, 0) =~= entry_views(out@));
    }
    loop
        invariant
            i <= m@.len(),
            k@ == kv,
            v@ == vv,
            entry_views(out@) == entry_views(m@).subrange(0, i as int),
            forall|j: int| 0 <= j < i ==> entry_views(m@)[j].0 != kv,
            upsert(entry_views(m@), kv, vv) == entry_views(out@) + upsert(
                entry_views(m@).subrange(i as int, m@.len() as int),
                kv,
                vv,
            ),
        decreases m@.len() - i,
    {
        let ghost rest = entry_views(m@).subrange(i as int, m@.len() as int);
        if i == m.len() {
            let ghost before = entry_views(out@);
            out.push((k, v));
            proof {
                assert(rest.len() == 0);
                assert(upsert(rest, kv, vv) =~= seq![(kv, vv)]);
                assert(entry_views(out@) =~= before.push((kv, vv)));
                assert(before.push((kv, vv)) =~= before + seq![(kv, vv)]);
            }
            return out;
        }
        let hit = chars_eq(&m[i].0, &k);
        proof {
            assert(rest[0] == entry_views(m@)[i as int]);
            assert(rest.subrange(1, rest.len() as int) =~= entry_views(m@).subrange(
                i + 1,
                m@.len() as int,
            ));
        }
        if hit {
            let ghost out0 = entry_views(out@);
            out.push((k, v));
            let mut j: usize = i + 1;
            while j < m.len()
                invariant
                    i + 1 <= j <= m@.len(),
                    entry_views(out@) == out0 + seq![(kv, vv)] + entry_views(m@).subrange(
                        i + 1,
                        j as int,
                    ),
                decreases m@.len() - j,
            {
                let a = clone_chars(&m[j].0);
                let b = clone_chars(&m[j].1);
                let ghost before = entry_views(out@);
                out.push((a, b));
                proof {
                    assert(entry_views(out@) =~= before.push((a@, b@)));
                    assert(out0 + seq![(kv, vv)] + entry_views(m@).subrange(i + 1, j + 1) =~= (out0
                        + seq![(kv, vv)] + entry_views(m@).subrange(i + 1, j as int)).push(
                        entry_views(m@)[j as int],
                    ));
                }
                j += 1;
            }
            proof {
                assert(upsert(rest, kv, vv) == seq![(kv, vv)] + rest.subrange(
                    1,
                    rest.len() as int,
                ));
                assert(out0 + (seq![(kv, vv)] + entry_views(m@).subrange(i + 1, m@.len() as int))
                    =~= out0 + seq![(kv, vv)] + entry_views(m@).subrange(i + 1, m@.len() as int));
            }
            return out;
        } else {
            let a = clone_chars(&m[i].0);
            let b = clone_chars(&m[i].1);
            let ghost before = entry_views(out@);
            out.push((a, b));
            proof {
                assert(entry_views(out@) =~= before.push((a@, b@)));
                assert(entry_views(m@).subrange(0, i + 1) =~= entry_views(m@).subrange(
                    0,
                    i as int,
                ).push(entry_views(m@)[i as int]));
                assert(upsert(rest, kv, vv) == seq![rest[0]] + upsert(
                    rest.subrange(1, rest.len() as int),
                    kv,
                    vv,
                ));
                assert(entry_views(out@) + upsert(
                    entry_views(m@).subrange(i + 1, m@.len() as int),
                    kv,
                    vv,
                ) =~= before + (seq![rest[0]] + upsert(
                    entry_views(m@).subrange(i + 1, m@.len() as int),
                    kv,
                    vv,
                )));
            }
            i += 1;
        }
    }
}

/// `p` inserted before the first strictly shorter key, mirroring
/// `insert_by_len`.
fn insert_sorted_exec(m: &Vec<(Vec<char>, Vec<char>)>, p: (Vec<char>, Vec<char>)) -> (r: Vec<
    (Vec<char>, Vec<char>),
>)
    ensures
        entry_views(r@) == insert_by_len(entry_views(m@), (p.0@, p.1@)),
{
    let ghost pv = (p.0@, p.1@);
    let mut out: Vec<(Vec<char>, Vec<char>)> = Vec::new();
    let mut i: usize = 0;
    proof {
        assert(entry_views(m@).subrange(0, 0) =~= entry_views(out@));
        assert(entry_views(m@).subrange(0, m@.len() as int) =~= entry_views(m@));
    }
    loop
        invariant
            i <= m@.len(),
            (p.0@, p.1@) == pv,
            entry_views(out@) == entry_views(m@).subrange(0, i as int),
            insert_by_len(entry_views(m@), pv) == entry_views(out@) + insert_by_len(
                entry_views(m@).subrange(i as int, m@.len() as int),
                pv,
            ),
        decreases m@.len() - i,
    {
        let ghost rest = entry_views(m@).subrange(i as int, m@.len() as int);
        if i == m.len() {
            let ghost before = entry_views(out@);
            out.push(p);
            proof {
                assert(rest.len() == 0);
                assert(insert_by_len(rest, pv) =~= seq![pv]);
                assert(entry_views(out@) =~= before + seq![pv]);
            }
            return out;
        }
        proof {
            assert(rest[0] == entry_views(m@)[i as int]);
            assert(rest.subrange(1, rest.len() as int) =~= entry_views(m@).subrange(
                i + 1,
                m@.len() as int,
            ));
        }
        if p.0.len() > m[i].0.len() {
            let ghost before = entry_views(out@);
            out.push(p);
            let mut j: usize = i;
            while j < m.len()
                invariant
                    i <= j <= m@.len(),
                    entry_views(out@) == before + seq![pv] + entry_views(m@).subrange(
                        i as int,
                        j as int,
                    ),
                decreases m@.len() - j,
            {
                let a = clone_chars(&m[j].0);
                let b = clone_chars(&m[j].1);
                let ghost cur = entry_views(out@);
                out.push((a, b));
                proof {
                    assert(entry_views(out@) =~= cur.push((a@, b@)));
                    assert(before + seq![pv] + entry_views(m@).subrange(i as int, j + 1) =~= (
                    before + seq![pv] + entry_views(m@).subrange(i as int, j as int)).push(
                        entry_views(m@)[j as int],
                    ));
                }
                j += 1;
            }
            proof {
                assert(insert_by_len(rest, pv) == seq![pv] + rest);
                assert(rest =~= entry_views(m@).subrange(i as int, m@.len() as int));
                assert(before + (seq![pv] + rest) =~= before + seq![pv] + entry_views(
                    m@,
                ).subrange(i as int, m@.len() as int));
            }
            return out;
        } else {
            let a = clone_chars(&m[i].0);
            let b = clone_chars(&m[i].1);
            let ghost before = entry_views(out@);
            out.push((a, b));
            proof {
                assert(entry_views(out@) =~= before.push((a@, b@)));
                assert(entry_views(m@).subrange(0, i + 1) =~= entry_views(m@).subrange(
                    0,
                    i as int,
                ).push(entry_views(m@)[i as int]));
                assert(insert_by_len(rest, pv) == seq![rest[0]] + insert_by_len(
                    rest.subrange(1, rest.len() as int),
                    pv,
                ));
                assert(entry_views(out@) + insert_by_len(
                    entry_views(m@).subrange(i + 1, m@.len() as int),
                    pv,
                ) =~= before + (seq![rest[0]] + insert_by_len(
                    entry_views(m@).subrange(i + 1, m@.len() as int),
                    pv,
                )));
            }
            i += 1;
        }
    }
}

/// The table sorted by descending key length, stably.
fn sort_table(m: &Vec<(Vec<char>, Vec<char>)>) -> (r: Vec<(Vec<char>, Vec<char>)>)
    ensures
        entry_views(r@) == sort_by_len(entry_views(m@)),
{
    let mut out: Vec<(Vec<char>, Vec<char>)> = Vec::new();
    let mut i: usize = 0;
    proof {
        assert(entry_views(m@).subrange(0, 0) =~= Seq::<(Seq<char>, Seq<char>)>::empty());
        assert(entry_views(out@) =~= Seq::<(Seq<char>, Seq<char>)>::empty());
    }
    while i < m.len()
        invariant
            i <= m@.len(),
            entry_views(out@) == sort_by_len(entry_views(m@).subrange(0, i as int)),
        decreases m@.len() - i,
    {
        let a = clone_chars(&m[i].0);
        let b = clone_chars(&m[i].1);
        let ghost pre = entry_views(m@).subrange(0, i as int);
        let ghost nxt = entry_views(m@).subrange(0, i + 1);
        out = insert_sorted_exec(&out, (a, b));
        proof {
            assert(nxt.drop_last() =~= pre);
            assert(nxt.last() == entry_views(m@)[i as int]);
            assert(sort_by_len(nxt) == insert_by_len(sort_by_len(pre), entry_views(m@)[i as int]));
        }
        i += 1;
    }
    proof {
        assert(entry_views(m@).subrange(0, m@.len() as int) =~= entry_views(m@));
    }
    out
}

fn shape_of_index(i: usize) -> (s: CaseShape)
    requires
        i < 7,
    ensures
        s.idx() == i as int,
{
    if i == 0 {
        CaseShape::Camel
    } else if i == 1 {
        CaseShape::Pascal
    } else if i == 2 {
        CaseShape::Kebab
    } else if i == 3 {
        CaseShape::Snake
    } else if i == 4 {
        CaseShape::Train
    } else if i == 5 {
        CaseShape::ScreamingSnake
    } else {
        CaseShape::Cobol
    }
}

/// The replacement variant for one convention, built from the replacement
/// text and its characters.
fn build_variant(rep_str: &str, rep_chars: &Vec<char>, shape: CaseShape) -> (v: String)
    requires
        rep_chars@ == rep_str@,
    ensures
        v@ == replacement_variant(rep_str@, shape.idx()),
{
    match find_expr_from(rep_chars, 0) {
        Some((i, e)) => {
            proof {
                crate::jinja::lemma_find_expr_props(rep_chars@, 0);
                lemma_expr_end_bounds(rep_chars@, i as int);
            }
            let inner = trim_range(rep_chars, i + 2, e);
            let inner_s = chars_to_string(&inner);
            let conv = case_convert(inner_s.as_str(), shape);
            let mut v = String::new();
            v.append("{{ ");
            v.append(conv.as_str());
            v.append(" }}");
            proof {
                reveal_strlit("{{ ");
                reveal_strlit(" }}");
                assert("{{ "@ =~= seq!['{', '{', ' ']);
                assert(" }}"@ =~= seq![' ', '}', '}']);
                assert(v@ =~= expr_text(cased(shape.idx(), trim_spec(rep_str@.subrange(
                    i + 2,
                    e as int,
                )))));
            }
            v
        },
        None => case_convert(rep_str, shape),
    }
}

/// One substitution step: an entry whose nonempty key occurs replaces every
/// occurrence; any other entry leaves the text alone.
pub open spec fn apply_step(s: Seq<char>, p: (Seq<char>, Seq<char>)) -> Seq<char> {
    if p.0.len() > 0 && occurs(s, p.0) {
        replace_all_spec(s, p.0, p.1)
    } else {
        s
    }
}

/// Whether an entry's key occurs in the text it is applied to.
pub open spec fn step_hits(s: Seq<char>, p: (Seq<char>, Seq<char>)) -> bool {
    p.0.len() > 0 && occurs(s, p.0)
}

/// The entries applied in order, each to the previous step's output.
pub open spec fn apply_entries(s: Seq<char>, m: Seq<(Seq<char>, Seq<char>)>) -> Seq<char>
    decreases m.len(),
{
    if m.len() == 0 {
        s
    } else {
        apply_entries(apply_step(s, m[0]), m.skip(1))
    }
}

/// Whether any entry matched while applying the table in order.
pub open spec fn any_entry_hits(s: Seq<char>, m: Seq<(Seq<char>, Seq<char>)>) -> bool
    decreases m.len(),
{
    if m.len() == 0 {
        false
    } else {
        step_hits(s, m[0]) || any_entry_hits(apply_step(s, m[0]), m.skip(1))
    }
}

/// What the case-shape strategy does to a body of text: every entry
/// applied in table order, reported only when some entry matched.
pub open spec fn shapes_content_spec(m: Seq<(Seq<char>, Seq<char>)>, s: Seq<char>) -> Option<
    Seq<char>,
> {
    if any_entry_hits(s, m) {
        Some(apply_entries(s, m))
    } else {
        None
    }
}

/// As `shapes_content_spec`, but a result equal to the input is reported
/// as no change; path renames use this form.
pub open spec fn shapes_changed_spec(m: Seq<(Seq<char>, Seq<char>)>, s: Seq<char>) -> Option<
    Seq<char>,
> {
    match shapes_content_spec(m, s) {
        Some(x) => if x != s {
            Some(x)
        } else {
            None
        },
        None => None,
    }
}

/// The case-shape transform of a path's final segment.
pub open spec fn shapes_component_spec(m: Seq<(Seq<char>, Seq<char>)>, path: Seq<char>) -> Option<
    Seq<char>,
> {
    shapes_changed_spec(m, last_segment_spec(path))
}

/// The case-shape transform of a whole path, separators normalized.
pub open spec fn shapes_full_spec(m: Seq<(Seq<char>, Seq<char>)>, path: Seq<char>) -> Option<
    Seq<char>,
> {
    shapes_changed_spec(m, normalize_seps(path))
}

/// Applies the whole table to `c`; reports the result and whether any
/// entry matched.
fn apply_table(entries: &Vec<(Vec<char>, Vec<char>)>, c: &Vec<char>) -> (r: (Vec<char>, bool))
    ensures
        r.0@ == apply_entries(c@, entry_views(entries@)),
        r.1 == any_entry_hits(c@, entry_views(entries@)),
{
    let ghost ev = entry_views(entries@);
    let mut cur = clone_chars(c);
    let mut hit = false;
    let mut i: usize = 0;
    proof {
        assert(ev.subrange(0, ev.len() as int) =~= ev);
    }
    while i < entries.len()
        invariant
            i <= entries@.len(),
            ev == entry_views(entries@),
            apply_entries(c@, ev) == apply_entries(cur@, ev.subrange(i as int, ev.len() as int)),
            any_entry_hits(c@, ev) == (hit || any_entry_hits(
                cur@,
                ev.subrange(i as int, ev.len() as int),
            )),
        decreases entries@.len() - i,
    {
        let ghost rest = ev.subrange(i as int, ev.len() as int);
        proof {
            assert(rest[0] == ev[i as int]);
            assert(rest.subrange(1, rest.len() as int) =~= ev.subrange(i + 1, ev.len() as int));
        }
        let klen = entries[i].0.len();
        if klen > 0 && occurs_exec(&cur, &entries[i].0) {
            cur = replace_all_vec(&cur, &entries[i].0, &entries[i].1);
            hit = true;
        }
        i += 1;
    }
    proof {
        assert(ev.subrange(ev.len() as int, ev.len() as int) =~= Seq::<
            (Seq<char>, Seq<char>),
        >::empty());
    }
    (cur, hit)
}

/// Replaces every casing variant of one compound token with the matching
/// casing of the replacement.
pub struct CaseShapeTemplater {
    entries: Vec<(Vec<char>, Vec<char>)>,
}

impl CaseShapeTemplater {
    /// The substitution table, keys ordered longest first.
    pub closed spec fn entries_spec(&self) -> Seq<(Seq<char>, Seq<char>)> {
        entry_views(self.entries@)
    }

    /// Builds the variant table for a compound token and replacement;
    /// refused, with the offending field named, when either input is not a
    /// compound word once placeholder syntax is stripped.
    pub fn new(token: &str, replacement: &str) -> (r: Result<Self, TemplateError>)
        ensures
            match r {
                Ok(t) => is_compound(clean_word(token@)) && is_compound(clean_word(replacement@))
                    && t.entries_spec() == sort_by_len(mapping_pairs(token@, replacement@)),
                Err(e) => (!is_compound(clean_word(token@)) || !is_compound(
                    clean_word(replacement@),
                )) && (e matches TemplateError::Template { message } && message@ == (
                if !is_compound(clean_word(token@)) {
                    not_compound_message("token"@, token@)
                } else {
                    not_compound_message("replacement"@, replacement@)
                })),
            },
    {
        let tok_chars = str_to_chars(token);
        let rep_chars = str_to_chars(replacement);
        let ct = clean_vec(&tok_chars);
        if !compound_exec(&ct) {
            return Err(
                TemplateError::Template { message: build_not_compound_message("token", token) },
            );
        }
        let cr = clean_vec(&rep_chars);
        if !compound_exec(&cr) {
            return Err(
                TemplateError::Template {
                    message: build_not_compound_message("replacement", replacement),
                },
            );
        }
        let mut table: Vec<(Vec<char>, Vec<char>)> = Vec::new();
        proof {
            assert(entry_views(table@) =~= pairs_upto(token@, replacement@, 0));
        }
        let mut i: usize = 0;
        while i < 7
            invariant
                i <= 7,
                tok_chars@ == token@,
                rep_chars@ == replacement@,
                entry_views(table@) == pairs_upto(token@, replacement@, i as int),
            decreases 7 - i,
        {
            let shape = shape_of_index(i);
            let key = case_convert(token, shape);
            let val = build_variant(replacement, &rep_chars, shape);
            table = upsert_exec(&table, str_to_chars(key.as_str()), str_to_chars(val.as_str()));
            i += 1;
        }
        let table2 = upsert_exec(&table, clone_chars(&tok_chars), clone_chars(&rep_chars));
        proof {
            assert(entry_views(table2@) == mapping_pairs(token@, replacement@));
        }
        let sorted = sort_table(&table2);
        Ok(CaseShapeTemplater { entries: sorted })
    }

    /// The generated mapping, as entries ordered longest key first.
    pub fn get_mappings(&self) -> (r: Vec<CaseShapeMapping>)
        ensures
            r@.len() == self.entries_spec().len(),
            forall|i: int| 0 <= i < r@.len() ==> (#[trigger] r@[i])@ == self.entries_spec()[i],
    {
        let mut r: Vec<CaseShapeMapping> = Vec::new();
        let mut i: usize = 0;
        while i < self.entries.len()
            invariant
                i <= self.entries@.len(),
                r@.len() == i,
                forall|j: int| 0 <= j < i ==> (#[trigger] r@[j])@ == entry_views(self.entries@)[j],
            decreases self.entries@.len() - i,
        {
            let original = chars_to_string(&self.entries[i].0);
            let replacement = chars_to_string(&self.entries[i].1);
            r.push(CaseShapeMapping { original, replacement });
            i += 1;
        }
        r
    }

    /// Applies every variant, longest key first, to `content`; reports no
    /// change when no variant occurs.
    pub fn process_content(&self, content: &str) -> (r: Option<String>)
        ensures
            r.deep_view() == shapes_content_spec(self.entries_spec(), content@),
    {
        let c = str_to_chars(content);
        let (out, hit) = apply_table(&self.entries, &c);
        if hit {
            Some(chars_to_string(&out))
        } else {
            None
        }
    }

    /// The variant substitution on a name that is already a single
    /// segment; an unchanged result counts as no change.
    pub(crate) fn transform_name(&self, name: &Vec<char>) -> (r: Option<String>)
        ensures
            r.deep_view() == shapes_changed_spec(self.entries_spec(), name@),
    {
        let (out, hit) = apply_table(&self.entries, name);
        if hit && !chars_eq(&out, name) {
            Some(chars_to_string(&out))
        } else {
            None
        }
    }

    /// The variant substitution restricted to the final segment of `path`;
    /// the result is the new segment name.
    pub fn process_path_component(&self, path: &str) -> (r: Option<String>)
        ensures
            r.deep_view() == shapes_component_spec(self.entries_spec(), path@),
    {
        let p = str_to_chars(path);
        let name = last_segment_vec(&p);
        self.transform_name(&name)
    }

    /// The variant substitution across the whole path, separators
    /// normalized first.
    pub fn process_full_path(&self, path: &str) -> (r: Option<String>)
        ensures
            r.deep_view() == shapes_full_spec(self.entries_spec(), path@),
    {
        let p = str_to_chars(path);
        let np = normalize_vec(&p);
        self.transform_name(&np)
    }
}

/// The value the table holds at key `k`: the first pair with that key.
pub open spec fn table_lookup(m: Seq<(Seq<char>, Seq<char>)>, k: Seq<char>) -> Option<Seq<char>>
    decreases m.len(),
{
    if m.len() == 0 {
        None
    } else if m[0].0 == k {
        Some(m[0].1)
    } else {
        table_lookup(m.skip(1), k)
    }
}

/// Keys pairwise distinct, stated recursively.
pub open spec fn distinct_keys(m: Seq<(Seq<char>, Seq<char>)>) -> bool
    decreases m.len(),
{
    m.len() == 0 || (table_lookup(m.skip(1), m[0].0) is None && distinct_keys(m.skip(1)))
}

/// Entries stand in non-increasing key length.
pub open spec fn sorted_by_len(m: Seq<(Seq<char>, Seq<char>)>) -> bool {
    forall|x: int, y: int| 0 <= x < y < m.len() ==> (#[trigger] m[x]).0.len() >= (#[trigger] m[y]).0.len()
}

/// What `upsert` does to lookups and distinctness.
proof fn lemma_upsert_props(m: Seq<(Seq<char>, Seq<char>)>, k: Seq<char>, v: Seq<char>)
    ensures
        table_lookup(upsert(m, k, v), k) == Some(v),
        forall|k2: Seq<char>| k2 != k ==> table_lookup(upsert(m, k, v), k2) == table_lookup(m, k2),
        distinct_keys(m) ==> distinct_keys(upsert(m, k, v)),
    decreases m.len(),
{
    let u = upsert(m, k, v);
    if m.len() == 0 {
        assert(u == seq![(k, v)]);
        assert(u.skip(1) =~= Seq::<(Seq<char>, Seq<char>)>::empty());
        assert forall|k2: Seq<char>| k2 != k implies table_lookup(u, k2) == table_lookup(
            m,
            k2,
        ) by {
            assert(table_lookup(u, k2) == table_lookup(u.skip(1), k2));
            assert(table_lookup(u.skip(1), k2) is None);
        }
        assert(table_lookup(u.skip(1), u[0].0) is None);
        assert(distinct_keys(u.skip(1)));
        assert(distinct_keys(u));
    } else if m[0].0 == k {
        assert(u == seq![(k, v)] + m.skip(1));
        assert(u.skip(1) =~= m.skip(1));
        assert(u[0] == (k, v));
        assert forall|k2: Seq<char>| k2 != k implies table_lookup(u, k2) == table_lookup(
            m,
            k2,
        ) by {
            assert(table_lookup(u, k2) == table_lookup(u.skip(1), k2));
            assert(table_lookup(m, k2) == table_lookup(m.skip(1), k2));
        }
        if distinct_keys(m) {
            assert(table_lookup(m.skip(1), m[0].0) is None);
        }
    } else {
        lemma_upsert_props(m.skip(1), k, v);
        assert(u == seq![m[0]] + upsert(m.skip(1), k, v));
        assert(u.skip(1) =~= upsert(m.skip(1), k, v));
        assert(u[0] == m[0]);
        assert(table_lookup(u, k) == table_lookup(upsert(m.skip(1), k, v), k));
        assert forall|k2: Seq<char>| k2 != k implies table_lookup(u, k2) == table_lookup(
            m,
            k2,
        ) by {
            if k2 == m[0].0 {
            } else {
                assert(table_lookup(u, k2) == table_lookup(upsert(m.skip(1), k, v), k2));
                assert(table_lookup(m, k2) == table_lookup(m.skip(1), k2));
            }
        }
        if distinct_keys(m) {
            assert(distinct_keys(m.skip(1)));
            assert(table_lookup(m.skip(1), m[0].0) is None);
            assert(table_lookup(upsert(m.skip(1), k, v), m[0].0) == table_lookup(
                m.skip(1),
                m[0].0,
            ));
        }
    }
}

/// What the first `n` conventions put into the table.
proof fn lemma_pairs_upto_props(tok: Seq<char>, rep: Seq<char>, n: int)
    requires
        0 <= n,
    ensures
        distinct_keys(pairs_upto(tok, rep, n)),
        forall|sh: int|
            0 <= sh < n && (forall|sh2: int| sh < sh2 < n ==> cased(sh2, tok) != cased(sh, tok))
                ==> table_lookup(pairs_upto(tok, rep, n), #[trigger] cased(sh, tok)) == Some(
                replacement_variant(rep, sh),
            ),
        forall|k: Seq<char>|
            (forall|sh: int| 0 <= sh < n ==> k != cased(sh, tok)) ==> #[trigger] table_lookup(
                pairs_upto(tok, rep, n),
                k,
            ) is None,
    decreases n,
{
    if n == 0 {
    } else {
        lemma_pairs_upto_props(tok, rep, n - 1);
        lemma_upsert_props(pairs_upto(tok, rep, n - 1), cased(n - 1, tok), replacement_variant(
            rep,
            n - 1,
        ));
        let prev = pairs_upto(tok, rep, n - 1);
        let cur = pairs_upto(tok, rep, n);
        assert forall|sh: int|
            0 <= sh < n && (forall|sh2: int| sh < sh2 < n ==> cased(sh2, tok) != cased(
                sh,
                tok,
            )) implies table_lookup(cur, #[trigger] cased(sh, tok)) == Some(
            replacement_variant(rep, sh),
        ) by {
            if sh == n - 1 {
            } else {
                assert(cased(n - 1, tok) != cased(sh, tok));
                assert(table_lookup(cur, cased(sh, tok)) == table_lookup(prev, cased(sh, tok)));
            }
        }
        assert forall|k: Seq<char>|
            (forall|sh: int| 0 <= sh < n ==> k != cased(sh, tok)) implies #[trigger] table_lookup(
            cur,
            k,
        ) is None by {
            assert(k != cased(n - 1, tok));
            assert(table_lookup(cur, k) == table_lookup(prev, k));
        }
    }
}

/// Sorting by key length keeps the entries and orders them.
proof fn lemma_insert_by_len_props(m: Seq<(Seq<char>, Seq<char>)>, p: (Seq<char>, Seq<char>))
    requires
        sorted_by_len(m),
    ensures
        sorted_by_len(insert_by_len(m, p)),
        insert_by_len(m, p).to_multiset() == m.to_multiset().insert(p),
    decreases m.len(),
{
    broadcast use vstd::seq_lib::group_seq_properties;
    let u = insert_by_len(m, p);
    if m.len() == 0 {
        assert(u =~= seq![p]);
        assert(seq![p] =~= Seq::<(Seq<char>, Seq<char>)>::empty().push(p));
        assert(u.to_multiset() == m.to_multiset().insert(p));
    } else if p.0.len() > m[0].0.len() {
        assert(u == seq![p] + m);
        assert forall|x: int, y: int| 0 <= x < y < u.len() implies (#[trigger] u[x]).0.len()
            >= (#[trigger] u[y]).0.len() by {
            if x == 0 {
                if y == 1 {
                } else {
                    assert(m[0].0.len() >= m[y - 1].0.len());
                }
            } else {
                assert(u[x] == m[x - 1] && u[y] == m[y - 1]);
            }
        }
        assert(seq![p] + m =~= (seq![p] + m));
        assert(u =~= m.insert(0, p));
        vstd::seq_lib::lemma_multiset_commutative(seq![p], m);
        assert(seq![p].to_multiset() =~= Multiset::<(Seq<char>, Seq<char>)>::empty().insert(p));
        assert(u.to_multiset() == m.to_multiset().insert(p));
    } else {
        lemma_insert_by_len_props(m.skip(1), p);
        assert(u == seq![m[0]] + insert_by_len(m.skip(1), p));
        let rest = insert_by_len(m.skip(1), p);
        assert forall|x: int, y: int| 0 <= x < y < u.len() implies (#[trigger] u[x]).0.len()
            >= (#[trigger] u[y]).0.len() by {
            if x == 0 {
                assert(u[y] == rest[y - 1]);
                assert(rest.to_multiset().contains(rest[y - 1]));
                assert(rest.to_multiset() == m.skip(1).to_multiset().insert(p));
                if rest[y - 1] == p {
                    assert(m[0].0.len() >= p.0.len());
                } else {
                    assert(m.skip(1).to_multiset().contains(rest[y - 1]));
                    let w = choose|w: int|
                        0 <= w < m.skip(1).len() && m.skip(1)[w] == rest[y - 1];
                    assert(m[0].0.len() >= m.skip(1)[w].0.len());
                }
            } else {
                assert(u[x] == rest[x - 1] && u[y] == rest[y - 1]);
            }
        }
        vstd::seq_lib::lemma_multiset_commutative(seq![m[0]], rest);
        vstd::seq_lib::lemma_multiset_commutative(seq![m[0]], m.skip(1));
        assert(m =~= seq![m[0]] + m.skip(1));
        assert(u.to_multiset() == m.to_multiset().insert(p));
    }
}

proof fn lemma_sort_by_len_props(m: Seq<(Seq<char>, Seq<char>)>)
    ensures
        sorted_by_len(sort_by_len(m)),
        sort_by_len(m).to_multiset() == m.to_multiset(),
    decreases m.len(),
{
    broadcast use vstd::seq_lib::group_seq_properties;
    if m.len() == 0 {
    } else {
        lemma_sort_by_len_props(m.drop_last());
        lemma_insert_by_len_props(sort_by_len(m.drop_last()), m.last());
        assert(m =~= m.drop_last().push(m.last()));
        assert(m.drop_last().push(m.last()).to_multiset() == m.drop_last().to_multiset().insert(
            m.last(),
        ));
    }
}

/// What the generated mapping holds: its keys are exactly the seven
/// casing variants of the token together with the literal token; a key
/// clash collapses to the latest insertion, the literal pair last of all,
/// so the literal replacement wins its key; each variant key that no later
/// insertion overrides maps to the matching casing of the replacement; and
/// the table the templater keeps is that mapping ordered by non-increasing
/// key length, so substitution never tries a shorter key before a longer
/// one.
pub proof fn lemma_mapping_table(tok: Seq<char>, rep: Seq<char>)
    ensures
        distinct_keys(mapping_pairs(tok, rep)),
        table_lookup(mapping_pairs(tok, rep), tok) == Some(rep),
        forall|sh: int|
            0 <= sh < 7 && cased(sh, tok) != tok && (forall|sh2: int|
                sh < sh2 < 7 ==> cased(sh2, tok) != cased(sh, tok)) ==> table_lookup(
                mapping_pairs(tok, rep),
                #[trigger] cased(sh, tok),
            ) == Some(replacement_variant(rep, sh)),
        forall|k: Seq<char>|
            k != tok && (forall|sh: int| 0 <= sh < 7 ==> k != cased(sh, tok))
                ==> #[trigger] table_lookup(mapping_pairs(tok, rep), k) is None,
        sorted_by_len(sort_by_len(mapping_pairs(tok, rep))),
        sort_by_len(mapping_pairs(tok, rep)).to_multiset() == mapping_pairs(tok, rep).to_multiset(),
{
    lemma_pairs_upto_props(tok, rep, 7);
    lemma_upsert_props(pairs_upto(tok, rep, 7), tok, rep);
    lemma_sort_by_len_props(mapping_pairs(tok, rep));
    assert forall|k: Seq<char>|
        k != tok && (forall|sh: int| 0 <= sh < 7 ==> k != cased(sh, tok))
            implies #[trigger] table_lookup(mapping_pairs(tok, rep), k) is None by {
        assert(table_lookup(mapping_pairs(tok, rep), k) == table_lookup(
            pairs_upto(tok, rep, 7),
            k,
        ));
        assert(table_lookup(pairs_upto(tok, rep, 7), k) is None);
    }
    assert forall|sh: int|
        0 <= sh < 7 && cased(sh, tok) != tok && (forall|sh2: int|
            sh < sh2 < 7 ==> cased(sh2, tok) != cased(sh, tok)) implies table_lookup(
        mapping_pairs(tok, rep),
        #[trigger] cased(sh, tok),
    ) == Some(replacement_variant(rep, sh)) by {
        assert(table_lookup(mapping_pairs(tok, rep), cased(sh, tok)) == table_lookup(
            pairs_upto(tok, rep, 7),
            cased(sh, tok),
        ));
    }
}

} // verus!
