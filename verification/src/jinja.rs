//! Detection and escaping of placeholder expressions: a pair of opening
//! delimiters, an inner expression free of closing braces, and a pair of
//! closing delimiters. Escaping rewrites each expression so that rendering
//! the escaped text reproduces the expression instead of evaluating it.

use vstd::prelude::*;

verus! {

use crate::text::{
    find_char_spec, lemma_find_char_props, lemma_find_char_shift, trim_spec, str_to_chars,
    chars_to_string, find_char_from, trim_range, extend_range,
};
use crate::TemplateError;

/// The end position of a placeholder expression opening at `i`: the first
/// closing brace after the opening pair, provided the expression between is
/// nonempty and a second closing brace follows.
pub open spec fn expr_end(s: Seq<char>, i: int) -> Option<int> {
    if 0 <= i && i + 1 < s.len() && s[i] == '{' && s[i + 1] == '{' {
        match find_char_spec(s, '}', i + 2) {
            Some(e) => if e > i + 2 && e + 1 < s.len() && s[e + 1] == '}' {
                Some(e)
            } else {
                None
            },
            None => None,
        }
    } else {
        None
    }
}

/// Start and end of the first placeholder expression beginning at or after
/// `from`.
pub open spec fn find_expr(s: Seq<char>, from: int) -> Option<(int, int)>
    decreases s.len() - from,
{
    if from < 0 || from >= s.len() {
        None
    } else {
        match expr_end(s, from) {
            Some(e) => Some((from, e)),
            None => find_expr(s, from + 1),
        }
    }
}

/// What `find_expr` returns: the leftmost expression start at or after
/// `from`, with its end, or nothing when no expression begins there.
pub proof fn lemma_find_expr_props(s: Seq<char>, from: int)
    requires
        0 <= from,
    ensures
        match find_expr(s, from) {
            Some(ie) => from <= ie.0 && expr_end(s, ie.0) == Some(ie.1) && (forall|j: int|
                from <= j < ie.0 ==> expr_end(s, j) is None),
            None => forall|j: int| from <= j ==> expr_end(s, j) is None,
        },
    decreases s.len() - from,
{
    if from >= s.len() {
        assert forall|j: int| from <= j implies expr_end(s, j) is None by {
            if 0 <= j && j + 1 < s.len() {
            }
        }
    } else {
        if expr_end(s, from) is Some {
        } else {
            lemma_find_expr_props(s, from + 1);
        }
    }
}

/// The bounds a found expression obeys.
pub proof fn lemma_expr_end_bounds(s: Seq<char>, i: int)
    requires
        expr_end(s, i) is Some,
    ensures
        0 <= i,
        i + 2 < expr_end(s, i)->Some_0,
        expr_end(s, i)->Some_0 + 2 <= s.len(),
        s[i] == '{' && s[i + 1] == '{',
        s[expr_end(s, i)->Some_0] == '}',
        s[expr_end(s, i)->Some_0 + 1] == '}',
        forall|j: int| i + 2 <= j < expr_end(s, i)->Some_0 ==> s[j] != '}',
{
    let e = expr_end(s, i)->Some_0;
    lemma_find_char_props(s, '}', i + 2);
}

/// The escaped form of one expression whose trimmed inner text is `w`: a
/// placeholder that renders the opening brace literally, followed by the
/// rest of the expression as plain text.
pub open spec fn escaped_expr(w: Seq<char>) -> Seq<char> {
    seq!['{', '{', '\'', '{', '\'', '}', '}', '{', ' '] + w + seq![' ', '}', '}']
}

/// `s` with every placeholder expression escaped, scanning from the left;
/// the inner text of each expression is trimmed before re-emission.
pub open spec fn escape_all(s: Seq<char>) -> Seq<char>
    decreases s.len(),
    via escape_all_decreases
{
    match find_expr(s, 0) {
        Some(ie) => s.subrange(0, ie.0) + escaped_expr(trim_spec(s.subrange(ie.0 + 2, ie.1)))
            + escape_all(s.subrange(ie.1 + 2, s.len() as int)),
        None => s,
    }
}

#[via_fn]
proof fn escape_all_decreases(s: Seq<char>) {
    lemma_find_expr_props(s, 0);
    if find_expr(s, 0) is Some {
        let ie = find_expr(s, 0)->Some_0;
        lemma_expr_end_bounds(s, ie.0);
    }
}

/// What escaping does to a body of text: the escaped text when at least one
/// expression occurs, and no change otherwise.
pub open spec fn escape_content_spec(s: Seq<char>) -> Option<Seq<char>> {
    if find_expr(s, 0) is Some {
        Some(escape_all(s))
    } else {
        None
    }
}

/// First expression at or after `from`, as positions into `s`.
pub(crate) fn find_expr_from(s: &Vec<char>, from: usize) -> (r: Option<(usize, usize)>)
    ensures
        match r {
            Some(ie) => find_expr(s@, from as int) == Some((ie.0 as int, ie.1 as int)),
            None => find_expr(s@, from as int) is None,
        },
{
    let mut i: usize = from;
    while i < s.len()
        invariant
            from <= i,
            find_expr(s@, from as int) == find_expr(s@, i as int),
        decreases s@.len() - i,
    {
        if i + 1 < s.len() && s[i] == '{' && s[i + 1] == '{' {
            match find_char_from(s, '}', i + 2) {
                Some(e) => {
                    proof {
                        lemma_find_char_props(s@, '}', i + 2);
                    }
                    if e > i + 2 && e + 1 < s.len() && s[e + 1] == '}' {
                        return Some((i, e));
                    }
                },
                None => {},
            }
        }
        proof {
            assert(expr_end(s@, i as int) is None);
        }
        i += 1;
    }
    None
}

/// Occurrences of an expression in a suffix are those of the whole,
/// shifted.
proof fn lemma_find_expr_shift(s: Seq<char>, k: int, from: int)
    requires
        0 <= k <= from <= s.len(),
    ensures
        find_expr(s, from) == match find_expr(s.subrange(k, s.len() as int), from - k) {
            Some(ie) => Some((ie.0 + k, ie.1 + k)),
            None => None::<(int, int)>,
        },
    decreases s.len() - from,
{
    let suf = s.subrange(k, s.len() as int);
    if from >= s.len() {
    } else {
        lemma_expr_end_shift(s, k, from);
        if expr_end(s, from) is Some {
        } else {
            lemma_find_expr_shift(s, k, from + 1);
        }
    }
}

/// An expression end in a suffix is the whole string's, shifted.
proof fn lemma_expr_end_shift(s: Seq<char>, k: int, i: int)
    requires
        0 <= k <= i < s.len(),
    ensures
        expr_end(s, i) == match expr_end(s.subrange(k, s.len() as int), i - k) {
            Some(e) => Some(e + k),
            None => None::<int>,
        },
{
    let suf = s.subrange(k, s.len() as int);
    if i + 1 < s.len() && s[i] == '{' && s[i + 1] == '{' {
        lemma_find_char_shift(s, '}', k, i + 2);
    }
}

/// Appends the escaped form of the (already trimmed) inner text `w`.
fn push_escaped(out: &mut Vec<char>, w: &Vec<char>)
    ensures
        final(out)@ == old(out)@ + escaped_expr(w@),
{
    out.push('{');
    out.push('{');
    out.push('\'');
    out.push('{');
    out.push('\'');
    out.push('}');
    out.push('}');
    out.push('{');
    out.push(' ');
    extend_range(out, w, 0, w.len());
    out.push(' ');
    out.push('}');
    out.push('}');
    proof {
        assert(w@.subrange(0, w@.len() as int) =~= w@);
        assert(out@ =~= old(out)@ + escaped_expr(w@));
    }
}

/// `s` with every placeholder expression escaped.
fn escape_vec(s: &Vec<char>) -> (out: Vec<char>)
    ensures
        out@ == escape_all(s@),
{
    let mut out: Vec<char> = Vec::new();
    let mut pos: usize = 0;
    let slen = s.len();
    proof {
        assert(s@.subrange(0, s@.len() as int) =~= s@);
    }
    loop
        invariant
            pos <= s@.len(),
            slen == s@.len(),
            escape_all(s@) == out@ + escape_all(s@.subrange(pos as int, s@.len() as int)),
        decreases s@.len() - pos,
    {
        let ghost suf = s@.subrange(pos as int, s@.len() as int);
        match find_expr_from(s, pos) {
            Some((i, e)) => {
                proof {
                    lemma_find_expr_props(s@, pos as int);
                    lemma_expr_end_bounds(s@, i as int);
                    lemma_find_expr_shift(s@, pos as int, pos as int);
                    assert(find_expr(suf, 0) == Some((i - pos, e - pos)));
                    assert(suf.subrange(0, i - pos) =~= s@.subrange(pos as int, i as int));
                    assert(suf.subrange(i - pos + 2, e - pos) =~= s@.subrange(i + 2, e as int));
                    assert(suf.subrange(e - pos + 2, suf.len() as int) =~= s@.subrange(
                        e + 2,
                        s@.len() as int,
                    ));
                }
                extend_range(&mut out, s, pos, i);
                let w = trim_range(s, i + 2, e);
                push_escaped(&mut out, &w);
                pos = e + 2;
            },
            None => {
                proof {
                    lemma_find_expr_shift(s@, pos as int, pos as int);
                    assert(find_expr(suf, 0) is None);
                }
                extend_range(&mut out, s, pos, slen);
                return out;
            },
        }
    }
}

/// Escapes placeholder expressions so that later rendering reproduces
/// them as text. The detection pattern is fixed, so construction cannot
/// fail on caller input.
pub struct JinjaEscaper {}

impl JinjaEscaper {
    /// The detection pattern is built in, so this always succeeds; the
    /// result type records that construction is the place where a strategy
    /// may be refused.
    pub fn new() -> (r: Result<Self, TemplateError>)
        ensures
            r is Ok,
    {
        Ok(JinjaEscaper {  })
    }

    /// Escapes every placeholder expression in `content`; reports no change
    /// when none occurs.
    pub fn escape_content(&self, content: &str) -> (r: Option<String>)
        ensures
            r.deep_view() == escape_content_spec(content@),
    {
        let c = str_to_chars(content);
        match find_expr_from(&c, 0) {
            None => None,
            Some(_) => {
                let out = escape_vec(&c);
                Some(chars_to_string(&out))
            },
        }
    }
}

/// A minimal model of the downstream template engine, sufficient for the
/// text that escaping emits: an expression whose trimmed inner text is the
/// quoted opening brace renders as that brace; any other expression is kept
/// verbatim; text between expressions is kept verbatim.
pub open spec fn render_spec(s: Seq<char>) -> Seq<char>
    decreases s.len(),
    via render_spec_decreases
{
    match find_expr(s, 0) {
        Some(ie) => s.subrange(0, ie.0) + (if trim_spec(s.subrange(ie.0 + 2, ie.1)) == seq![
            '\'',
            '{',
            '\'',
        ] {
            seq!['{']
        } else {
            s.subrange(ie.0, ie.1 + 2)
        }) + render_spec(s.subrange(ie.1 + 2, s.len() as int)),
        None => s,
    }
}

#[via_fn]
proof fn render_spec_decreases(s: Seq<char>) {
    lemma_find_expr_props(s, 0);
    if find_expr(s, 0) is Some {
        let ie = find_expr(s, 0)->Some_0;
        lemma_expr_end_bounds(s, ie.0);
    }
}

/// Neither brace occurs in `s`.
pub open spec fn brace_free(s: Seq<char>) -> bool {
    forall|i: int| 0 <= i < s.len() ==> s[i] != '{' && s[i] != '}'
}

/// A canonical placeholder expression around the inner text `w`.
pub open spec fn expr_text(w: Seq<char>) -> Seq<char> {
    seq!['{', '{', ' '] + w + seq![' ', '}', '}']
}

/// The expression scan may skip positions that hold no opening brace.
proof fn lemma_find_expr_skip(s: Seq<char>, from: int, m: int)
    requires
        0 <= from <= m <= s.len(),
        forall|j: int| from <= j < m ==> s[j] != '{',
    ensures
        find_expr(s, from) == find_expr(s, m),
    decreases m - from,
{
    if from < m {
        assert(expr_end(s, from) is None);
        lemma_find_expr_skip(s, from + 1, m);
    }
}

/// A text without an opening brace holds no expression.
proof fn lemma_find_expr_none(s: Seq<char>)
    requires
        forall|j: int| 0 <= j < s.len() ==> s[j] != '{',
    ensures
        find_expr(s, 0) is None,
{
    lemma_find_expr_skip(s, 0, s.len() as int);
}

/// Pins the value of the character scan when the first occurrence is known.
proof fn lemma_find_char_value(s: Seq<char>, c: char, from: int, e: int)
    requires
        0 <= from <= e < s.len(),
        s[e] == c,
        forall|j: int| from <= j < e ==> s[j] != c,
    ensures
        find_char_spec(s, c, from) == Some(e),
{
    lemma_find_char_props(s, c, from);
    match find_char_spec(s, c, from) {
        Some(i) => {
            if i < e {
                assert(s[i] == c);
            } else if i > e {
                assert(s[e] != c);
            }
        },
        None => {
            assert(s[e] != c);
        },
    }
}

/// Pins the value of the expression scan when the first start is known.
proof fn lemma_find_expr_value(s: Seq<char>, i: int)
    requires
        0 <= i,
        expr_end(s, i) is Some,
        forall|j: int| 0 <= j < i ==> s[j] != '{',
    ensures
        find_expr(s, 0) == Some((i, expr_end(s, i)->Some_0)),
{
    lemma_find_expr_skip(s, 0, i);
}

/// Trimming strips exactly one layer of single-space padding.
proof fn lemma_trim_padded(w: Seq<char>)
    requires
        w.len() > 0,
        !crate::text::is_space_char(w[0]),
        !crate::text::is_space_char(w[w.len() - 1]),
    ensures
        trim_spec(seq![' '] + w + seq![' ']) == w,
{
    let x = seq![' '] + w + seq![' '];
    let y = w + seq![' '];
    assert(crate::text::is_space_char(x[0]));
    assert(x.subrange(1, x.len() as int) =~= y);
    assert(!crate::text::is_space_char(y[0]));
    assert(crate::text::trim_start_spec(x) == crate::text::trim_start_spec(y));
    assert(crate::text::trim_start_spec(y) == y);
    assert(crate::text::is_space_char(y[y.len() - 1]));
    assert(y.drop_last() =~= w);
    assert(crate::text::trim_end_spec(y) == crate::text::trim_end_spec(w));
    assert(crate::text::trim_end_spec(w) == w);
}

/// A text without whitespace is its own trim.
proof fn lemma_trim_no_space(s: Seq<char>)
    requires
        forall|i: int| 0 <= i < s.len() ==> !crate::text::is_space_char(s[i]),
    ensures
        trim_spec(s) == s,
{
    if s.len() > 0 {
        assert(!crate::text::is_space_char(s[0]));
        assert(!crate::text::is_space_char(s[s.len() - 1]));
    }
}

/// The round trip for one expression: escaping a canonical expression and
/// then rendering the escaped text reproduces the content exactly. The
/// content is one expression `{{ w }}` between two brace-free texts, with
/// `w` nonempty, brace-free, and not padded by further whitespace; the
/// general form over any number of expressions follows below.
pub proof fn lemma_escape_render_round_trip(a: Seq<char>, w: Seq<char>, b: Seq<char>)
    requires
        brace_free(a),
        brace_free(b),
        brace_free(w),
        w.len() > 0,
        !crate::text::is_space_char(w[0]),
        !crate::text::is_space_char(w[w.len() - 1]),
    ensures
        render_spec(escape_all(a + expr_text(w) + b)) == a + expr_text(w) + b,
{
    let parts: Seq<(Seq<char>, Seq<char>)> = seq![(a, w)];
    assert(inner_word(w));
    lemma_escape_render_round_trip_all(parts, b);
    assert(parts.skip(1) =~= Seq::<(Seq<char>, Seq<char>)>::empty());
    assert(canonical_text(parts.skip(1), b) == b);
    assert(canonical_text(parts, b) == a + expr_text(w) + b);
}

/// A word that can stand inside a canonical expression: nonempty,
/// brace-free, and not padded by further whitespace.
pub open spec fn inner_word(w: Seq<char>) -> bool {
    w.len() > 0 && brace_free(w) && !crate::text::is_space_char(w[0])
        && !crate::text::is_space_char(w[w.len() - 1])
}

/// A content of brace-free gaps alternating with canonical expressions,
/// closed by a brace-free tail.
pub open spec fn canonical_text(parts: Seq<(Seq<char>, Seq<char>)>, tail: Seq<char>) -> Seq<char>
    decreases parts.len(),
{
    if parts.len() == 0 {
        tail
    } else {
        parts[0].0 + expr_text(parts[0].1) + canonical_text(parts.skip(1), tail)
    }
}

/// Every gap is brace-free and every expression canonical.
pub open spec fn canonical_parts(parts: Seq<(Seq<char>, Seq<char>)>, tail: Seq<char>) -> bool {
    brace_free(tail) && (forall|i: int|
        0 <= i < parts.len() ==> brace_free((#[trigger] parts[i]).0) && inner_word(parts[i].1))
}

/// Escaping rewrites the leading expression and recurses past it,
/// whatever follows.
proof fn lemma_escape_step(a: Seq<char>, w: Seq<char>, rest: Seq<char>)
    requires
        brace_free(a),
        inner_word(w),
    ensures
        escape_all(a + expr_text(w) + rest) == a + escaped_expr(w) + escape_all(rest),
{
    let orig = a + expr_text(w) + rest;
    let al = a.len() as int;
    let wl = w.len() as int;
    let e1 = al + 4 + wl;
    assert(orig.len() == al + wl + 6 + rest.len());
    assert(orig[al] == '{' && orig[al + 1] == '{');
    assert(orig[al + 2] == ' ');
    assert forall|k: int| 0 <= k < wl implies orig[al + 3 + k] == w[k] by {}
    assert(orig[al + 3 + wl] == ' ');
    assert(orig[e1] == '}' && orig[e1 + 1] == '}');
    assert forall|j: int| al + 2 <= j < e1 implies orig[j] != '}' by {
        if j == al + 2 {
        } else if j == al + 3 + wl {
            assert(orig[j] == ' ');
        } else {
            assert(orig[j] == w[j - (al + 3)]);
        }
    }
    lemma_find_char_value(orig, '}', al + 2, e1);
    assert(expr_end(orig, al) == Some(e1));
    assert forall|j: int| 0 <= j < al implies orig[j] != '{' by {
        assert(orig[j] == a[j]);
    }
    lemma_find_expr_value(orig, al);
    assert(find_expr(orig, 0) == Some((al, e1)));
    let inner = orig.subrange(al + 2, e1);
    assert(inner =~= seq![' '] + w + seq![' ']);
    lemma_trim_padded(w);
    assert(trim_spec(inner) == w);
    assert(orig.subrange(0, al) =~= a);
    assert(orig.subrange(e1 + 2, orig.len() as int) =~= rest);
}

/// The expression scan may skip positions where no expression ends up
/// beginning.
proof fn lemma_find_expr_skip_ends(s: Seq<char>, from: int, m: int)
    requires
        0 <= from <= m <= s.len(),
        forall|j: int| from <= j < m ==> expr_end(s, j) is None,
    ensures
        find_expr(s, from) == find_expr(s, m),
    decreases m - from,
{
    if from < m {
        lemma_find_expr_skip_ends(s, from + 1, m);
    }
}

/// Rendering passes over a prefix in which no expression can begin.
proof fn lemma_render_prepend(x: Seq<char>, y: Seq<char>)
    requires
        forall|j: int| 0 <= j < x.len() ==> expr_end(x + y, j) is None,
    ensures
        render_spec(x + y) == x + render_spec(y),
{
    let s = x + y;
    let xl = x.len() as int;
    lemma_find_expr_skip_ends(s, 0, xl);
    lemma_find_expr_shift(s, xl, xl);
    assert(s.subrange(xl, s.len() as int) =~= y);
    match find_expr(y, 0) {
        None => {
            assert(find_expr(s, 0) is None);
            assert(render_spec(s) == s);
            assert(render_spec(y) == y);
        },
        Some(ie) => {
            let i = ie.0;
            let e = ie.1;
            lemma_find_expr_props(y, 0);
            lemma_expr_end_bounds(y, i);
            assert(find_expr(s, 0) == Some((i + xl, e + xl)));
            assert(s.subrange(0, i + xl) =~= x + y.subrange(0, i));
            assert(s.subrange(i + xl + 2, e + xl) =~= y.subrange(i + 2, e));
            assert(s.subrange(i + xl, e + xl + 2) =~= y.subrange(i, e + 2));
            assert(s.subrange(e + xl + 2, s.len() as int) =~= y.subrange(e + 2, y.len() as int));
            let branch: Seq<char> = if trim_spec(y.subrange(i + 2, e)) == seq!['\'', '{', '\''] {
                seq!['{']
            } else {
                y.subrange(i, e + 2)
            };
            assert(render_spec(s) == (x + y.subrange(0, i)) + branch + render_spec(
                y.subrange(e + 2, y.len() as int),
            ));
            assert(render_spec(y) == y.subrange(0, i) + branch + render_spec(
                y.subrange(e + 2, y.len() as int),
            ));
            assert((x + y.subrange(0, i)) + branch + render_spec(
                y.subrange(e + 2, y.len() as int),
            ) =~= x + (y.subrange(0, i) + branch + render_spec(
                y.subrange(e + 2, y.len() as int),
            )));
        },
    }
}

/// The round trip for a whole content: escaping every canonical expression
/// and then rendering the escaped text reproduces the content exactly,
/// however many expressions it holds.
pub proof fn lemma_escape_render_round_trip_all(parts: Seq<(Seq<char>, Seq<char>)>, tail: Seq<char>)
    requires
        canonical_parts(parts, tail),
    ensures
        render_spec(escape_all(canonical_text(parts, tail))) == canonical_text(parts, tail),
    decreases parts.len(),
{
    if parts.len() == 0 {
        assert forall|j: int| 0 <= j < tail.len() implies tail[j] != '{' by {}
        lemma_find_expr_none(tail);
        assert(escape_all(tail) == tail);
        assert(render_spec(tail) == tail);
    } else {
        let a = parts[0].0;
        let w = parts[0].1;
        let rest = canonical_text(parts.skip(1), tail);
        assert(canonical_parts(parts.skip(1), tail)) by {
            assert forall|i: int| 0 <= i < parts.skip(1).len() implies brace_free(
                (#[trigger] parts.skip(1)[i]).0,
            ) && inner_word(parts.skip(1)[i].1) by {
                assert(parts.skip(1)[i] == parts[i + 1]);
            }
        }
        lemma_escape_render_round_trip_all(parts.skip(1), tail);
        lemma_escape_step(a, w, rest);
        let z = escape_all(rest);
        let esc = a + escaped_expr(w) + z;
        assert(escape_all(canonical_text(parts, tail)) == esc);

        // the escaped text opens with the brace-literal expression
        let al = a.len() as int;
        assert(esc[al] == '{' && esc[al + 1] == '{');
        assert(esc[al + 2] == '\'' && esc[al + 3] == '{' && esc[al + 4] == '\'');
        assert(esc[al + 5] == '}' && esc[al + 6] == '}');
        assert(esc[al + 7] == '{' && esc[al + 8] == ' ');
        assert forall|j: int| al + 2 <= j < al + 5 implies esc[j] != '}' by {}
        lemma_find_char_value(esc, '}', al + 2, al + 5);
        assert(expr_end(esc, al) == Some(al + 5));
        assert forall|j: int| 0 <= j < al implies esc[j] != '{' by {
            assert(esc[j] == a[j]);
        }
        lemma_find_expr_value(esc, al);
        assert(find_expr(esc, 0) == Some((al, al + 5)));
        let lit = esc.subrange(al + 2, al + 5);
        assert(lit =~= seq!['\'', '{', '\'']);
        lemma_trim_no_space(lit);
        assert(render_spec(esc) == esc.subrange(0, al) + seq!['{'] + render_spec(
            esc.subrange(al + 7, esc.len() as int),
        ));
        assert(esc.subrange(0, al) =~= a);

        // the rest renders past the reopened expression text
        let x = seq!['{', ' '] + w + seq![' ', '}', '}'];
        assert(esc.subrange(al + 7, esc.len() as int) =~= x + z);
        assert forall|j: int| 0 <= j < x.len() implies expr_end(x + z, j) is None by {
            if j == 0 {
                assert((x + z)[1] == ' ');
            } else if j == 1 {
                assert((x + z)[j] == ' ');
            } else if j < 2 + w.len() {
                assert((x + z)[j] == w[j - 2]);
            } else {
                assert((x + z)[j] == ' ' || (x + z)[j] == '}');
            }
        }
        lemma_render_prepend(x, z);
        assert(render_spec(x + z) == x + render_spec(z));
        assert(render_spec(z) == rest);
        assert(a + seq!['{'] + (x + rest) =~= a + expr_text(w) + rest);
    }
}

} // verus!
