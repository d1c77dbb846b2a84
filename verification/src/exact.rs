//! The exact-literal strategy: one fixed token, replaced everywhere it
//! occurs by one fixed text, in contents, in a path's final segment, or
//! across a whole path with its separators normalized.

use vstd::prelude::*;

verus! {

use crate::text::{
    occurs, replace_all_spec, last_segment_spec, str_to_chars, chars_to_string, occurs_exec,
    replace_all_vec, last_segment_vec, contains_char,
};

/// What the exact strategy does to a body of text: when the (nonempty)
/// token occurs, every occurrence is replaced; otherwise no change is
/// reported.
pub open spec fn exact_content_spec(tok: Seq<char>, rep: Seq<char>, s: Seq<char>) -> Option<
    Seq<char>,
> {
    if tok.len() > 0 && occurs(s, tok) {
        Some(replace_all_spec(s, tok, rep))
    } else {
        None
    }
}

/// Path separators normalized to the canonical one.
pub open spec fn normalize_seps(s: Seq<char>) -> Seq<char> {
    replace_all_spec(s, seq!['\\'], seq!['/'])
}

/// What the exact strategy does to a whole path: separators of both the
/// path and the token are normalized, then the literal replacement applies
/// across segment boundaries.
pub open spec fn exact_full_path_spec(tok: Seq<char>, rep: Seq<char>, path: Seq<char>) -> Option<
    Seq<char>,
> {
    exact_content_spec(normalize_seps(tok), rep, normalize_seps(path))
}

/// What the exact strategy does to a path: the literal replacement,
/// restricted to the final segment.
pub open spec fn exact_component_spec(tok: Seq<char>, rep: Seq<char>, path: Seq<char>) -> Option<
    Seq<char>,
> {
    exact_content_spec(tok, rep, last_segment_spec(path))
}

/// The token spans path segments when its normalized form holds a
/// separator; only then can a whole-path rename say more than a
/// final-segment rename.
pub open spec fn exact_spans_spec(tok: Seq<char>) -> bool {
    exists|i: int| 0 <= i < normalize_seps(tok).len() && normalize_seps(tok)[i] == '/'
}

/// The exact replacement on a character vector, shared by the content,
/// component and full-path transforms.
pub(crate) fn exact_subst(c: &Vec<char>, t: &Vec<char>, r: &Vec<char>) -> (out: Option<String>)
    ensures
        out.deep_view() == exact_content_spec(t@, r@, c@),
{
    if t.len() == 0 {
        return None;
    }
    if occurs_exec(c, t) {
        let res = replace_all_vec(c, t, r);
        Some(chars_to_string(&res))
    } else {
        None
    }
}

/// Replaces one literal token, everywhere it occurs.
pub struct ExactTemplater {
    token: Vec<char>,
    replacement: Vec<char>,
}

impl ExactTemplater {
    /// The token this templater searches for.
    pub closed spec fn token_spec(&self) -> Seq<char> {
        self.token@
    }

    /// The text it substitutes for the token.
    pub closed spec fn replacement_spec(&self) -> Seq<char> {
        self.replacement@
    }

    pub fn new(token: &str, replacement: &str) -> (r: Self)
        ensures
            r.token_spec() == token@,
            r.replacement_spec() == replacement@,
    {
        ExactTemplater { token: str_to_chars(token), replacement: str_to_chars(replacement) }
    }

    /// Replaces every occurrence of the token in `content`; reports no
    /// change when the token does not occur.
    pub fn process_content(&self, content: &str) -> (r: Option<String>)
        ensures
            r.deep_view() == exact_content_spec(
                self.token_spec(),
                self.replacement_spec(),
                content@,
            ),
    {
        let c = str_to_chars(content);
        exact_subst(&c, &self.token, &self.replacement)
    }

    /// The replacement restricted to the final segment of `path`; the
    /// result is the new segment name, not a whole path.
    pub fn process_path_component(&self, path: &str) -> (r: Option<String>)
        ensures
            r.deep_view() == exact_component_spec(
                self.token_spec(),
                self.replacement_spec(),
                path@,
            ),
    {
        let p = str_to_chars(path);
        let name = last_segment_vec(&p);
        exact_subst(&name, &self.token, &self.replacement)
    }

    /// The same transform on a name that is already a single segment.
    pub(crate) fn transform_name(&self, name: &Vec<char>) -> (r: Option<String>)
        ensures
            r.deep_view() == exact_content_spec(
                self.token_spec(),
                self.replacement_spec(),
                name@,
            ),
    {
        exact_subst(name, &self.token, &self.replacement)
    }

    /// The replacement applied to the whole path, after separators of path
    /// and token alike are normalized, so that a token spanning several
    /// segments can match.
    pub fn process_full_path(&self, path: &str) -> (r: Option<String>)
        ensures
            r.deep_view() == exact_full_path_spec(
                self.token_spec(),
                self.replacement_spec(),
                path@,
            ),
    {
        let p = str_to_chars(path);
        let np = normalize_vec(&p);
        let nt = normalize_vec(&self.token);
        exact_subst(&np, &nt, &self.replacement)
    }

    /// The same transform on an already-normalized path held as characters.
    pub(crate) fn transform_full(&self, path: &Vec<char>) -> (r: Option<String>)
        ensures
            r.deep_view() == exact_content_spec(
                normalize_seps(self.token_spec()),
                self.replacement_spec(),
                path@,
            ),
    {
        let nt = normalize_vec(&self.token);
        exact_subst(path, &nt, &self.replacement)
    }

    /// Whether the token, once normalized, spans path segments.
    pub(crate) fn spans_segments(&self) -> (b: bool)
        ensures
            b == exact_spans_spec(self.token_spec()),
    {
        let nt = normalize_vec(&self.token);
        contains_char(&nt, '/')
    }
}

/// Separators of `s` normalized to the canonical one.
pub(crate) fn normalize_vec(s: &Vec<char>) -> (r: Vec<char>)
    ensures
        r@ == normalize_seps(s@),
{
    let pat: Vec<char> = vec!['\\'];
    let to: Vec<char> = vec!['/'];
    proof {
        assert(pat@ =~= seq!['\\']);
        assert(to@ =~= seq!['/']);
    }
    replace_all_vec(s, &pat, &to)
}

} // verus!
