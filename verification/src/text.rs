//! Verified primitives for literal substring search and replacement over
//! character sequences, together with the small path-string helpers
//! (segment extraction, joining, splitting, trimming) that the strategies
//! and the tree planner share.

use vstd::prelude::*;

verus! {

use vstd::string::StrSliceExecFns;

/// `t` occurs as a contiguous substring of `s` starting at position `i`.
pub open spec fn occurs_at(s: Seq<char>, t: Seq<char>, i: int) -> bool {
    0 <= i && i + t.len() <= s.len() && s.subrange(i, i + t.len()) == t
}

/// `t` occurs somewhere in `s`.
pub open spec fn occurs(s: Seq<char>, t: Seq<char>) -> bool {
    exists|i: int| occurs_at(s, t, i)
}

/// Position of the first occurrence of `t` in `s` at or after `from`.
pub open spec fn find_from_spec(s: Seq<char>, t: Seq<char>, from: int) -> Option<int>
    decreases s.len() - from,
{
    if from < 0 || from + t.len() > s.len() {
        None
    } else if t.len() == 0 {
        Some(from)
    } else if s.subrange(from, from + t.len()) == t {
        Some(from)
    } else {
        find_from_spec(s, t, from + 1)
    }
}

/// What `find_from_spec` returns: the first occurrence at or after `from`,
/// or nothing when no occurrence lies there.
pub proof fn lemma_find_from_props(s: Seq<char>, t: Seq<char>, from: int)
    requires
        0 <= from,
    ensures
        match find_from_spec(s, t, from) {
            Some(i) => from <= i && occurs_at(s, t, i) && (forall|j: int|
                from <= j < i ==> !occurs_at(s, t, j)),
            None => forall|j: int| from <= j ==> !occurs_at(s, t, j),
        },
    decreases s.len() - from,
{
    if from + t.len() > s.len() {
        assert forall|j: int| from <= j implies !occurs_at(s, t, j) by {
            assert(j + t.len() > s.len());
        }
    } else if t.len() == 0 {
        assert(s.subrange(from, from + t.len()) =~= t);
    } else if s.subrange(from, from + t.len()) == t {
    } else {
        lemma_find_from_props(s, t, from + 1);
        assert(!occurs_at(s, t, from));
    }
}

/// `s` with every non-overlapping occurrence of `t` replaced by `r`,
/// scanning from the left. An empty token never matches.
pub open spec fn replace_all_spec(s: Seq<char>, t: Seq<char>, r: Seq<char>) -> Seq<char>
    decreases s.len(),
    via replace_all_spec_decreases
{
    if t.len() == 0 {
        s
    } else {
        match find_from_spec(s, t, 0) {
            None => s,
            Some(i) => s.subrange(0, i) + r + replace_all_spec(
                s.subrange(i + t.len(), s.len() as int),
                t,
                r,
            ),
        }
    }
}

#[via_fn]
proof fn replace_all_spec_decreases(s: Seq<char>, t: Seq<char>, r: Seq<char>) {
    if t.len() > 0 {
        lemma_find_from_props(s, t, 0);
    }
}

/// A string without an occurrence of the token is left unchanged.
pub proof fn lemma_replace_all_no_occurrence(s: Seq<char>, t: Seq<char>, r: Seq<char>)
    requires
        !occurs(s, t),
    ensures
        replace_all_spec(s, t, r) == s,
{
    if t.len() == 0 {
    } else {
        lemma_find_from_props(s, t, 0);
        if find_from_spec(s, t, 0) is Some {
            assert(occurs_at(s, t, find_from_spec(s, t, 0)->Some_0));
        }
    }
}

/// Replacing is idempotent: once the result of a replacement no longer
/// contains the token, replacing again changes nothing. (The hypothesis is
/// needed because a replacement text may itself reintroduce the token.)
pub proof fn lemma_replace_all_idempotent(c: Seq<char>, t: Seq<char>, r: Seq<char>)
    requires
        !occurs(replace_all_spec(c, t, r), t),
    ensures
        replace_all_spec(replace_all_spec(c, t, r), t, r) == replace_all_spec(c, t, r),
{
    lemma_replace_all_no_occurrence(replace_all_spec(c, t, r), t, r);
}

/// Occurrences in a suffix of `s` are the occurrences of `s` itself, shifted.
proof fn lemma_find_from_shift(s: Seq<char>, t: Seq<char>, k: int, from: int)
    requires
        0 <= k <= from <= s.len(),
    ensures
        find_from_spec(s, t, from) == match find_from_spec(
            s.subrange(k, s.len() as int),
            t,
            from - k,
        ) {
            Some(i) => Some(i + k),
            None => None::<int>,
        },
    decreases s.len() - from,
{
    let suf = s.subrange(k, s.len() as int);
    if from + t.len() > s.len() {
        assert((from - k) + t.len() > suf.len());
    } else if t.len() == 0 {
    } else {
        assert(s.subrange(from, from + t.len()) =~= suf.subrange(from - k, from - k + t.len()));
        if s.subrange(from, from + t.len()) == t {
        } else {
            lemma_find_from_shift(s, t, k, from + 1);
        }
    }
}

fn match_at(s: &Vec<char>, t: &Vec<char>, i: usize) -> (b: bool)
    ensures
        b == occurs_at(s@, t@, i as int),
{
    let n = s.len();
    let m = t.len();
    if m > n || i > n - m {
        return false;
    }
    let mut k: usize = 0;
    while k < m
        invariant
            n == s@.len(),
            m == t@.len(),
            m <= n,
            i + m <= n,
            k <= m,
            forall|m: int| 0 <= m < k ==> s@[i + m] == t@[m],
        decreases t@.len() - k,
    {
        if s[i + k] != t[k] {
            assert(!occurs_at(s@, t@, i as int)) by {
                if s@.subrange(i as int, i + t@.len()) == t@ {
                    assert(s@.subrange(i as int, i + t@.len())[k as int] == t@[k as int]);
                }
            }
            return false;
        }
        k += 1;
    }
    assert(s@.subrange(i as int, i + t@.len()) =~= t@);
    true
}

/// First occurrence of `t` in `s` at or after `from`.
pub(crate) fn find_from(s: &Vec<char>, t: &Vec<char>, from: usize) -> (r: Option<usize>)
    requires
        t@.len() >= 1,
    ensures
        match r {
            Some(i) => find_from_spec(s@, t@, from as int) == Some(i as int),
            None => find_from_spec(s@, t@, from as int) is None,
        },
{
    let n = s.len();
    let m = t.len();
    if m > n || from > n - m {
        return None;
    }
    let mut i: usize = from;
    while i <= n - m
        invariant
            n == s@.len(),
            m == t@.len(),
            1 <= m <= n,
            from <= i,
            i <= n - m + 1,
            find_from_spec(s@, t@, from as int) == find_from_spec(s@, t@, i as int),
        decreases n - m + 1 - i,
    {
        if match_at(s, t, i) {
            return Some(i);
        }
        i += 1;
    }
    None
}

/// Whether `t` occurs anywhere in `s`.
pub(crate) fn occurs_exec(s: &Vec<char>, t: &Vec<char>) -> (b: bool)
    requires
        t@.len() >= 1,
    ensures
        b == occurs(s@, t@),
{
    let r = find_from(s, t, 0);
    proof {
        lemma_find_from_props(s@, t@, 0);
        if r is Some {
            assert(occurs_at(s@, t@, r->Some_0 as int));
        }
    }
    r.is_some()
}

/// Appends `s[a..b]` to `out`.
pub(crate) fn extend_range(out: &mut Vec<char>, s: &Vec<char>, a: usize, b: usize)
    requires
        a <= b <= s@.len(),
    ensures
        final(out)@ == old(out)@ + s@.subrange(a as int, b as int),
{
    let mut k: usize = a;
    while k < b
        invariant
            a <= k <= b <= s@.len(),
            out@ == old(out)@ + s@.subrange(a as int, k as int),
        decreases b - k,
    {
        let c = s[k];
        out.push(c);
        proof {
            assert(s@.subrange(a as int, k + 1) =~= s@.subrange(a as int, k as int).push(c));
        }
        k += 1;
    }
    proof {
        assert(out@ =~= old(out)@ + s@.subrange(a as int, b as int));
    }
}

/// `s` with every non-overlapping occurrence of `t` replaced by `r`.
pub(crate) fn replace_all_vec(s: &Vec<char>, t: &Vec<char>, r: &Vec<char>) -> (out: Vec<char>)
    requires
        t@.len() >= 1,
    ensures
        out@ == replace_all_spec(s@, t@, r@),
{
    let mut out: Vec<char> = Vec::new();
    let mut pos: usize = 0;
    let slen = s.len();
    proof {
        assert(s@.subrange(0, s@.len() as int) =~= s@);
    }
    loop
        invariant
            t@.len() >= 1,
            slen == s@.len(),
            pos <= s@.len(),
            replace_all_spec(s@, t@, r@) == out@ + replace_all_spec(
                s@.subrange(pos as int, s@.len() as int),
                t@,
                r@,
            ),
        decreases s@.len() - pos,
    {
        let ghost suf = s@.subrange(pos as int, s@.len() as int);
        match find_from(s, t, pos) {
            Some(j) => {
                proof {
                    lemma_find_from_props(s@, t@, pos as int);
                    lemma_find_from_shift(s@, t@, pos as int, pos as int);
                    assert(find_from_spec(suf, t@, 0) == Some(j - pos));
                    assert(occurs_at(s@, t@, j as int));
                    // unfold replace on the suffix at its first match
                    assert(suf.subrange(0, j - pos) =~= s@.subrange(pos as int, j as int));
                    assert(suf.subrange(j - pos + t@.len(), suf.len() as int) =~= s@.subrange(
                        j + t@.len(),
                        s@.len() as int,
                    ));
                    assert(replace_all_spec(suf, t@, r@) == s@.subrange(pos as int, j as int) + r@
                        + replace_all_spec(
                        s@.subrange(j + t@.len(), s@.len() as int),
                        t@,
                        r@,
                    ));
                }
                extend_range(&mut out, s, pos, j);
                extend_range(&mut out, r, 0, r.len());
                proof {
                    assert(r@.subrange(0, r@.len() as int) =~= r@);
                    assert(j + t@.len() <= slen);
                }
                pos = j + t.len();
            },
            None => {
                extend_range(&mut out, s, pos, s.len());
                proof {
                    lemma_find_from_shift(s@, t@, pos as int, pos as int);
                    assert(find_from_spec(suf, t@, 0) is None);
                    assert(replace_all_spec(suf, t@, r@) == suf);
                }
                return out;
            },
        }
    }
}

/// First position of the character `c` in `s` at or after `from`.
pub open spec fn find_char_spec(s: Seq<char>, c: char, from: int) -> Option<int>
    decreases s.len() - from,
{
    if from < 0 || from >= s.len() {
        None
    } else if s[from] == c {
        Some(from)
    } else {
        find_char_spec(s, c, from + 1)
    }
}

pub proof fn lemma_find_char_props(s: Seq<char>, c: char, from: int)
    requires
        0 <= from,
    ensures
        match find_char_spec(s, c, from) {
            Some(i) => from <= i < s.len() && s[i] == c && (forall|j: int|
                from <= j < i ==> s[j] != c),
            None => forall|j: int| from <= j < s.len() ==> s[j] != c,
        },
    decreases s.len() - from,
{
    if from < s.len() && s[from] != c {
        lemma_find_char_props(s, c, from + 1);
    }
}

pub(crate) fn find_char_from(s: &Vec<char>, c: char, from: usize) -> (r: Option<usize>)
    ensures
        match r {
            Some(i) => find_char_spec(s@, c, from as int) == Some(i as int),
            None => find_char_spec(s@, c, from as int) is None,
        },
{
    let mut i: usize = from;
    while i < s.len()
        invariant
            from <= i,
            i <= s@.len() || i == from,
            find_char_spec(s@, c, from as int) == find_char_spec(s@, c, i as int),
        decreases s@.len() - i,
    {
        if s[i] == c {
            return Some(i);
        }
        i += 1;
    }
    None
}

/// True when some character of `s` is `c`.
pub(crate) fn contains_char(s: &Vec<char>, c: char) -> (b: bool)
    ensures
        b == exists|i: int| 0 <= i < s@.len() && s@[i] == c,
{
    let r = find_char_from(s, c, 0);
    proof {
        lemma_find_char_props(s@, c, 0);
        if r is Some {
            assert(s@[r->Some_0 as int] == c);
        }
    }
    r.is_some()
}

/// The characters of `s`, one per `char`.
pub(crate) fn str_to_chars(s: &str) -> (v: Vec<char>)
    ensures
        v@ == s@,
{
    let n = s.unicode_len();
    let mut v: Vec<char> = Vec::new();
    let mut i: usize = 0;
    while i < n
        invariant
            n == s@.len(),
            i <= n,
            v@ =~= s@.subrange(0, i as int),
        decreases n - i,
    {
        let c = s.get_char(i);
        v.push(c);
        i += 1;
    }
    proof {
        assert(v@ =~= s@);
    }
    v
}

/// Relies on `String: FromIterator<char>`: collecting characters yields the
/// string made of exactly those characters, in order.
#[verifier::external_body]
pub(crate) fn chars_to_string(v: &Vec<char>) -> (r: String)
    ensures
        r@ == v@,
{
    v.iter().collect()
}

/// Character-wise equality of two character vectors.
pub(crate) fn chars_eq(a: &Vec<char>, b: &Vec<char>) -> (r: bool)
    ensures
        r == (a@ == b@),
{
    if a.len() != b.len() {
        return false;
    }
    let mut k: usize = 0;
    while k < a.len()
        invariant
            a@.len() == b@.len(),
            k <= a@.len(),
            forall|m: int| 0 <= m < k ==> a@[m] == b@[m],
        decreases a@.len() - k,
    {
        if a[k] != b[k] {
            return false;
        }
        k += 1;
    }
    proof {
        assert(a@ =~= b@);
    }
    true
}

/// The whitespace characters that expression trimming recognizes.
pub open spec fn is_space_char(c: char) -> bool {
    c == ' ' || c == '\t' || c == '\n' || c == '\r' || c == '\u{b}' || c == '\u{c}'
}

pub(crate) fn is_space_exec(c: char) -> (b: bool)
    ensures
        b == is_space_char(c),
{
    c == ' ' || c == '\t' || c == '\n' || c == '\r' || c == '\u{b}' || c == '\u{c}'
}

pub open spec fn trim_start_spec(s: Seq<char>) -> Seq<char>
    decreases s.len(),
{
    if s.len() > 0 && is_space_char(s[0]) {
        trim_start_spec(s.subrange(1, s.len() as int))
    } else {
        s
    }
}

pub open spec fn trim_end_spec(s: Seq<char>) -> Seq<char>
    decreases s.len(),
{
    if s.len() > 0 && is_space_char(s[s.len() - 1]) {
        trim_end_spec(s.drop_last())
    } else {
        s
    }
}

/// `s` without leading and trailing whitespace.
pub open spec fn trim_spec(s: Seq<char>) -> Seq<char> {
    trim_end_spec(trim_start_spec(s))
}

/// The trimmed text `s[a..b]`, with whitespace stripped from both ends.
pub(crate) fn trim_range(s: &Vec<char>, a: usize, b: usize) -> (out: Vec<char>)
    requires
        a <= b <= s@.len(),
    ensures
        out@ == trim_spec(s@.subrange(a as int, b as int)),
{
    let ghost orig = s@.subrange(a as int, b as int);
    let mut lo = a;
    while lo < b && is_space_exec(s[lo])
        invariant
            a <= lo <= b <= s@.len(),
            trim_start_spec(orig) == trim_start_spec(s@.subrange(lo as int, b as int)),
        decreases b - lo,
    {
        proof {
            let cur = s@.subrange(lo as int, b as int);
            assert(cur.subrange(1, cur.len() as int) =~= s@.subrange(lo + 1, b as int));
        }
        lo += 1;
    }
    proof {
        assert(trim_start_spec(orig) == s@.subrange(lo as int, b as int));
    }
    let ghost started = s@.subrange(lo as int, b as int);
    let mut hi = b;
    while hi > lo && is_space_exec(s[hi - 1])
        invariant
            lo <= hi <= b <= s@.len(),
            trim_end_spec(started) == trim_end_spec(s@.subrange(lo as int, hi as int)),
        decreases hi,
    {
        proof {
            let cur = s@.subrange(lo as int, hi as int);
            assert(cur.drop_last() =~= s@.subrange(lo as int, hi - 1));
        }
        hi -= 1;
    }
    proof {
        assert(trim_end_spec(started) == s@.subrange(lo as int, hi as int));
    }
    let mut out: Vec<char> = Vec::new();
    extend_range(&mut out, s, lo, hi);
    out
}

/// `s` with trailing separators removed.
pub open spec fn strip_trailing_slashes(s: Seq<char>) -> Seq<char>
    decreases s.len(),
{
    if s.len() > 0 && s[s.len() - 1] == '/' {
        strip_trailing_slashes(s.drop_last())
    } else {
        s
    }
}

/// The position of the last separator in `s`, if any.
pub open spec fn last_slash_pos(s: Seq<char>) -> Option<int>
    decreases s.len(),
{
    if s.len() == 0 {
        None
    } else if s[s.len() - 1] == '/' {
        Some(s.len() - 1)
    } else {
        last_slash_pos(s.drop_last())
    }
}

/// The final path segment of `s`: what follows the last separator, after
/// trailing separators are dropped. Empty only when `s` holds nothing but
/// separators.
pub open spec fn last_segment_spec(s: Seq<char>) -> Seq<char> {
    let u = strip_trailing_slashes(s);
    match last_slash_pos(u) {
        Some(i) => u.subrange(i + 1, u.len() as int),
        None => u,
    }
}

pub(crate) fn last_segment_vec(s: &Vec<char>) -> (r: Vec<char>)
    ensures
        r@ == last_segment_spec(s@),
{
    let mut e = s.len();
    proof {
        assert(s@.subrange(0, s@.len() as int) =~= s@);
    }
    while e > 0 && s[e - 1] == '/'
        invariant
            e <= s@.len(),
            strip_trailing_slashes(s@) == strip_trailing_slashes(s@.subrange(0, e as int)),
        decreases e,
    {
        proof {
            let cur = s@.subrange(0, e as int);
            assert(cur.drop_last() =~= s@.subrange(0, e - 1));
        }
        e -= 1;
    }
    let ghost u = s@.subrange(0, e as int);
    proof {
        assert(s@.subrange(0, s@.len() as int) =~= s@);
        assert(strip_trailing_slashes(s@) == u);
    }
    let mut a = e;
    while a > 0 && s[a - 1] != '/'
        invariant
            a <= e <= s@.len(),
            u == s@.subrange(0, e as int),
            last_slash_pos(u) == last_slash_pos(s@.subrange(0, a as int)),
            forall|j: int| a <= j < e ==> s@[j] != '/',
        decreases a,
    {
        proof {
            let cur = s@.subrange(0, a as int);
            assert(cur.drop_last() =~= s@.subrange(0, a - 1));
        }
        a -= 1;
    }
    let mut out: Vec<char> = Vec::new();
    extend_range(&mut out, s, a, e);
    proof {
        if a == 0 {
            assert(last_slash_pos(u) is None);
            assert(out@ =~= u);
        } else {
            let pre = s@.subrange(0, a as int);
            assert(pre[a - 1] == '/');
            assert(last_slash_pos(pre) == Some(a - 1));
            assert(out@ =~= u.subrange(a as int, u.len() as int));
        }
    }
    out
}

/// Path segments joined with the canonical separator.
pub open spec fn join_path(p: Seq<Seq<char>>) -> Seq<char>
    decreases p.len(),
{
    if p.len() == 0 {
        Seq::empty()
    } else if p.len() == 1 {
        p[0]
    } else {
        join_path(p.drop_last()) + seq!['/'] + p.last()
    }
}

pub(crate) fn join_path_exec(p: &Vec<String>) -> (r: Vec<char>)
    ensures
        r@ == join_path(p.deep_view()),
{
    let mut r: Vec<char> = Vec::new();
    let mut k: usize = 0;
    while k < p.len()
        invariant
            k <= p@.len(),
            p.deep_view().len() == p@.len(),
            r@ == join_path(p.deep_view().subrange(0, k as int)),
        decreases p@.len() - k,
    {
        if k > 0 {
            r.push('/');
        }
        let seg = str_to_chars(p[k].as_str());
        extend_range(&mut r, &seg, 0, seg.len());
        proof {
            let dv = p.deep_view();
            assert(seg@.subrange(0, seg@.len() as int) =~= seg@);
            assert(dv[k as int] == p@[k as int]@);
            let q = dv.subrange(0, k + 1);
            assert(q.drop_last() =~= dv.subrange(0, k as int));
            assert(q.last() == dv[k as int]);
            if k == 0 {
                assert(r@ =~= join_path(q));
            } else {
                assert(r@ =~= join_path(q));
            }
        }
        k += 1;
    }
    proof {
        assert(p.deep_view().subrange(0, p@.len() as int) =~= p.deep_view());
    }
    r
}

/// `s` divided at each separator; never empty, and separators are kept in
/// no segment.
pub open spec fn split_path(s: Seq<char>) -> Seq<Seq<char>>
    decreases s.len(),
    via split_path_decreases
{
    match find_char_spec(s, '/', 0) {
        Some(i) => seq![s.subrange(0, i)] + split_path(s.subrange(i + 1, s.len() as int)),
        None => seq![s],
    }
}

#[via_fn]
proof fn split_path_decreases(s: Seq<char>) {
    lemma_find_char_props(s, '/', 0);
}

/// Positions of a character in a suffix are those of the whole, shifted.
pub(crate) proof fn lemma_find_char_shift(s: Seq<char>, c: char, k: int, from: int)
    requires
        0 <= k <= from <= s.len(),
    ensures
        find_char_spec(s, c, from) == match find_char_spec(
            s.subrange(k, s.len() as int),
            c,
            from - k,
        ) {
            Some(i) => Some(i + k),
            None => None::<int>,
        },
    decreases s.len() - from,
{
    if from < s.len() && s[from] != c {
        lemma_find_char_shift(s, c, k, from + 1);
    }
}

pub(crate) fn split_path_exec(s: &Vec<char>) -> (r: Vec<String>)
    ensures
        r.deep_view() == split_path(s@),
{
    let mut r: Vec<String> = Vec::new();
    let mut pos: usize = 0;
    proof {
        assert(s@.subrange(0, s@.len() as int) =~= s@);
    }
    loop
        invariant
            pos <= s@.len(),
            split_path(s@) == r.deep_view() + split_path(s@.subrange(pos as int, s@.len() as int)),
        decreases s@.len() - pos,
    {
        let ghost suf = s@.subrange(pos as int, s@.len() as int);
        match find_char_from(s, '/', pos) {
            Some(j) => {
                proof {
                    lemma_find_char_props(s@, '/', pos as int);
                    lemma_find_char_shift(s@, '/', pos as int, pos as int);
                    assert(find_char_spec(suf, '/', 0) == Some(j - pos));
                    assert(suf.subrange(0, j - pos) =~= s@.subrange(pos as int, j as int));
                    assert(suf.subrange(j - pos + 1, suf.len() as int) =~= s@.subrange(
                        j + 1,
                        s@.len() as int,
                    ));
                }
                let mut piece: Vec<char> = Vec::new();
                extend_range(&mut piece, s, pos, j);
                let seg = chars_to_string(&piece);
                let ghost rdv0 = r.deep_view();
                r.push(seg);
                proof {
                    assert(r.deep_view() =~= rdv0.push(piece@));
                    assert(rdv0.push(piece@) =~= rdv0 + seq![piece@]);
                    assert(split_path(suf) == seq![piece@] + split_path(
                        s@.subrange(j + 1, s@.len() as int),
                    ));
                    assert(rdv0 + (seq![piece@] + split_path(s@.subrange(j + 1, s@.len() as int)))
                        =~= (rdv0 + seq![piece@]) + split_path(s@.subrange(j + 1, s@.len() as int)));
                    assert(j < s@.len());
                }
                let slen = s.len();
                pos = j + 1;
            },
            None => {
                proof {
                    lemma_find_char_shift(s@, '/', pos as int, pos as int);
                    assert(find_char_spec(suf, '/', 0) is None);
                }
                let mut piece: Vec<char> = Vec::new();
                extend_range(&mut piece, s, pos, s.len());
                proof {
                    assert(piece@ =~= suf);
                }
                let seg = chars_to_string(&piece);
                let ghost rdv0 = r.deep_view();
                r.push(seg);
                proof {
                    assert(r.deep_view() =~= rdv0.push(piece@));
                    assert(rdv0.push(piece@) =~= rdv0 + seq![piece@]);
                    assert(split_path(suf) == seq![suf]);
                }
                return r;
            },
        }
    }
}


} // verus!
