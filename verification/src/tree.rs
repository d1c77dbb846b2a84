//! The tree transformer: a pure planner over a model of a file-system
//! subtree. Given a strategy and option flags it emits, in order, the
//! visits, content writes and renames that one traversal performs. The
//! order is the safe one: a directory's descendants are fully processed
//! before the directory itself is renamed, sibling directories are renamed
//! in reverse enumeration order, and a file's content write precedes its
//! own rename. The caller owns the filesystem work: it executes the events
//! in order, or only counts them on a dry run.

use vstd::prelude::*;

verus! {

use crate::text::{join_path, split_path, join_path_exec, split_path_exec, str_to_chars, chars_eq};
use crate::exact::{ExactTemplater, exact_content_spec, exact_spans_spec, normalize_seps};
use crate::shapes::{CaseShapeTemplater, shapes_content_spec, shapes_changed_spec};
use crate::jinja::{JinjaEscaper, escape_content_spec};
use crate::TemplatizeResult;

/// A model of one entry of the file tree: a file with its decoded text
/// (none when the bytes are not text), or a directory with its entries in
/// enumeration order.
pub enum FsNode {
    File { name: String, text: Option<String> },
    Dir { name: String, children: Vec<FsNode> },
}

impl FsNode {
    /// The entry's own name.
    pub open spec fn name_spec(&self) -> Seq<char> {
        match self {
            FsNode::File { name, .. } => name@,
            FsNode::Dir { name, .. } => name@,
        }
    }
}

/// A well-formed tree names the entries of each directory pairwise
/// distinctly, as a real filesystem does.
pub open spec fn wf_node(node: FsNode) -> bool
    decreases node,
{
    match node {
        FsNode::File { .. } => true,
        FsNode::Dir { name, children } => wf_children(children@) && (forall|i: int, j: int|
            0 <= i < j < children@.len() ==> children@[i].name_spec() != children@[j].name_spec()),
    }
}

/// Well-formedness of every node of a list of children.
pub open spec fn wf_children(kids: Seq<FsNode>) -> bool
    decreases kids,
{
    if kids.len() == 0 {
        true
    } else {
        wf_node(kids[0]) && wf_children(kids.skip(1))
    }
}

/// One effect a traversal schedules, over paths of segments relative to
/// the target's parent.
pub enum FsEvent {
    /// A file was visited.
    Visit { path: Vec<String> },
    /// A file's content is rewritten, at its pre-rename path.
    Write { path: Vec<String>, text: String },
    /// An entry moves; the source is its current path at execution time.
    Rename { from: Vec<String>, to: Vec<String> },
}

/// The ghost form of an event, over character sequences.
pub enum Ev {
    Visit { path: Seq<Seq<char>> },
    Write { path: Seq<Seq<char>>, text: Seq<char> },
    Rename { from: Seq<Seq<char>>, to: Seq<Seq<char>> },
}

impl View for FsEvent {
    type V = Ev;

    open spec fn view(&self) -> Ev {
        match self {
            FsEvent::Visit { path } => Ev::Visit { path: path.deep_view() },
            FsEvent::Write { path, text } => Ev::Write { path: path.deep_view(), text: text@ },
            FsEvent::Rename { from, to } => Ev::Rename {
                from: from.deep_view(),
                to: to.deep_view(),
            },
        }
    }
}

/// The views of a list of events.
pub open spec fn evs(v: Seq<FsEvent>) -> Seq<Ev> {
    Seq::new(v.len(), |i: int| v[i]@)
}

/// What a strategy is, to the contracts: the data its three transforms
/// depend on.
pub enum StrategyModel {
    Exact { tok: Seq<char>, rep: Seq<char> },
    Shapes { entries: Seq<(Seq<char>, Seq<char>)> },
    Escape,
}

/// What a strategy does to a file's text.
pub open spec fn st_content(st: StrategyModel, s: Seq<char>) -> Option<Seq<char>> {
    match st {
        StrategyModel::Exact { tok, rep } => exact_content_spec(tok, rep, s),
        StrategyModel::Shapes { entries } => shapes_content_spec(entries, s),
        StrategyModel::Escape => escape_content_spec(s),
    }
}

/// What a strategy does to one path segment; the escape strategy never
/// touches paths.
pub open spec fn st_segment(st: StrategyModel, name: Seq<char>) -> Option<Seq<char>> {
    match st {
        StrategyModel::Exact { tok, rep } => exact_content_spec(tok, rep, name),
        StrategyModel::Shapes { entries } => shapes_changed_spec(entries, name),
        StrategyModel::Escape => None,
    }
}

/// What a strategy does to a whole joined path. The planner joins with the
/// canonical separator, so only the token needs normalizing.
pub open spec fn st_whole(st: StrategyModel, path: Seq<char>) -> Option<Seq<char>> {
    match st {
        StrategyModel::Exact { tok, rep } => exact_content_spec(normalize_seps(tok), rep, path),
        StrategyModel::Shapes { entries } => shapes_changed_spec(entries, path),
        StrategyModel::Escape => None,
    }
}

/// Whether renames try the whole path before the final segment: only when
/// an exact token spans segments.
pub open spec fn st_spans(st: StrategyModel) -> bool {
    match st {
        StrategyModel::Exact { tok, .. } => exact_spans_spec(tok),
        _ => false,
    }
}

/// The strategy a traversal applies: the three variants share the
/// planner, which only calls these capabilities.
pub enum Strategy {
    Exact(ExactTemplater),
    Shapes(CaseShapeTemplater),
    Escape(JinjaEscaper),
}

impl Strategy {
    /// The model of this strategy that the contracts speak of.
    pub open spec fn model(&self) -> StrategyModel {
        match self {
            Strategy::Exact(t) => StrategyModel::Exact {
                tok: t.token_spec(),
                rep: t.replacement_spec(),
            },
            Strategy::Shapes(t) => StrategyModel::Shapes { entries: t.entries_spec() },
            Strategy::Escape(_) => StrategyModel::Escape,
        }
    }

    fn content(&self, s: &str) -> (r: Option<String>)
        ensures
            r.deep_view() == st_content(self.model(), s@),
    {
        match self {
            Strategy::Exact(t) => t.process_content(s),
            Strategy::Shapes(t) => t.process_content(s),
            Strategy::Escape(e) => e.escape_content(s),
        }
    }

    fn segment(&self, name: &Vec<char>) -> (r: Option<String>)
        ensures
            r.deep_view() == st_segment(self.model(), name@),
    {
        match self {
            Strategy::Exact(t) => t.transform_name(name),
            Strategy::Shapes(t) => t.transform_name(name),
            Strategy::Escape(_) => None,
        }
    }

    fn whole(&self, path: &Vec<char>) -> (r: Option<String>)
        ensures
            r.deep_view() == st_whole(self.model(), path@),
    {
        match self {
            Strategy::Exact(t) => t.transform_full(path),
            Strategy::Shapes(t) => t.transform_name(path),
            Strategy::Escape(_) => None,
        }
    }

    fn spans(&self) -> (b: bool)
        ensures
            b == st_spans(self.model()),
    {
        match self {
            Strategy::Exact(t) => t.spans_segments(),
            Strategy::Shapes(_) => false,
            Strategy::Escape(_) => false,
        }
    }
}

/// The joined path with only its ancestor part transformed: a whole-path
/// match equal to this adds nothing beyond what the ancestors' own renames
/// will do, so it does not move the entry.
pub open spec fn ancestor_form(st: StrategyModel, path: Seq<Seq<char>>) -> Seq<char> {
    if path.len() <= 1 {
        path.last()
    } else {
        let par = join_path(path.drop_last());
        (match st_whole(st, par) {
            Some(x) => x,
            None => par,
        }) + seq!['/'] + path.last()
    }
}

/// The rename a strategy gives the entry at `path`, if any: for a
/// segment-spanning token, a whole-path match that changes more than the
/// ancestors alone; otherwise a match on the final segment, renaming
/// within the parent.
pub open spec fn rename_of(st: StrategyModel, path: Seq<Seq<char>>) -> Option<Seq<Seq<char>>> {
    if st_spans(st) {
        match st_whole(st, join_path(path)) {
            Some(q) => if q != ancestor_form(st, path) {
                Some(split_path(q))
            } else {
                None
            },
            None => None,
        }
    } else {
        match st_segment(st, path.last()) {
            Some(n) => Some(path.drop_last().push(n)),
            None => None,
        }
    }
}

/// The events one file produces: a visit, then its content write if the
/// strategy changes decodable text, then its own rename — in that order,
/// so the write uses the pre-rename path.
pub open spec fn file_events(
    st: StrategyModel,
    fp: Seq<Seq<char>>,
    text: Option<String>,
    paths: bool,
    contents: bool,
) -> Seq<Ev> {
    seq![Ev::Visit { path: fp }] + (if contents {
        match text {
            Some(t) => match st_content(st, t@) {
                Some(nt) => seq![Ev::Write { path: fp, text: nt }],
                None => Seq::empty(),
            },
            None => Seq::empty(),
        }
    } else {
        Seq::empty()
    }) + (if paths {
        match rename_of(st, fp) {
            Some(q) => seq![Ev::Rename { from: fp, to: q }],
            None => Seq::empty(),
        }
    } else {
        Seq::empty()
    })
}

/// The events of the inside of the directory `node` at parent path `p`:
/// recursion into each child directory in order, then the child-directory
/// renames bottom-up in reverse enumeration order, then the files. The
/// directory's own rename is its parent's business.
pub open spec fn plan_dir(
    st: StrategyModel,
    p: Seq<Seq<char>>,
    node: FsNode,
    paths: bool,
    contents: bool,
) -> Seq<Ev>
    decreases node, 1int,
{
    match node {
        FsNode::File { .. } => Seq::empty(),
        FsNode::Dir { name, children } => {
            let q = p.push(name@);
            plan_kids(st, q, children@, 0, paths, contents) + (if paths {
                dir_renames(st, q, children@, children@.len() as int)
            } else {
                Seq::empty()
            }) + file_list_events(st, q, children@, 0, paths, contents)
        },
    }
}

/// Recursion into the child directories from index `i` on, in order.
pub open spec fn plan_kids(
    st: StrategyModel,
    q: Seq<Seq<char>>,
    kids: Seq<FsNode>,
    i: int,
    paths: bool,
    contents: bool,
) -> Seq<Ev>
    decreases kids, kids.len() - i, 0int,
{
    if i < 0 || i >= kids.len() {
        Seq::empty()
    } else {
        (match kids[i] {
            FsNode::Dir { .. } => plan_dir(st, q, kids[i], paths, contents),
            _ => Seq::empty(),
        }) + plan_kids(st, q, kids, i + 1, paths, contents)
    }
}

/// The renames of the first `n` child directories, deepest enumerated
/// last, emitted in reverse enumeration order.
pub open spec fn dir_renames(st: StrategyModel, q: Seq<Seq<char>>, kids: Seq<FsNode>, n: int) -> Seq<
    Ev,
>
    decreases n,
{
    if n <= 0 || n > kids.len() {
        Seq::empty()
    } else {
        (match kids[n - 1] {
            FsNode::Dir { .. } => {
                let fp = q.push(kids[n - 1].name_spec());
                match rename_of(st, fp) {
                    Some(to) => seq![Ev::Rename { from: fp, to }],
                    None => Seq::empty(),
                }
            },
            _ => Seq::empty(),
        }) + dir_renames(st, q, kids, n - 1)
    }
}

/// The per-file events from index `i` on, in enumeration order.
pub open spec fn file_list_events(
    st: StrategyModel,
    q: Seq<Seq<char>>,
    kids: Seq<FsNode>,
    i: int,
    paths: bool,
    contents: bool,
) -> Seq<Ev>
    decreases kids.len() - i,
{
    if i < 0 || i >= kids.len() {
        Seq::empty()
    } else {
        (match kids[i] {
            FsNode::File { name, text } => file_events(st, q.push(name@), text, paths, contents),
            _ => Seq::empty(),
        }) + file_list_events(st, q, kids, i + 1, paths, contents)
    }
}

/// The whole plan for a target: a lone file is processed by itself; a
/// directory's contents are processed, and then, at the top level only,
/// the target directory itself may be renamed. A dry run plans the very
/// same events; whether they are executed is the caller's affair.
pub open spec fn plan_spec(
    st: StrategyModel,
    target: FsNode,
    paths: bool,
    contents: bool,
    dry_run: bool,
) -> Seq<Ev> {
    match target {
        FsNode::File { name, text } => file_events(st, seq![name@], text, paths, contents),
        FsNode::Dir { name, .. } => plan_dir(st, Seq::empty(), target, paths, contents) + (
        if paths {
            match rename_of(st, seq![name@]) {
                Some(to) => seq![Ev::Rename { from: seq![name@], to }],
                None => Seq::empty(),
            }
        } else {
            Seq::empty()
        }),
    }
}

fn path_prefix(p: &Vec<String>, k: usize) -> (r: Vec<String>)
    requires
        k <= p@.len(),
    ensures
        r.deep_view() == p.deep_view().subrange(0, k as int),
{
    let mut r: Vec<String> = Vec::new();
    let mut i: usize = 0;
    proof {
        assert(r.deep_view() =~= p.deep_view().subrange(0, 0));
    }
    while i < k
        invariant
            i <= k <= p@.len(),
            r.deep_view() == p.deep_view().subrange(0, i as int),
        decreases k - i,
    {
        let ghost before = r.deep_view();
        r.push(p[i].clone());
        proof {
            assert(r.deep_view() =~= before.push(p@[i as int]@));
            assert(p.deep_view()[i as int] == p@[i as int]@);
            assert(p.deep_view().subrange(0, i + 1) =~= p.deep_view().subrange(0, i as int).push(
                p.deep_view()[i as int],
            ));
        }
        i += 1;
    }
    r
}

fn clone_path(p: &Vec<String>) -> (r: Vec<String>)
    ensures
        r.deep_view() == p.deep_view(),
{
    let r = path_prefix(p, p.len());
    proof {
        assert(p.deep_view().subrange(0, p@.len() as int) =~= p.deep_view());
    }
    r
}

fn path_push(p: &Vec<String>, name: &String) -> (r: Vec<String>)
    ensures
        r.deep_view() == p.deep_view().push(name@),
{
    let mut r = clone_path(p);
    let ghost before = r.deep_view();
    r.push(name.clone());
    proof {
        assert(r.deep_view() =~= before.push(name@));
    }
    r
}

fn ancestor_form_exec(st: &Strategy, path: &Vec<String>) -> (r: Vec<char>)
    requires
        path@.len() >= 1,
    ensures
        r@ == ancestor_form(st.model(), path.deep_view()),
{
    let ghost pv = path.deep_view();
    if path.len() == 1 {
        let r = str_to_chars(path[0].as_str());
        proof {
            assert(pv.last() == pv[0]);
            assert(pv[0] == path@[0]@);
        }
        r
    } else {
        let par_v = path_prefix(path, path.len() - 1);
        proof {
            assert(par_v.deep_view() =~= pv.drop_last());
        }
        let par = join_path_exec(&par_v);
        let mut x = match st.whole(&par) {
            Some(s) => str_to_chars(s.as_str()),
            None => par,
        };
        x.push('/');
        let last = str_to_chars(path[path.len() - 1].as_str());
        let ghost xv = x@;
        crate::text::extend_range(&mut x, &last, 0, last.len());
        proof {
            assert(pv.last() == path@[path@.len() - 1]@);
            assert(last@.subrange(0, last@.len() as int) =~= last@);
            assert(x@ =~= ancestor_form(st.model(), pv));
        }
        x
    }
}

fn rename_of_exec(st: &Strategy, path: &Vec<String>) -> (r: Option<Vec<String>>)
    requires
        path@.len() >= 1,
    ensures
        r.deep_view() == rename_of(st.model(), path.deep_view()),
{
    let ghost pv = path.deep_view();
    if st.spans() {
        let joined = join_path_exec(path);
        match st.whole(&joined) {
            Some(q) => {
                let anc = ancestor_form_exec(st, path);
                let qc = str_to_chars(q.as_str());
                if !chars_eq(&qc, &anc) {
                    Some(split_path_exec(&qc))
                } else {
                    None
                }
            },
            None => None,
        }
    } else {
        let name = str_to_chars(path[path.len() - 1].as_str());
        proof {
            assert(pv.last() == path@[path@.len() - 1]@);
        }
        match st.segment(&name) {
            Some(n) => {
                let ghost nv = n@;
                let mut out = path_prefix(path, path.len() - 1);
                let ghost before = out.deep_view();
                out.push(n);
                proof {
                    assert(out.deep_view() =~= before.push(nv));
                    assert(pv.subrange(0, pv.len() - 1) =~= pv.drop_last());
                }
                Some(out)
            },
            None => None,
        }
    }
}

/// Appends the events of one file at path `fp` to `out`.
fn emit_file_events(
    st: &Strategy,
    fp: Vec<String>,
    text: &Option<String>,
    paths: bool,
    contents: bool,
    out: &mut Vec<FsEvent>,
)
    requires
        fp@.len() >= 1,
    ensures
        evs(final(out)@) == evs(old(out)@) + file_events(
            st.model(),
            fp.deep_view(),
            *text,
            paths,
            contents,
        ),
{
    let ghost fpv = fp.deep_view();
    let ghost out0 = evs(out@);
    let visit_path = clone_path(&fp);
    out.push(FsEvent::Visit { path: visit_path });
    proof {
        assert(evs(out@) =~= out0.push(Ev::Visit { path: fpv }));
    }
    let ghost mid: Seq<Ev> = if contents {
        match text {
            Some(t) => match st_content(st.model(), t@) {
                Some(nt) => seq![Ev::Write { path: fpv, text: nt }],
                None => Seq::empty(),
            },
            None => Seq::empty(),
        }
    } else {
        Seq::empty()
    };
    if contents {
        match text {
            Some(t) => {
                match st.content(t.as_str()) {
                    Some(nt) => {
                        let wp = clone_path(&fp);
                        let ghost before = evs(out@);
                        let ghost ntv = nt@;
                        out.push(FsEvent::Write { path: wp, text: nt });
                        proof {
                            assert(evs(out@) =~= before.push(Ev::Write { path: fpv, text: ntv }));
                        }
                    },
                    None => {},
                }
            },
            None => {},
        }
    }
    proof {
        assert(evs(out@) =~= out0 + seq![Ev::Visit { path: fpv }] + mid);
    }
    let ghost out2 = evs(out@);
    let ghost tail: Seq<Ev> = if paths {
        match rename_of(st.model(), fpv) {
            Some(q) => seq![Ev::Rename { from: fpv, to: q }],
            None => Seq::empty(),
        }
    } else {
        Seq::empty()
    };
    if paths {
        match rename_of_exec(st, &fp) {
            Some(to) => {
                let ghost before = evs(out@);
                let ghost tov = to.deep_view();
                out.push(FsEvent::Rename { from: fp, to });
                proof {
                    assert(evs(out@) =~= before.push(Ev::Rename { from: fpv, to: tov }));
                }
            },
            None => {},
        }
    }
    proof {
        assert(evs(out@) =~= out2 + tail);
        assert(file_events(st.model(), fpv, *text, paths, contents) == seq![
            Ev::Visit { path: fpv },
        ] + mid + tail);
        assert(evs(out@) =~= out0 + (seq![Ev::Visit { path: fpv }] + mid + tail));
    }
}

/// Appends the events of the inside of the directory `node` to `out`.
fn plan_dir_exec(
    st: &Strategy,
    p: &Vec<String>,
    node: &FsNode,
    paths: bool,
    contents: bool,
    out: &mut Vec<FsEvent>,
)
    ensures
        evs(final(out)@) == evs(old(out)@) + plan_dir(
            st.model(),
            p.deep_view(),
            *node,
            paths,
            contents,
        ),
    decreases *node,
{
    match node {
        FsNode::File { .. } => {
            proof {
                assert(plan_dir(st.model(), p.deep_view(), *node, paths, contents)
                    =~= Seq::<Ev>::empty());
                assert(evs(out@) =~= evs(out@) + Seq::<Ev>::empty());
            }
        },
        FsNode::Dir { name, children } => {
            let ghost whole: FsNode = *node;
            let ghost m = st.model();
            let q = path_push(p, name);
            let ghost qv = q.deep_view();
            let ghost kids = children@;
            let ghost out0 = evs(out@);
            proof {
                assert(whole == (FsNode::Dir { name: *name, children: *children }));
            }
            // recursion into the child directories, in order
            let mut i: usize = 0;
            while i < children.len()
                invariant
                    i <= kids.len(),
                    m == st.model(),
                    whole == *node,
                    whole == (FsNode::Dir { name: *name, children: *children }),
                    kids == children@,
                    qv == q.deep_view(),
                    out0 + plan_kids(m, qv, kids, 0, paths, contents) == evs(out@) + plan_kids(
                        m,
                        qv,
                        kids,
                        i as int,
                        paths,
                        contents,
                    ),
                decreases kids.len() - i,
            {
                let ghost seg: Seq<Ev> = match kids[i as int] {
                    FsNode::Dir { .. } => plan_dir(m, qv, kids[i as int], paths, contents),
                    _ => Seq::empty(),
                };
                proof {
                    assert(plan_kids(m, qv, kids, i as int, paths, contents) == seg + plan_kids(
                        m,
                        qv,
                        kids,
                        i + 1,
                        paths,
                        contents,
                    ));
                }
                match &children[i] {
                    FsNode::Dir { .. } => {
                        proof {
                            assert(decreases_to!(whole => whole->Dir_children));
                            assert(whole->Dir_children == *children);
                            assert(decreases_to!(*children => children@));
                            assert(decreases_to!(children@ => children@[i as int]));
                        }
                        let ghost before = evs(out@);
                        plan_dir_exec(st, &q, &children[i], paths, contents, out);
                        proof {
                            assert(evs(out@) == before + seg);
                        }
                    },
                    _ => {},
                }
                i += 1;
            }
            proof {
                assert(plan_kids(m, qv, kids, kids.len() as int, paths, contents)
                    =~= Seq::<Ev>::empty());
                assert(evs(out@) + Seq::<Ev>::empty() =~= evs(out@));
                assert(out0 + plan_kids(m, qv, kids, 0, paths, contents) =~= evs(out@));
            }
            // child-directory renames, in reverse enumeration order
            let ghost out1 = evs(out@);
            let ghost rseg: Seq<Ev> = if paths {
                dir_renames(m, qv, kids, kids.len() as int)
            } else {
                Seq::empty()
            };
            if paths {
                let mut j: usize = children.len();
                while j > 0
                    invariant
                        j <= kids.len(),
                        m == st.model(),
                        whole == (FsNode::Dir { name: *name, children: *children }),
                        kids == children@,
                        qv == q.deep_view(),
                        out1 + dir_renames(m, qv, kids, kids.len() as int) == evs(out@)
                            + dir_renames(m, qv, kids, j as int),
                    decreases j,
                {
                    j -= 1;
                    let ghost seg: Seq<Ev> = match kids[j as int] {
                        FsNode::Dir { .. } => {
                            let fp0 = qv.push(kids[j as int].name_spec());
                            match rename_of(m, fp0) {
                                Some(to) => seq![Ev::Rename { from: fp0, to }],
                                None => Seq::empty(),
                            }
                        },
                        _ => Seq::empty(),
                    };
                    proof {
                        assert(dir_renames(m, qv, kids, j + 1) == seg + dir_renames(
                            m,
                            qv,
                            kids,
                            j as int,
                        ));
                    }
                    match &children[j] {
                        FsNode::Dir { name: dname, .. } => {
                            let fp = path_push(&q, dname);
                            proof {
                                assert(fp.deep_view() =~= qv.push(kids[j as int].name_spec()));
                            }
                            match rename_of_exec(st, &fp) {
                                Some(to) => {
                                    let ghost before = evs(out@);
                                    let ghost fpv = fp.deep_view();
                                    let ghost tov = to.deep_view();
                                    out.push(FsEvent::Rename { from: fp, to });
                                    proof {
                                        assert(evs(out@) =~= before.push(
                                            Ev::Rename { from: fpv, to: tov },
                                        ));
                                        assert(evs(out@) =~= before + seg);
                                    }
                                },
                                None => {
                                    proof {
                                        assert(evs(out@) =~= evs(out@) + seg);
                                    }
                                },
                            }
                        },
                        _ => {
                            proof {
                                assert(evs(out@) =~= evs(out@) + seg);
                            }
                        },
                    }
                }
                proof {
                    assert(dir_renames(m, qv, kids, 0) =~= Seq::<Ev>::empty());
                    assert(evs(out@) + Seq::<Ev>::empty() =~= evs(out@));
                }
            }
            proof {
                assert(evs(out@) =~= out1 + rseg);
            }
            // the files of this directory, in enumeration order
            let ghost out2 = evs(out@);
            let mut i2: usize = 0;
            while i2 < children.len()
                invariant
                    i2 <= kids.len(),
                    m == st.model(),
                    whole == *node,
                    whole == (FsNode::Dir { name: *name, children: *children }),
                    kids == children@,
                    qv == q.deep_view(),
                    out2 + file_list_events(m, qv, kids, 0, paths, contents) == evs(out@)
                        + file_list_events(m, qv, kids, i2 as int, paths, contents),
                decreases kids.len() - i2,
            {
                let ghost seg: Seq<Ev> = match kids[i2 as int] {
                    FsNode::File { name, text } => file_events(
                        m,
                        qv.push(name@),
                        text,
                        paths,
                        contents,
                    ),
                    _ => Seq::empty(),
                };
                proof {
                    assert(file_list_events(m, qv, kids, i2 as int, paths, contents) == seg
                        + file_list_events(m, qv, kids, i2 + 1, paths, contents));
                }
                match &children[i2] {
                    FsNode::File { name: fname, text } => {
                        let fp = path_push(&q, fname);
                        proof {
                            assert(fp.deep_view() =~= qv.push(kids[i2 as int].name_spec()));
                            assert(kids[i2 as int] == (FsNode::File { name: *fname, text: *text }));
                        }
                        let ghost before = evs(out@);
                        emit_file_events(st, fp, text, paths, contents, out);
                        proof {
                            assert(evs(out@) == before + seg);
                        }
                    },
                    _ => {
                        proof {
                            assert(evs(out@) =~= evs(out@) + seg);
                        }
                    },
                }
                i2 += 1;
            }
            proof {
                assert(file_list_events(m, qv, kids, kids.len() as int, paths, contents)
                    =~= Seq::<Ev>::empty());
                assert(evs(out@) + Seq::<Ev>::empty() =~= evs(out@));
                let fseg = file_list_events(m, qv, kids, 0, paths, contents);
                assert(evs(out@) =~= out2 + fseg);
                assert(plan_dir(m, p.deep_view(), whole, paths, contents) == plan_kids(
                    m,
                    qv,
                    kids,
                    0,
                    paths,
                    contents,
                ) + rseg + fseg);
                assert(evs(out@) =~= out0 + (plan_kids(m, qv, kids, 0, paths, contents) + rseg
                    + fseg));
            }
        },
    }
}

/// Plans one traversal of `target`: the events, in execution order.
fn plan_exec(st: &Strategy, target: &FsNode, paths: bool, contents: bool, dry_run: bool) -> (out:
    Vec<FsEvent>)
    ensures
        evs(out@) == plan_spec(st.model(), *target, paths, contents, dry_run),
{
    let mut out: Vec<FsEvent> = Vec::new();
    proof {
        assert(evs(out@) =~= Seq::<Ev>::empty());
    }
    match target {
        FsNode::File { name, text } => {
            let mut fp: Vec<String> = Vec::new();
            fp.push(name.clone());
            proof {
                assert(fp.deep_view() =~= seq![name@]);
                assert(*target == (FsNode::File { name: *name, text: *text }));
            }
            emit_file_events(st, fp, text, paths, contents, &mut out);
            proof {
                assert(evs(out@) =~= Seq::<Ev>::empty() + evs(out@));
            }
        },
        FsNode::Dir { name, .. } => {
            let base: Vec<String> = Vec::new();
            proof {
                assert(base.deep_view() =~= Seq::<Seq<char>>::empty());
            }
            plan_dir_exec(st, &base, target, paths, contents, &mut out);
            let ghost mid = evs(out@);
            let ghost tail: Seq<Ev> = if paths {
                match rename_of(st.model(), seq![name@]) {
                    Some(to) => seq![Ev::Rename { from: seq![name@], to }],
                    None => Seq::empty(),
                }
            } else {
                Seq::empty()
            };
            if paths {
                let mut fp: Vec<String> = Vec::new();
                fp.push(name.clone());
                proof {
                    assert(fp.deep_view() =~= seq![name@]);
                }
                match rename_of_exec(st, &fp) {
                    Some(to) => {
                        let ghost before = evs(out@);
                        let ghost tov = to.deep_view();
                        out.push(FsEvent::Rename { from: fp, to });
                        proof {
                            assert(evs(out@) =~= before.push(Ev::Rename {
                                from: seq![name@],
                                to: tov,
                            }));
                        }
                    },
                    None => {},
                }
            }
            proof {
                assert(evs(out@) =~= mid + tail);
            }
        },
    }
    out
}

/// The number of file visits among the events.
pub open spec fn count_visits(s: Seq<Ev>) -> int
    decreases s.len(),
{
    if s.len() == 0 {
        0
    } else {
        count_visits(s.drop_last()) + (if s.last() is Visit {
            1int
        } else {
            0int
        })
    }
}

/// The number of content writes among the events.
pub open spec fn count_writes(s: Seq<Ev>) -> int
    decreases s.len(),
{
    if s.len() == 0 {
        0
    } else {
        count_writes(s.drop_last()) + (if s.last() is Write {
            1int
        } else {
            0int
        })
    }
}

/// The number of renames among the events.
pub open spec fn count_renames(s: Seq<Ev>) -> int
    decreases s.len(),
{
    if s.len() == 0 {
        0
    } else {
        count_renames(s.drop_last()) + (if s.last() is Rename {
            1int
        } else {
            0int
        })
    }
}

/// Whether the counters are exactly the event counts of `s`.
pub open spec fn counts_of(r: TemplatizeResult, s: Seq<Ev>) -> bool {
    &&& r.files_processed as int == count_visits(s)
    &&& r.content_changes as int == count_writes(s)
    &&& r.paths_renamed as int == count_renames(s)
}

proof fn lemma_counts_bounded(s: Seq<Ev>)
    ensures
        0 <= count_visits(s) <= s.len(),
        0 <= count_writes(s) <= s.len(),
        0 <= count_renames(s) <= s.len(),
    decreases s.len(),
{
    if s.len() > 0 {
        lemma_counts_bounded(s.drop_last());
    }
}

/// Counts the events of a plan.
fn count_events(v: &Vec<FsEvent>) -> (r: TemplatizeResult)
    ensures
        counts_of(r, evs(v@)),
{
    let ghost s = evs(v@);
    let mut visits: usize = 0;
    let mut writes: usize = 0;
    let mut renames: usize = 0;
    let mut i: usize = 0;
    proof {
        assert(s.subrange(0, 0) =~= Seq::<Ev>::empty());
    }
    while i < v.len()
        invariant
            i <= v@.len(),
            s == evs(v@),
            visits as int == count_visits(s.subrange(0, i as int)),
            writes as int == count_writes(s.subrange(0, i as int)),
            renames as int == count_renames(s.subrange(0, i as int)),
        decreases v@.len() - i,
    {
        proof {
            lemma_counts_bounded(s.subrange(0, i as int));
            assert(s.subrange(0, i + 1).drop_last() =~= s.subrange(0, i as int));
            assert(s.subrange(0, i + 1).last() == s[i as int]);
        }
        match &v[i] {
            FsEvent::Visit { .. } => {
                visits += 1;
            },
            FsEvent::Write { .. } => {
                writes += 1;
            },
            FsEvent::Rename { .. } => {
                renames += 1;
            },
        }
        i += 1;
    }
    proof {
        assert(s.subrange(0, v@.len() as int) =~= s);
    }
    TemplatizeResult { files_processed: visits, paths_renamed: renames, content_changes: writes }
}

/// Whether an event needs the caller's approval before it is applied.
pub open spec fn is_proposal(e: Ev) -> bool {
    e is Write || e is Rename
}

/// Whether proposal number `k` is approved: answers apply in proposal
/// order, and a missing answer approves, so an empty answer list is the
/// non-interactive run.
pub open spec fn approved(approvals: Seq<bool>, k: int) -> bool {
    k >= approvals.len() || (0 <= k && approvals[k])
}

/// The events from index `i` on with the denied proposals removed,
/// counting proposals from `k`.
pub open spec fn filter_from(s: Seq<Ev>, approvals: Seq<bool>, i: int, k: int) -> Seq<Ev>
    decreases s.len() - i,
{
    if i < 0 || i >= s.len() {
        Seq::empty()
    } else if is_proposal(s[i]) {
        (if approved(approvals, k) {
            seq![s[i]]
        } else {
            Seq::empty()
        }) + filter_from(s, approvals, i + 1, k + 1)
    } else {
        seq![s[i]] + filter_from(s, approvals, i + 1, k)
    }
}

/// The plan with every proposal the answers deny removed; visits always
/// stay, so the visit counter is unaffected by the answers.
pub open spec fn filter_events(s: Seq<Ev>, approvals: Seq<bool>) -> Seq<Ev> {
    filter_from(s, approvals, 0, 0)
}

fn clone_event(e: &FsEvent) -> (r: FsEvent)
    ensures
        r@ == e@,
{
    match e {
        FsEvent::Visit { path } => FsEvent::Visit { path: clone_path(path) },
        FsEvent::Write { path, text } => FsEvent::Write { path: clone_path(path), text: text.clone() },
        FsEvent::Rename { from, to } => FsEvent::Rename {
            from: clone_path(from),
            to: clone_path(to),
        },
    }
}

/// Applies the approval answers to a plan's events.
fn filter_events_exec(v: &Vec<FsEvent>, approvals: &Vec<bool>) -> (out: Vec<FsEvent>)
    ensures
        evs(out@) == filter_events(evs(v@), approvals@),
{
    let ghost s = evs(v@);
    let mut out: Vec<FsEvent> = Vec::new();
    let mut i: usize = 0;
    let mut k: usize = 0;
    proof {
        assert(evs(out@) =~= Seq::<Ev>::empty());
    }
    while i < v.len()
        invariant
            i <= v@.len(),
            k <= i,
            s == evs(v@),
            filter_events(s, approvals@) == evs(out@) + filter_from(
                s,
                approvals@,
                i as int,
                k as int,
            ),
        decreases v@.len() - i,
    {
        let keep: bool;
        let proposal: bool;
        match &v[i] {
            FsEvent::Visit { .. } => {
                keep = true;
                proposal = false;
            },
            _ => {
                proposal = true;
                keep = k >= approvals.len() || approvals[k];
            },
        }
        if keep {
            let ghost before = evs(out@);
            let e = clone_event(&v[i]);
            out.push(e);
            proof {
                assert(evs(out@) =~= before.push(s[i as int]));
                assert(before.push(s[i as int]) =~= before + seq![s[i as int]]);
            }
        }
        if proposal {
            k += 1;
        }
        i += 1;
    }
    proof {
        assert(filter_from(s, approvals@, v@.len() as int, k as int) =~= Seq::<Ev>::empty());
        assert(evs(out@) + Seq::<Ev>::empty() =~= evs(out@));
    }
    out
}

/// The outcome of planning one traversal: the events in execution order,
/// and the counters for reporting.
pub struct TreePlan {
    pub events: Vec<FsEvent>,
    pub result: TemplatizeResult,
}

/// Plans an exact-literal traversal of `target`: every scheduled event
/// and the counters, in the safe order. Nothing is touched; the caller
/// executes the events, or none on a dry run.
pub fn process_directory(
    target: &FsNode,
    token: &str,
    replacement: &str,
    process_paths: bool,
    process_contents: bool,
    dry_run: bool,
) -> (r: TreePlan)
    ensures
        evs(r.events@) == plan_spec(
            StrategyModel::Exact { tok: token@, rep: replacement@ },
            *target,
            process_paths,
            process_contents,
            dry_run,
        ),
        counts_of(r.result, evs(r.events@)),
{
    let st = Strategy::Exact(ExactTemplater::new(token, replacement));
    let events = plan_exec(&st, target, process_paths, process_contents, dry_run);
    let result = count_events(&events);
    TreePlan { events, result }
}

/// As `process_directory`, with the caller's approval answers applied:
/// the events the answers deny are dropped and not counted, while visits
/// are counted regardless. An empty answer list approves everything.
pub fn process_directory_interactive(
    target: &FsNode,
    token: &str,
    replacement: &str,
    process_paths: bool,
    process_contents: bool,
    dry_run: bool,
    approvals: &Vec<bool>,
) -> (r: TreePlan)
    ensures
        evs(r.events@) == filter_events(
            plan_spec(
                StrategyModel::Exact { tok: token@, rep: replacement@ },
                *target,
                process_paths,
                process_contents,
                dry_run,
            ),
            approvals@,
        ),
        counts_of(r.result, evs(r.events@)),
{
    let st = Strategy::Exact(ExactTemplater::new(token, replacement));
    let events0 = plan_exec(&st, target, process_paths, process_contents, dry_run);
    let events = filter_events_exec(&events0, approvals);
    let result = count_events(&events);
    TreePlan { events, result }
}

/// Plans a case-shape traversal of `target`; refused exactly when the
/// token or the replacement is not a compound word, with the offending
/// field named.
pub fn process_directory_shapes(
    target: &FsNode,
    token: &str,
    replacement: &str,
    process_paths: bool,
    process_contents: bool,
    dry_run: bool,
) -> (r: Result<TreePlan, crate::TemplateError>)
    ensures
        match r {
            Ok(plan) => crate::shapes::is_compound(crate::shapes::clean_word(token@))
                && crate::shapes::is_compound(crate::shapes::clean_word(replacement@)) && evs(
                plan.events@,
            ) == plan_spec(
                StrategyModel::Shapes {
                    entries: crate::shapes::sort_by_len(
                        crate::shapes::mapping_pairs(token@, replacement@),
                    ),
                },
                *target,
                process_paths,
                process_contents,
                dry_run,
            ) && counts_of(plan.result, evs(plan.events@)),
            Err(e) => (!crate::shapes::is_compound(crate::shapes::clean_word(token@))
                || !crate::shapes::is_compound(crate::shapes::clean_word(replacement@))) && (
            e matches crate::TemplateError::Template { message } && message@ == (
            if !crate::shapes::is_compound(crate::shapes::clean_word(token@)) {
                crate::shapes::not_compound_message("token"@, token@)
            } else {
                crate::shapes::not_compound_message("replacement"@, replacement@)
            })),
        },
{
    let templater = match CaseShapeTemplater::new(token, replacement) {
        Ok(t) => t,
        Err(e) => {
            return Err(e);
        },
    };
    let st = Strategy::Shapes(templater);
    let events = plan_exec(&st, target, process_paths, process_contents, dry_run);
    let result = count_events(&events);
    Ok(TreePlan { events, result })
}

/// As `process_directory_shapes`, with the caller's approval answers
/// applied.
pub fn process_directory_shapes_interactive(
    target: &FsNode,
    token: &str,
    replacement: &str,
    process_paths: bool,
    process_contents: bool,
    dry_run: bool,
    approvals: &Vec<bool>,
) -> (r: Result<TreePlan, crate::TemplateError>)
    ensures
        match r {
            Ok(plan) => evs(plan.events@) == filter_events(
                plan_spec(
                    StrategyModel::Shapes {
                        entries: crate::shapes::sort_by_len(
                            crate::shapes::mapping_pairs(token@, replacement@),
                        ),
                    },
                    *target,
                    process_paths,
                    process_contents,
                    dry_run,
                ),
                approvals@,
            ) && counts_of(plan.result, evs(plan.events@)),
            Err(e) => (!crate::shapes::is_compound(crate::shapes::clean_word(token@))
                || !crate::shapes::is_compound(crate::shapes::clean_word(replacement@))) && (
            e matches crate::TemplateError::Template { message } && message@ == (
            if !crate::shapes::is_compound(crate::shapes::clean_word(token@)) {
                crate::shapes::not_compound_message("token"@, token@)
            } else {
                crate::shapes::not_compound_message("replacement"@, replacement@)
            })),
        },
{
    let templater = match CaseShapeTemplater::new(token, replacement) {
        Ok(t) => t,
        Err(e) => {
            return Err(e);
        },
    };
    let st = Strategy::Shapes(templater);
    let events0 = plan_exec(&st, target, process_paths, process_contents, dry_run);
    let events = filter_events_exec(&events0, approvals);
    let result = count_events(&events);
    Ok(TreePlan { events, result })
}

/// Plans an escaping pass over `target`: contents only, never a rename.
pub fn escape_jinja_syntax(target: &FsNode, dry_run: bool) -> (r: TreePlan)
    ensures
        evs(r.events@) == plan_spec(StrategyModel::Escape, *target, false, true, dry_run),
        counts_of(r.result, evs(r.events@)),
{
    let escaper = match JinjaEscaper::new() {
        Ok(e) => e,
        Err(_) => {
            proof {
                assert(false);
            }
            JinjaEscaper {  }
        },
    };
    let st = Strategy::Escape(escaper);
    let events = plan_exec(&st, target, false, true, dry_run);
    let result = count_events(&events);
    TreePlan { events, result }
}

/// As `escape_jinja_syntax`, with the caller's approval answers applied.
pub fn escape_jinja_syntax_interactive(target: &FsNode, dry_run: bool, approvals: &Vec<bool>) -> (r:
    TreePlan)
    ensures
        evs(r.events@) == filter_events(
            plan_spec(StrategyModel::Escape, *target, false, true, dry_run),
            approvals@,
        ),
        counts_of(r.result, evs(r.events@)),
{
    let escaper = match JinjaEscaper::new() {
        Ok(e) => e,
        Err(_) => {
            proof {
                assert(false);
            }
            JinjaEscaper {  }
        },
    };
    let st = Strategy::Escape(escaper);
    let events0 = plan_exec(&st, target, false, true, dry_run);
    let events = filter_events_exec(&events0, approvals);
    let result = count_events(&events);
    TreePlan { events, result }
}

/// Checks well-formedness of a tree model, so that an unverified caller
/// can establish the hypothesis of the ordering law.
pub fn check_wf(node: &FsNode) -> (b: bool)
    ensures
        b == wf_node(*node),
    decreases *node,
{
    match node {
        FsNode::File { .. } => true,
        FsNode::Dir { name, children } => {
            let ghost whole: FsNode = *node;
            let mut i: usize = 0;
            let mut ok = true;
            while i < children.len()
                invariant
                    i <= children@.len(),
                    whole == *node,
                    whole == (FsNode::Dir { name: *name, children: *children }),
                    ok == (wf_prefix(children@, i as int) && distinct_prefix(
                        children@,
                        i as int,
                    )),
                decreases children@.len() - i,
            {
                proof {
                    assert(decreases_to!(whole => whole->Dir_children));
                    assert(whole->Dir_children == *children);
                    assert(decreases_to!(*children => children@));
                    assert(decreases_to!(children@ => children@[i as int]));
                }
                let cw = check_wf(&children[i]);
                let mut fresh = true;
                let ni = node_name(&children[i]);
                let mut j: usize = 0;
                while j < i
                    invariant
                        j <= i <= children@.len(),
                        whole == (FsNode::Dir { name: *name, children: *children }),
                        ni@ == children@[i as int].name_spec(),
                        fresh == (forall|x: int|
                            0 <= x < j ==> children@[x].name_spec() != children@[i as int].name_spec()),
                    decreases i - j,
                {
                    let nj = node_name(&children[j]);
                    if chars_eq_str(&nj, &ni) {
                        fresh = false;
                    }
                    j += 1;
                }
                ok = ok && cw && fresh;
                proof {
                    assert(wf_prefix(children@, i + 1) == (wf_prefix(children@, i as int)
                        && wf_node(children@[i as int])));
                    assert(distinct_prefix(children@, i + 1) == (distinct_prefix(
                        children@,
                        i as int,
                    ) && (forall|x: int|
                        0 <= x < i ==> children@[x].name_spec() != children@[i as int].name_spec())));
                }
                i += 1;
            }
            proof {
                lemma_wf_prefix_full(children@);
            }
            ok
        },
    }
}

/// Well-formedness of the first `i` children.
pub open spec fn wf_prefix(kids: Seq<FsNode>, i: int) -> bool {
    forall|x: int| 0 <= x < i ==> wf_node(#[trigger] kids[x])
}

/// Distinctness of the names of the first `i` children.
pub open spec fn distinct_prefix(kids: Seq<FsNode>, i: int) -> bool {
    forall|x: int, y: int| 0 <= x < y < i ==> kids[x].name_spec() != kids[y].name_spec()
}

/// Pointwise well-formedness of a whole list is its recursive form.
proof fn lemma_wf_prefix_full(kids: Seq<FsNode>)
    ensures
        wf_children(kids) == wf_prefix(kids, kids.len() as int),
    decreases kids.len(),
{
    if kids.len() > 0 {
        lemma_wf_prefix_full(kids.skip(1));
        assert forall|x: int| 0 <= x < kids.skip(1).len() implies kids.skip(1)[x] == kids[x + 1] by {}
        if wf_prefix(kids, kids.len() as int) {
            assert(wf_prefix(kids.skip(1), kids.skip(1).len() as int));
        }
        if wf_children(kids) {
            assert forall|x: int| 0 <= x < kids.len() implies wf_node(#[trigger] kids[x]) by {
                if x > 0 {
                    assert(kids.skip(1)[x - 1] == kids[x]);
                    assert(wf_prefix(kids.skip(1), kids.skip(1).len() as int));
                }
            }
        }
    }
}

fn node_name(n: &FsNode) -> (r: String)
    ensures
        r@ == n.name_spec(),
{
    match n {
        FsNode::File { name, .. } => name.clone(),
        FsNode::Dir { name, .. } => name.clone(),
    }
}

fn chars_eq_str(a: &String, b: &String) -> (r: bool)
    ensures
        r == (a@ == b@),
{
    *a == *b
}

/// For a fixed tree and options the planner schedules the same events,
/// and so the same counters, whether or not the run is dry: the numbers a
/// dry run reports are exactly a real run's.
pub proof fn lemma_dry_run_counts(st: StrategyModel, target: FsNode, paths: bool, contents: bool)
    ensures
        plan_spec(st, target, paths, contents, true) == plan_spec(st, target, paths, contents, false),
        count_visits(plan_spec(st, target, paths, contents, true)) == count_visits(
            plan_spec(st, target, paths, contents, false),
        ),
        count_writes(plan_spec(st, target, paths, contents, true)) == count_writes(
            plan_spec(st, target, paths, contents, false),
        ),
        count_renames(plan_spec(st, target, paths, contents, true)) == count_renames(
            plan_spec(st, target, paths, contents, false),
        ),
{
}

/// `a` is a (not necessarily proper) segmentwise prefix of `b`.
pub open spec fn is_prefix_path(a: Seq<Seq<char>>, b: Seq<Seq<char>>) -> bool {
    a.len() <= b.len() && a == b.subrange(0, a.len() as int)
}

/// The source path of a rename; the empty path for any other event.
pub open spec fn rename_from(e: Ev) -> Seq<Seq<char>> {
    match e {
        Ev::Rename { from, .. } => from,
        _ => Seq::empty(),
    }
}

/// The path of a write; the empty path for any other event.
pub open spec fn write_path(e: Ev) -> Seq<Seq<char>> {
    match e {
        Ev::Write { path, .. } => path,
        _ => Seq::empty(),
    }
}

/// The path an event works at: its own path, or a rename's source.
pub open spec fn ev_path(e: Ev) -> Seq<Seq<char>> {
    match e {
        Ev::Visit { path } => path,
        Ev::Write { path, .. } => path,
        Ev::Rename { from, .. } => from,
    }
}

/// The ordering law's shape: no write follows a rename whose source is a
/// prefix of the path the write uses.
pub open spec fn safe_order(s: Seq<Ev>) -> bool {
    forall|i: int, j: int|
        0 <= i < j < s.len() && s[i] is Rename && s[j] is Write ==> !is_prefix_path(
            rename_from(s[i]),
            write_path(s[j]),
        )
}

/// No rename of `s1` conflicts with a later write of `s2`.
pub open spec fn no_cross(s1: Seq<Ev>, s2: Seq<Ev>) -> bool {
    forall|i: int, j: int|
        0 <= i < s1.len() && 0 <= j < s2.len() && s1[i] is Rename && s2[j] is Write
            ==> !is_prefix_path(rename_from(s1[i]), write_path(s2[j]))
}

/// Safety is preserved by concatenation when no rename of the first part
/// conflicts with a write of the second.
proof fn lemma_safe_concat(s1: Seq<Ev>, s2: Seq<Ev>)
    requires
        safe_order(s1),
        safe_order(s2),
        no_cross(s1, s2),
    ensures
        safe_order(s1 + s2),
{
    let s = s1 + s2;
    assert forall|i: int, j: int|
        0 <= i < j < s.len() && s[i] is Rename && s[j] is Write implies !is_prefix_path(
        rename_from(s[i]),
        write_path(s[j]),
    ) by {
        if j < s1.len() {
            assert(s[i] == s1[i] && s[j] == s1[j]);
        } else if i >= s1.len() {
            assert(s[i] == s2[i - s1.len()] && s[j] == s2[j - s1.len()]);
        } else {
            assert(s[i] == s1[i] && s[j] == s2[j - s1.len()]);
        }
    }
}

/// A path longer than another is no prefix of it.
proof fn lemma_longer_not_prefix(x: Seq<Seq<char>>, y: Seq<Seq<char>>)
    requires
        x.len() > y.len(),
    ensures
        !is_prefix_path(x, y),
{
}

/// Every path is a prefix of itself.
proof fn lemma_prefix_refl(x: Seq<Seq<char>>)
    ensures
        is_prefix_path(x, x),
{
    assert(x.subrange(0, x.len() as int) =~= x);
}

/// Paths under differently named siblings never prefix one another.
proof fn lemma_branch_not_prefix(
    q: Seq<Seq<char>>,
    na: Seq<char>,
    nb: Seq<char>,
    x: Seq<Seq<char>>,
    y: Seq<Seq<char>>,
)
    requires
        is_prefix_path(q.push(na), x),
        is_prefix_path(q.push(nb), y),
        na != nb,
    ensures
        !is_prefix_path(x, y),
{
    if is_prefix_path(x, y) {
        assert(x[q.len() as int] == q.push(na)[q.len() as int]);
        assert(y[q.len() as int] == q.push(nb)[q.len() as int]);
        assert(x.subrange(0, x.len() as int) =~= x);
        assert(x[q.len() as int] == y.subrange(0, x.len() as int)[q.len() as int]);
    }
}

/// Every event of one file's plan works at that file's own path; its
/// rename, if any, comes last, after its write.
proof fn lemma_file_events_props(
    st: StrategyModel,
    fp: Seq<Seq<char>>,
    text: Option<String>,
    paths: bool,
    contents: bool,
)
    ensures
        safe_order(file_events(st, fp, text, paths, contents)),
        forall|x: int|
            0 <= x < file_events(st, fp, text, paths, contents).len() ==> ev_path(
                #[trigger] file_events(st, fp, text, paths, contents)[x],
            ) == fp,
{
    let s = file_events(st, fp, text, paths, contents);
    let mid: Seq<Ev> = if contents {
        match text {
            Some(t) => match st_content(st, t@) {
                Some(nt) => seq![Ev::Write { path: fp, text: nt }],
                None => Seq::empty(),
            },
            None => Seq::empty(),
        }
    } else {
        Seq::empty()
    };
    let tail: Seq<Ev> = if paths {
        match rename_of(st, fp) {
            Some(q) => seq![Ev::Rename { from: fp, to: q }],
            None => Seq::empty(),
        }
    } else {
        Seq::empty()
    };
    assert(s == seq![Ev::Visit { path: fp }] + mid + tail);
    assert forall|x: int| 0 <= x < s.len() implies ev_path(#[trigger] s[x]) == fp by {
        if x == 0 {
            assert(s[0] == Ev::Visit { path: fp });
        } else if x < 1 + mid.len() {
            assert(s[x] == mid[x - 1]);
        } else {
            assert(s[x] == tail[x - 1 - mid.len()]);
        }
    }
    assert forall|i: int, j: int|
        0 <= i < j < s.len() && s[i] is Rename && s[j] is Write implies !is_prefix_path(
        rename_from(s[i]),
        write_path(s[j]),
    ) by {
        if i == 0 {
            assert(s[0] == Ev::Visit { path: fp });
        } else if i < 1 + mid.len() {
            assert(s[i] == mid[i - 1]);
        } else {
            assert(s[i] == tail[i - 1 - mid.len()]);
            assert(j >= 1 + mid.len() + tail.len());
        }
    }
}

/// Every event of a child subtree's plan lies strictly under the subtree.
pub open spec fn subtree_events(s: Seq<Ev>, qc: Seq<Seq<char>>) -> bool {
    forall|x: int|
        0 <= x < s.len() ==> is_prefix_path(qc, ev_path(#[trigger] s[x])) && ev_path(s[x]).len()
            > qc.len()
}

/// Every event of the child-directory recursions lies strictly inside
/// some child subtree: under `q`, more than one segment deeper, and, per
/// the second clause, never under a child enumerated before index `i`.
pub open spec fn kids_deep(s: Seq<Ev>, q: Seq<Seq<char>>) -> bool {
    forall|x: int|
        0 <= x < s.len() ==> is_prefix_path(q, ev_path(#[trigger] s[x])) && ev_path(s[x]).len()
            > q.len() + 1
}

/// No event of `s` sits under a child named as one of the first `i`
/// children.
pub open spec fn avoids_below(s: Seq<Ev>, q: Seq<Seq<char>>, kids: Seq<FsNode>, i: int) -> bool {
    forall|x: int, c: int|
        0 <= x < s.len() && 0 <= c < i ==> ev_path(#[trigger] s[x])[q.len() as int]
            != (#[trigger] kids[c]).name_spec()
}

/// Every event of the child-directory rename pass is the rename of some
/// child directory below index `n`, at its own path.
pub open spec fn dir_rename_events(s: Seq<Ev>, q: Seq<Seq<char>>, kids: Seq<FsNode>, n: int) -> bool {
    forall|x: int|
        0 <= x < s.len() ==> (#[trigger] s[x]) is Rename && exists|c: int|
            0 <= c < n && kids[c] is Dir && rename_from(s[x]) == q.push(kids[c].name_spec())
}

/// Every event of the file pass sits exactly one level under `q`.
pub open spec fn file_level(s: Seq<Ev>, q: Seq<Seq<char>>) -> bool {
    forall|x: int|
        0 <= x < s.len() ==> is_prefix_path(q, ev_path(#[trigger] s[x])) && ev_path(s[x]).len()
            == q.len() + 1
}

/// No event of `s` sits under a child named as a directory.
pub open spec fn avoids_dirs(s: Seq<Ev>, q: Seq<Seq<char>>, kids: Seq<FsNode>) -> bool {
    forall|x: int, c: int|
        0 <= x < s.len() && 0 <= c < kids.len() && (#[trigger] kids[c]) is Dir ==> ev_path(
            #[trigger] s[x],
        )[q.len() as int] != kids[c].name_spec()
}

/// Names of the children are pairwise distinct.
pub open spec fn distinct_names(kids: Seq<FsNode>) -> bool {
    forall|x: int, y: int|
        0 <= x < y < kids.len() ==> kids[x].name_spec() != kids[y].name_spec()
}

proof fn lemma_dir_renames_props(st: StrategyModel, q: Seq<Seq<char>>, kids: Seq<FsNode>, n: int)
    ensures
        dir_rename_events(dir_renames(st, q, kids, n), q, kids, n),
        safe_order(dir_renames(st, q, kids, n)),
    decreases n,
{
    let s = dir_renames(st, q, kids, n);
    if n <= 0 || n > kids.len() {
    } else {
        lemma_dir_renames_props(st, q, kids, n - 1);
        let rest = dir_renames(st, q, kids, n - 1);
        let seg: Seq<Ev> = match kids[n - 1] {
            FsNode::Dir { .. } => {
                let fp = q.push(kids[n - 1].name_spec());
                match rename_of(st, fp) {
                    Some(to) => seq![Ev::Rename { from: fp, to }],
                    None => Seq::empty(),
                }
            },
            _ => Seq::empty(),
        };
        assert(s == seg + rest);
        assert forall|x: int| 0 <= x < s.len() implies (#[trigger] s[x]) is Rename && exists|c: int|
            0 <= c < n && kids[c] is Dir && rename_from(s[x]) == q.push(kids[c].name_spec()) by {
            if x < seg.len() {
                assert(s[x] == seg[x]);
                assert(kids[n - 1] is Dir && rename_from(s[x]) == q.push(
                    kids[n - 1].name_spec(),
                ));
            } else {
                assert(s[x] == rest[x - seg.len()]);
                let c = choose|c: int|
                    0 <= c < n - 1 && kids[c] is Dir && rename_from(rest[x - seg.len()])
                        == q.push(kids[c].name_spec());
                assert(0 <= c < n && kids[c] is Dir && rename_from(s[x]) == q.push(
                    kids[c].name_spec(),
                ));
            }
        }
        assert forall|i: int, j: int|
            0 <= i < j < s.len() && s[i] is Rename && s[j] is Write implies !is_prefix_path(
            rename_from(s[i]),
            write_path(s[j]),
        ) by {
            assert(s[j] is Rename);
        }
    }
}

#[verifier::rlimit(60)]
proof fn lemma_file_list_props(
    st: StrategyModel,
    q: Seq<Seq<char>>,
    kids: Seq<FsNode>,
    i: int,
    paths: bool,
    contents: bool,
)
    requires
        distinct_names(kids),
    ensures
        file_level(file_list_events(st, q, kids, i, paths, contents), q),
        avoids_below(file_list_events(st, q, kids, i, paths, contents), q, kids, i),
        avoids_dirs(file_list_events(st, q, kids, i, paths, contents), q, kids),
        safe_order(file_list_events(st, q, kids, i, paths, contents)),
    decreases kids.len() - i,
{
    let s = file_list_events(st, q, kids, i, paths, contents);
    if i < 0 || i >= kids.len() {
    } else {
        lemma_file_list_props(st, q, kids, i + 1, paths, contents);
        let rest = file_list_events(st, q, kids, i + 1, paths, contents);
        let seg: Seq<Ev> = match kids[i] {
            FsNode::File { name, text } => file_events(st, q.push(name@), text, paths, contents),
            _ => Seq::empty(),
        };
        assert(s == seg + rest);
        match kids[i] {
            FsNode::File { name, text } => {
                lemma_file_events_props(st, q.push(name@), text, paths, contents);
                lemma_prefix_refl(q.push(name@));
                assert forall|x: int| 0 <= x < seg.len() implies ev_path(#[trigger] seg[x])
                    == q.push(kids[i].name_spec()) by {}
            },
            _ => {},
        }
        assert forall|x: int| 0 <= x < s.len() implies is_prefix_path(
            q,
            ev_path(#[trigger] s[x]),
        ) && ev_path(s[x]).len() == q.len() + 1 by {
            if x < seg.len() {
                assert(s[x] == seg[x]);
                assert(ev_path(s[x]) == q.push(kids[i].name_spec()));
                assert(q.push(kids[i].name_spec()).subrange(0, q.len() as int) =~= q);
            } else {
                assert(s[x] == rest[x - seg.len()]);
            }
        }
        assert forall|x: int, c: int| 0 <= x < s.len() && 0 <= c < i implies ev_path(
            #[trigger] s[x],
        )[q.len() as int] != (#[trigger] kids[c]).name_spec() by {
            if x < seg.len() {
                assert(s[x] == seg[x]);
                assert(ev_path(s[x]) == q.push(kids[i].name_spec()));
                assert(ev_path(s[x])[q.len() as int] == kids[i].name_spec());
            } else {
                assert(s[x] == rest[x - seg.len()]);
            }
        }
        assert forall|x: int, c: int|
            0 <= x < s.len() && 0 <= c < kids.len() && (#[trigger] kids[c]) is Dir implies ev_path(
            #[trigger] s[x],
        )[q.len() as int] != kids[c].name_spec() by {
            if x < seg.len() {
                assert(s[x] == seg[x]);
                assert(ev_path(s[x])[q.len() as int] == kids[i].name_spec());
                if c < i {
                } else {
                    assert(i < c || i == c);
                    assert(kids[i] is File);
                }
            } else {
                assert(s[x] == rest[x - seg.len()]);
            }
        }
        assert(no_cross(seg, rest)) by {
            assert forall|a: int, b: int|
                0 <= a < seg.len() && 0 <= b < rest.len() && seg[a] is Rename
                    && rest[b] is Write implies !is_prefix_path(
                rename_from(seg[a]),
                write_path(rest[b]),
            ) by {
                let from = rename_from(seg[a]);
                let wp = write_path(rest[b]);
                assert(from == ev_path(seg[a]));
                assert(wp == ev_path(rest[b]));
                assert(from == q.push(kids[i].name_spec()));
                assert(wp[q.len() as int] != kids[i].name_spec());
                if is_prefix_path(from, wp) {
                    assert(from[q.len() as int] == wp.subrange(0, from.len() as int)[
                        q.len() as int
                    ]);
                }
            }
        }
        lemma_safe_concat(seg, rest);
    }
}

#[verifier::rlimit(60)]
proof fn lemma_plan_dir_props(
    st: StrategyModel,
    p: Seq<Seq<char>>,
    node: FsNode,
    paths: bool,
    contents: bool,
)
    requires
        wf_node(node),
        node is Dir,
    ensures
        subtree_events(plan_dir(st, p, node, paths, contents), p.push(node.name_spec())),
        safe_order(plan_dir(st, p, node, paths, contents)),
    decreases node, 1int,
{
    let q = p.push(node.name_spec());
    match node {
        FsNode::Dir { name, children } => {
            let kids = children@;
            lemma_wf_prefix_full(kids);
            let s1 = plan_kids(st, q, kids, 0, paths, contents);
            let s2: Seq<Ev> = if paths {
                dir_renames(st, q, kids, kids.len() as int)
            } else {
                Seq::empty()
            };
            let s3 = file_list_events(st, q, kids, 0, paths, contents);
            let s = plan_dir(st, p, node, paths, contents);
            assert(s == s1 + s2 + s3);
            lemma_plan_kids_props(st, q, kids, 0, paths, contents);
            lemma_dir_renames_props(st, q, kids, kids.len() as int);
            lemma_file_list_props(st, q, kids, 0, paths, contents);
            // every event lies strictly under the directory itself
            assert forall|x: int| 0 <= x < s.len() implies is_prefix_path(
                q,
                ev_path(#[trigger] s[x]),
            ) && ev_path(s[x]).len() > q.len() by {
                if x < s1.len() {
                    assert(s[x] == s1[x]);
                } else if x < s1.len() + s2.len() {
                    assert(s[x] == s2[x - s1.len()]);
                    let c = choose|c: int|
                        0 <= c < kids.len() && kids[c] is Dir && rename_from(s2[x - s1.len()])
                            == q.push(kids[c].name_spec());
                    assert(ev_path(s[x]) == q.push(kids[c].name_spec()));
                    assert(q.push(kids[c].name_spec()).subrange(0, q.len() as int) =~= q);
                } else {
                    assert(s[x] == s3[x - s1.len() - s2.len()]);
                }
            }
            // safety across the three sections
            assert(no_cross(s1, s2)) by {
                assert forall|a: int, b: int|
                    0 <= a < s1.len() && 0 <= b < s2.len() && s1[a] is Rename
                        && s2[b] is Write implies !is_prefix_path(
                    rename_from(s1[a]),
                    write_path(s2[b]),
                ) by {
                    assert(s2[b] is Rename);
                }
            }
            lemma_safe_concat(s1, s2);
            assert(no_cross(s1 + s2, s3)) by {
                assert forall|a: int, b: int|
                    0 <= a < (s1 + s2).len() && 0 <= b < s3.len() && (s1 + s2)[a] is Rename
                        && s3[b] is Write implies !is_prefix_path(
                    rename_from((s1 + s2)[a]),
                    write_path(s3[b]),
                ) by {
                    let wp = write_path(s3[b]);
                    assert(wp == ev_path(s3[b]));
                    assert(wp.len() == q.len() + 1);
                    if a < s1.len() {
                        assert((s1 + s2)[a] == s1[a]);
                        assert(rename_from(s1[a]) == ev_path(s1[a]));
                        lemma_longer_not_prefix(rename_from(s1[a]), wp);
                    } else {
                        assert((s1 + s2)[a] == s2[a - s1.len()]);
                        let c = choose|c: int|
                            0 <= c < kids.len() && kids[c] is Dir && rename_from(s2[a - s1.len()])
                                == q.push(kids[c].name_spec());
                        let from = rename_from((s1 + s2)[a]);
                        assert(from == q.push(kids[c].name_spec()));
                        assert(wp[q.len() as int] != kids[c].name_spec());
                        if is_prefix_path(from, wp) {
                            assert(from[q.len() as int] == wp.subrange(0, from.len() as int)[
                                q.len() as int
                            ]);
                        }
                    }
                }
            }
            lemma_safe_concat(s1 + s2, s3);
        },
        _ => {},
    }
}

#[verifier::rlimit(60)]
proof fn lemma_plan_kids_props(
    st: StrategyModel,
    q: Seq<Seq<char>>,
    kids: Seq<FsNode>,
    i: int,
    paths: bool,
    contents: bool,
)
    requires
        wf_children(kids),
        distinct_names(kids),
    ensures
        kids_deep(plan_kids(st, q, kids, i, paths, contents), q),
        avoids_below(plan_kids(st, q, kids, i, paths, contents), q, kids, i),
        safe_order(plan_kids(st, q, kids, i, paths, contents)),
    decreases kids, kids.len() - i, 0int,
{
    let s = plan_kids(st, q, kids, i, paths, contents);
    if i < 0 || i >= kids.len() {
    } else {
        lemma_plan_kids_props(st, q, kids, i + 1, paths, contents);
        let rest = plan_kids(st, q, kids, i + 1, paths, contents);
        let seg: Seq<Ev> = match kids[i] {
            FsNode::Dir { .. } => plan_dir(st, q, kids[i], paths, contents),
            _ => Seq::empty(),
        };
        assert(s == seg + rest);
        lemma_wf_prefix_full(kids);
        match kids[i] {
            FsNode::Dir { .. } => {
                assert(wf_node(kids[i]));
                lemma_plan_dir_props(st, q, kids[i], paths, contents);
            },
            _ => {},
        }
        let qi = q.push(kids[i].name_spec());
        assert forall|x: int| 0 <= x < s.len() implies is_prefix_path(
            q,
            ev_path(#[trigger] s[x]),
        ) && ev_path(s[x]).len() > q.len() + 1 by {
            if x < seg.len() {
                assert(s[x] == seg[x]);
                assert(is_prefix_path(qi, ev_path(s[x])) && ev_path(s[x]).len() > qi.len());
                assert(ev_path(s[x]).subrange(0, q.len() as int) =~= ev_path(s[x]).subrange(
                    0,
                    qi.len() as int,
                ).subrange(0, q.len() as int));
                assert(qi.subrange(0, q.len() as int) =~= q);
            } else {
                assert(s[x] == rest[x - seg.len()]);
            }
        }
        assert forall|x: int, c: int| 0 <= x < s.len() && 0 <= c < i implies ev_path(
            #[trigger] s[x],
        )[q.len() as int] != (#[trigger] kids[c]).name_spec() by {
            if x < seg.len() {
                assert(s[x] == seg[x]);
                assert(is_prefix_path(qi, ev_path(s[x])));
                assert(ev_path(s[x])[q.len() as int] == qi[q.len() as int]);
                assert(qi[q.len() as int] == kids[i].name_spec());
            } else {
                assert(s[x] == rest[x - seg.len()]);
            }
        }
        assert(no_cross(seg, rest)) by {
            assert forall|a: int, b: int|
                0 <= a < seg.len() && 0 <= b < rest.len() && seg[a] is Rename
                    && rest[b] is Write implies !is_prefix_path(
                rename_from(seg[a]),
                write_path(rest[b]),
            ) by {
                let from = rename_from(seg[a]);
                let wp = write_path(rest[b]);
                assert(from == ev_path(seg[a]));
                assert(wp == ev_path(rest[b]));
                assert(is_prefix_path(qi, from));
                assert(from[q.len() as int] == qi[q.len() as int]);
                assert(wp[q.len() as int] != kids[i].name_spec());
                if is_prefix_path(from, wp) {
                    assert(from[q.len() as int] == wp.subrange(0, from.len() as int)[
                        q.len() as int
                    ]);
                }
            }
        }
        lemma_safe_concat(seg, rest);
    }
}

/// The ordering law of the tree transformer: in any plan for a
/// well-formed tree, no content write follows a rename whose source is a
/// prefix of the path the write uses. A file's content is always
/// rewritten before its own rename, and a directory's descendants are
/// fully content-processed before the directory itself is renamed.
pub proof fn lemma_plan_rename_safety(
    st: StrategyModel,
    target: FsNode,
    paths: bool,
    contents: bool,
    dry_run: bool,
)
    requires
        wf_node(target),
    ensures
        safe_order(plan_spec(st, target, paths, contents, dry_run)),
{
    let s = plan_spec(st, target, paths, contents, dry_run);
    match target {
        FsNode::File { name, text } => {
            lemma_file_events_props(st, seq![name@], text, paths, contents);
        },
        FsNode::Dir { name, .. } => {
            let body = plan_dir(st, Seq::empty(), target, paths, contents);
            let tail: Seq<Ev> = if paths {
                match rename_of(st, seq![name@]) {
                    Some(to) => seq![Ev::Rename { from: seq![name@], to }],
                    None => Seq::empty(),
                }
            } else {
                Seq::empty()
            };
            assert(s == body + tail);
            lemma_plan_dir_props(st, Seq::empty(), target, paths, contents);
            assert(no_cross(body, tail)) by {
                assert forall|a: int, b: int|
                    0 <= a < body.len() && 0 <= b < tail.len() && body[a] is Rename && tail[b] is Write implies !is_prefix_path(
                    rename_from(body[a]),
                    write_path(tail[b]),
                ) by {
                    assert(tail[b] is Rename);
                }
            }
            assert(safe_order(tail)) by {
                assert forall|i: int, j: int|
                    0 <= i < j < tail.len() && tail[i] is Rename && tail[j] is Write implies false
                by {
                    assert(tail[j] is Rename);
                }
            }
            lemma_safe_concat(body, tail);
        },
    }
}

} // verus!
