//! The tree of included files: how it is found, and how it is shown.
use crate::text;
use crate::was::decls;
use crate::was::includes;
use crate::text::{chars_of, lines_of, push_all, push_dec, string_of};
use crate::was::decls::include_path;
use crate::was::includes::{IncludeFile, IncludeStop, StopView, find_file};
use vstd::prelude::*;

verus! {

/// A source with its includes spliced in: the text, the files it came from (the
/// first is the one that was named), the file of each line, and the includes, each
/// as the including file, the included file and the line of the directive.
#[derive(Debug, Clone)]
pub struct Expansion {
    pub text: String,
    pub files: Vec<String>,
    pub line_file: Vec<usize>,
    pub edges: Vec<(usize, usize, usize)>,
}

impl View for Expansion {
    type V = TreeView;

    open spec fn view(&self) -> TreeView {
        TreeView {
            text: self.text@,
            files: text::strings(self.files@),
            line_file: numbers(self.line_file@),
            edges: triples(self.edges@),
        }
    }
}

impl Expansion {
    /// There is a file, and every file that is spoken of is there.
    pub open spec fn wf(&self) -> bool {
        &&& self.files@.len() > 0
        &&& forall|i: int|
            0 <= i < self.line_file@.len() ==> (#[trigger] self.line_file@[i]) < self.files@.len()
        &&& forall|i: int|
            0 <= i < self.edges@.len() ==> (#[trigger] self.edges@[i]).1 < self.files@.len()
    }
}

/// How many of the first `n` lines came from the file `f`.
pub open spec fn lines_from(v: Seq<usize>, f: int, n: int) -> int
    decreases n,
{
    if n <= 0 {
        0
    } else if v[n - 1] == f {
        lines_from(v, f, n - 1) + 1
    } else {
        lines_from(v, f, n - 1)
    }
}

/// One row of the tree: a file at a depth, its lines, and the line it is included at.
pub open spec fn graph_row(g: Expansion, f: int, depth: int, via: Option<usize>) -> Seq<char> {
    text::spaces(2 * depth) + g.files@[f]@ + "  ["@ + text::dec(
        lines_from(g.line_file@, f, g.line_file@.len() as int),
    ) + " lines"@ + (match via {
        Some(n) => ", .include at parent:"@ + text::dec(n as int),
        None => Seq::empty(),
    }) + "]\n"@
}

/// The rows of a file and of the files below it, `fuel` levels deep.
pub open spec fn graph_rows(
    g: Expansion,
    f: int,
    depth: int,
    via: Option<usize>,
    fuel: nat,
) -> Seq<char>
    decreases 2 * fuel, 0int,
{
    graph_row(g, f, depth, via) + (if fuel == 0 {
        Seq::empty()
    } else {
        rows_below(g, f, depth + 1, 0, (fuel - 1) as nat)
    })
}

/// The rows below a file, from the include `i` on.
pub open spec fn rows_below(g: Expansion, f: int, depth: int, i: int, fuel: nat) -> Seq<char>
    decreases 2 * fuel + 1, g.edges@.len() - i,
{
    if i < 0 || i >= g.edges@.len() {
        Seq::empty()
    } else {
        let e = g.edges@[i];
        (if e.0 == f {
            graph_rows(g, e.1 as int, depth, Some(e.2), fuel)
        } else {
            Seq::empty()
        }) + rows_below(g, f, depth, i + 1, fuel)
    }
}

/// The tree from the first file down, and how many files and lines there are. Files
/// that do not include themselves are never nested deeper than there are files.
pub open spec fn graph_text(g: Expansion) -> Seq<char> {
    graph_rows(g, 0, 0, None, g.files@.len()) + "\n"@ + text::dec(g.files@.len() as int) + " files, "@
        + text::dec(g.line_file@.len() as int) + " expanded lines\n"@
}

fn count_lines(v: &Vec<usize>, f: usize) -> (r: usize)
    ensures
        r == lines_from(v@, f as int, v@.len() as int),
        r <= v@.len(),
{
    let mut n: usize = 0;
    let mut i: usize = 0;
    while i < v.len()
        invariant
            i <= v@.len(),
            n <= i,
            n == lines_from(v@, f as int, i as int),
        decreases v@.len() - i,
    {
        if v[i] == f {
            n += 1;
        }
        i += 1;
    }
    n
}

fn push_spaces(m: &mut String, n: usize)
    ensures
        final(m)@ == old(m)@ + text::spaces(2 * n),
{
    let ghost before = m@;
    let mut i: usize = 0;
    assert(m@ =~= before + text::spaces(0));
    while i < n
        invariant
            i <= n,
            m@ == before + text::spaces(2 * i),
        decreases n - i,
    {
        proof {
            reveal_strlit("  ");
        }
        m.append("  ");
        assert(m@ =~= before + text::spaces(2 * (i + 1)));
        i += 1;
    }
}

fn push_row(m: &mut String, g: &Expansion, f: usize, depth: usize, via: Option<usize>)
    requires
        f < g.files@.len(),
    ensures
        final(m)@ == old(m)@ + graph_row(*g, f as int, depth as int, via),
{
    let ghost before = m@;
    push_spaces(m, depth);
    m.append(g.files[f].as_str());
    m.append("  [");
    push_dec(m, count_lines(&g.line_file, f) as i128);
    m.append(" lines");
    match via {
        Some(n) => {
            m.append(", .include at parent:");
            push_dec(m, n as i128);
        },
        None => {},
    }
    m.append("]\n");
    assert(m@ =~= before + graph_row(*g, f as int, depth as int, via));
}

fn push_rows(m: &mut String, g: &Expansion, f: usize, depth: usize, via: Option<usize>, fuel: usize)
    requires
        g.wf(),
        f < g.files@.len(),
        depth + fuel <= usize::MAX,
    ensures
        final(m)@ == old(m)@ + graph_rows(*g, f as int, depth as int, via, fuel as nat),
    decreases 2 * fuel, 0int,
{
    let ghost before = m@;
    push_row(m, g, f, depth, via);
    if fuel > 0 {
        push_rows_below(m, g, f, depth + 1, fuel - 1);
    }
    assert(m@ =~= before + graph_rows(*g, f as int, depth as int, via, fuel as nat));
}

fn push_rows_below(m: &mut String, g: &Expansion, f: usize, depth: usize, fuel: usize)
    requires
        g.wf(),
        depth + fuel <= usize::MAX,
    ensures
        final(m)@ == old(m)@ + rows_below(*g, f as int, depth as int, 0, fuel as nat),
    decreases 2 * fuel + 1, 0int,
{
    let ghost before = m@;
    let ghost want = before + rows_below(*g, f as int, depth as int, 0, fuel as nat);
    let mut i: usize = 0;
    while i < g.edges.len()
        invariant
            g.wf(),
            depth + fuel <= usize::MAX,
            i <= g.edges@.len(),
            m@ + rows_below(*g, f as int, depth as int, i as int, fuel as nat) =~= want,
        decreases g.edges@.len() - i,
    {
        let e = g.edges[i];
        let ghost now = m@;
        if e.0 == f {
            push_rows(m, g, e.1, depth, Some(e.2), fuel);
        }
        assert(m@ + rows_below(*g, f as int, depth as int, i + 1, fuel as nat) =~= now
            + rows_below(*g, f as int, depth as int, i as int, fuel as nat));
        i += 1;
    }
    assert(m@ =~= want);
}

/// The tree of included files with the lines of each, and the totals.
pub fn print_include_graph(g: &Expansion) -> (r: String)
    requires
        g.wf(),
    ensures
        r@ == graph_text(*g),
{
    let mut m = "".to_owned();
    proof {
        reveal_strlit("");
        assert(m@ =~= Seq::empty());
    }
    push_rows(&mut m, g, 0, 0, None, g.files.len());
    assert(m@ =~= graph_rows(*g, 0, 0, None, g.files@.len()));
    m.append("\n");
    push_dec(&mut m, g.files.len() as i128);
    m.append(" files, ");
    push_dec(&mut m, g.line_file.len() as i128);
    m.append(" expanded lines\n");
    m
}

// ── finding the tree ────────────────────────────────────────────────────────

/// A source with its includes spliced in, in mathematical terms.
pub struct TreeView {
    pub text: Seq<char>,
    pub files: Seq<Seq<char>>,
    pub line_file: Seq<int>,
    pub edges: Seq<(int, int, int)>,
}

/// `t` with a line of the file `me`.
pub open spec fn with_line(t: TreeView, line: Seq<char>, me: int) -> TreeView {
    TreeView { text: (t.text + line).push('\n'), line_file: t.line_file.push(me), ..t }
}

/// `t` with a further file, included by the file `me` on its line `at`.
pub open spec fn with_file(t: TreeView, name: Seq<char>, me: int, at: int) -> TreeView {
    TreeView {
        files: t.files.push(name),
        edges: t.edges.push((me, t.files.len() as int, at)),
        ..t
    }
}

/// `t` with the lines `v` of the file number `me`, which lies in the directory `dir`:
/// every include becomes a further file, and its lines stand in place of it. Where
/// nothing has come of the file's lines up to an include, the include leaves an empty
/// line of the file.
pub open spec fn tree(
    files: Seq<IncludeFile>,
    v: Seq<Seq<char>>,
    dir: Seq<char>,
    depth: int,
    me: int,
    t: TreeView,
) -> Result<TreeView, StopView>
    decreases includes::max_include_depth() + 1 - depth, v.len(),
{
    if depth > includes::max_include_depth() {
        Err(StopView::TooDeep)
    } else if v.len() == 0 {
        Ok(t)
    } else {
        match tree(files, v.drop_last(), dir, depth, me, t) {
            Err(e) => Err(e),
            Ok(out) => match decls::included_file(v.last()) {
                None => Ok(with_line(out, v.last(), me)),
                Some(path) => match includes::file_from(files, dir, path, 0) {
                    None => Err(StopView::Missing { dir, path }),
                    Some(f) => match tree(
                        files,
                        text::lines(f.content@),
                        f.sub_dir@,
                        depth + 1,
                        out.files.len() as int,
                        with_file(out, f.name@, me, v.len() as int),
                    ) {
                        Err(e) => Err(e),
                        Ok(sub) => Ok(
                            if sub.text.len() == t.text.len() {
                                with_line(sub, Seq::empty(), me)
                            } else {
                                sub
                            },
                        ),
                    },
                },
            },
        }
    }
}

/// The file `name` before its first line.
pub open spec fn tree_start(name: Seq<char>) -> TreeView {
    TreeView {
        text: Seq::empty(),
        files: seq![name],
        line_file: Seq::empty(),
        edges: Seq::empty(),
    }
}

/// The text `src` of the file `name` of the directory `dir`, with its includes.
pub open spec fn include_tree(
    files: Seq<IncludeFile>,
    src: Seq<char>,
    name: Seq<char>,
    dir: Seq<char>,
) -> Result<TreeView, StopView> {
    tree(files, text::lines(src), dir, 0, 0, tree_start(name))
}

/// Each file but the first is included once, by an earlier one, and each line belongs
/// to one of the files.
pub open spec fn is_tree(t: TreeView) -> bool {
    &&& t.files.len() == t.edges.len() + 1
    &&& forall|i: int|
        0 <= i < t.edges.len() ==> 0 <= (#[trigger] t.edges[i]).0 <= i && t.edges[i].1 == i + 1
            && 1 <= t.edges[i].2
    &&& forall|i: int|
        0 <= i < t.line_file.len() ==> 0 <= (#[trigger] t.line_file[i]) < t.files.len()
}

proof fn lemma_is_tree(
    files: Seq<IncludeFile>,
    v: Seq<Seq<char>>,
    dir: Seq<char>,
    depth: int,
    me: int,
    t: TreeView,
)
    requires
        is_tree(t),
        0 <= me < t.files.len(),
    ensures
        tree(files, v, dir, depth, me, t) matches Ok(r) ==> is_tree(r) && t.files.len()
            <= r.files.len() && r.files[0] == t.files[0],
    decreases includes::max_include_depth() + 1 - depth, v.len(),
{
    if depth <= includes::max_include_depth() && v.len() > 0 {
        lemma_is_tree(files, v.drop_last(), dir, depth, me, t);
        match tree(files, v.drop_last(), dir, depth, me, t) {
            Ok(out) => match decls::included_file(v.last()) {
                Some(path) => match includes::file_from(files, dir, path, 0) {
                    Some(f) => {
                        lemma_is_tree(
                            files,
                            text::lines(f.content@),
                            f.sub_dir@,
                            depth + 1,
                            out.files.len() as int,
                            with_file(out, f.name@, me, v.len() as int),
                        );
                    },
                    None => {},
                },
                None => {},
            },
            Err(_) => {},
        }
    }
}

/// What is found is a tree, with the file that was named as its root.
pub proof fn law_includes_form_a_tree(
    files: Seq<IncludeFile>,
    src: Seq<char>,
    name: Seq<char>,
    dir: Seq<char>,
)
    ensures
        include_tree(files, src, name, dir) matches Ok(t) ==> is_tree(t) && t.files[0] == name,
{
    lemma_is_tree(files, text::lines(src), dir, 0, 0, tree_start(name));
}

proof fn lemma_tree_text(
    files: Seq<IncludeFile>,
    v: Seq<Seq<char>>,
    dir: Seq<char>,
    depth: int,
    me: int,
    t: TreeView,
)
    ensures
        match includes::spliced(files, v, dir, depth) {
            Ok(s) => tree(files, v, dir, depth, me, t) matches Ok(r) && r.text == t.text + s && (
            s.len() == 0 || s.last() == '\n'),
            Err(e) => tree(files, v, dir, depth, me, t) == Err::<TreeView, StopView>(e),
        },
    decreases includes::max_include_depth() + 1 - depth, v.len(),
{
    if depth <= includes::max_include_depth() {
        if v.len() == 0 {
            assert(t.text + Seq::<char>::empty() =~= t.text);
        } else {
            lemma_tree_text(files, v.drop_last(), dir, depth, me, t);
            match tree(files, v.drop_last(), dir, depth, me, t) {
                Ok(out) => {
                    let s = includes::spliced(files, v.drop_last(), dir, depth)->Ok_0;
                    match decls::included_file(v.last()) {
                        None => {
                            assert((out.text + v.last()).push('\n') =~= t.text + (s
                                + v.last()).push('\n'));
                        },
                        Some(path) => match includes::file_from(files, dir, path, 0) {
                            Some(f) => {
                                let lines = text::lines(f.content@);
                                let start = with_file(out, f.name@, me, v.len() as int);
                                lemma_tree_text(
                                    files,
                                    lines,
                                    f.sub_dir@,
                                    depth + 1,
                                    out.files.len() as int,
                                    start,
                                );
                                match includes::spliced(files, lines, f.sub_dir@, depth + 1) {
                                    Ok(sub) => {
                                        assert(t.text + s + sub =~= t.text + (s + sub));
                                        if sub.len() > 0 {
                                            assert((s + sub).last() == sub.last());
                                        } else {
                                            assert(s + sub =~= s);
                                        }
                                        assert((t.text + (s + sub) + Seq::<char>::empty()).push(
                                            '\n',
                                        ) =~= t.text + (s + sub).push('\n'));
                                    },
                                    Err(_) => {},
                                }
                            },
                            None => {},
                        },
                    }
                },
                Err(_) => {},
            }
        }
    }
}

/// The tree is found where the includes can be expanded, and holds the same text.
pub proof fn law_tree_holds_expansion(
    files: Seq<IncludeFile>,
    src: Seq<char>,
    name: Seq<char>,
    dir: Seq<char>,
)
    ensures
        match includes::include_expansion(files, src, dir) {
            Ok(s) => include_tree(files, src, name, dir) matches Ok(t) && t.text == s,
            Err(e) => include_tree(files, src, name, dir) == Err::<TreeView, StopView>(e),
        },
{
    lemma_tree_text(files, text::lines(src), dir, 0, 0, tree_start(name));
    match includes::include_expansion(files, src, dir) {
        Ok(s) => {
            assert(Seq::<char>::empty() + s =~= s);
        },
        Err(_) => {},
    }
}

/// The tree while it is found.
struct Growing {
    text: Vec<char>,
    files: Vec<String>,
    line_file: Vec<usize>,
    edges: Vec<(usize, usize, usize)>,
}

/// The numbers of a list.
pub open spec fn numbers(v: Seq<usize>) -> Seq<int> {
    Seq::new(v.len(), |i: int| v[i] as int)
}

/// The includes of a list.
pub open spec fn triples(v: Seq<(usize, usize, usize)>) -> Seq<(int, int, int)> {
    Seq::new(v.len(), |i: int| (v[i].0 as int, v[i].1 as int, v[i].2 as int))
}

impl Growing {
    spec fn shown(self) -> TreeView {
        TreeView {
            text: self.text@,
            files: text::strings(self.files@),
            line_file: numbers(self.line_file@),
            edges: triples(self.edges@),
        }
    }

    fn add_line(&mut self, line: &[char], me: usize)
        ensures
            final(self).shown() == with_line(old(self).shown(), line@, me as int),
    {
        push_all(&mut self.text, line);
        self.text.push('\n');
        self.line_file.push(me);
        assert(numbers(self.line_file@) =~= numbers(old(self).line_file@).push(me as int));
    }

    fn add_file(&mut self, name: &String, me: usize, at: usize) -> (r: usize)
        ensures
            final(self).shown() == with_file(old(self).shown(), name@, me as int, at as int),
            r == old(self).shown().files.len(),
    {
        let n: usize = self.files.len();
        self.files.push(name.clone());
        self.edges.push((me, n, at));
        assert(text::strings(self.files@) =~= text::strings(old(self).files@).push(name@));
        assert(triples(self.edges@) =~= triples(old(self).edges@).push(
            (me as int, n as int, at as int),
        ));
        n
    }
}

proof fn lemma_tree_stops(
    files: Seq<IncludeFile>,
    v: Seq<Seq<char>>,
    dir: Seq<char>,
    depth: int,
    me: int,
    t: TreeView,
    i: int,
    e: StopView,
)
    requires
        0 <= i <= v.len(),
        depth <= includes::max_include_depth(),
        tree(files, v.take(i), dir, depth, me, t) == Err::<TreeView, StopView>(e),
    ensures
        tree(files, v, dir, depth, me, t) == Err::<TreeView, StopView>(e),
    decreases v.len(),
{
    if i == v.len() {
        assert(v.take(i) =~= v);
    } else {
        assert(v.drop_last().take(i) =~= v.take(i));
        lemma_tree_stops(files, v.drop_last(), dir, depth, me, t, i, e);
    }
}

fn grow(
    src: &str,
    dir: &str,
    depth: usize,
    me: usize,
    files: &Vec<IncludeFile>,
    g: &mut Growing,
) -> (r: Option<IncludeStop>)
    requires
        depth <= includes::max_include_depth() + 1,
    ensures
        match r {
            None => tree(
                files@,
                text::lines(src@),
                dir@,
                depth as int,
                me as int,
                old(g).shown(),
            ) == Ok::<TreeView, StopView>(final(g).shown()),
            Some(e) => tree(
                files@,
                text::lines(src@),
                dir@,
                depth as int,
                me as int,
                old(g).shown(),
            ) == Err::<TreeView, StopView>(e@),
        },
    decreases includes::max_include_depth() + 1 - depth,
{
    if depth > 32 {
        return Some(IncludeStop::TooDeep);
    }
    let text = chars_of(src);
    let lv = lines_of(&text);
    let ghost all = text::lines(src@);
    let ghost t = g.shown();
    let start: usize = g.text.len();
    let mut i: usize = 0;
    assert(all.take(0) =~= Seq::empty());
    while i < lv.len()
        invariant
            depth <= 32,
            all == text::lines(src@),
            text::slices(lv@) == all,
            t == old(g).shown(),
            start == t.text.len(),
            i <= lv@.len(),
            tree(files@, all.take(i as int), dir@, depth as int, me as int, t) == Ok::<
                TreeView,
                StopView,
            >(g.shown()),
        decreases lv@.len() - i,
    {
        let raw = lv[i];
        proof {
            assert(all.take(i as int + 1).drop_last() =~= all.take(i as int));
            assert(all.take(i as int + 1).last() == raw@);
        }
        match include_path(raw) {
            None => {
                g.add_line(raw, me);
            },
            Some(path) => match find_file(files, dir, path) {
                None => {
                    let e = IncludeStop::Missing { dir: dir.to_owned(), path: string_of(path) };
                    proof {
                        lemma_tree_stops(
                            files@,
                            all,
                            dir@,
                            depth as int,
                            me as int,
                            t,
                            i as int + 1,
                            e@,
                        );
                    }
                    return Some(e);
                },
                Some(f) => {
                    let child: usize = g.add_file(&f.name, me, i + 1);
                    match grow(
                        f.content.as_str(),
                        f.sub_dir.as_str(),
                        depth + 1,
                        child,
                        files,
                        g,
                    ) {
                        Some(e) => {
                            proof {
                                lemma_tree_stops(
                                    files@,
                                    all,
                                    dir@,
                                    depth as int,
                                    me as int,
                                    t,
                                    i as int + 1,
                                    e@,
                                );
                            }
                            return Some(e);
                        },
                        None => {
                            if g.text.len() == start {
                                let none: Vec<char> = Vec::new();
                                g.add_line(&none, me);
                            }
                        },
                    }
                },
            },
        }
        i += 1;
    }
    assert(all.take(all.len() as int) =~= all);
    None
}

/// Expand the includes of the file `name`, with the tree of the files: its text is
/// `src` and it lies in the directory `dir`. Files are asked for as in
/// `expand_includes`.
pub fn expand_includes_graph(
    src: &str,
    name: &str,
    dir: &str,
    files: &Vec<IncludeFile>,
) -> (r: Result<Expansion, IncludeStop>)
    ensures
        match r {
            Ok(g) => g.wf() && include_tree(files@, src@, name@, dir@) == Ok::<TreeView, StopView>(
                g@,
            ),
            Err(e) => include_tree(files@, src@, name@, dir@) == Err::<TreeView, StopView>(e@),
        },
{
    let mut g = Growing {
        text: Vec::new(),
        files: vec![name.to_owned()],
        line_file: Vec::new(),
        edges: Vec::new(),
    };
    proof {
        assert(text::strings(g.files@) =~= seq![name@]);
        assert(numbers(g.line_file@) =~= Seq::empty());
        assert(triples(g.edges@) =~= Seq::empty());
        law_includes_form_a_tree(files@, src@, name@, dir@);
    }
    match grow(src, dir, 0, 0, files, &mut g) {
        Some(e) => Err(e),
        None => {
            let r = Expansion {
                text: string_of(&g.text),
                files: g.files,
                line_file: g.line_file,
                edges: g.edges,
            };
            proof {
                assert(is_tree(r@));
                assert forall|i: int| 0 <= i < r.line_file@.len() implies (
                #[trigger] r.line_file@[i]) < r.files@.len() by {
                    assert(r@.line_file[i] == r.line_file@[i]);
                }
                assert forall|i: int| 0 <= i < r.edges@.len() implies (#[trigger] r.edges@[i]).1
                    < r.files@.len() by {
                    assert(r@.edges[i].1 == r.edges@[i].1);
                }
            }
            Ok(r)
        },
    }
}

} // verus!
