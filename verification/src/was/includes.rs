//! Splicing included files, and the sorted list of COM bindings.
use crate::text;
use crate::was::decls;
use crate::was::macros;
use crate::winkb::suggest;
use crate::text::{chars_of, is, lines_of, push_all, same, string_of};
use crate::was::decls::{collect_com_objs, include_path};
use crate::winkb::suggest::comes_before;
use vstd::prelude::*;

verus! {

// ── includes ────────────────────────────────────────────────────────────────

/// A file that has been read for an `.include "path"` in a file of the directory
/// `dir`: its name as it is shown, its text, and the directory that its own includes
/// are relative to.
#[derive(Debug)]
pub struct IncludeFile {
    pub dir: String,
    pub path: String,
    pub name: String,
    pub content: String,
    pub sub_dir: String,
}

/// Why an expansion stopped: includes nested too deeply (a cycle, most likely),
/// or a file that has not been read yet.
#[derive(Debug)]
pub enum IncludeStop {
    TooDeep,
    Missing { dir: String, path: String },
}

/// Why an expansion stopped, in mathematical terms.
pub enum StopView {
    TooDeep,
    Missing { dir: Seq<char>, path: Seq<char> },
}

impl View for IncludeStop {
    type V = StopView;

    open spec fn view(&self) -> StopView {
        match *self {
            IncludeStop::TooDeep => StopView::TooDeep,
            IncludeStop::Missing { dir, path } => StopView::Missing { dir: dir@, path: path@ },
        }
    }
}

/// The first of the files `v` from `i` on that was read for `path` in `dir`.
pub open spec fn file_from(v: Seq<IncludeFile>, dir: Seq<char>, path: Seq<char>, i: int) -> Option<
    IncludeFile,
>
    decreases v.len() - i,
{
    if i >= v.len() {
        None
    } else if v[i].dir@ == dir && v[i].path@ == path {
        Some(v[i])
    } else {
        file_from(v, dir, path, i + 1)
    }
}

/// How deep includes may nest.
pub open spec fn max_include_depth() -> int {
    32
}

/// `s` ended by a line feed.
pub open spec fn line_ended(s: Seq<char>) -> Seq<char> {
    if s.len() > 0 && s.last() == '\n' {
        s
    } else {
        s.push('\n')
    }
}

/// The lines `v` of a file of the directory `dir`, with every include replaced by
/// the text of its file, expanded in turn.
pub open spec fn spliced(files: Seq<IncludeFile>, v: Seq<Seq<char>>, dir: Seq<char>, depth: int) -> Result<
    Seq<char>,
    StopView,
>
    decreases max_include_depth() + 1 - depth, v.len(),
{
    if depth > max_include_depth() {
        Err(StopView::TooDeep)
    } else if v.len() == 0 {
        Ok(Seq::empty())
    } else {
        match spliced(files, v.drop_last(), dir, depth) {
            Err(e) => Err(e),
            Ok(out) => match decls::included_file(v.last()) {
                None => Ok((out + v.last()).push('\n')),
                Some(path) => match file_from(files, dir, path, 0) {
                    None => Err(StopView::Missing { dir, path }),
                    Some(f) => match spliced(
                        files,
                        text::lines(f.content@),
                        f.sub_dir@,
                        depth + 1,
                    ) {
                        Err(e) => Err(e),
                        Ok(sub) => Ok(line_ended(out + sub)),
                    },
                },
            },
        }
    }
}

/// The text `src` of a file of the directory `dir`, with its includes expanded.
pub open spec fn include_expansion(files: Seq<IncludeFile>, src: Seq<char>, dir: Seq<char>) -> Result<
    Seq<char>,
    StopView,
> {
    spliced(files, text::lines(src), dir, 0)
}

/// Every line of an expansion is ended: the text is empty or ends with a line
/// feed.
pub proof fn law_expansion_ends_with_line_feed(
    files: Seq<IncludeFile>,
    src: Seq<char>,
    dir: Seq<char>,
)
    ensures
        include_expansion(files, src, dir) matches Ok(t) ==> t.len() == 0 || t.last() == '\n',
{
}

proof fn lemma_spliced_ends(files: Seq<IncludeFile>, v: Seq<Seq<char>>, dir: Seq<char>, depth: int)
    ensures
        spliced(files, v, dir, depth) matches Ok(t) ==> t.len() == 0 || t.last() == '\n',
    decreases v.len(),
{
    if v.len() > 0 && depth <= max_include_depth() {
        lemma_spliced_ends(files, v.drop_last(), dir, depth);
    }
}

/// An include line stands for its file: what the lines in front of it give is followed by what
/// the file gives, read in the directory of its own and one level deeper. A file that is not
/// there stops the expansion and is named.
pub proof fn law_include_stands_for_its_file(
    files: Seq<IncludeFile>,
    v: Seq<Seq<char>>,
    line: Seq<char>,
    path: Seq<char>,
    dir: Seq<char>,
    depth: int,
    x: Seq<char>,
)
    requires
        depth <= max_include_depth(),
        decls::included_file(line) == Some(path),
        spliced(files, v, dir, depth) == Ok::<Seq<char>, StopView>(x),
    ensures
        match file_from(files, dir, path, 0) {
            Some(f) => match spliced(files, text::lines(f.content@), f.sub_dir@, depth + 1) {
                Ok(y) => spliced(files, v.push(line), dir, depth) == Ok::<Seq<char>, StopView>(
                    if x.len() + y.len() == 0 {
                        seq!['\n']
                    } else {
                        x + y
                    },
                ),
                Err(e) => spliced(files, v.push(line), dir, depth) == Err::<Seq<char>, StopView>(e),
            },
            None => spliced(files, v.push(line), dir, depth) == Err::<Seq<char>, StopView>(
                StopView::Missing { dir, path },
            ),
        },
{
    assert(v.push(line).drop_last() =~= v);
    assert(v.push(line).last() == line);
    lemma_spliced_ends(files, v, dir, depth);
    if let Some(f) = file_from(files, dir, path, 0) {
        lemma_spliced_ends(files, text::lines(f.content@), f.sub_dir@, depth + 1);
        if let Ok(y) = spliced(files, text::lines(f.content@), f.sub_dir@, depth + 1) {
            if x.len() + y.len() == 0 {
                assert(line_ended(x + y) =~= seq!['\n']);
            } else if y.len() > 0 {
                assert((x + y).last() == y.last());
            } else {
                assert(x + y =~= x);
            }
        }
    }
}

/// The file of a directory and a path is the first of that name.
pub proof fn law_first_file_is_found(files: Seq<IncludeFile>, dir: Seq<char>, path: Seq<char>, k: int)
    requires
        0 <= k < files.len(),
        files[k].dir@ == dir && files[k].path@ == path,
        forall|i: int|
            0 <= i < k ==> (#[trigger] files[i]).dir@ != dir || files[i].path@ != path,
    ensures
        file_from(files, dir, path, 0) == Some(files[k]),
{
    lemma_file_from(files, dir, path, 0, k);
}

proof fn lemma_file_from(files: Seq<IncludeFile>, dir: Seq<char>, path: Seq<char>, i: int, k: int)
    requires
        0 <= i <= k < files.len(),
        files[k].dir@ == dir && files[k].path@ == path,
        forall|j: int|
            i <= j < k ==> (#[trigger] files[j]).dir@ != dir || files[j].path@ != path,
    ensures
        file_from(files, dir, path, i) == Some(files[k]),
    decreases k - i,
{
    if i < k {
        lemma_file_from(files, dir, path, i + 1, k);
    }
}

/// A source without includes is expanded to its own lines.
pub proof fn law_no_includes_no_change(files: Seq<IncludeFile>, v: Seq<Seq<char>>, dir: Seq<char>)
    requires
        forall|i: int| 0 <= i < v.len() ==> decls::included_file(#[trigger] v[i]) is None,
    ensures
        spliced(files, v, dir, 0) == Ok::<Seq<char>, StopView>(lines_joined(v)),
    decreases v.len(),
{
    if v.len() > 0 {
        assert forall|i: int| 0 <= i < v.drop_last().len() implies decls::included_file(
            #[trigger] v.drop_last()[i],
        ) is None by {
            assert(v.drop_last()[i] == v[i]);
        }
        assert(decls::included_file(v[v.len() - 1]) is None);
        law_no_includes_no_change(files, v.drop_last(), dir);
    }
}

/// The lines `v`, each ended by a line feed.
pub open spec fn lines_joined(v: Seq<Seq<char>>) -> Seq<char>
    decreases v.len(),
{
    if v.len() == 0 {
        Seq::empty()
    } else {
        (lines_joined(v.drop_last()) + v.last()).push('\n')
    }
}

pub fn find_file<'a>(files: &'a Vec<IncludeFile>, dir: &str, path: &[char]) -> (r: Option<
    &'a IncludeFile,
>)
    ensures
        (match r {
            Some(f) => Some(*f),
            None => None,
        }) == file_from(files@, dir@, path@, 0),
{
    let dc = chars_of(dir);
    let mut i: usize = 0;
    while i < files.len()
        invariant
            dc@ == dir@,
            i <= files@.len(),
            file_from(files@, dir@, path@, 0) == file_from(files@, dir@, path@, i as int),
        decreases files@.len() - i,
    {
        if is(&dc, files[i].dir.as_str()) && is(path, files[i].path.as_str()) {
            return Some(&files[i]);
        }
        i += 1;
    }
    None
}

proof fn lemma_splice_stops(
    files: Seq<IncludeFile>,
    v: Seq<Seq<char>>,
    dir: Seq<char>,
    depth: int,
    i: int,
    e: StopView,
)
    requires
        0 <= i <= v.len(),
        depth <= max_include_depth(),
        spliced(files, v.take(i), dir, depth) == Err::<Seq<char>, StopView>(e),
    ensures
        spliced(files, v, dir, depth) == Err::<Seq<char>, StopView>(e),
    decreases v.len(),
{
    if i == v.len() {
        assert(v.take(i) =~= v);
    } else {
        assert(v.drop_last().take(i) =~= v.take(i));
        lemma_splice_stops(files, v.drop_last(), dir, depth, i, e);
    }
}

fn expand_includes_rec(src: &str, dir: &str, depth: usize, files: &Vec<IncludeFile>) -> (r: Result<
    Vec<char>,
    IncludeStop,
>)
    requires
        depth <= max_include_depth() + 1,
    ensures
        (match r {
            Ok(t) => spliced(files@, text::lines(src@), dir@, depth as int) == Ok::<
                Seq<char>,
                StopView,
            >(t@),
            Err(e) => spliced(files@, text::lines(src@), dir@, depth as int) == Err::<
                Seq<char>,
                StopView,
            >(e@),
        }),
    decreases max_include_depth() + 1 - depth,
{
    if depth > 32 {
        return Err(IncludeStop::TooDeep);
    }
    let text = chars_of(src);
    let lv = lines_of(&text);
    let ghost all = text::lines(src@);
    let mut out: Vec<char> = Vec::new();
    let mut i: usize = 0;
    while i < lv.len()
        invariant
            depth <= 32,
            all == text::lines(src@),
            text::slices(lv@) == all,
            i <= lv@.len(),
            spliced(files@, all.take(i as int), dir@, depth as int) == Ok::<Seq<char>, StopView>(
                out@,
            ),
        decreases lv@.len() - i,
    {
        let raw = lv[i];
        proof {
            assert(all.take(i as int + 1).drop_last() =~= all.take(i as int));
            assert(all.take(i as int + 1).last() == raw@);
        }
        match include_path(raw) {
            None => {
                push_all(&mut out, raw);
                out.push('\n');
            },
            Some(path) => match find_file(files, dir, path) {
                None => {
                    let e = IncludeStop::Missing { dir: dir.to_owned(), path: string_of(path) };
                    proof {
                        lemma_splice_stops(files@, all, dir@, depth as int, i as int + 1, e@);
                    }
                    return Err(e);
                },
                Some(f) => match expand_includes_rec(
                    f.content.as_str(),
                    f.sub_dir.as_str(),
                    depth + 1,
                    files,
                ) {
                    Err(e) => {
                        proof {
                            lemma_splice_stops(files@, all, dir@, depth as int, i as int + 1, e@);
                        }
                        return Err(e);
                    },
                    Ok(sub) => {
                        push_all(&mut out, &sub);
                        if out.len() == 0 || out[out.len() - 1] != '\n' {
                            out.push('\n');
                        }
                    },
                },
            },
        }
        i += 1;
    }
    assert(all.take(all.len() as int) =~= all);
    Ok(out)
}

/// Expand `.include "file"` directives, splicing each referenced file in place,
/// recursively. `dir` is the directory of the including file, and `files` are the
/// files read so far; the expansion stops at one that is missing, so that the
/// caller can read it and ask again.
pub fn expand_includes(src: &str, dir: &str, files: &Vec<IncludeFile>) -> (r: Result<
    String,
    IncludeStop,
>)
    ensures
        (match r {
            Ok(t) => include_expansion(files@, src@, dir@) == Ok::<Seq<char>, StopView>(t@),
            Err(e) => include_expansion(files@, src@, dir@) == Err::<Seq<char>, StopView>(e@),
        }),
{
    match expand_includes_rec(src, dir, 0, files) {
        Ok(t) => Ok(string_of(&t)),
        Err(e) => Err(e),
    }
}

// ── COM bindings ────────────────────────────────────────────────────────────

/// One binding does not come after another: by name, then by interface.
pub open spec fn pair_le(a: (Seq<char>, Seq<char>), b: (Seq<char>, Seq<char>)) -> bool {
    if a.0 == b.0 {
        suggest::lex_le(a.1, b.1)
    } else {
        suggest::lex_le(a.0, b.0)
    }
}

/// The bindings `v` with `x` put in behind those that do not come after it.
pub open spec fn insert_pair(v: Seq<(Seq<char>, Seq<char>)>, x: (Seq<char>, Seq<char>)) -> Seq<
    (Seq<char>, Seq<char>),
>
    decreases v.len(),
{
    if v.len() == 0 || pair_le(v.last(), x) {
        v.push(x)
    } else {
        insert_pair(v.drop_last(), x).push(v.last())
    }
}

/// The bindings `v` in order.
pub open spec fn sorted_pairs(v: Seq<(Seq<char>, Seq<char>)>) -> Seq<(Seq<char>, Seq<char>)>
    decreases v.len(),
{
    if v.len() == 0 {
        Seq::empty()
    } else {
        insert_pair(sorted_pairs(v.drop_last()), v.last())
    }
}

/// The views of a list of pairs of strings.
pub open spec fn pair_strings(v: Seq<(String, String)>) -> Seq<(Seq<char>, Seq<char>)> {
    Seq::new(v.len(), |i: int| (v[i].0@, v[i].1@))
}

/// Of two bindings, one does not come after the other.
proof fn lemma_pair_total(a: (Seq<char>, Seq<char>), b: (Seq<char>, Seq<char>))
    ensures
        pair_le(a, b) || pair_le(b, a),
{
    suggest::law_lex_total(a.0, b.0);
    suggest::law_lex_total(a.1, b.1);
}

proof fn lemma_pair_transitive(
    a: (Seq<char>, Seq<char>),
    b: (Seq<char>, Seq<char>),
    c: (Seq<char>, Seq<char>),
)
    requires
        pair_le(a, b),
        pair_le(b, c),
    ensures
        pair_le(a, c),
{
    if a.0 == b.0 && b.0 == c.0 {
        suggest::law_lex_transitive(a.1, b.1, c.1);
    } else if a.0 != b.0 && b.0 != c.0 {
        suggest::law_lex_transitive(a.0, b.0, c.0);
        if a.0 == c.0 {
            lemma_lex_antisymmetric(a.0, b.0);
        }
    }
}

proof fn lemma_lex_antisymmetric(a: Seq<char>, b: Seq<char>)
    requires
        suggest::lex_le(a, b),
        suggest::lex_le(b, a),
    ensures
        a == b,
    decreases a.len(),
{
    if a.len() > 0 && b.len() > 0 {
        lemma_lex_antisymmetric(a.drop_first(), b.drop_first());
        assert(a =~= seq![a[0]] + a.drop_first());
        assert(b =~= seq![b[0]] + b.drop_first());
    } else {
        assert(a =~= b);
    }
}

/// A list in order.
pub open spec fn in_order(v: Seq<(Seq<char>, Seq<char>)>) -> bool {
    forall|i: int, j: int| 0 <= i < j < v.len() ==> pair_le(#[trigger] v[i], #[trigger] v[j])
}

proof fn lemma_insert_pair(v: Seq<(Seq<char>, Seq<char>)>, x: (Seq<char>, Seq<char>))
    requires
        in_order(v),
    ensures
        in_order(insert_pair(v, x)),
        insert_pair(v, x).to_multiset() == v.to_multiset().insert(x),
        forall|i: int|
            0 <= i < insert_pair(v, x).len() ==> (#[trigger] insert_pair(v, x)[i]) == x
                || v.contains(insert_pair(v, x)[i]),
    decreases v.len(),
{
    broadcast use vstd::seq_lib::group_to_multiset_ensures;

    let r = insert_pair(v, x);
    if v.len() == 0 {
    } else if pair_le(v.last(), x) {
        assert forall|i: int, j: int| 0 <= i < j < r.len() implies pair_le(
            #[trigger] r[i],
            #[trigger] r[j],
        ) by {
            if j == v.len() && i < v.len() - 1 {
                assert(pair_le(v[i], v[v.len() - 1]));
                lemma_pair_transitive(v[i], v.last(), x);
            }
        }
        assert forall|i: int| 0 <= i < r.len() implies (#[trigger] r[i]) == x || v.contains(r[i]) by {
            if i < v.len() {
                assert(r[i] == v[i]);
            }
        }
    } else {
        let w = v.drop_last();
        lemma_insert_pair(w, x);
        lemma_pair_total(v.last(), x);
        let q = insert_pair(w, x);
        assert(v =~= w.push(v.last()));
        assert(r.to_multiset() == q.to_multiset().insert(v.last()));
        assert(v.to_multiset() == w.to_multiset().insert(v.last()));
        assert(r.to_multiset() =~= v.to_multiset().insert(x));
        assert forall|i: int, j: int| 0 <= i < j < r.len() implies pair_le(
            #[trigger] r[i],
            #[trigger] r[j],
        ) by {
            if j == q.len() {
                assert(r[i] == q[i]);
                if q[i] != x {
                    let k = choose|k: int| 0 <= k < w.len() && w[k] == q[i];
                    assert(v[k] == w[k]);
                    assert(pair_le(v[k], v[v.len() - 1]));
                }
            } else {
                assert(r[i] == q[i] && r[j] == q[j]);
            }
        }
        assert forall|i: int| 0 <= i < r.len() implies (#[trigger] r[i]) == x || v.contains(r[i]) by {
            if i < q.len() {
                assert(r[i] == q[i]);
                if q[i] != x {
                    let k = choose|k: int| 0 <= k < w.len() && w[k] == q[i];
                    assert(v[k] == w[k]);
                }
            } else {
                assert(v[v.len() - 1] == r[i]);
            }
        }
    }
}

/// Sorting puts the bindings in order and keeps them all.
pub proof fn law_bindings_sorted(v: Seq<(Seq<char>, Seq<char>)>)
    ensures
        in_order(sorted_pairs(v)),
        sorted_pairs(v).to_multiset() == v.to_multiset(),
    decreases v.len(),
{
    broadcast use vstd::seq_lib::group_to_multiset_ensures;

    if v.len() > 0 {
        law_bindings_sorted(v.drop_last());
        lemma_insert_pair(sorted_pairs(v.drop_last()), v.last());
        assert(v =~= v.drop_last().push(v.last()));
    } else {
        assert(sorted_pairs(v) =~= v);
    }
}

proof fn lemma_insert_pair_at(
    v: Seq<(Seq<char>, Seq<char>)>,
    x: (Seq<char>, Seq<char>),
    i: int,
)
    requires
        0 <= i <= v.len(),
        i > 0 ==> pair_le(v[i - 1], x),
        forall|j: int| i <= j < v.len() ==> !pair_le(#[trigger] v[j], x),
    ensures
        insert_pair(v, x) == v.insert(i, x),
    decreases v.len(),
{
    if i == v.len() {
        assert(v.insert(i, x) =~= v.push(x));
    } else {
        assert(!pair_le(v[v.len() - 1], x));
        lemma_insert_pair_at(v.drop_last(), x, i);
        assert(v.drop_last().insert(i, x).push(v.last()) =~= v.insert(i, x));
    }
}

fn pair_not_after(a: &(String, String), x: &(Vec<char>, Vec<char>)) -> (r: bool)
    ensures
        r == pair_le((a.0@, a.1@), (x.0@, x.1@)),
{
    let n = chars_of(a.0.as_str());
    if same(&n, &x.0) {
        let f = chars_of(a.1.as_str());
        comes_before(&f, &x.1)
    } else {
        comes_before(&n, &x.0)
    }
}

/// The `comobj NAME : Interface` bindings declared in `src`, as sorted
/// `(name, interface)` pairs, for the IDE to resolve a typed pointer.
pub fn com_bindings(src: &str) -> (r: Vec<(String, String)>)
    ensures
        pair_strings(r@) == sorted_pairs(decls::com_objects(text::lines(src@))),
{
    let sc = chars_of(src);
    let objs = collect_com_objs(&sc);
    let ghost all = macros::pair_texts(objs@);
    let mut r: Vec<(String, String)> = Vec::new();
    assert(pair_strings(r@) =~= Seq::empty());
    let mut i: usize = 0;
    while i < objs.len()
        invariant
            all == macros::pair_texts(objs@),
            i <= objs@.len(),
            pair_strings(r@) == sorted_pairs(all.take(i as int)),
        decreases objs@.len() - i,
    {
        assert(all.take(i as int + 1).drop_last() =~= all.take(i as int));
        let ghost x = all[i as int];
        let ghost v = pair_strings(r@);
        let mut k: usize = r.len();
        while k > 0 && !pair_not_after(&r[k - 1], &objs[i])
            invariant
                v == pair_strings(r@),
                i < objs@.len(),
                x == (objs@[i as int].0@, objs@[i as int].1@),
                k <= r@.len(),
                forall|j: int| k <= j < v.len() ==> !pair_le(#[trigger] v[j], x),
            decreases k,
        {
            k -= 1;
            assert(v[k as int] == (r@[k as int].0@, r@[k as int].1@));
        }
        proof {
            if k > 0 {
                assert(v[k - 1] == (r@[k - 1].0@, r@[k - 1].1@));
            }
            lemma_insert_pair_at(v, x, k as int);
        }
        let a = string_of(&objs[i].0);
        let b = string_of(&objs[i].1);
        r.insert(k, (a, b));
        assert(pair_strings(r@) =~= v.insert(k as int, x));
        i += 1;
    }
    assert(all.take(all.len() as int) =~= all);
    r
}

} // verus!
