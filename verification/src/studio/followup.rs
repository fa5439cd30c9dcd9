//! What follows an edit, a move of the caret, a build or a change of file: the
//! questions that go to the worker, and the texts that are shown and stored.
use crate::lines;
use crate::studio::cards;
use crate::studio::complete;
use crate::studio::doc_model;
use crate::studio::session;
use crate::studio::tips;
use crate::text;
use crate::was::decls;
use crate::was::includes;
use crate::winkb::search;
use crate::studio::cards::card_query;
use crate::studio::complete::{CompletionKind, ContextKind, ContextView, context};
use crate::studio::doc::Doc;
use crate::studio::lang::{ReplyView, Response, Severity};
use crate::studio::session::{Session, SessionView, line_feeds};
use crate::studio::syntax::TokKind;
use crate::text::{chars_of, is, join_strings, lines_of, string_of, trimmed};
use crate::was::includes::com_bindings;
use vstd::prelude::*;

verus! {

// ── after an edit ───────────────────────────────────────────────────────────

/// The row of the caret.
pub open spec fn caret_line(v: SessionView) -> Seq<char> {
    if v.doc.caret.row < v.doc.lines.len() {
        v.doc.lines[v.doc.caret.row]
    } else {
        ""@
    }
}

/// Candidates are worth asking for: fields at once, names when they are begun.
pub open spec fn is_wanted(c: ContextView) -> bool {
    match c.kind {
        ContextKind::Field(_) => true,
        ContextKind::Function => c.prefix.len() > 0,
        ContextKind::Symbol => c.prefix.len() > 0,
        ContextKind::Nothing => false,
    }
}

/// The completion that the caret stands at.
pub open spec fn caret_context(v: SessionView) -> ContextView {
    complete::context_at(caret_line(v), text::index_at(caret_line(v), v.doc.caret.col))
}

/// The interfaces of the typed pointers that a text declares.
pub open spec fn declared_binds(t: Seq<char>) -> Seq<(Seq<char>, Seq<char>)> {
    includes::sorted_pairs(decls::com_objects(text::lines(t)))
}

/// What the card is asked for when `shown` is what it shows: nothing while the search
/// box has the focus, and nothing twice in a row.
pub open spec fn card_question(v: SessionView, shown: Seq<char>) -> Option<Seq<char>> {
    if v.search_active {
        None
    } else {
        match cards::query_at(caret_line(v), v.doc.caret.col, v.binds) {
            Some(w) => if w == shown {
                None
            } else {
                Some(w)
            },
            None => None,
        }
    }
}

impl Session {
    /// What candidates are asked for: the caret's row and its byte. Where none are
    /// wanted, the popup is hidden.
    pub fn completion_question(&mut self) -> (r: Option<(String, usize)>)
        requires
            old(self).wf(),
        ensures
            final(self).wf(),
            match r {
                Some((line, col)) => is_wanted(caret_context(old(self)@)) && line@ == caret_line(
                    old(self)@,
                ) && col == old(self)@.doc.caret.col && final(self)@ == old(self)@,
                None => !is_wanted(caret_context(old(self)@)) && final(self)@ == session::no_popup(
                    old(self)@,
                ),
            },
    {
        proof {
            self.doc.lemma_caret_is_shown();
        }
        let line = self.doc.line(self.doc.caret.row).to_owned();
        let col: usize = self.doc.caret.col;
        let ctx = context(line.as_str(), col);
        let begun = !is_empty_text(ctx.prefix.as_str());
        let wanted = match &ctx.kind {
            CompletionKind::Field { ty: _ } => true,
            CompletionKind::Function => begun,
            CompletionKind::Symbol => begun,
            CompletionKind::Nothing => false,
        };
        if wanted {
            Some((line, col))
        } else {
            self.comp = Vec::new();
            assert(search::completions_view(self.comp@) =~= Seq::empty());
            assert(self@ =~= session::no_popup(old(self)@));
            None
        }
    }

    /// Reads the typed pointers of the text anew.
    pub fn refresh_bindings(&mut self)
        requires
            old(self).wf(),
        ensures
            final(self).wf(),
            final(self)@ == (SessionView {
                binds: declared_binds(doc_model::full_text(old(self)@.doc.lines)),
                ..old(self)@
            }),
    {
        let t = self.doc.text();
        self.binds = com_bindings(t.as_str());
        assert(tips::binds_view(self.binds@) =~= includes::pair_strings(self.binds@));
        assert(self@ =~= (SessionView {
            binds: declared_binds(doc_model::full_text(old(self)@.doc.lines)),
            ..old(self)@
        }));
    }

    /// What the card is asked for, where it is not shown already.
    pub fn card_request(&self, shown: &str) -> (r: Option<String>)
        requires
            self.wf(),
        ensures
            text::opt_text(r) == card_question(self@, shown@),
    {
        proof {
            self.doc.lemma_caret_is_shown();
        }
        if self.search_active {
            return None;
        }
        let line = self.doc.line(self.doc.caret.row);
        match card_query(line, self.doc.caret.col, &self.binds) {
            Some(w) => {
                let c = chars_of(w.as_str());
                if is(&c, shown) {
                    None
                } else {
                    Some(w)
                }
            },
            None => None,
        }
    }

    /// What the search box asks for; `None` where it is blank.
    pub fn search_request(&self) -> (r: Option<String>)
        ensures
            text::opt_text(r) == if text::trim(self@.search).len() == 0 {
                None
            } else {
                Some(text::trim(self@.search))
            },
    {
        let q = trimmed(&self.search);
        if q.len() == 0 {
            None
        } else {
            Some(string_of(q))
        }
    }

    /// Another text in place of the document, with its line ends as the document has
    /// them and without a history.
    pub fn open_text(&mut self, text: &str)
        requires
            old(self).wf(),
        ensures
            final(self).wf(),
            final(self)@ == session::with_doc(
                old(self)@,
                doc_model::opened(text::split(session::with_line_feeds(text@), '\n')),
            ),
    {
        let t = line_feeds(text);
        self.doc = Doc::from_str(t.as_str());
        assert(self@ =~= session::with_doc(old(self)@, self@.doc));
    }
}

fn is_empty_text(s: &str) -> (r: bool)
    ensures
        r == (s@.len() == 0),
{
    let c = chars_of(s);
    c.len() == 0
}

// ── colours ─────────────────────────────────────────────────────────────────

/// The colour of a token.
pub fn tok_color(k: TokKind) -> (r: u32)
    ensures
        r == match k {
            TokKind::Comment => 0x6A9955u32,
            TokKind::Label => 0xDCDCAAu32,
            TokKind::Directive => 0xC586C0u32,
            TokKind::Mnemonic => 0x569CD6u32,
            TokKind::Keyword => 0xC586C0u32,
            TokKind::Register => 0x9CDCFEu32,
            TokKind::Number => 0xB5CEA8u32,
            TokKind::String => 0xCE9178u32,
            TokKind::Constant => 0x4EC9B0u32,
            TokKind::Ident => 0xD4D4D4u32,
            TokKind::Punct => 0x808080u32,
        },
{
    match k {
        TokKind::Comment => 0x6A9955,
        TokKind::Label => 0xDCDCAA,
        TokKind::Directive => 0xC586C0,
        TokKind::Mnemonic => 0x569CD6,
        TokKind::Keyword => 0xC586C0,
        TokKind::Register => 0x9CDCFE,
        TokKind::Number => 0xB5CEA8,
        TokKind::String => 0xCE9178,
        TokKind::Constant => 0x4EC9B0,
        TokKind::Ident => 0xD4D4D4,
        TokKind::Punct => 0x808080,
    }
}

/// The colour of a finding.
pub fn diag_color(s: Severity) -> (r: u32)
    ensures
        r == match s {
            Severity::Error => 0xF14C4Cu32,
            Severity::Warn => 0xE5C07Bu32,
            Severity::Info => 0x4FA6F1u32,
        },
{
    match s {
        Severity::Error => 0xF14C4C,
        Severity::Warn => 0xE5C07B,
        Severity::Info => 0x4FA6F1,
    }
}

// ── builds ──────────────────────────────────────────────────────────────────

/// What the reply to a build means: a program to write and what is said of it, or why
/// there is none.
pub open spec fn build_meaning(reply: Option<(u64, ReplyView)>) -> Result<
    (Seq<u8>, Seq<char>),
    Seq<char>,
> {
    match reply {
        Some((_, ReplyView::Assembled { emit: _, bytes, info })) => Ok((bytes, info)),
        Some((_, ReplyView::Error(m))) => Err("build error: "@ + m),
        _ => Err("build failed: no reply from the assembler (timed out)"@),
    }
}

/// A reply in mathematical terms, where there is one.
pub open spec fn opt_reply(r: Option<Response>) -> Option<(u64, ReplyView)> {
    match r {
        Some(x) => Some(x@),
        None => None,
    }
}

/// What the reply to a build means.
pub fn build_outcome(reply: Option<Response>) -> (r: Result<(Vec<u8>, String), String>)
    ensures
        (match r {
            Ok((b, i)) => Ok((b@, i@)),
            Err(m) => Err(m@),
        }) == build_meaning(opt_reply(reply)),
{
    match reply {
        Some(Response::Assembled { id: _, emit: _, bytes, info }) => Ok((bytes, info)),
        Some(Response::Error { id: _, message }) => {
            let mut m = "build error: ".to_owned();
            m.append(message.as_str());
            Err(m)
        },
        _ => Err("build failed: no reply from the assembler (timed out)".to_owned()),
    }
}

/// What is said of a program that was built, given why writing it failed, if it did.
pub fn built_notice(path: &str, info: &str, failure: Option<&str>) -> (r: String)
    ensures
        r@ == match failure {
            None => "built "@ + path@ + " — "@ + info@,
            Some(e) => "build ok ("@ + info@ + ") but write failed: "@ + e@,
        },
{
    match failure {
        None => {
            let mut m = "built ".to_owned();
            m.append(path);
            m.append(" — ");
            m.append(info);
            m
        },
        Some(e) => {
            let mut m = "build ok (".to_owned();
            m.append(info);
            m.append(") but write failed: ");
            m.append(e);
            m
        },
    }
}

/// How a step that may fail ended: `done` and its object, or `failed` and why.
pub open spec fn outcome_text(
    done: Seq<char>,
    object: Seq<char>,
    failed: Seq<char>,
    failure: Option<Seq<char>>,
) -> Seq<char> {
    match failure {
        None => done + object,
        Some(e) => failed + e,
    }
}

fn outcome(done: &str, object: &str, failed: &str, failure: Option<&str>) -> (r: String)
    ensures
        r@ == outcome_text(done@, object@, failed@, text::opt_str(failure)),
{
    match failure {
        None => {
            let mut m = done.to_owned();
            m.append(object);
            m
        },
        Some(e) => {
            let mut m = failed.to_owned();
            m.append(e);
            m
        },
    }
}

/// What is said of a program that was started.
pub fn run_notice(path: &str, failure: Option<&str>) -> (r: String)
    ensures
        r@ == outcome_text("running "@, path@, "launch failed: "@, text::opt_str(failure)),
{
    outcome("running ", path, "launch failed: ", failure)
}

/// What is said of a document that was saved.
pub fn save_notice(path: &str, failure: Option<&str>) -> (r: String)
    ensures
        r@ == outcome_text("saved "@, path@, "save failed: "@, text::opt_str(failure)),
{
    outcome("saved ", path, "save failed: ", failure)
}

/// What is said of a listing that was exported.
pub fn export_notice(path: &str, failure: Option<&str>) -> (r: String)
    ensures
        r@ == outcome_text("exported listing to "@, path@, "export failed: "@, text::opt_str(failure)),
{
    outcome("exported listing to ", path, "export failed: ", failure)
}

/// The title of the window.
pub fn window_title(path: Option<&str>) -> (r: String)
    ensures
        r@ == "RASM Studio — "@ + match path {
            Some(p) => p@,
            None => "untitled"@,
        },
{
    let mut m = "RASM Studio — ".to_owned();
    match path {
        Some(p) => m.append(p),
        None => m.append("untitled"),
    }
    m
}

// ── recent files ────────────────────────────────────────────────────────────

/// The first `n` lines that are not empty.
pub open spec fn filled_lines(v: Seq<Seq<char>>, n: int) -> Seq<Seq<char>>
    decreases n,
{
    if n <= 0 {
        Seq::empty()
    } else if v[n - 1].len() > 0 {
        filled_lines(v, n - 1).push(v[n - 1])
    } else {
        filled_lines(v, n - 1)
    }
}

/// The recent files that a stored text names, one in a line.
pub open spec fn stored_recent(t: Seq<char>) -> Seq<Seq<char>> {
    filled_lines(text::lines(t), text::lines(t).len() as int)
}

/// The recent files of a stored text.
pub fn read_recent(stored: &str) -> (r: Vec<String>)
    ensures
        text::strings(r@) == stored_recent(stored@),
{
    let c = chars_of(stored);
    let v = lines_of(&c);
    let ghost all = text::lines(stored@);
    let mut r: Vec<String> = Vec::new();
    let mut i: usize = 0;
    assert(text::strings(r@) =~= Seq::empty());
    assert(text::slices(v@).len() == v@.len());
    while i < v.len()
        invariant
            all == text::slices(v@),
            i <= v@.len(),
            text::strings(r@) == filled_lines(all, i as int),
        decreases v@.len() - i,
    {
        assert(all[i as int] == v@[i as int]@);
        if v[i].len() > 0 {
            let s = string_of(v[i]);
            let ghost before = text::strings(r@);
            r.push(s);
            assert(text::strings(r@) =~= before.push(s@));
        }
        i += 1;
    }
    r
}

/// The recent files as they are stored.
pub fn write_recent(recent: &[String]) -> (r: String)
    ensures
        r@ == text::join(text::strings(recent@), "\n"@),
{
    join_strings(recent, "\n")
}

/// A name that can be stored in a line: not empty, and without line ends.
pub open spec fn is_storable(s: Seq<char>) -> bool {
    s.len() > 0 && lines::is_one_line(s) && s.last() != '\r'
}

/// Every name can be stored in a line.
pub open spec fn all_storable(v: Seq<Seq<char>>) -> bool {
    forall|i: int| 0 <= i < v.len() ==> is_storable(#[trigger] v[i])
}

proof fn lemma_lines_shift(pre: Seq<char>, s: Seq<char>, a: int)
    requires
        0 <= a <= s.len(),
    ensures
        text::lines_from(pre + s, pre.len() + a) == text::lines_from(s, a),
    decreases s.len() - a,
{
    let t = pre + s;
    if a < s.len() {
        let p = text::eq_char('\n');
        let n = text::first_from(s, p, a);
        text::lemma_first_from(s, p, a);
        lines::lemma_first_from_shift(pre, s, p, a);
        assert(text::first_from(t, p, pre.len() + a) == pre.len() + n);
        if n > a {
            assert(t[pre.len() + n - 1] == s[n - 1]);
        }
        assert(t.subrange(pre.len() + a, pre.len() + n) =~= s.subrange(a, n));
        assert(n > a ==> t.subrange(pre.len() + a, pre.len() + n - 1) =~= s.subrange(a, n - 1));
        assert(text::line_text(t, pre.len() + a, pre.len() + n) == text::line_text(s, a, n));
        if n < s.len() {
            lemma_lines_shift(pre, s, n + 1);
        }
    }
}

proof fn lemma_filled_all(v: Seq<Seq<char>>, n: int)
    requires
        all_storable(v),
        0 <= n <= v.len(),
    ensures
        filled_lines(v, n) == v.take(n),
    decreases n,
{
    if n > 0 {
        lemma_filled_all(v, n - 1);
        assert(is_storable(v[n - 1]));
        assert(v.take(n) =~= v.take(n - 1).push(v[n - 1]));
    } else {
        assert(v.take(0) =~= Seq::empty());
    }
}

proof fn lemma_lines_of_join(v: Seq<Seq<char>>)
    requires
        all_storable(v),
    ensures
        text::lines(text::join(v, "\n"@)) == v,
    decreases v.len(),
{
    reveal_strlit("\n");
    if v.len() == 0 {
        assert(text::lines(text::join(v, "\n"@)) =~= v);
    } else {
        let x = v[0];
        assert(is_storable(x));
        let p = text::eq_char('\n');
        if v.len() == 1 {
            lines::lemma_no_break(x, 0);
            assert(x.subrange(0, x.len() as int) =~= x);
            assert(text::lines(x) =~= seq![x]);
            assert(v =~= seq![x]);
        } else {
            let rest = v.drop_first();
            assert forall|i: int| 0 <= i < rest.len() implies is_storable(#[trigger] rest[i]) by {
                assert(rest[i] == v[i + 1]);
            }
            lemma_lines_of_join(rest);
            assert(v =~= seq![x] + rest);
            lines::lemma_join_cons(x, rest, "\n"@);
            let r = text::join(rest, "\n"@);
            let pre = x + "\n"@;
            let t = pre + r;
            lines::lemma_split_first(x, r, 0);
            assert(x + "\n"@ + r =~= t);
            assert(t[x.len() - 1] == x.last());
            assert(t.subrange(0, x.len() as int) =~= x);
            lemma_lines_shift(pre, r, 0);
            assert(pre.len() == x.len() + 1);
            assert(text::lines(t) =~= seq![x] + text::lines(r));
        }
    }
}

/// The recent files that are stored are read back.
pub proof fn law_recent_round_trip(v: Seq<Seq<char>>)
    requires
        all_storable(v),
    ensures
        stored_recent(text::join(v, "\n"@)) == v,
{
    lemma_lines_of_join(v);
    lemma_filled_all(v, v.len() as int);
    assert(v.take(v.len() as int) =~= v);
}

} // verus!
