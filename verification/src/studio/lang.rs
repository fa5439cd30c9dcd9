//! The messages of the language worker and what it makes of them.
//!
//! The worker takes requests in bursts, drops those that a later request of the same
//! kind makes stale, and answers the rest in order. What an answer takes from the
//! assembler or the card writer is asked for as a piece of [`Work`]; the reply is
//! then made from what came back.
use crate::studio::complete;
use crate::studio::hover;
use crate::studio::listing;
use crate::studio::sig;
use crate::studio::tips;
use crate::text;
use crate::was::check;
use crate::was::diag;
use crate::was::lower;
use crate::was::macros;
use crate::winkb::search;
use crate::studio::complete::context;
use crate::studio::hover::token_at;
use crate::studio::listing::{ListingRow, RowView, empty_listing};
use crate::studio::sig::active_param;
use crate::studio::tips::{complete_items, hover_markdown, signature_markdown};
use crate::text::{char_index, chars_of, copy_of, lines_of};
use crate::was::check::check;
use crate::was::diag::DiagView;
use crate::was::lower::lower_mapped;
use crate::winkb::kb::{Completion, Kb};
use vstd::prelude::*;
use vstd::slice::slice_subrange;
use vstd::utf8::*;

verus! {

/// What an assemble should give.
#[derive(Debug, Clone, Copy, PartialEq, Eq, Structural)]
pub enum Emit {
    /// The lowered text.
    Asm,
    /// A COFF object.
    Obj,
    /// An executable, with its imports resolved.
    Exe,
}

/// How grave a diagnostic is.
#[derive(Debug, Clone, Copy, PartialEq, Eq, Structural)]
pub enum Severity {
    Error,
    Warn,
    Info,
}

/// A diagnostic. `line` and `col` count from 1; line 0 speaks of the whole file.
#[derive(Debug, Clone, PartialEq, Eq)]
pub struct Diag {
    pub line: usize,
    pub col: usize,
    pub message: String,
    pub severity: Severity,
}

/// A unit of work for the language worker. `id` ties the reply to it.
#[derive(Debug, Clone)]
pub enum Request {
    /// The card for a query: a function, a struct, an interface or a search.
    Card { id: u64, query: String },
    /// The line to fill in for a function.
    Frame { id: u64, func: String },
    /// A check of a source buffer.
    Check { id: u64, src: String },
    /// A source buffer assembled to text, an object or an executable.
    Assemble { id: u64, src: String, emit: Emit },
    /// Names like a name.
    Suggest { id: u64, name: String },
    /// Candidates for `line` at the byte `cursor`. `binds` gives the interfaces of
    /// the buffer's typed pointers.
    Complete { id: u64, line: String, cursor: usize, binds: Vec<(String, String)> },
    /// A tooltip for the token at the byte `cursor`.
    Hover { id: u64, line: String, cursor: usize },
    /// Signature help for an `invoke` at the byte `cursor`.
    Signature { id: u64, line: String, cursor: usize },
    /// The bytes that a single line encodes to.
    LineBytes { id: u64, line: String },
    /// What each line of a buffer lowers to, with the bytes.
    Listing { id: u64, src: String },
    /// Stop the worker.
    Shutdown,
}

/// A reply, with the `id` of the request it answers.
#[derive(Debug, Clone)]
pub enum Response {
    Card { id: u64, markdown: String },
    Frame { id: u64, line: Option<String> },
    Check { id: u64, diags: Vec<Diag> },
    Assembled { id: u64, emit: Emit, bytes: Vec<u8>, info: String },
    Suggest { id: u64, names: Vec<String> },
    /// Candidates, and the byte at which the prefix that a choice replaces begins.
    Completions { id: u64, items: Vec<Completion>, replace_start: usize },
    /// A tooltip, or `None` where there is nothing to show.
    Tip { id: u64, markdown: Option<String> },
    /// The bytes of a line, empty where it does not encode alone.
    LineBytes { id: u64, bytes: Vec<u8> },
    /// The rows of each source line.
    Listing { id: u64, rows: Vec<Vec<ListingRow>> },
    /// The request failed.
    Error { id: u64, message: String },
}

/// A diagnostic in mathematical terms.
pub struct FindingView {
    pub line: int,
    pub col: int,
    pub message: Seq<char>,
    pub severity: Severity,
}

impl View for Diag {
    type V = FindingView;

    open spec fn view(&self) -> FindingView {
        FindingView {
            line: self.line as int,
            col: self.col as int,
            message: self.message@,
            severity: self.severity,
        }
    }
}

/// The views of diagnostics.
pub open spec fn findings_view(v: Seq<Diag>) -> Seq<FindingView> {
    Seq::new(v.len(), |i: int| v[i]@)
}

/// A reply in mathematical terms.
pub enum ReplyView {
    Card(Seq<char>),
    Frame(Option<Seq<char>>),
    Check(Seq<FindingView>),
    Assembled { emit: Emit, bytes: Seq<u8>, info: Seq<char> },
    Suggest(Seq<Seq<char>>),
    Completions { items: Seq<(Seq<char>, Seq<char>, Seq<char>)>, replace_start: int },
    Tip(Option<Seq<char>>),
    LineBytes(Seq<u8>),
    Listing(Seq<Seq<RowView>>),
    Error(Seq<char>),
}

impl View for Response {
    type V = (u64, ReplyView);

    open spec fn view(&self) -> (u64, ReplyView) {
        match *self {
            Response::Card { id, markdown } => (id, ReplyView::Card(markdown@)),
            Response::Frame { id, line } => (id, ReplyView::Frame(text::opt_text(line))),
            Response::Check { id, diags } => (id, ReplyView::Check(findings_view(diags@))),
            Response::Assembled { id, emit, bytes, info } => (
                id,
                ReplyView::Assembled { emit, bytes: bytes@, info: info@ },
            ),
            Response::Suggest { id, names } => (id, ReplyView::Suggest(text::strings(names@))),
            Response::Completions { id, items, replace_start } => (
                id,
                ReplyView::Completions {
                    items: search::completions_view(items@),
                    replace_start: replace_start as int,
                },
            ),
            Response::Tip { id, markdown } => (id, ReplyView::Tip(text::opt_text(markdown))),
            Response::LineBytes { id, bytes } => (id, ReplyView::LineBytes(bytes@)),
            Response::Listing { id, rows } => (id, ReplyView::Listing(listing::listing_view(rows@))),
            Response::Error { id, message } => (id, ReplyView::Error(message@)),
        }
    }
}

impl Response {
    /// The id of the request that this reply answers.
    pub fn id(&self) -> (r: u64)
        ensures
            r == self@.0,
    {
        match self {
            Response::Card { id, .. } => *id,
            Response::Frame { id, .. } => *id,
            Response::Check { id, .. } => *id,
            Response::Assembled { id, .. } => *id,
            Response::Suggest { id, .. } => *id,
            Response::Completions { id, .. } => *id,
            Response::Tip { id, .. } => *id,
            Response::LineBytes { id, .. } => *id,
            Response::Listing { id, .. } => *id,
            Response::Error { id, .. } => *id,
        }
    }
}

// ── stale requests ──────────────────────────────────────────────────────────

/// The kind of a request that newer input makes stale; `None` for an explicit
/// action, which never is.
pub open spec fn live_kind(r: Request) -> Option<u8> {
    match r {
        Request::Check { .. } => Some(0),
        Request::Complete { .. } => Some(1),
        Request::Hover { .. } => Some(2),
        Request::Signature { .. } => Some(3),
        Request::LineBytes { .. } => Some(4),
        Request::Listing { .. } => Some(5),
        _ => None,
    }
}

/// The kind of a request that newer input makes stale; `None` for an explicit
/// action, which never is.
pub fn coalesce_tag(req: &Request) -> (r: Option<u8>)
    ensures
        r == live_kind(*req),
{
    match req {
        Request::Check { .. } => Some(0),
        Request::Complete { .. } => Some(1),
        Request::Hover { .. } => Some(2),
        Request::Signature { .. } => Some(3),
        Request::LineBytes { .. } => Some(4),
        Request::Listing { .. } => Some(5),
        _ => None,
    }
}

/// Request `i` of a burst is stale: a later one is of the same live kind.
pub open spec fn superseded(b: Seq<Request>, i: int) -> bool {
    live_kind(b[i]) is Some && exists|k: int|
        i < k < b.len() && live_kind(#[trigger] b[k]) == live_kind(b[i])
}

/// The requests of a burst from `i` on that are not stale.
pub open spec fn surviving(b: Seq<Request>, i: int) -> Seq<Request>
    decreases b.len() - i,
{
    if i >= b.len() {
        Seq::empty()
    } else if superseded(b, i) {
        surviving(b, i + 1)
    } else {
        seq![b[i]] + surviving(b, i + 1)
    }
}

fn is_superseded(b: &Vec<Request>, i: usize) -> (r: bool)
    requires
        i < b@.len(),
    ensures
        r == superseded(b@, i as int),
{
    let tag = coalesce_tag(&b[i]);
    let t: u8 = match tag {
        Some(t) => t,
        None => return false,
    };
    let n: usize = b.len();
    let mut k: usize = i + 1;
    while k < n
        invariant
            n == b@.len(),
            i < k <= n,
            live_kind(b@[i as int]) == Some(t),
            forall|q: int| i < q < k ==> live_kind(#[trigger] b@[q]) != Some(t),
        decreases n - k,
    {
        match coalesce_tag(&b[k]) {
            Some(x) => {
                if x == t {
                    assert(live_kind(b@[k as int]) == live_kind(b@[i as int]));
                    return true;
                }
            },
            None => {},
        }
        k += 1;
    }
    false
}

/// A burst without its stale requests: of each live kind the last one stays, every
/// explicit action stays, and the order stays.
pub fn coalesce_superseded(batch: Vec<Request>) -> (r: Vec<Request>)
    ensures
        r@ == surviving(batch@, 0),
{
    let ghost all = batch@;
    let mut v = batch;
    let ghost mut j: int = 0;
    let mut i: usize = 0;
    assert(v@.take(0) + surviving(all, 0) =~= surviving(all, 0));
    while i < v.len()
        invariant
            i <= v@.len(),
            0 <= j <= all.len(),
            v@.len() - i == all.len() - j,
            v@.skip(i as int) =~= all.skip(j),
            v@.take(i as int) + surviving(all, j) =~= surviving(all, 0),
        decreases v@.len() - i,
    {
        let ghost before = v@;
        proof {
            assert(v@[i as int] == v@.skip(i as int)[0] && all[j] == all.skip(j)[0]);
            assert forall|k: int| i < k < v@.len() implies #[trigger] v@[k] == all[k - i + j] by {
                assert(v@.skip(i as int)[k - i] == all.skip(j)[k - i]);
            }
            if superseded(all, j) {
                let k = choose|k: int|
                    j < k < all.len() && live_kind(#[trigger] all[k]) == live_kind(all[j]);
                assert(v@[k - j + i] == all[k]);
                assert(superseded(v@, i as int));
            }
            if superseded(v@, i as int) {
                let k = choose|k: int|
                    i < k < v@.len() && live_kind(#[trigger] v@[k]) == live_kind(v@[i as int]);
                assert(live_kind(all[k - i + j]) == live_kind(all[j]));
                assert(superseded(all, j));
            }
        }
        if is_superseded(&v, i) {
            let _stale = v.remove(i);
            assert(v@ =~= before.remove(i as int));
            assert(v@.take(i as int) =~= before.take(i as int));
            assert forall|k: int| 0 <= k < v@.len() - i implies #[trigger] v@.skip(i as int)[k]
                == all.skip(j + 1)[k] by {
                assert(before.skip(i as int)[k + 1] == all.skip(j)[k + 1]);
            }
        } else {
            assert(v@.take(i + 1) =~= v@.take(i as int).push(v@[i as int]));
            assert(v@.take(i as int) + (seq![all[j]] + surviving(all, j + 1)) =~= v@.take(i + 1)
                + surviving(all, j + 1));
            assert forall|k: int| 0 <= k < v@.len() - i - 1 implies #[trigger] v@.skip(i + 1)[k]
                == all.skip(j + 1)[k] by {
                assert(before.skip(i as int)[k + 1] == all.skip(j)[k + 1]);
            }
            i += 1;
        }
        proof {
            j = j + 1;
        }
    }
    assert(v@.take(v@.len() as int) =~= v@);
    v
}

/// An explicit action.
pub open spec fn is_action(r: Request) -> bool {
    live_kind(r) is None
}

/// The explicit actions among the requests from `i` on.
pub open spec fn actions_from(b: Seq<Request>, i: int) -> Seq<Request>
    decreases b.len() - i,
{
    if i >= b.len() {
        Seq::empty()
    } else if is_action(b[i]) {
        seq![b[i]] + actions_from(b, i + 1)
    } else {
        actions_from(b, i + 1)
    }
}

proof fn lemma_actions_of_cons(x: Request, b: Seq<Request>, i: int)
    requires
        0 <= i,
    ensures
        actions_from(seq![x] + b, i + 1) == actions_from(b, i),
    decreases b.len() - i,
{
    let c = seq![x] + b;
    if i < b.len() {
        assert(c[i + 1] == b[i]);
        lemma_actions_of_cons(x, b, i + 1);
    }
}

/// Every explicit action of a burst survives, in order.
pub proof fn law_actions_survive(b: Seq<Request>, i: int)
    requires
        0 <= i,
    ensures
        actions_from(surviving(b, i), 0) == actions_from(b, i),
    decreases b.len() - i,
{
    if i < b.len() {
        law_actions_survive(b, i + 1);
        if !superseded(b, i) {
            let rest = surviving(b, i + 1);
            assert((seq![b[i]] + rest)[0] == b[i]);
            lemma_actions_of_cons(b[i], rest, 0);
        }
    }
}

proof fn lemma_surviving_from(b: Seq<Request>, i: int)
    requires
        0 <= i,
    ensures
        forall|k: int|
            0 <= k < surviving(b, i).len() ==> exists|q: int|
                i <= q < b.len() && !superseded(b, q) && #[trigger] b[q] == (
                #[trigger] surviving(b, i)[k]),
    decreases b.len() - i,
{
    if i < b.len() {
        lemma_surviving_from(b, i + 1);
        let rest = surviving(b, i + 1);
        let v = surviving(b, i);
        assert forall|k: int| 0 <= k < v.len() implies exists|q: int|
            i <= q < b.len() && !superseded(b, q) && #[trigger] b[q] == (#[trigger] v[k]) by {
            if !superseded(b, i) && k == 0 {
                assert(b[i] == v[k]);
            } else {
                let p = if superseded(b, i) {
                    k
                } else {
                    k - 1
                };
                assert(v[k] == rest[p]);
                let q = choose|q: int|
                    i + 1 <= q < b.len() && !superseded(b, q) && #[trigger] b[q] == rest[p];
                assert(b[q] == v[k]);
            }
        }
    }
}

/// Of each live kind at most one request of a burst survives.
pub proof fn law_one_survivor_per_kind(b: Seq<Request>, i: int)
    requires
        0 <= i,
    ensures
        forall|x: int, y: int|
            0 <= x < y < surviving(b, i).len() && !is_action(#[trigger] surviving(b, i)[x])
                ==> live_kind(surviving(b, i)[x]) != live_kind(#[trigger] surviving(b, i)[y]),
    decreases b.len() - i,
{
    if i < b.len() {
        law_one_survivor_per_kind(b, i + 1);
        let rest = surviving(b, i + 1);
        let v = surviving(b, i);
        if !superseded(b, i) {
            lemma_surviving_from(b, i + 1);
            assert forall|x: int, y: int|
                0 <= x < y < v.len() && !is_action(#[trigger] v[x]) implies live_kind(v[x])
                != live_kind(#[trigger] v[y]) by {
                assert(v[y] == rest[y - 1]);
                if x > 0 {
                    assert(v[x] == rest[x - 1]);
                } else {
                    let q = choose|q: int|
                        i + 1 <= q < b.len() && !superseded(b, q) && #[trigger] b[q] == rest[y
                            - 1];
                    assert(b[q] == v[y]);
                    assert(v[0] == b[i]);
                }
            }
        }
    }
}

/// The last request of a live kind in a burst survives.
pub proof fn law_last_of_kind_survives(b: Seq<Request>, i: int, k: int)
    requires
        0 <= i <= k < b.len(),
        !superseded(b, k),
    ensures
        surviving(b, i).contains(b[k]),
    decreases b.len() - i,
{
    let rest = surviving(b, i + 1);
    let v = surviving(b, i);
    if i == k {
        assert(v[0] == b[k]);
    } else {
        law_last_of_kind_survives(b, i + 1, k);
        let q = choose|q: int| 0 <= q < rest.len() && rest[q] == b[k];
        if superseded(b, i) {
            assert(v[q] == b[k]);
        } else {
            assert(v[q + 1] == b[k]);
        }
    }
}

// ── answering ───────────────────────────────────────────────────────────────

/// What an answer needs from outside: the card writer or the assembler.
#[derive(Debug, Clone)]
pub enum Work {
    /// The card for a query.
    Card { id: u64, query: String },
    /// The line to fill in for a function.
    Frame { id: u64, func: String },
    /// Whether the assembler refuses what a source lowers to.
    Check { id: u64, src: String },
    /// The object or the executable of a lowered text.
    Encode { id: u64, lowered: String, emit: Emit },
    /// The code of a lowered line.
    EncodeLine { id: u64, lowered: String },
    /// The assembly of a lowered text whose lines come from `lines` source lines.
    List { id: u64, lowered: String, src_map: Vec<usize>, lines: usize },
}

/// How a request is answered: at once, or by work outside.
#[derive(Debug, Clone)]
pub enum Step {
    Reply(Response),
    Ask(Work),
}

/// Work in mathematical terms.
pub enum WorkView {
    Card(Seq<char>),
    Frame(Seq<char>),
    Check(Seq<char>),
    Encode(Seq<char>, Emit),
    EncodeLine(Seq<char>),
    List(Seq<char>, Seq<int>, int),
}

/// A step in mathematical terms.
pub enum StepView {
    Reply(u64, ReplyView),
    Ask(u64, WorkView),
}

impl View for Step {
    type V = StepView;

    open spec fn view(&self) -> StepView {
        match *self {
            Step::Reply(r) => StepView::Reply(r@.0, r@.1),
            Step::Ask(w) => match w {
                Work::Card { id, query } => StepView::Ask(id, WorkView::Card(query@)),
                Work::Frame { id, func } => StepView::Ask(id, WorkView::Frame(func@)),
                Work::Check { id, src } => StepView::Ask(id, WorkView::Check(src@)),
                Work::Encode { id, lowered, emit } => StepView::Ask(
                    id,
                    WorkView::Encode(lowered@, emit),
                ),
                Work::EncodeLine { id, lowered } => StepView::Ask(
                    id,
                    WorkView::EncodeLine(lowered@),
                ),
                Work::List { id, lowered, src_map, lines } => StepView::Ask(
                    id,
                    WorkView::List(lowered@, macros::map_view(src_map@), lines as int),
                ),
            },
        }
    }
}

/// The text between two byte positions of a line.
pub open spec fn bytes_between(line: Seq<char>, a: int, b: int) -> Seq<char> {
    let i = text::index_at(line, a);
    let j = text::index_at(line, b);
    if i <= j {
        line.subrange(i, j)
    } else {
        Seq::empty()
    }
}

/// How the request `req` is answered.
pub open spec fn step_for(kb: &Kb, req: Request) -> StepView {
    match req {
        Request::Shutdown => arbitrary(),
        Request::Card { id, query } => StepView::Ask(id, WorkView::Card(query@)),
        Request::Frame { id, func } => StepView::Ask(id, WorkView::Frame(func@)),
        Request::Check { id, src } => StepView::Ask(id, WorkView::Check(src@)),
        Request::Assemble { id, src, emit } => match lower::full_lowering(kb, src@) {
            Ok((t, _)) => if emit == Emit::Asm {
                StepView::Reply(
                    id,
                    ReplyView::Assembled { emit, bytes: encode_utf8(t), info: "asm"@ },
                )
            } else {
                StepView::Ask(id, WorkView::Encode(t, emit))
            },
            Err(m) => StepView::Reply(id, ReplyView::Error(m)),
        },
        Request::Suggest { id, name } => StepView::Reply(
            id,
            ReplyView::Suggest(kb.spec_suggest(name@, 5)),
        ),
        Request::Complete { id, line, cursor, binds } => {
            let ctx = complete::context_at(line@, text::index_at(line@, cursor as int));
            StepView::Reply(
                id,
                ReplyView::Completions {
                    items: tips::items_for(kb, ctx, tips::binds_view(binds@)),
                    replace_start: ctx.start,
                },
            )
        },
        Request::Hover { id, line, cursor } => StepView::Reply(
            id,
            ReplyView::Tip(
                match hover::covering_token(line@, cursor as int) {
                    Some(t) => tips::tip_for(kb, bytes_between(line@, t.1, t.2)),
                    None => None,
                },
            ),
        ),
        Request::Signature { id, line, cursor } => StepView::Reply(
            id,
            ReplyView::Tip(
                match sig::param_at(line@, text::index_at(line@, cursor as int)) {
                    Some((f, n)) => match kb.spec_function(f) {
                        Some(x) => Some(tips::signature_text(x, n)),
                        None => None,
                    },
                    None => None,
                },
            ),
        ),
        Request::LineBytes { id, line } => match lower::full_lowering(kb, line@) {
            Ok((t, _)) => StepView::Ask(id, WorkView::EncodeLine(t)),
            Err(_) => StepView::Reply(id, ReplyView::LineBytes(Seq::empty())),
        },
        Request::Listing { id, src } => {
            let n = text::lines(src@).len() as int;
            match lower::full_lowering(kb, src@) {
                Ok((t, m)) => StepView::Ask(id, WorkView::List(t, m, n)),
                Err(_) => StepView::Reply(
                    id,
                    ReplyView::Listing(Seq::new(n as nat, |k: int| Seq::<RowView>::empty())),
                ),
            }
        },
    }
}

pub fn text_between(line: &str, a: usize, b: usize) -> (r: Vec<char>)
    ensures
        r@ == bytes_between(line@, a as int, b as int),
{
    let c = chars_of(line);
    let i: usize = char_index(&c, a);
    let j: usize = char_index(&c, b);
    if i <= j {
        copy_of(slice_subrange(&c, i, j))
    } else {
        let none: Vec<char> = Vec::new();
        assert(none@ =~= Seq::empty());
        none
    }
}

fn assemble_step(kb: &Kb, id: u64, src: String, emit: Emit) -> (r: Step)
    ensures
        r@ == step_for(kb, Request::Assemble { id, src, emit }),
{
    match lower::lower(src.as_str(), kb) {
        Ok(t) => {
            if emit == Emit::Asm {
                Step::Reply(
                    Response::Assembled {
                        id,
                        emit,
                        bytes: t.as_str().as_bytes_vec(),
                        info: "asm".to_owned(),
                    },
                )
            } else {
                Step::Ask(Work::Encode { id, lowered: t, emit })
            }
        },
        Err(m) => Step::Reply(Response::Error { id, message: m }),
    }
}

fn listing_step(kb: &Kb, id: u64, src: String) -> (r: Step)
    ensures
        r@ == step_for(kb, Request::Listing { id, src }),
{
    let chars = chars_of(src.as_str());
    let v = lines_of(&chars);
    let n: usize = v.len();
    assert(text::slices(v@).len() == n);
    match lower_mapped(src.as_str(), kb) {
        Ok((lowered, src_map)) => Step::Ask(Work::List { id, lowered, src_map, lines: n }),
        Err(_) => Step::Reply(Response::Listing { id, rows: empty_listing(n) }),
    }
}

/// How a request is answered. Stopping is no request to answer.
pub fn handle(kb: &Kb, req: Request) -> (r: Step)
    requires
        !(req is Shutdown),
    ensures
        r@ == step_for(kb, req),
{
    match req {
        Request::Shutdown => Step::Reply(
            Response::Error { id: 0, message: "".to_owned() },
        ),
        Request::Card { id, query } => Step::Ask(Work::Card { id, query }),
        Request::Frame { id, func } => Step::Ask(Work::Frame { id, func }),
        Request::Check { id, src } => Step::Ask(Work::Check { id, src }),
        Request::Assemble { id, src, emit } => assemble_step(kb, id, src, emit),
        Request::Suggest { id, name } => Step::Reply(
            Response::Suggest { id, names: kb.suggest(name.as_str(), 5) },
        ),
        Request::Complete { id, line, cursor, binds } => {
            let ctx = context(line.as_str(), cursor);
            let items = complete_items(kb, &ctx, &binds);
            Step::Reply(Response::Completions { id, items, replace_start: ctx.start })
        },
        Request::Hover { id, line, cursor } => {
            let markdown = match token_at(line.as_str(), cursor) {
                Some(t) => {
                    let word = text_between(line.as_str(), t.start, t.end);
                    hover_markdown(kb, &word)
                },
                None => None,
            };
            Step::Reply(Response::Tip { id, markdown })
        },
        Request::Signature { id, line, cursor } => {
            let markdown = match active_param(line.as_str(), cursor) {
                Some((func, active)) => signature_markdown(kb, func.as_str(), active),
                None => None,
            };
            Step::Reply(Response::Tip { id, markdown })
        },
        Request::LineBytes { id, line } => {
            match lower::lower(line.as_str(), kb) {
                Ok(lowered) => Step::Ask(Work::EncodeLine { id, lowered }),
                Err(_) => {
                    let none: Vec<u8> = Vec::new();
                    assert(none@ =~= Seq::empty());
                    Step::Reply(Response::LineBytes { id, bytes: none })
                },
            }
        },
        Request::Listing { id, src } => listing_step(kb, id, src),
    }
}

// ── replies from what came back ─────────────────────────────────────────────

/// The card that was written, or why it was not.
pub fn card_reply(id: u64, card: Result<String, String>) -> (r: Response)
    ensures
        r@ == (
            id,
            match card {
                Ok(m) => ReplyView::Card(m@),
                Err(e) => ReplyView::Error(e@),
            },
        ),
{
    match card {
        Ok(markdown) => Response::Card { id, markdown },
        Err(message) => Response::Error { id, message },
    }
}

/// The line to fill in, or why there is none to give.
pub fn frame_reply(id: u64, frame: Result<Option<String>, String>) -> (r: Response)
    ensures
        r@ == (
            id,
            match frame {
                Ok(l) => ReplyView::Frame(text::opt_text(l)),
                Err(e) => ReplyView::Error(e@),
            },
        ),
{
    match frame {
        Ok(line) => Response::Frame { id, line },
        Err(message) => Response::Error { id, message },
    }
}

/// Findings as the worker hands them on.
pub open spec fn handed_on(v: Seq<DiagView>) -> Seq<FindingView> {
    v.map_values(
        |d: DiagView|
            FindingView { line: d.line, col: d.col, message: d.message, severity: Severity::Error },
    )
}

/// The findings of a check, given what the assembler said against the lowered text.
pub fn check_reply(kb: &Kb, id: u64, src: &str, refused: Option<&str>) -> (r: Response)
    requires
        text::byte_len(src@) < usize::MAX,
    ensures
        r@ == (id, ReplyView::Check(handed_on(check::all_findings(kb, src@, text::opt_str(refused))))),
{
    let found = check(src, kb, refused);
    let ghost all = diag::diags_view(found@);
    let ghost want = handed_on(all);
    let mut diags: Vec<Diag> = Vec::new();
    let mut i: usize = 0;
    assert(findings_view(diags@) =~= Seq::empty());
    while i < found.len()
        invariant
            all == diag::diags_view(found@),
            want == handed_on(all),
            i <= found@.len(),
            findings_view(diags@) =~= want.take(i as int),
        decreases found@.len() - i,
    {
        assert(all[i as int] == found@[i as int]@);
        let d = Diag {
            line: found[i].line,
            col: found[i].col,
            message: found[i].message.clone(),
            severity: Severity::Error,
        };
        let ghost before = findings_view(diags@);
        diags.push(d);
        assert(findings_view(diags@) =~= before.push(d@));
        i += 1;
    }
    assert(findings_view(diags@) =~= want);
    Response::Check { id, diags }
}

/// The code of a line, empty where it does not encode alone.
pub fn line_bytes_reply(id: u64, code: Option<Vec<u8>>) -> (r: Response)
    ensures
        r@ == (
            id,
            ReplyView::LineBytes(
                match code {
                    Some(c) => c@,
                    None => Seq::empty(),
                },
            ),
        ),
{
    match code {
        Some(bytes) => Response::LineBytes { id, bytes },
        None => {
            let none: Vec<u8> = Vec::new();
            assert(none@ =~= Seq::empty());
            Response::LineBytes { id, bytes: none }
        },
    }
}

} // verus!
