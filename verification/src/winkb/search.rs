//! Searching the knowledge base, and what it explains.
use crate::text;
use crate::winkb::suggest;
use crate::text::{
    char_lower, char_width, chars_of, index_of_text, is, join_strings, same, to_lower, trimmed,
};
use crate::winkb::kb::{
    Completion, Directive, EnumType, Func, Hit, Instruction, Kb, NameClass, NameRow, Param,
};
use crate::winkb::suggest::comes_before;
use vstd::prelude::*;

verus! {

// ── orders ──────────────────────────────────────────────────────────────────

/// A name's rank in a search for `frag`: the exact name, then names that begin with
/// it, then the others. Without a fragment all names rank alike.
pub open spec fn match_rank(frag: Option<Seq<char>>, name: Seq<char>) -> int {
    match frag {
        None => 0,
        Some(f) => if name == f {
            0
        } else if text::starts_with(text::lower_all(name), text::lower_all(f)) {
            1
        } else {
            2
        },
    }
}

/// `a` is listed before `b`: by rank, then the shorter name, then by name.
pub open spec fn listed_before(frag: Option<Seq<char>>, a: Seq<char>, b: Seq<char>) -> bool {
    let ra = match_rank(frag, a);
    let rb = match_rank(frag, b);
    ||| ra < rb
    ||| ra == rb && a.len() < b.len()
    ||| ra == rb && a.len() == b.len() && a != b && suggest::lex_le(a, b)
}

/// `x` listed among `v`, behind those that do not come after it.
pub open spec fn insert_listed(
    frag: Option<Seq<char>>,
    v: Seq<NameRow>,
    x: NameRow,
) -> Seq<NameRow>
    decreases v.len(),
{
    if v.len() == 0 || !listed_before(frag, x.name@, v.last().name@) {
        v.push(x)
    } else {
        insert_listed(frag, v.drop_last(), x).push(v.last())
    }
}

/// The rows of `v` that satisfy `p`, as they are listed.
pub open spec fn listed(
    frag: Option<Seq<char>>,
    v: Seq<NameRow>,
    p: spec_fn(NameRow) -> bool,
) -> Seq<NameRow>
    decreases v.len(),
{
    if v.len() == 0 {
        Seq::empty()
    } else {
        let before = listed(frag, v.drop_last(), p);
        if p(v.last()) {
            insert_listed(frag, before, v.last())
        } else {
            before
        }
    }
}

/// The rows behind borrowed rows.
pub open spec fn rows(v: Seq<&NameRow>) -> Seq<NameRow> {
    Seq::new(v.len(), |i: int| *v[i])
}

fn name_rank(frag: Option<&[char]>, name: &[char]) -> (r: u8)
    ensures
        r == match_rank(text::opt(frag), name@),
{
    match frag {
        None => 0,
        Some(f) => {
            if same(name, f) {
                0
            } else if begins_ignoring_case(name, f) {
                1
            } else {
                2
            }
        },
    }
}

fn is_listed_before(frag: Option<&[char]>, a: &str, b: &str) -> (r: bool)
    ensures
        r == listed_before(text::opt(frag), a@, b@),
{
    let ac = chars_of(a);
    let bc = chars_of(b);
    let ra: u8 = name_rank(frag, &ac);
    let rb: u8 = name_rank(frag, &bc);
    if ra != rb {
        return ra < rb;
    }
    if ac.len() != bc.len() {
        return ac.len() < bc.len();
    }
    !same(&ac, &bc) && comes_before(&ac, &bc)
}

proof fn lemma_insert_listed(frag: Option<Seq<char>>, v: Seq<NameRow>, x: NameRow, i: int)
    requires
        0 <= i <= v.len(),
        forall|k: int| i <= k < v.len() ==> listed_before(frag, x.name@, (#[trigger] v[k]).name@),
        i > 0 ==> !listed_before(frag, x.name@, v[i - 1].name@),
    ensures
        insert_listed(frag, v, x) == v.insert(i, x),
    decreases v.len(),
{
    if i == v.len() {
        assert(v.insert(i, x) =~= v.push(x));
    } else {
        assert(v[v.len() - 1] == v.last());
        assert forall|k: int| i <= k < v.drop_last().len() implies listed_before(
            frag,
            x.name@,
            (#[trigger] v.drop_last()[k]).name@,
        ) by {
            assert(v.drop_last()[k] == v[k]);
        }
        lemma_insert_listed(frag, v.drop_last(), x, i);
        assert(v.insert(i, x) =~= v.drop_last().insert(i, x).push(v.last()));
    }
}

fn list_row<'a>(frag: Option<&[char]>, v: &mut Vec<&'a NameRow>, x: &'a NameRow)
    ensures
        rows(final(v)@) == insert_listed(text::opt(frag), rows(old(v)@), *x),
{
    let ghost all = rows(v@);
    let mut i: usize = v.len();
    while i > 0
        invariant
            all == rows(v@),
            *v == *old(v),
            i <= v@.len(),
            forall|k: int|
                i <= k < all.len() ==> listed_before(
                    text::opt(frag),
                    x.name@,
                    (#[trigger] all[k]).name@,
                ),
        decreases i,
    {
        assert(all[i - 1] == *v@[i - 1]);
        if !is_listed_before(frag, x.name.as_str(), v[i - 1].name.as_str()) {
            proof {
                lemma_insert_listed(text::opt(frag), all, *x, i as int);
            }
            v.insert(i, x);
            assert(rows(v@) =~= all.insert(i as int, *x));
            return;
        }
        i -= 1;
    }
    proof {
        lemma_insert_listed(text::opt(frag), all, *x, 0);
    }
    v.insert(0, x);
    assert(rows(v@) =~= all.insert(0, *x));
}

// ── search and completion ───────────────────────────────────────────────────

/// A row as it is shown: its name, its kind and a detail.
pub open spec fn row_shown(r: NameRow) -> (Seq<char>, Seq<char>, Seq<char>) {
    (r.name@, r.kind@, r.detail@)
}

impl View for Hit {
    type V = (Seq<char>, Seq<char>, Seq<char>);

    open spec fn view(&self) -> (Seq<char>, Seq<char>, Seq<char>) {
        (self.name@, self.kind@, self.detail@)
    }
}

impl View for Completion {
    type V = (Seq<char>, Seq<char>, Seq<char>);

    open spec fn view(&self) -> (Seq<char>, Seq<char>, Seq<char>) {
        (self.name@, self.kind@, self.detail@)
    }
}

/// The views of hits.
pub open spec fn hits_view(v: Seq<Hit>) -> Seq<(Seq<char>, Seq<char>, Seq<char>)> {
    Seq::new(v.len(), |i: int| v[i]@)
}

/// The views of completions.
pub open spec fn completions_view(v: Seq<Completion>) -> Seq<(Seq<char>, Seq<char>, Seq<char>)> {
    Seq::new(v.len(), |i: int| v[i]@)
}

/// `name` holds `frag`, in any case of its letters.
pub open spec fn contains_ignoring_case(name: Seq<char>, frag: Seq<char>) -> bool {
    exists|i: int| #[trigger] text::occurs_at(text::lower_all(name), text::lower_all(frag), i)
}

/// A row whose name holds `frag`.
pub open spec fn holds_fragment(frag: Seq<char>) -> spec_fn(NameRow) -> bool {
    |r: NameRow| contains_ignoring_case(r.name@, frag)
}

/// The classes that a scope takes in.
pub open spec fn in_scope(scope: Seq<char>, class: NameClass) -> bool {
    ||| scope == "all"@
    ||| class == NameClass::Function && scope == "function"@
    ||| class == NameClass::Constant && scope == "constant"@
    ||| class == NameClass::Type && scope == "type"@
}

/// A row of the scope whose name begins with `prefix`, in any case of its letters.
pub open spec fn completes(prefix: Seq<char>, scope: Seq<char>) -> spec_fn(NameRow) -> bool {
    |r: NameRow|
        in_scope(scope, r.class) && text::starts_with(text::lower_all(r.name@), text::lower_all(prefix))
}

/// What a search shows.
pub open spec fn search_of(v: Seq<NameRow>, frag: Seq<char>, limit: int) -> Seq<
    (Seq<char>, Seq<char>, Seq<char>),
> {
    suggest::at_most(listed(Some(frag), v, holds_fragment(frag)), limit).map_values(
        |r: NameRow| row_shown(r),
    )
}

/// What a completion offers.
pub open spec fn completion_of(
    v: Seq<NameRow>,
    prefix: Seq<char>,
    scope: Seq<char>,
    limit: int,
) -> Seq<(Seq<char>, Seq<char>, Seq<char>)> {
    suggest::at_most(listed(None, v, completes(prefix, scope)), limit).map_values(
        |r: NameRow| row_shown(r),
    )
}

pub fn begins_ignoring_case(s: &[char], p: &[char]) -> (r: bool)
    ensures
        r == text::starts_with(text::lower_all(s@), text::lower_all(p@)),
{
    if p.len() > s.len() {
        return false;
    }
    let ghost a = text::lower_all(s@);
    let ghost b = text::lower_all(p@);
    let mut i: usize = 0;
    while i < p.len()
        invariant
            a == text::lower_all(s@),
            b == text::lower_all(p@),
            p@.len() <= s@.len(),
            i <= p@.len(),
            forall|k: int| 0 <= k < i ==> a[k] == b[k],
        decreases p@.len() - i,
    {
        if char_lower(s[i]) != char_lower(p[i]) {
            assert(a[i as int] != b[i as int]);
            assert(a.take(b.len() as int)[i as int] == a[i as int]);
            return false;
        }
        i += 1;
    }
    assert(a.take(b.len() as int) =~= b);
    true
}

fn has_ignoring_case(name: &[char], frag: &[char]) -> (r: bool)
    ensures
        r == contains_ignoring_case(name@, frag@),
{
    let n = to_lower(name);
    let f = to_lower(frag);
    proof {
        text::lemma_find_text_from(n@, f@, 0);
    }
    index_of_text(&n, &f).is_some()
}

fn scope_takes(scope: &[char], class: NameClass) -> (r: bool)
    ensures
        r == in_scope(scope@, class),
{
    is(scope, "all") || (class == NameClass::Function && is(scope, "function")) || (class
        == NameClass::Constant && is(scope, "constant")) || (class == NameClass::Type && is(
        scope,
        "type",
    ))
}

/// How many bytes `s` takes in a pattern in which it stands for itself: the
/// characters that mean something there are escaped.
pub open spec fn literal_bytes(s: Seq<char>) -> nat
    decreases s.len(),
{
    if s.len() == 0 {
        0
    } else {
        text::width(s[0]) + (if s[0] == '%' || s[0] == '_' || s[0] == '\\' {
            1nat
        } else {
            0nat
        }) + literal_bytes(s.drop_first())
    }
}

/// The longest pattern that is matched, in bytes.
pub open spec fn pattern_limit() -> nat {
    50000
}

/// What is said of a pattern that is longer.
pub open spec fn too_complex() -> Seq<char> {
    "LIKE or GLOB pattern too complex"@
}

/// A search has to match a pattern that is too long. Without a row to match, or with
/// nothing to show, none is matched.
pub open spec fn search_refused(v: Seq<NameRow>, frag: Seq<char>, limit: int) -> bool {
    literal_bytes(frag) + 2 > pattern_limit() && v.len() > 0 && limit > 0
}

/// The same of a completion, which looks at the rows of its scope alone.
pub open spec fn completion_refused(
    v: Seq<NameRow>,
    prefix: Seq<char>,
    scope: Seq<char>,
    limit: int,
) -> bool {
    literal_bytes(prefix) + 1 > pattern_limit() && limit > 0 && exists|i: int|
        0 <= i < v.len() && in_scope(scope, (#[trigger] v[i]).class)
}

/// Whether `s` is too long for a pattern with `more` bytes round it.
fn is_long_literal(s: &[char], more: usize) -> (r: bool)
    requires
        more <= 2,
    ensures
        r == (literal_bytes(s@) + more > pattern_limit()),
{
    let mut n: usize = 0;
    let mut i: usize = 0;
    assert(s@.skip(0) =~= s@);
    while i < s.len()
        invariant
            i <= s@.len(),
            more <= 2,
            n + more <= 50000,
            literal_bytes(s@) == n + literal_bytes(s@.skip(i as int)),
        decreases s@.len() - i,
    {
        assert(s@.skip(i as int)[0] == s@[i as int]);
        assert(s@.skip(i as int).drop_first() =~= s@.skip(i + 1));
        n += char_width(s[i]);
        if s[i] == '%' || s[i] == '_' || s[i] == '\\' {
            n += 1;
        }
        i += 1;
        if n + more > 50000 {
            return true;
        }
    }
    assert(s@.skip(i as int) =~= Seq::empty());
    false
}

impl Kb {
    /// Names that hold `frag`: the exact name first, then those that begin with it,
    /// then shorter names first. A pattern that is too long is refused.
    pub fn search(&self, frag: &str, limit: usize) -> (r: Result<Vec<Hit>, String>)
        ensures
            match r {
                Ok(h) => !search_refused(self.names@, frag@, limit as int) && hits_view(h@)
                    == search_of(self.names@, frag@, limit as int),
                Err(m) => search_refused(self.names@, frag@, limit as int) && m@ == too_complex(),
            },
    {
        let f = chars_of(frag);
        if is_long_literal(&f, 2) && self.names.len() > 0 && limit > 0 {
            return Err("LIKE or GLOB pattern too complex".to_owned());
        }
        let ghost p = holds_fragment(frag@);
        let ghost all = self.names@;
        let mut found: Vec<&NameRow> = Vec::new();
        let mut i: usize = 0;
        assert(rows(found@) =~= Seq::empty());
        while i < self.names.len()
            invariant
                all == self.names@,
                f@ == frag@,
                p == holds_fragment(frag@),
                i <= all.len(),
                rows(found@) == listed(Some(frag@), all.take(i as int), p),
            decreases all.len() - i,
        {
            assert(all.take(i + 1).drop_last() =~= all.take(i as int));
            let c = chars_of(self.names[i].name.as_str());
            if has_ignoring_case(&c, &f) {
                list_row(Some(&f), &mut found, &self.names[i]);
            }
            i += 1;
        }
        assert(all.take(all.len() as int) =~= all);
        let ghost want = search_of(all, frag@, limit as int);
        let mut r: Vec<Hit> = Vec::new();
        let mut k: usize = 0;
        assert(hits_view(r@) =~= Seq::empty());
        while k < found.len() && k < limit
            invariant
                want == suggest::at_most(rows(found@), limit as int).map_values(
                    |r: NameRow| row_shown(r),
                ),
                k <= found@.len(),
                k <= limit,
                hits_view(r@) =~= want.take(k as int),
            decreases found@.len() - k,
        {
            let x = found[k];
            let h = Hit { name: x.name.clone(), kind: x.kind.clone(), detail: x.detail.clone() };
            let ghost before = hits_view(r@);
            r.push(h);
            assert(hits_view(r@) =~= before.push(h@));
            k += 1;
        }
        assert(hits_view(r@) =~= want);
        Ok(r)
    }

    /// Names to complete `prefix` with, shorter names first. The scope is
    /// `function`, `constant` (with enum members), `type` or `all`. A pattern that is
    /// too long is refused.
    pub fn complete(&self, prefix: &str, scope: &str, limit: usize) -> (r: Result<
        Vec<Completion>,
        String,
    >)
        ensures
            match r {
                Ok(h) => !completion_refused(self.names@, prefix@, scope@, limit as int)
                    && completions_view(h@) == completion_of(
                    self.names@,
                    prefix@,
                    scope@,
                    limit as int,
                ),
                Err(m) => completion_refused(self.names@, prefix@, scope@, limit as int) && m@
                    == too_complex(),
            },
    {
        let f = chars_of(prefix);
        let sc = chars_of(scope);
        if is_long_literal(&f, 1) && limit > 0 && self.has_rows(&sc) {
            return Err("LIKE or GLOB pattern too complex".to_owned());
        }
        let ghost p = completes(prefix@, scope@);
        let ghost all = self.names@;
        let mut found: Vec<&NameRow> = Vec::new();
        let mut i: usize = 0;
        assert(rows(found@) =~= Seq::empty());
        while i < self.names.len()
            invariant
                all == self.names@,
                f@ == prefix@,
                sc@ == scope@,
                p == completes(prefix@, scope@),
                i <= all.len(),
                rows(found@) == listed(None, all.take(i as int), p),
            decreases all.len() - i,
        {
            assert(all.take(i + 1).drop_last() =~= all.take(i as int));
            let c = chars_of(self.names[i].name.as_str());
            if scope_takes(&sc, self.names[i].class) && begins_ignoring_case(&c, &f) {
                list_row(None, &mut found, &self.names[i]);
            }
            i += 1;
        }
        assert(all.take(all.len() as int) =~= all);
        let ghost want = completion_of(all, prefix@, scope@, limit as int);
        let mut r: Vec<Completion> = Vec::new();
        let mut k: usize = 0;
        assert(completions_view(r@) =~= Seq::empty());
        while k < found.len() && k < limit
            invariant
                want == suggest::at_most(rows(found@), limit as int).map_values(
                    |r: NameRow| row_shown(r),
                ),
                k <= found@.len(),
                k <= limit,
                completions_view(r@) =~= want.take(k as int),
            decreases found@.len() - k,
        {
            let x = found[k];
            let h = Completion {
                name: x.name.clone(),
                kind: x.kind.clone(),
                detail: x.detail.clone(),
            };
            let ghost before = completions_view(r@);
            r.push(h);
            assert(completions_view(r@) =~= before.push(h@));
            k += 1;
        }
        assert(completions_view(r@) =~= want);
        Ok(r)
    }

    fn has_rows(&self, scope: &[char]) -> (r: bool)
        ensures
            r == exists|i: int|
                0 <= i < self.names@.len() && in_scope(scope@, (#[trigger] self.names@[i]).class),
    {
        let mut i: usize = 0;
        while i < self.names.len()
            invariant
                i <= self.names@.len(),
                forall|k: int|
                    0 <= k < i ==> !in_scope(scope@, (#[trigger] self.names@[k]).class),
            decreases self.names@.len() - i,
        {
            if scope_takes(scope, self.names[i].class) {
                return true;
            }
            i += 1;
        }
        false
    }
}

// ── what holds of the lists ─────────────────────────────────────────────────

proof fn lemma_insert_keeps(
    frag: Option<Seq<char>>,
    v: Seq<NameRow>,
    x: NameRow,
    p: spec_fn(NameRow) -> bool,
)
    requires
        forall|k: int| 0 <= k < v.len() ==> p(#[trigger] v[k]),
        p(x),
    ensures
        forall|k: int|
            0 <= k < insert_listed(frag, v, x).len() ==> p(
                #[trigger] insert_listed(frag, v, x)[k],
            ),
    decreases v.len(),
{
    let r = insert_listed(frag, v, x);
    if v.len() == 0 || !listed_before(frag, x.name@, v.last().name@) {
        assert forall|k: int| 0 <= k < r.len() implies p(#[trigger] r[k]) by {
            if k < v.len() {
                assert(r[k] == v[k]);
            }
        }
    } else {
        let d = v.drop_last();
        assert forall|k: int| 0 <= k < d.len() implies p(#[trigger] d[k]) by {
            assert(d[k] == v[k]);
        }
        lemma_insert_keeps(frag, d, x, p);
        let rd = insert_listed(frag, d, x);
        assert(p(v[v.len() - 1]));
        assert forall|k: int| 0 <= k < r.len() implies p(#[trigger] r[k]) by {
            if k < rd.len() {
                assert(r[k] == rd[k]);
            }
        }
    }
}

/// Whatever is listed was asked for.
pub proof fn law_listed_rows_match(
    frag: Option<Seq<char>>,
    v: Seq<NameRow>,
    p: spec_fn(NameRow) -> bool,
)
    ensures
        forall|k: int| 0 <= k < listed(frag, v, p).len() ==> p(#[trigger] listed(frag, v, p)[k]),
    decreases v.len(),
{
    if v.len() > 0 {
        law_listed_rows_match(frag, v.drop_last(), p);
        if p(v.last()) {
            lemma_insert_keeps(frag, listed(frag, v.drop_last(), p), v.last(), p);
        }
    }
}

/// Every completion is of the scope and begins with the prefix, and there are no
/// more than the limit.
pub proof fn law_completions_begin_with_prefix(
    v: Seq<NameRow>,
    prefix: Seq<char>,
    scope: Seq<char>,
    limit: int,
)
    requires
        limit >= 0,
    ensures
        completion_of(v, prefix, scope, limit).len() <= limit,
        forall|k: int|
            0 <= k < completion_of(v, prefix, scope, limit).len() ==> text::starts_with(
                text::lower_all((#[trigger] completion_of(v, prefix, scope, limit)[k]).0),
                text::lower_all(prefix),
            ),
{
    let p = completes(prefix, scope);
    let l = listed(None, v, p);
    law_listed_rows_match(None, v, p);
    let c = completion_of(v, prefix, scope, limit);
    assert forall|k: int| 0 <= k < c.len() implies text::starts_with(
        text::lower_all((#[trigger] c[k]).0),
        text::lower_all(prefix),
    ) by {
        assert(p(l[k]));
    }
}

/// Every hit of a search holds the fragment, and there are no more than the limit.
pub proof fn law_hits_hold_fragment(v: Seq<NameRow>, frag: Seq<char>, limit: int)
    requires
        limit >= 0,
    ensures
        search_of(v, frag, limit).len() <= limit,
        forall|k: int|
            0 <= k < search_of(v, frag, limit).len() ==> contains_ignoring_case(
                (#[trigger] search_of(v, frag, limit)[k]).0,
                frag,
            ),
{
    let p = holds_fragment(frag);
    let l = listed(Some(frag), v, p);
    law_listed_rows_match(Some(frag), v, p);
    let c = search_of(v, frag, limit);
    assert forall|k: int| 0 <= k < c.len() implies contains_ignoring_case(
        (#[trigger] c[k]).0,
        frag,
    ) by {
        assert(p(l[k]));
    }
}

/// An unknown scope offers nothing.
pub proof fn law_unknown_scope_is_empty(
    v: Seq<NameRow>,
    prefix: Seq<char>,
    scope: Seq<char>,
    limit: int,
)
    requires
        limit >= 0,
        scope != "all"@,
        scope != "function"@,
        scope != "constant"@,
        scope != "type"@,
    ensures
        completion_of(v, prefix, scope, limit).len() == 0,
{
    let p = completes(prefix, scope);
    let l = listed(None, v, p);
    law_listed_rows_match(None, v, p);
    if l.len() > 0 {
        assert(p(l[0]));
    }
}

// ── explanations ────────────────────────────────────────────────────────────

/// The first explanation of the instruction `name` from `i` on.
pub open spec fn instruction_from(v: Seq<Instruction>, name: Seq<char>, i: int) -> Option<
    Instruction,
>
    decreases v.len() - i,
{
    if i >= v.len() {
        None
    } else if v[i].mnemonic@ == name {
        Some(v[i])
    } else {
        instruction_from(v, name, i + 1)
    }
}

/// The first explanation of the directive `name` from `i` on.
pub open spec fn directive_from(v: Seq<Directive>, name: Seq<char>, i: int) -> Option<Directive>
    decreases v.len() - i,
{
    if i >= v.len() {
        None
    } else if v[i].name@ == name {
        Some(v[i])
    } else {
        directive_from(v, name, i + 1)
    }
}

/// The members of the enum type `id`, from `i` on.
pub open spec fn members_from(v: Seq<EnumType>, id: i64, i: int) -> Seq<(String, u64)>
    decreases v.len() - i,
{
    if i >= v.len() {
        Seq::empty()
    } else if v[i].type_id == id {
        v[i].members@
    } else {
        members_from(v, id, i + 1)
    }
}

/// The views of enum members.
pub open spec fn members_view(v: Seq<(String, u64)>) -> Seq<(Seq<char>, u64)> {
    Seq::new(v.len(), |i: int| (v[i].0@, v[i].1))
}

/// What a parameter is given at first: the first member of its enum, or its name to
/// fill in.
pub open spec fn first_argument(p: Param) -> Seq<char> {
    if p.type_kind@ == "enum"@ && p.related@.len() > 0 {
        p.related@[0].0@
    } else {
        "<"@ + p.name@ + ">"@
    }
}

/// A call to edit: the signature as a comment, and an `invoke`.
pub open spec fn call_snippet(f: Func) -> Seq<char> {
    let names = f.params@.map_values(|p: Param| p.name@);
    let args = f.params@.map_values(|p: Param| first_argument(p));
    let dll = match f.dll {
        Some(d) => d@,
        None => ""@,
    };
    let head = "; "@ + f.ret@ + " "@ + f.name@ + "("@ + text::join(names, ", "@) + ")   ["@ + dll
        + "]"@;
    let call = if args.len() == 0 {
        "invoke "@ + f.name@
    } else {
        "invoke "@ + f.name@ + ", "@ + text::join(args, ", "@)
    };
    head + "\n"@ + call
}

fn argument_for(p: &Param) -> (r: String)
    ensures
        r@ == first_argument(*p),
{
    let k = chars_of(p.type_kind.as_str());
    if is(&k, "enum") && p.related.len() > 0 {
        p.related[0].0.clone()
    } else {
        let mut m = "<".to_owned();
        m.append(p.name.as_str());
        m.append(">");
        m
    }
}

fn write_call(f: &Func) -> (r: String)
    ensures
        r@ == call_snippet(*f),
{
    let ghost ns = f.params@.map_values(|p: Param| p.name@);
    let ghost as_ = f.params@.map_values(|p: Param| first_argument(p));
    let mut names: Vec<String> = Vec::new();
    let mut args: Vec<String> = Vec::new();
    let mut i: usize = 0;
    assert(text::strings(names@) =~= Seq::empty());
    assert(text::strings(args@) =~= Seq::empty());
    while i < f.params.len()
        invariant
            ns == f.params@.map_values(|p: Param| p.name@),
            as_ == f.params@.map_values(|p: Param| first_argument(p)),
            i <= f.params@.len(),
            names@.len() == i,
            args@.len() == i,
            text::strings(names@) =~= ns.take(i as int),
            text::strings(args@) =~= as_.take(i as int),
        decreases f.params@.len() - i,
    {
        let a = argument_for(&f.params[i]);
        let ghost bn = text::strings(names@);
        let ghost ba = text::strings(args@);
        let n = f.params[i].name.clone();
        names.push(n);
        args.push(a);
        assert(text::strings(names@) =~= bn.push(n@));
        assert(text::strings(args@) =~= ba.push(a@));
        i += 1;
    }
    assert(text::strings(names@) =~= ns);
    assert(text::strings(args@) =~= as_);
    let mut m = "; ".to_owned();
    m.append(f.ret.as_str());
    m.append(" ");
    m.append(f.name.as_str());
    m.append("(");
    m.append(join_strings(&names, ", ").as_str());
    m.append(")   [");
    match &f.dll {
        Some(d) => {
            m.append(d.as_str());
        },
        None => {
            m.append("");
        },
    }
    m.append("]");
    m.append("\n");
    let mut call = "invoke ".to_owned();
    call.append(f.name.as_str());
    if args.len() > 0 {
        call.append(", ");
        call.append(join_strings(&args, ", ").as_str());
    }
    m.append(call.as_str());
    m
}

impl Kb {
    pub open spec fn spec_instruction(&self, name: Seq<char>) -> Option<Instruction> {
        instruction_from(self.instructions@, text::lower_all(text::trim(name)), 0)
    }

    pub open spec fn spec_directive(&self, name: Seq<char>) -> Option<Directive> {
        directive_from(self.directives@, text::lower_all(text::trim(name)), 0)
    }

    /// The explanation of an instruction, whatever the case and the white space
    /// around its name.
    pub fn instruction(&self, mnemonic: &str) -> (r: Option<&Instruction>)
        ensures
            (match r {
                Some(x) => Some(*x),
                None => None,
            }) == self.spec_instruction(mnemonic@),
    {
        let c = chars_of(mnemonic);
        let m = to_lower(trimmed(&c));
        let mut i: usize = 0;
        while i < self.instructions.len()
            invariant
                m@ == text::lower_all(text::trim(mnemonic@)),
                i <= self.instructions@.len(),
                self.spec_instruction(mnemonic@) == instruction_from(
                    self.instructions@,
                    m@,
                    i as int,
                ),
            decreases self.instructions@.len() - i,
        {
            if is(&m, self.instructions[i].mnemonic.as_str()) {
                return Some(&self.instructions[i]);
            }
            i += 1;
        }
        None
    }

    /// The explanation of a directive, whatever the case and the white space around
    /// its name.
    pub fn directive(&self, name: &str) -> (r: Option<&Directive>)
        ensures
            (match r {
                Some(x) => Some(*x),
                None => None,
            }) == self.spec_directive(name@),
    {
        let c = chars_of(name);
        let m = to_lower(trimmed(&c));
        let mut i: usize = 0;
        while i < self.directives.len()
            invariant
                m@ == text::lower_all(text::trim(name@)),
                i <= self.directives@.len(),
                self.spec_directive(name@) == directive_from(self.directives@, m@, i as int),
            decreases self.directives@.len() - i,
        {
            if is(&m, self.directives[i].name.as_str()) {
                return Some(&self.directives[i]);
            }
            i += 1;
        }
        None
    }

    /// The members of an enum type with their values.
    pub fn enum_members(&self, enum_type_id: i64) -> (r: Vec<(String, u64)>)
        ensures
            members_view(r@) == members_view(members_from(self.enums@, enum_type_id, 0)),
    {
        let mut i: usize = 0;
        while i < self.enums.len()
            invariant
                i <= self.enums@.len(),
                members_from(self.enums@, enum_type_id, 0) == members_from(
                    self.enums@,
                    enum_type_id,
                    i as int,
                ),
            decreases self.enums@.len() - i,
        {
            if self.enums[i].type_id == enum_type_id {
                let m = &self.enums[i].members;
                let mut r: Vec<(String, u64)> = Vec::new();
                let mut k: usize = 0;
                assert(members_view(r@) =~= Seq::empty());
                while k < m.len()
                    invariant
                        k <= m@.len(),
                        members_view(r@) =~= members_view(m@).take(k as int),
                    decreases m@.len() - k,
                {
                    let x = (m[k].0.clone(), m[k].1);
                    let ghost before = members_view(r@);
                    r.push(x);
                    assert(members_view(r@) =~= before.push((x.0@, x.1)));
                    k += 1;
                }
                assert(members_view(r@) =~= members_view(m@));
                return r;
            }
            i += 1;
        }
        let r: Vec<(String, u64)> = Vec::new();
        assert(members_view(r@) =~= members_view(Seq::empty()));
        r
    }

    /// An `invoke` to edit: enum parameters get a member that resolves, the others
    /// their name to fill in.
    pub fn snippet(&self, func: &str) -> (r: Option<String>)
        ensures
            text::opt_text(r) == match self.spec_function(func@) {
                Some(f) => Some(call_snippet(f)),
                None => None,
            },
    {
        let c = chars_of(func);
        match self.function(&c) {
            Some(f) => Some(write_call(f)),
            None => None,
        }
    }
}

} // verus!
