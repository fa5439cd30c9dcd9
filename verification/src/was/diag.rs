//! Diagnostics: a place in the source and a message.
use vstd::prelude::*;

verus! {

/// One diagnostic: a 1-based line and column (a byte column), and a message.
/// Line 0 stands for the whole file.
#[derive(Debug, Clone)]
pub struct Diag {
    pub line: usize,
    pub col: usize,
    pub message: String,
}

/// A diagnostic in mathematical terms.
pub struct DiagView {
    pub line: int,
    pub col: int,
    pub message: Seq<char>,
}

impl View for Diag {
    type V = DiagView;

    open spec fn view(&self) -> DiagView {
        DiagView { line: self.line as int, col: self.col as int, message: self.message@ }
    }
}

/// The views of a list of diagnostics.
pub open spec fn diags_view(v: Seq<Diag>) -> Seq<DiagView> {
    Seq::new(v.len(), |i: int| v[i]@)
}

/// Append a diagnostic.
pub fn push_diag(v: &mut Vec<Diag>, line: usize, col: usize, message: String)
    ensures
        diags_view(final(v)@) == diags_view(old(v)@).push(
            (DiagView { line: line as int, col: col as int, message: message@ }),
        ),
{
    v.push(Diag { line, col, message });
    assert(diags_view(v@) =~= diags_view(old(v)@).push(
        (DiagView { line: line as int, col: col as int, message: message@ }),
    ));
}

/// Append the diagnostics of `more`.
pub fn append_diags(v: &mut Vec<Diag>, more: Vec<Diag>)
    ensures
        diags_view(final(v)@) == diags_view(old(v)@) + diags_view(more@),
{
    let mut rest = more;
    v.append(&mut rest);
    assert(diags_view(v@) =~= diags_view(old(v)@) + diags_view(more@));
}

} // verus!
