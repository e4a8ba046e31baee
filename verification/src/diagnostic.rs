use vstd::prelude::*;

use crate::span::Span;

verus! {

/// A source diagnostic produced during lexing or parsing.
#[derive(Debug, Clone, PartialEq, Eq)]
pub struct Diagnostic {
    pub code: String,
    pub message: String,
    pub span: Span,
}

/// The observable content of a diagnostic: its code, its message and its span.
pub open spec fn diag_view(d: Diagnostic) -> (Seq<char>, Seq<char>, Span) {
    (d.code@, d.message@, d.span)
}

/// The observable content of a sequence of diagnostics.
pub open spec fn diags_view(ds: Seq<Diagnostic>) -> Seq<(Seq<char>, Seq<char>, Span)> {
    ds.map_values(|d: Diagnostic| diag_view(d))
}

impl Diagnostic {
    pub(crate) fn new(code: &str, message: &str, span: Span) -> (d: Self)
        ensures
            d.code@ == code@,
            d.message@ == message@,
            d.span == span,
    {
        Diagnostic { code: code.to_owned(), message: message.to_owned(), span }
    }
}

/// A copy of each diagnostic, in order.
pub(crate) fn copy_diagnostics(diagnostics: &Vec<Diagnostic>) -> (r: Vec<Diagnostic>)
    ensures
        diags_view(r@) == diags_view(diagnostics@),
{
    let mut copies: Vec<Diagnostic> = Vec::new();
    let mut k: usize = 0;
    while k < diagnostics.len()
        invariant
            k <= diagnostics@.len(),
            copies@.len() == k,
            forall|j: int| 0 <= j < k ==> diag_view(#[trigger] copies@[j]) == diag_view(diagnostics@[j]),
        decreases diagnostics@.len() - k,
    {
        let d = &diagnostics[k];
        copies.push(Diagnostic { code: d.code.clone(), message: d.message.clone(), span: d.span });
        k = k + 1;
    }
    proof {
        assert(diags_view(copies@) =~= diags_view(diagnostics@));
    }
    copies
}

} // verus!
