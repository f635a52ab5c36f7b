use vstd::prelude::*;

verus! {

/// One reported issue: a half-open character span `[start, end)` over the
/// original text, plus a human-readable message.
#[derive(Debug, Clone)]
pub struct LintError {
    pub start: usize,
    pub end: usize,
    pub message: String,
}

/// The mathematical value of a diagnostic: the span offsets as naturals and
/// the message as a character sequence.
pub ghost struct Diag {
    pub start: nat,
    pub end: nat,
    pub message: Seq<char>,
}

impl View for LintError {
    type V = Diag;

    open spec fn view(&self) -> Diag {
        Diag { start: self.start as nat, end: self.end as nat, message: self.message@ }
    }
}

impl DeepView for LintError {
    type V = Diag;

    open spec fn deep_view(&self) -> Diag {
        self.view()
    }
}

impl PartialEq for LintError {
    fn eq(&self, other: &LintError) -> (r: bool) {
        self.start == other.start && self.end == other.end && self.message == other.message
    }
}

impl vstd::std_specs::cmp::PartialEqSpecImpl for LintError {
    open spec fn obeys_eq_spec() -> bool {
        true
    }

    open spec fn eq_spec(&self, other: &LintError) -> bool {
        self@ == other@
    }
}

impl Diag {
    /// A proper span is a half-open interval: it starts no later than it
    /// ends.
    pub open spec fn proper(self) -> bool {
        self.start <= self.end
    }

    /// A well-formed span is proper and ends no later than the character
    /// length of the text it points into.
    pub open spec fn wf(self, text_len: nat) -> bool {
        self.proper() && self.end <= text_len
    }

    /// The number of characters the span covers.
    pub open spec fn span_len(self) -> int {
        self.end - self.start
    }
}

/// Every span of the sequence is a proper interval.
pub open spec fn all_proper(s: Seq<Diag>) -> bool {
    forall|i: int| 0 <= i < s.len() ==> (#[trigger] s[i]).proper()
}

/// Every span of the sequence is well formed for a text of `text_len`
/// characters.
pub open spec fn all_wf(s: Seq<Diag>, text_len: nat) -> bool {
    forall|i: int| 0 <= i < s.len() ==> (#[trigger] s[i]).wf(text_len)
}

/// No two diagnostics of the sequence cover intersecting character ranges,
/// and they are laid out left to right.
pub open spec fn non_overlapping(s: Seq<Diag>) -> bool {
    forall|i: int, j: int| #![trigger s[i], s[j]] 0 <= i < j < s.len() ==> s[i].end <= s[j].start
}

/// Law (non-overlap, pairwise form): in a non-overlapping sequence, the
/// spans of any two distinct diagnostics are disjoint — one ends before
/// the other starts.
pub proof fn lemma_non_overlapping_pairwise(s: Seq<Diag>, i: int, j: int)
    requires
        non_overlapping(s),
        0 <= i < s.len(),
        0 <= j < s.len(),
        i != j,
    ensures
        s[i].end <= s[j].start || s[j].end <= s[i].start,
{
}

/// The views of a sequence of diagnostics, in order.
pub open spec fn views_of(s: Seq<LintError>) -> Seq<Diag> {
    s.map_values(|e: LintError| e@)
}

/// A lint rule handed back a span that is not a valid interval inside the
/// text: a bug in the rule, surfaced loudly rather than clamped or dropped.
#[derive(Debug, Clone, Copy, PartialEq, Eq, Structural)]
pub struct SpanViolation {
    /// Start offset of the offending span.
    pub start: usize,
    /// End offset of the offending span.
    pub end: usize,
    /// Character length of the text the span was supposed to point into.
    pub text_len: usize,
}

} // verus!
