use vstd::prelude::*;

verus! {

/// How strongly a rule is enforced.
#[derive(Clone, Copy, Debug, PartialEq, Eq, Structural)]
pub enum Severity {
    /// The rule is not evaluated at all.
    Off,
    /// A violation is reported but does not fail a run.
    Warning,
    /// A violation is reported and fails a run.
    Error,
}

/// A range of byte offsets into a raw commit message, `start` inclusive and
/// `end` exclusive.
#[derive(Clone, Copy, Debug, PartialEq, Eq, Structural)]
pub struct Span {
    pub start: usize,
    pub end: usize,
}

impl Span {
    /// The span lies within a text of `len` bytes.
    pub open spec fn within(self, len: int) -> bool {
        self.start <= self.end <= len
    }
}

/// A rule violation, independent of how it is eventually rendered.
#[derive(Clone, Debug)]
pub struct Diagnostic {
    /// Stable code of the rule that produced it.
    pub rule_code: &'static str,
    /// Never `Off`: an `Off` rule produces nothing.
    pub severity: Severity,
    pub message: String,
    pub help: String,
    /// Source spans in the raw message, each with a short explanation.
    pub labels: Vec<(Span, String)>,
    pub url: Option<String>,
}

/// What a diagnostic says, as plain values.
pub struct DiagnosticView {
    pub rule_code: Seq<char>,
    pub severity: Severity,
    pub message: Seq<char>,
    pub help: Seq<char>,
    pub labels: Seq<(Span, Seq<char>)>,
    pub url: Option<Seq<char>>,
}

impl View for Diagnostic {
    type V = DiagnosticView;

    open spec fn view(&self) -> DiagnosticView {
        DiagnosticView {
            rule_code: self.rule_code@,
            severity: self.severity,
            message: self.message@,
            help: self.help@,
            labels: self.labels@.map_values(|l: (Span, String)| (l.0, l.1@)),
            url: match self.url {
                Some(u) => Some(u@),
                None => None,
            },
        }
    }
}

} // verus!
