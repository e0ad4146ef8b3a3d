use vstd::prelude::*;
use vstd::string::StringExecFns;
use crate::diagnostic::{Diagnostic, DiagnosticView, Severity, Span};
use crate::parser::{scoped_text, Commit};

verus! {

/// Whether the checked value must never or must always be found in a set.
#[derive(Clone, Copy, Debug, PartialEq, Eq, Structural)]
pub enum Condition {
    /// The value must not be one of the listed values.
    Never,
    /// The value must be one of the listed values.
    Always,
}

/// Parameters of the rule on the commit's scope.
#[derive(Clone, Debug)]
pub struct ScopeEnumOpts {
    pub severity: Severity,
    pub condition: Condition,
    pub scopes: Vec<String>,
}

impl View for ScopeEnumOpts {
    type V = (Severity, Condition, Seq<Seq<char>>);

    open spec fn view(&self) -> (Severity, Condition, Seq<Seq<char>>) {
        (self.severity, self.condition, self.scopes@.map_values(|s: String| s@))
    }
}

/// The pieces of `s` with `sep` between each two neighbours.
pub open spec fn joined(s: Seq<Seq<char>>, sep: Seq<char>) -> Seq<char>
    decreases s.len(),
{
    if s.len() == 0 {
        Seq::empty()
    } else if s.len() == 1 {
        s[0]
    } else {
        joined(s.drop_last(), sep) + sep + s.last()
    }
}

/// Help text of the scope rule: which values the scope must (not) be.
pub open spec fn scope_help(condition: Condition, scopes: Seq<Seq<char>>) -> Seq<char> {
    "scope must"@ + (if condition == Condition::Never {
        " not"@
    } else {
        Seq::empty()
    }) + " be one of "@ + joined(scopes, ", "@)
}

/// The scope rule is met by a scope `value` under `condition`.
pub open spec fn membership_ok(condition: Condition, scopes: Seq<Seq<char>>, value: Seq<char>) -> bool {
    match condition {
        Condition::Never => !scopes.contains(value),
        Condition::Always => scopes.contains(value),
    }
}

/// What the scope rule reports on a commit whose scope is `scope`.
pub open spec fn scope_enum_outcome(
    scope: Option<(Span, Seq<char>)>,
    opts: (Severity, Condition, Seq<Seq<char>>),
) -> Option<DiagnosticView> {
    if opts.0 == Severity::Off {
        None
    } else {
        match scope {
            None => None,
            Some((span, value)) => if membership_ok(opts.1, opts.2, value) {
                None
            } else {
                Some(
                    DiagnosticView {
                        rule_code: "rule/scope-enum"@,
                        severity: opts.0,
                        message: "Scope not allowed"@,
                        help: scope_help(opts.1, opts.2),
                        labels: seq![(span, "not allowed scope"@)],
                        url: Some("https://example.com"@),
                    },
                )
            },
        }
    }
}

/// The values of `scopes` with `", "` between each two.
fn join_scopes(scopes: &Vec<String>) -> (r: String)
    ensures
        r@ == joined(scopes@.map_values(|s: String| s@), ", "@),
{
    let ghost views = scopes@.map_values(|s: String| s@);
    let mut r = String::new();
    let mut i: usize = 0;
    while i < scopes.len()
        invariant
            i <= scopes.len(),
            views == scopes@.map_values(|s: String| s@),
            r@ == joined(views.subrange(0, i as int), ", "@),
        decreases scopes.len() - i,
    {
        proof {
            assert(views.subrange(0, i + 1).drop_last() =~= views.subrange(0, i as int));
        }
        if i > 0 {
            r.append(", ");
        }
        r.append(scopes[i].as_str());
        i = i + 1;
    }
    proof {
        assert(views.subrange(0, i as int) =~= views);
    }
    r
}

/// Whether `value` is one of `scopes`.
fn is_listed(scopes: &Vec<String>, value: &String) -> (r: bool)
    ensures
        r == scopes@.map_values(|s: String| s@).contains(value@),
{
    let ghost views = scopes@.map_values(|s: String| s@);
    let mut i: usize = 0;
    while i < scopes.len()
        invariant
            i <= scopes.len(),
            views == scopes@.map_values(|s: String| s@),
            forall|j: int| 0 <= j < i ==> views[j] != value@,
        decreases scopes.len() - i,
    {
        if scopes[i] == *value {
            assert(views[i as int] == value@);
            return true;
        }
        i = i + 1;
    }
    false
}

/// Builds the diagnostic of the scope rule, or none where the scope is
/// absent, allowed, or the rule is off.
pub fn rule_scope_enum(commit: &Commit, opts: &ScopeEnumOpts) -> (r: Option<Diagnostic>)
    ensures
        r.is_some() == scope_enum_outcome(scoped_text(commit.scope), opts@).is_some(),
        r.is_some() ==> r.unwrap()@ == scope_enum_outcome(scoped_text(commit.scope), opts@).unwrap(),
{
    if opts.severity == Severity::Off {
        return None;
    }
    match &commit.scope {
        None => None,
        Some(scope) => {
            let listed = is_listed(&opts.scopes, &scope.value);
            let valid = match opts.condition {
                Condition::Never => !listed,
                Condition::Always => listed,
            };
            if valid {
                None
            } else {
                let mut help = String::from_str("scope must");
                if opts.condition == Condition::Never {
                    help.append(" not");
                }
                help.append(" be one of ");
                let list = join_scopes(&opts.scopes);
                help.append(list.as_str());
                let labels = vec![(scope.span, String::from_str("not allowed scope"))];
                let d = Diagnostic {
                    rule_code: "rule/scope-enum",
                    severity: opts.severity,
                    message: String::from_str("Scope not allowed"),
                    help,
                    labels,
                    url: Some(String::from_str("https://example.com")),
                };
                proof {
                    assert(d@.labels =~= seq![(scope.span, "not allowed scope"@)]);
                    assert(d@.help =~= scope_help(opts.condition, opts@.2));
                }
                Some(d)
            }
        },
    }
}

/// A configured rule, with the parameters of its kind.
#[derive(Clone, Debug)]
pub enum Rule {
    /// `scope-enum`: the scope must (not) be one of a list of values.
    ScopeEnum(ScopeEnumOpts),
}

/// The stable code of a rule's diagnostics.
pub open spec fn rule_code(rule: Rule) -> Seq<char> {
    match rule {
        Rule::ScopeEnum(_) => "rule/scope-enum"@,
    }
}

/// The configured severity of a rule.
pub open spec fn rule_severity(rule: Rule) -> Severity {
    match rule {
        Rule::ScopeEnum(o) => o.severity,
    }
}

/// What a single rule reports on a commit.
pub open spec fn rule_outcome(commit: Commit, rule: Rule) -> Option<DiagnosticView> {
    match rule {
        Rule::ScopeEnum(o) => scope_enum_outcome(scoped_text(commit.scope), o@),
    }
}

/// The diagnostics of `rules`, in their order, one for each rule that is
/// violated.
pub open spec fn outcomes(commit: Commit, rules: Seq<Rule>) -> Seq<DiagnosticView>
    decreases rules.len(),
{
    if rules.len() == 0 {
        Seq::empty()
    } else {
        outcomes(commit, rules.drop_last()) + match rule_outcome(commit, rules.last()) {
            Some(d) => seq![d],
            None => Seq::empty(),
        }
    }
}

/// The views of a list of diagnostics.
pub open spec fn diagnostic_views(ds: Seq<Diagnostic>) -> Seq<DiagnosticView> {
    ds.map_values(|d: Diagnostic| d@)
}

impl Rule {
    /// The name under which the rule is configured.
    pub fn name(&self) -> (r: &'static str)
        ensures
            match self {
                Rule::ScopeEnum(_) => r@ == "scope-enum"@,
            },
    {
        match self {
            Rule::ScopeEnum(_) => "scope-enum",
        }
    }

    /// The configured severity.
    pub fn severity(&self) -> (r: Severity)
        ensures
            r == rule_severity(*self),
    {
        match self {
            Rule::ScopeEnum(o) => o.severity,
        }
    }

    /// Evaluates this one rule against a commit.
    pub fn check(&self, commit: &Commit) -> (r: Option<Diagnostic>)
        ensures
            r.is_some() == rule_outcome(*commit, *self).is_some(),
            r.is_some() ==> r.unwrap()@ == rule_outcome(*commit, *self).unwrap(),
    {
        match self {
            Rule::ScopeEnum(o) => rule_scope_enum(commit, o),
        }
    }
}

/// The resolved rule configuration, in the order the rules were configured.
#[derive(Clone, Debug)]
pub struct RuleConfig {
    pub rules: Vec<Rule>,
}

/// `r` lists the diagnostics of `config` on `commit`.
pub open spec fn evaluated(commit: Commit, config: RuleConfig, r: Seq<Diagnostic>) -> bool {
    diagnostic_views(r) == outcomes(commit, config.rules@)
}

/// Evaluates every rule of `config` that is not off, in configuration order,
/// and collects their diagnostics.
pub fn evaluate(commit: &Commit, config: &RuleConfig) -> (r: Vec<Diagnostic>)
    ensures
        evaluated(*commit, *config, r@),
{
    let mut out: Vec<Diagnostic> = Vec::new();
    let mut i: usize = 0;
    while i < config.rules.len()
        invariant
            i <= config.rules@.len(),
            diagnostic_views(out@) == outcomes(*commit, config.rules@.subrange(0, i as int)),
        decreases config.rules@.len() - i,
    {
        let ghost before = out@;
        let rule = &config.rules[i];
        let d = if rule.severity() == Severity::Off {
            None
        } else {
            rule.check(commit)
        };
        proof {
            assert(config.rules@.subrange(0, i + 1).drop_last() =~= config.rules@.subrange(
                0,
                i as int,
            ));
            assert(config.rules@.subrange(0, i + 1).last() == config.rules@[i as int]);
            if rule_severity(*rule) == Severity::Off {
                lemma_off_rule_is_silent(*commit, *rule);
            }
        }
        match d {
            Some(d) => {
                out.push(d);
                proof {
                    assert(diagnostic_views(out@) =~= diagnostic_views(before).push(d@));
                }
            },
            None => {},
        }
        proof {
            assert(diagnostic_views(out@) =~= outcomes(*commit, config.rules@.subrange(0, i + 1)));
        }
        i = i + 1;
    }
    proof {
        assert(config.rules@.subrange(0, i as int) =~= config.rules@);
    }
    out
}

/// Whether a run with these diagnostics fails: some diagnostic is an error.
/// Warnings alone do not fail a run.
pub fn fails(ds: &Vec<Diagnostic>) -> (r: bool)
    ensures
        r == exists|i: int| 0 <= i < ds@.len() && (#[trigger] ds@[i]).severity == Severity::Error,
{
    let mut i: usize = 0;
    while i < ds.len()
        invariant
            i <= ds@.len(),
            forall|j: int| 0 <= j < i ==> (#[trigger] ds@[j]).severity != Severity::Error,
        decreases ds@.len() - i,
    {
        if ds[i].severity == Severity::Error {
            return true;
        }
        i = i + 1;
    }
    false
}

/// A rule that is off reports nothing, whatever the commit.
pub proof fn lemma_off_rule_is_silent(commit: Commit, rule: Rule)
    requires
        rule_severity(rule) == Severity::Off,
    ensures
        rule_outcome(commit, rule) is None,
{
}

/// Every diagnostic that evaluation reports carries the code of a rule that
/// is not off; so the code of a rule kind whose every configured rule is off
/// never appears, and a configuration that is all off reports nothing.
pub proof fn lemma_off_severity_is_silent(commit: Commit, rules: Seq<Rule>)
    ensures
        forall|k: int|
            0 <= k < outcomes(commit, rules).len() ==> exists|i: int|
                0 <= i < rules.len() && rule_severity(#[trigger] rules[i]) != Severity::Off
                    && rule_code(rules[i]) == (#[trigger] outcomes(commit, rules)[k]).rule_code,
        (forall|i: int| 0 <= i < rules.len() ==> rule_severity(#[trigger] rules[i]) == Severity::Off)
            ==> outcomes(commit, rules).len() == 0,
    decreases rules.len(),
{
    if rules.len() > 0 {
        let init = rules.drop_last();
        lemma_off_severity_is_silent(commit, init);
        let o = outcomes(commit, rules);
        let oi = outcomes(commit, init);
        assert forall|k: int| 0 <= k < o.len() implies exists|i: int|
            0 <= i < rules.len() && rule_severity(#[trigger] rules[i]) != Severity::Off
                && rule_code(rules[i]) == (#[trigger] o[k]).rule_code by {
            if k < oi.len() {
                assert(o[k] == oi[k]);
                let i = choose|i: int|
                    0 <= i < init.len() && rule_severity(#[trigger] init[i]) != Severity::Off
                        && rule_code(init[i]) == (#[trigger] oi[k]).rule_code;
                assert(init[i] == rules[i]);
            } else {
                let last = rules.last();
                assert(rules[rules.len() - 1] == last);
                match last {
                    Rule::ScopeEnum(op) => {},
                }
            }
        }
        if forall|i: int| 0 <= i < rules.len() ==> rule_severity(#[trigger] rules[i]) == Severity::Off {
            assert forall|i: int| 0 <= i < init.len() implies rule_severity(#[trigger] init[i])
                == Severity::Off by {
                assert(init[i] == rules[i]);
            }
            assert(rule_severity(rules[rules.len() - 1]) == Severity::Off);
        }
    }
}

/// Evaluating the same commit against the same configuration twice gives
/// the same diagnostics, in the same order.
pub proof fn lemma_evaluate_deterministic(
    commit: Commit,
    config: RuleConfig,
    r1: Seq<Diagnostic>,
    r2: Seq<Diagnostic>,
)
    requires
        evaluated(commit, config, r1),
        evaluated(commit, config, r2),
    ensures
        diagnostic_views(r1) == diagnostic_views(r2),
{
}

} // verus!
