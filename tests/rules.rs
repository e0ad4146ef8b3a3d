use commit_lint::diagnostic::Severity;
use commit_lint::parser::parse_commit;
use commit_lint::rules::{evaluate, fails, rule_scope_enum, Condition, Rule, RuleConfig, ScopeEnumOpts};

const SAMPLE: &str = "feat(nice): add cool feature\n\nsome body\n\nsecond body line\n\nsome footer";

fn opts(severity: Severity, condition: Condition, scopes: &[&str]) -> ScopeEnumOpts {
    ScopeEnumOpts {
        severity,
        condition,
        scopes: scopes.iter().map(|s| s.to_string()).collect(),
    }
}

fn config(o: ScopeEnumOpts) -> RuleConfig {
    RuleConfig { rules: vec![Rule::ScopeEnum(o)] }
}

#[test]
fn allowed_scope_passes() {
    let c = parse_commit(SAMPLE);
    let r = evaluate(&c, &config(opts(Severity::Error, Condition::Always, &["nice", "fix"])));
    assert!(r.is_empty());
}

#[test]
fn unlisted_scope_is_an_error() {
    let c = parse_commit(SAMPLE);
    let r = evaluate(&c, &config(opts(Severity::Error, Condition::Always, &["fix", "chore"])));
    assert_eq!(r.len(), 1);
    let d = &r[0];
    assert_eq!(d.severity, Severity::Error);
    assert_eq!(d.help, "scope must be one of fix, chore");
    assert_eq!(d.rule_code, "rule/scope-enum");
    assert_eq!(d.message, "Scope not allowed");
    assert_eq!(d.labels.len(), 1);
    let (span, label) = &d.labels[0];
    assert_eq!(&c.raw[span.start..span.end], "nice");
    assert_eq!(label, "not allowed scope");
    assert_eq!((span.start, span.end), (5, 9));
    assert_eq!(d.url.as_deref(), Some("https://example.com"));
    assert!(fails(&r));
}

#[test]
fn off_rule_reports_nothing() {
    for scopes in [&["fix", "chore"][..], &["nice"][..], &[][..]] {
        for condition in [Condition::Always, Condition::Never] {
            let c = parse_commit(SAMPLE);
            let r = evaluate(&c, &config(opts(Severity::Off, condition, scopes)));
            assert!(r.is_empty());
        }
    }
}

#[test]
fn missing_scope_passes() {
    let c = parse_commit("feat: add feature");
    for scopes in [&["fix"][..], &[][..]] {
        let r = evaluate(&c, &config(opts(Severity::Error, Condition::Always, scopes)));
        assert!(r.is_empty());
    }
}

#[test]
fn never_condition_rejects_listed_scope() {
    let c = parse_commit(SAMPLE);
    let d = rule_scope_enum(&c, &opts(Severity::Warning, Condition::Never, &["nice", "wip"])).unwrap();
    assert_eq!(d.severity, Severity::Warning);
    assert_eq!(d.help, "scope must not be one of nice, wip");
    assert!(rule_scope_enum(&c, &opts(Severity::Warning, Condition::Never, &["wip"])).is_none());
}

#[test]
fn empty_allowed_list_rejects_every_scope() {
    let c = parse_commit(SAMPLE);
    let d = rule_scope_enum(&c, &opts(Severity::Error, Condition::Always, &[])).unwrap();
    assert_eq!(d.help, "scope must be one of ");
}

#[test]
fn rules_report_in_configuration_order() {
    let c = parse_commit(SAMPLE);
    let cfg = RuleConfig {
        rules: vec![
            Rule::ScopeEnum(opts(Severity::Warning, Condition::Never, &["nice"])),
            Rule::ScopeEnum(opts(Severity::Off, Condition::Never, &["nice"])),
            Rule::ScopeEnum(opts(Severity::Error, Condition::Always, &["fix"])),
        ],
    };
    let r = evaluate(&c, &cfg);
    assert_eq!(r.len(), 2);
    assert_eq!(r[0].severity, Severity::Warning);
    assert_eq!(r[1].severity, Severity::Error);
    let again = evaluate(&c, &cfg);
    assert_eq!(format!("{:?}", r), format!("{:?}", again));
    assert_eq!(cfg.rules[0].name(), "scope-enum");
}

#[test]
fn only_errors_fail_a_run() {
    let c = parse_commit(SAMPLE);
    let warn = evaluate(&c, &config(opts(Severity::Warning, Condition::Always, &["fix"])));
    assert_eq!(warn.len(), 1);
    assert_eq!(warn[0].url.as_deref(), Some("https://example.com"));
    assert!(!fails(&warn));
    assert!(!fails(&Vec::new()));
    let err = evaluate(&c, &config(opts(Severity::Error, Condition::Never, &["nice"])));
    assert!(fails(&err));
}
