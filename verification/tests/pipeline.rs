use swiftlint_autodetect::aggregate::{count_violations, sort_counts};
use swiftlint_autodetect::catalog::parse_rules;
use swiftlint_autodetect::diagnostics::parse_diagnostic;
use swiftlint_autodetect::swiftlint::Swiftlint;
use swiftlint_autodetect::yaml_doc::modify_yaml;
use swiftlint_autodetect::{Config, Error};

fn sample_table() -> String {
    let mut t = String::new();
    t.push_str("+---+\n");
    t.push_str("| identifier | opt-in | correctable | kind | analyzer | uses sourcekit |\n");
    t.push_str("+---+\n");
    t.push_str("| rule_a | no | yes | style | no | no |\n");
    t.push_str("| rule_b | yes | no | lint | yes | yes |\n");
    t.push_str("+---+\n");
    t
}

fn session_with(table: &str) -> Swiftlint {
    let mut s = Swiftlint::new(String::from("swiftlint"), String::from("."));
    s.discover_rules(table).expect("catalog should parse");
    s
}

#[test]
fn catalog_parses_fields() {
    let rules = parse_rules(&sample_table()).expect("catalog should parse");
    assert_eq!(rules.len(), 2);
    assert_eq!(rules[0].identifier, "rule_a");
    assert!(!rules[0].opt_in);
    assert!(rules[0].correctable);
    assert_eq!(rules[0].kind, "style");
    assert!(!rules[0].analyzer);
    assert!(!rules[0].uses_sourcekit);
    assert_eq!(rules[1].identifier, "rule_b");
    assert!(rules[1].opt_in);
    assert!(!rules[1].correctable);
    assert_eq!(rules[1].kind, "lint");
    assert!(rules[1].analyzer);
    assert!(rules[1].uses_sourcekit);
}

#[test]
fn catalog_column_order_is_resolved_by_name() {
    let mut t = String::new();
    t.push_str("+---+\n");
    t.push_str("| kind | identifier | analyzer | opt-in | correctable | uses sourcekit |\n");
    t.push_str("+---+\n");
    t.push_str("| style | shuffled | no | yes | yes | no |\n");
    t.push_str("+---+\n");
    let rules = parse_rules(&t).expect("catalog should parse");
    assert_eq!(rules.len(), 1);
    assert_eq!(rules[0].identifier, "shuffled");
    assert_eq!(rules[0].kind, "style");
    assert!(rules[0].opt_in);
    assert!(rules[0].correctable);
    assert!(!rules[0].analyzer);
}

#[test]
fn catalog_missing_column_fails() {
    let mut t = String::new();
    t.push_str("+---+\n");
    t.push_str("| identifier | opt-in | correctable | kind | uses sourcekit |\n");
    t.push_str("+---+\n");
    t.push_str("| a | no | no | style | no |\n");
    t.push_str("+---+\n");
    assert!(matches!(parse_rules(&t), Err(Error::CatalogParse)));
}

#[test]
fn catalog_short_row_fails() {
    let mut t = String::new();
    t.push_str("+---+\n");
    t.push_str("| identifier | opt-in | correctable | kind | analyzer | uses sourcekit |\n");
    t.push_str("+---+\n");
    t.push_str("| a | no |\n");
    t.push_str("+---+\n");
    assert!(matches!(parse_rules(&t), Err(Error::CatalogParse)));
}

#[test]
fn catalog_without_header_region_fails() {
    assert!(matches!(parse_rules(""), Err(Error::CatalogParse)));
    assert!(matches!(parse_rules("one\ntwo\n"), Err(Error::CatalogParse)));
}

#[test]
fn diagnostic_parses_warning_line() {
    let d = parse_diagnostic("/path/File.swift:10:5: warning: Something bad (rule_a)")
        .expect("line should parse");
    assert_eq!(d.file, "/path/File.swift");
    assert_eq!(d.line, 10);
    assert_eq!(d.character, 5);
    assert_eq!(d.severity, "warning");
    assert_eq!(d.reason, "Something bad");
    assert_eq!(d.rule_id, "rule_a");
}

#[test]
fn diagnostic_parses_error_line() {
    let d = parse_diagnostic("a.swift:1:2: error: Broken (x)").expect("line should parse");
    assert_eq!(d.severity, "error");
    assert_eq!(d.line, 1);
    assert_eq!(d.character, 2);
    assert_eq!(d.reason, "Broken");
    assert_eq!(d.rule_id, "x");
}

#[test]
fn diagnostic_greedy_path_takes_longest_prefix() {
    let d = parse_diagnostic("a:1:2:3:4: warning: m (r)").expect("line should parse");
    assert_eq!(d.file, "a:1:2");
    assert_eq!(d.line, 3);
    assert_eq!(d.character, 4);
}

#[test]
fn diagnostic_message_may_contain_parens() {
    let d = parse_diagnostic("f.swift:1:1: warning: use (x) wisely (rule)")
        .expect("line should parse");
    assert_eq!(d.reason, "use (x) wisely");
    assert_eq!(d.rule_id, "rule");
}

#[test]
fn diagnostic_rejects_unknown_severity() {
    assert!(matches!(
        parse_diagnostic("a:1:2: note: msg (r)"),
        Err(Error::DiagnosticParse)
    ));
}

#[test]
fn diagnostic_rejects_missing_identifier() {
    assert!(matches!(
        parse_diagnostic("a:1:2: warning: msg"),
        Err(Error::DiagnosticParse)
    ));
}

#[test]
fn diagnostic_accepts_largest_line_number() {
    let d = parse_diagnostic("a:4294967295:1: warning: m (r)").expect("line should parse");
    assert_eq!(d.line, 4294967295);
}

#[test]
fn diagnostic_rejects_line_number_overflow() {
    assert!(matches!(
        parse_diagnostic("a:4294967296:1: warning: m (r)"),
        Err(Error::DiagnosticParse)
    ));
    assert!(matches!(
        parse_diagnostic("a:99999999999:1: warning: m (r)"),
        Err(Error::DiagnosticParse)
    ));
}

#[test]
fn lint_parses_every_line() {
    let s = session_with(&sample_table());
    let out = "a.swift:1:1: warning: m (rule_a)\nb.swift:2:2: error: n (rule_b)\n";
    let diags = s.lint(out).expect("output should parse");
    assert_eq!(diags.len(), 2);
    assert_eq!(diags[0].rule_id, "rule_a");
    assert_eq!(diags[1].rule_id, "rule_b");
}

#[test]
fn lint_fails_on_malformed_line() {
    let s = session_with(&sample_table());
    let out = "a.swift:1:1: warning: m (rule_a)\nnot a diagnostic\n";
    assert!(matches!(s.lint(out), Err(Error::DiagnosticParse)));
}

#[test]
fn aggregation_counts_each_identifier() {
    let s = session_with(&sample_table());
    let out = "a:1:1: warning: m (rule_a)\n\
               b:2:2: warning: m (rule_b)\n\
               c:3:3: warning: m (rule_a)\n";
    let diags = s.lint(out).expect("output should parse");
    let counts = count_violations(&diags);
    assert_eq!(counts.len(), 2);
    assert!(counts.contains(&(String::from("rule_a"), 2)));
    assert!(counts.contains(&(String::from("rule_b"), 1)));
    assert!(!counts.iter().any(|c| c.0 == "rule_c"));
}

#[test]
fn report_sorts_by_count_descending_then_identifier() {
    let counts = vec![
        (String::from("bbb"), 2u32),
        (String::from("aaa"), 2u32),
        (String::from("ccc"), 5u32),
    ];
    let sorted = sort_counts(counts);
    assert_eq!(sorted[0], (String::from("ccc"), 5));
    assert_eq!(sorted[1], (String::from("aaa"), 2));
    assert_eq!(sorted[2], (String::from("bbb"), 2));
}

fn repeated_violations(id: &str, n: usize) -> String {
    let mut out = String::new();
    for i in 0..n {
        out.push_str(&format!("f.swift:{}:1: warning: m ({})\n", i + 1, id));
    }
    out
}

#[test]
fn count_report_scenario() {
    let s = session_with(&sample_table());
    let diags = s.lint(&repeated_violations("rule_a", 12)).expect("parse");
    let lines = s.count(&diags);
    assert_eq!(lines.len(), 1);
    assert_eq!(lines[0], "rule_a: 12 fixable (style)");
}

#[test]
fn count_report_skips_identifier_not_in_catalog() {
    let s = session_with(&sample_table());
    let diags = s.lint("f.swift:1:1: warning: m (mystery)\n").expect("parse");
    let lines = s.count(&diags);
    assert!(lines.is_empty());
}

fn generate_table_a_c() -> String {
    let mut t = String::new();
    t.push_str("+---+\n");
    t.push_str("| identifier | opt-in | correctable | kind | analyzer | uses sourcekit |\n");
    t.push_str("+---+\n");
    t.push_str("| A | no | yes | style | no | no |\n");
    t.push_str("| C | no | no | lint | no | no |\n");
    t.push_str("+---+\n");
    t
}

#[test]
fn generate_threshold_scenario() {
    let s = session_with(&generate_table_a_c());
    let mut out = repeated_violations("A", 12);
    out.push_str(&repeated_violations("C", 2));
    let diags = s.lint(&out).expect("parse");
    let doc = s
        .generate(&diags, None, true, 5, false, &Config::new())
        .expect("generate");
    assert_eq!(
        doc,
        "only_rules:\n#  - A # 12 violations (fixable)\n  - C # 2 violations\n"
    );
}

#[test]
fn generate_without_counts_annotation() {
    let s = session_with(&generate_table_a_c());
    let diags = s.lint(&repeated_violations("C", 2)).expect("parse");
    let doc = s
        .generate(&diags, None, false, 5, false, &Config::new())
        .expect("generate");
    assert_eq!(doc, "only_rules:\n  - A\n  - C\n");
}

#[test]
fn generate_ignore_fixable_exempts_correctable_rules() {
    let s = session_with(&generate_table_a_c());
    let diags = s.lint(&repeated_violations("A", 12)).expect("parse");
    let doc = s
        .generate(&diags, None, true, 5, true, &Config::new())
        .expect("generate");
    assert_eq!(doc, "only_rules:\n  - A # 12 violations (fixable)\n  - C\n");
}

#[test]
fn generate_always_disabled_rule_is_commented() {
    let s = session_with(&generate_table_a_c());
    let diags = s.lint("").expect("parse");
    let prefs = Config {
        always_disabled_rules: Some(vec![String::from("C")]),
    };
    let doc = s.generate(&diags, None, true, 5, false, &prefs).expect("generate");
    assert_eq!(doc, "only_rules:\n  - A\n#  - C\n");
}

#[test]
fn generate_zero_threshold_disables_every_rule() {
    let s = session_with(&generate_table_a_c());
    let diags = s.lint("").expect("parse");
    let doc = s
        .generate(&diags, None, false, 0, false, &Config::new())
        .expect("generate");
    assert_eq!(doc, "only_rules:\n#  - A\n#  - C\n");
}

#[test]
fn generate_preserves_custom_keys_and_strips_owned_ones() {
    let s = session_with(&generate_table_a_c());
    let diags = s.lint("").expect("parse");
    let existing = String::from(
        "included:\n  - Sources\ndisabled_rules:\n  - old_a\nonly_rules:\n  - old_b\n",
    );
    let doc = s
        .generate(&diags, Some(&existing), false, 5, false, &Config::new())
        .expect("generate");
    assert!(doc.contains("included"));
    assert!(doc.contains("Sources"));
    assert!(!doc.contains("disabled_rules"));
    assert!(!doc.contains("old_a"));
    assert!(!doc.contains("old_b"));
    assert!(doc.ends_with("only_rules:\n  - A\n  - C\n"));
}

#[test]
fn generate_is_idempotent_when_fed_back() {
    let s = session_with(&generate_table_a_c());
    let diags = s.lint(&repeated_violations("A", 7)).expect("parse");
    let first = s
        .generate(&diags, None, true, 5, false, &Config::new())
        .expect("generate");
    let second = s
        .generate(&diags, Some(&first), true, 5, false, &Config::new())
        .expect("generate");
    assert!(second.ends_with(&first));
}

#[test]
fn generate_reaches_a_fixed_point_with_a_custom_key() {
    let s = session_with(&generate_table_a_c());
    let diags = s.lint(&repeated_violations("A", 7)).expect("parse");
    let existing = String::from("included:\n  - Sources\n");
    let first = s
        .generate(&diags, Some(&existing), true, 5, false, &Config::new())
        .expect("generate");
    let second = s
        .generate(&diags, Some(&first), true, 5, false, &Config::new())
        .expect("generate");
    assert_eq!(second, first);
}

#[test]
fn generate_rejects_non_mapping_document() {
    let s = session_with(&generate_table_a_c());
    let diags = s.lint("").expect("parse");
    let existing = String::from("- just\n- a\n- list\n");
    assert!(matches!(
        s.generate(&diags, Some(&existing), false, 5, false, &Config::new()),
        Err(Error::ConfigDocument)
    ));
}

#[test]
fn modify_yaml_strips_only_named_keys() {
    let keys = vec![String::from("drop")];
    let out = modify_yaml("keep: 1\ndrop: 2\n", &keys).expect("valid document");
    assert!(out.contains("keep"));
    assert!(!out.contains("drop"));
}

#[test]
fn scan_config_opts_in_non_analyzer_rules_and_excludes_build_dir() {
    let s = session_with(&sample_table());
    let c = s.generate_config("/proj");
    assert!(c.disabled_rules.is_empty());
    assert!(c.only_rules.is_empty());
    assert_eq!(c.excluded, vec![String::from("/proj/.build/*")]);
    assert_eq!(c.opt_in_rules, vec![String::from("rule_a")]);
}

#[test]
fn config_new_disables_nothing() {
    assert!(Config::new().always_disabled_rules.is_none());
}
