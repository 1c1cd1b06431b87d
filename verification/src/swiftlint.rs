use crate::aggregate::{
    count_violations, counts_view, lookup, sort_counts, sort_pairs, spec_aggregate,
};
use crate::catalog::{parse_rules, rules_view, spec_parse_rules, Rule, RuleV};
use crate::diagnostics::{diags_view, parse_diagnostics, spec_parse_all, Diagnostic};
use crate::text::{contains_string, spec_digits_of, spec_lines, u32_string};
use crate::yaml_doc::{modify_yaml, spec_strip, yaml_emitted, yaml_entries_of};
use crate::{Config, Error};
use vstd::prelude::*;

verus! {

/// The transient configuration handed to the linter for a uniform scan.
#[derive(Debug)]
pub struct SwiftLintConfig {
    pub disabled_rules: Vec<String>,
    pub excluded: Vec<String>,
    pub opt_in_rules: Vec<String>,
    pub only_rules: Vec<String>,
}

/// The linter session: where the binary lives, where the project lives,
/// and the rules discovered from the catalog.
#[derive(Debug)]
pub struct Swiftlint {
    pub binary_path: String,
    pub working_directory: String,
    pub rules: Vec<Rule>,
}

/// The identifiers of the rules evaluable in a plain scan: every rule
/// that is not analyzer-only, in catalog order.
pub open spec fn non_analyzer_ids(rules: Seq<RuleV>) -> Seq<Seq<char>>
    decreases rules.len(),
{
    if rules.len() == 0 {
        Seq::empty()
    } else {
        non_analyzer_ids(rules.drop_last()) + if rules.last().analyzer {
            Seq::<Seq<char>>::empty()
        } else {
            seq![rules.last().identifier]
        }
    }
}

/// The position of the first rule with the given identifier.
pub open spec fn find_rule(rules: Seq<RuleV>, id: Seq<char>) -> Option<int>
    decreases rules.len(),
{
    if rules.len() == 0 {
        None
    } else if rules[0].identifier == id {
        Some(0)
    } else {
        match find_rule(rules.drop_first(), id) {
            Some(i) => Some(i + 1),
            None => None,
        }
    }
}

pub proof fn lemma_find_rule(rules: Seq<RuleV>, id: Seq<char>)
    ensures
        match find_rule(rules, id) {
            Some(i) => 0 <= i < rules.len() && rules[i].identifier == id && (forall|m: int|
                0 <= m < i ==> rules[m].identifier != id),
            None => forall|m: int| 0 <= m < rules.len() ==> rules[m].identifier != id,
        },
    decreases rules.len(),
{
    if rules.len() > 0 && rules[0].identifier != id {
        lemma_find_rule(rules.drop_first(), id);
        match find_rule(rules.drop_first(), id) {
            Some(i) => {
                assert(rules.drop_first()[i] == rules[i + 1]);
                assert forall|m: int| 0 <= m < i + 1 implies rules[m].identifier != id by {
                    if m >= 1 {
                        assert(rules.drop_first()[m - 1] == rules[m]);
                    }
                }
            },
            None => {
                assert forall|m: int| 0 <= m < rules.len() implies rules[m].identifier != id by {
                    if m >= 1 {
                        assert(rules.drop_first()[m - 1] == rules[m]);
                    }
                }
            },
        }
    }
}

/// One line of the `count` report: identifier, count, a `fixable` mark
/// for correctable rules, and the rule's kind.
pub open spec fn spec_report_line(rv: RuleV, count: int) -> Seq<char> {
    rv.identifier + ": "@ + spec_digits_of(count) + (if rv.correctable {
        " fixable"@
    } else {
        Seq::<char>::empty()
    }) + " ("@ + rv.kind + ")"@
}

/// The report: one line per tally entry, in tally order, for entries
/// whose identifier names a catalog rule; an identifier the catalog does
/// not know is passed over rather than failing the run.
pub open spec fn spec_report_lines(rules: Seq<RuleV>, sorted: Seq<(Seq<char>, int)>) -> Seq<
    Seq<char>,
>
    decreases sorted.len(),
{
    if sorted.len() == 0 {
        Seq::empty()
    } else {
        let rest = spec_report_lines(rules, sorted.drop_last());
        match find_rule(rules, sorted.last().0) {
            Some(i) => rest.push(spec_report_line(rules[i], sorted.last().1)),
            None => rest,
        }
    }
}

/// One `only_rules` entry: the identifier, an optional violation-count
/// annotation, and a leading `#` when the rule is disabled — because it
/// is in the always-disabled preference list, or because its count
/// reaches the threshold (unless fixable rules are exempted).
pub open spec fn spec_rule_entry(
    rv: RuleV,
    count: int,
    include_counts: bool,
    minimum_violations: int,
    ignore_fixable: bool,
    always_disabled: Seq<Seq<char>>,
) -> Seq<char> {
    let base = "  - "@ + rv.identifier;
    let annotated = if include_counts && count != 0 {
        base + " # "@ + spec_digits_of(count) + " violations"@ + (if rv.correctable {
            " (fixable)"@
        } else {
            Seq::<char>::empty()
        })
    } else {
        base
    };
    let disabled = always_disabled.contains(rv.identifier) || (count >= minimum_violations && !(
    ignore_fixable && rv.correctable));
    if disabled {
        "#"@ + annotated
    } else {
        annotated
    }
}

/// The `only_rules` entry lines, one per catalog rule in catalog order,
/// each terminated by a newline.
pub open spec fn spec_rule_lines(
    rules: Seq<RuleV>,
    counts: Seq<(Seq<char>, int)>,
    include_counts: bool,
    minimum_violations: int,
    ignore_fixable: bool,
    always_disabled: Seq<Seq<char>>,
) -> Seq<char>
    decreases rules.len(),
{
    if rules.len() == 0 {
        Seq::empty()
    } else {
        spec_rule_lines(
            rules.drop_last(),
            counts,
            include_counts,
            minimum_violations,
            ignore_fixable,
            always_disabled,
        ) + spec_rule_entry(
            rules.last(),
            lookup(counts, rules.last().identifier),
            include_counts,
            minimum_violations,
            ignore_fixable,
            always_disabled,
        ) + "\n"@
    }
}

/// The whole regenerated `only_rules` section.
pub open spec fn spec_only_rules_section(
    rules: Seq<RuleV>,
    counts: Seq<(Seq<char>, int)>,
    include_counts: bool,
    minimum_violations: int,
    ignore_fixable: bool,
    always_disabled: Seq<Seq<char>>,
) -> Seq<char> {
    "only_rules:\n"@ + spec_rule_lines(
        rules,
        counts,
        include_counts,
        minimum_violations,
        ignore_fixable,
        always_disabled,
    )
}

/// The two top-level keys the tool owns exclusively: they are stripped
/// from any pre-existing document before the regenerated section is
/// appended.
pub open spec fn owned_keys() -> Seq<Seq<char>> {
    seq!["disabled_rules"@, "only_rules"@]
}

/// The always-disabled preference as a sequence of identifiers.
pub open spec fn always_disabled_view(config: Config) -> Seq<Seq<char>> {
    match config.always_disabled_rules {
        Some(v) => v.deep_view(),
        None => Seq::empty(),
    }
}

/// The count recorded for `id` in the tally, zero when absent.
fn lookup_exec(counts: &Vec<(String, u32)>, id: &String) -> (r: u32)
    ensures
        r as int == lookup(counts_view(counts@), id@),
{
    let ghost cv = counts_view(counts@);
    let mut k = counts.len();
    proof {
        assert(cv.take(cv.len() as int) =~= cv);
    }
    while k > 0
        invariant
            k <= counts.len(),
            cv == counts_view(counts@),
            lookup(cv, id@) == lookup(cv.take(k as int), id@),
        decreases k,
    {
        proof {
            assert(cv.take(k as int).last() == cv[k - 1int]);
            assert(cv[k - 1int] == (counts@[k - 1int].0@, counts@[k - 1int].1 as int));
            assert(cv.take(k as int).drop_last() =~= cv.take(k - 1int));
        }
        if counts[k - 1].0 == *id {
            return counts[k - 1].1;
        }
        k = k - 1;
    }
    proof {
        assert(cv.take(0int) =~= Seq::<(Seq<char>, int)>::empty());
    }
    0
}

/// One `only_rules` entry line for a rule.
fn rule_entry_exec(
    rule: &Rule,
    count: u32,
    include_counts: bool,
    minimum_violations: u32,
    ignore_fixable: bool,
    always_disabled: &Vec<String>,
) -> (r: String)
    ensures
        r@ == spec_rule_entry(
            rule@,
            count as int,
            include_counts,
            minimum_violations as int,
            ignore_fixable,
            always_disabled.deep_view(),
        ),
{
    let mut line = String::from_str("  - ");
    line.append(rule.identifier.as_str());
    if include_counts && count != 0 {
        line.append(" # ");
        let digits = u32_string(count);
        line.append(digits.as_str());
        line.append(" violations");
        if rule.correctable {
            line.append(" (fixable)");
        }
    }
    proof {
        let base = "  - "@ + rule@.identifier;
        if include_counts && count != 0 && !rule@.correctable {
            assert(line@ =~= base + " # "@ + spec_digits_of(count as int) + " violations"@
                + Seq::<char>::empty());
        }
    }
    let disabled = contains_string(always_disabled, &rule.identifier) || (count
        >= minimum_violations && !(ignore_fixable && rule.correctable));
    if disabled {
        let mut pre = String::from_str("#");
        pre.append(line.as_str());
        pre
    } else {
        line
    }
}

impl Swiftlint {
    /// A session over a project, before any rules are discovered.  The
    /// binary is looked up, and the catalog fetched, outside the library.
    pub fn new(binary_path: String, working_directory: String) -> (s: Swiftlint)
        ensures
            s.binary_path == binary_path,
            s.working_directory == working_directory,
            s.rules@.len() == 0,
    {
        Swiftlint { binary_path, working_directory, rules: Vec::new() }
    }

    /// Reads the rule catalog from the text of the linter's rule table.
    pub fn discover_rules(&mut self, table: &str) -> (r: Result<(), Error>)
        ensures
            match r {
                Ok(()) => spec_parse_rules(table@) == Some(rules_view(final(self).rules@)),
                Err(e) => spec_parse_rules(table@) is None && e == Error::CatalogParse
                    && *final(self) == *old(self),
            },
            final(self).binary_path == old(self).binary_path,
            final(self).working_directory == old(self).working_directory,
    {
        match parse_rules(table) {
            Ok(rules) => {
                self.rules = rules;
                Ok(())
            },
            Err(e) => Err(e),
        }
    }

    /// The scan configuration: exclude the project's build directory and
    /// opt in to every rule a plain scan can evaluate, leaving the
    /// disabled and only lists empty.
    pub fn generate_config(&self, project_root: &str) -> (c: SwiftLintConfig)
        ensures
            c.disabled_rules@.len() == 0,
            c.only_rules@.len() == 0,
            c.excluded.deep_view() == seq![project_root@ + "/.build/*"@],
            c.opt_in_rules.deep_view() == non_analyzer_ids(rules_view(self.rules@)),
    {
        let ghost rv = rules_view(self.rules@);
        let mut excluded: Vec<String> = Vec::new();
        let mut dotbuild = project_root.to_owned();
        dotbuild.append("/.build/*");
        excluded.push(dotbuild);
        proof {
            assert(excluded.deep_view() =~~= seq![project_root@ + "/.build/*"@]);
        }
        let mut opt_in: Vec<String> = Vec::new();
        let mut i: usize = 0;
        proof {
            assert(opt_in.deep_view() =~~= non_analyzer_ids(rv.take(0int)));
        }
        while i < self.rules.len()
            invariant
                i <= self.rules.len(),
                rv == rules_view(self.rules@),
                opt_in.deep_view() == non_analyzer_ids(rv.take(i as int)),
            decreases self.rules.len() - i,
        {
            let ghost before = opt_in.deep_view();
            proof {
                assert(rv.take(i + 1int).drop_last() =~= rv.take(i as int));
                assert(rv.take(i + 1int).last() == rv[i as int]);
                assert(rv[i as int] == self.rules@[i as int]@);
            }
            if !self.rules[i].analyzer {
                opt_in.push(self.rules[i].identifier.clone());
                proof {
                    assert(opt_in.deep_view() =~~= before.push(rv[i as int].identifier));
                    assert(non_analyzer_ids(rv.take(i + 1int)) =~~= before.push(
                        rv[i as int].identifier,
                    ));
                }
            } else {
                proof {
                    assert(non_analyzer_ids(rv.take(i + 1int)) =~~= before);
                }
            }
            i = i + 1;
        }
        proof {
            assert(rv.take(rv.len() as int) =~= rv);
        }
        SwiftLintConfig {
            disabled_rules: Vec::new(),
            excluded,
            opt_in_rules: opt_in,
            only_rules: Vec::new(),
        }
    }

    /// Parses the text of a lint run's standard output: one diagnostic
    /// per line, failing on the first malformed line.
    pub fn lint(&self, output: &str) -> (r: Result<Vec<Diagnostic>, Error>)
        ensures
            match r {
                Ok(v) => spec_parse_all(spec_lines(output@)) == Some(diags_view(v@)),
                Err(e) => spec_parse_all(spec_lines(output@)) is None && e
                    == Error::DiagnosticParse,
            },
    {
        parse_diagnostics(output)
    }

    /// The per-rule report: the tally of the diagnostics, ordered by
    /// count descending and identifier ascending, one line per entry
    /// whose identifier the catalog knows.
    pub fn count(&self, diagnostics: &Vec<Diagnostic>) -> (r: Vec<String>)
        requires
            diagnostics@.len() <= u32::MAX as int,
        ensures
            r.deep_view() == spec_report_lines(
                rules_view(self.rules@),
                sort_pairs(spec_aggregate(diags_view(diagnostics@))),
            ),
    {
        let ghost rv = rules_view(self.rules@);
        let counts = count_violations(diagnostics);
        let sorted = sort_counts(counts);
        let ghost sv = sort_pairs(spec_aggregate(diags_view(diagnostics@)));
        proof {
            assert(counts_view(sorted@) == sv);
        }
        let mut out: Vec<String> = Vec::new();
        let mut k: usize = 0;
        proof {
            assert(out.deep_view() =~~= spec_report_lines(rv, sv.take(0int)));
        }
        while k < sorted.len()
            invariant
                k <= sorted.len(),
                rv == rules_view(self.rules@),
                sv == counts_view(sorted@),
                out.deep_view() == spec_report_lines(rv, sv.take(k as int)),
            decreases sorted.len() - k,
        {
            let ghost before = out.deep_view();
            proof {
                assert(sv.take(k + 1int).drop_last() =~= sv.take(k as int));
                assert(sv.take(k + 1int).last() == sv[k as int]);
                assert(sv[k as int] == (sorted@[k as int].0@, sorted@[k as int].1 as int));
            }
            match self.find_rule_exec(&sorted[k].0) {
                Some(i) => {
                    let rule = &self.rules[i];
                    proof {
                        assert(rv[i as int] == self.rules@[i as int]@);
                    }
                    let mut line = rule.identifier.clone();
                    line.append(": ");
                    let digits = u32_string(sorted[k].1);
                    line.append(digits.as_str());
                    if rule.correctable {
                        line.append(" fixable");
                    }
                    line.append(" (");
                    line.append(rule.kind.as_str());
                    line.append(")");
                    proof {
                        if !rule@.correctable {
                            assert(rule@.identifier + ": "@ + spec_digits_of(sv[k as int].1)
                                + Seq::<char>::empty() =~= rule@.identifier + ": "@
                                + spec_digits_of(sv[k as int].1));
                        }
                        assert(line@ == spec_report_line(rv[i as int], sv[k as int].1));
                    }
                    out.push(line);
                    proof {
                        assert(out.deep_view() =~~= before.push(
                            spec_report_line(rv[i as int], sv[k as int].1),
                        ));
                        assert(spec_report_lines(rv, sv.take(k + 1int)) =~~= before.push(
                            spec_report_line(rv[i as int], sv[k as int].1),
                        ));
                    }
                },
                None => {
                    proof {
                        assert(spec_report_lines(rv, sv.take(k + 1int)) =~~= before);
                    }
                },
            }
            k = k + 1;
        }
        proof {
            assert(sv.take(sv.len() as int) =~= sv);
        }
        out
    }

    /// The position of the first catalog rule with the given identifier.
    fn find_rule_exec(&self, id: &String) -> (r: Option<usize>)
        ensures
            match r {
                Some(i) => i < self.rules@.len() && find_rule(rules_view(self.rules@), id@)
                    == Some(i as int),
                None => find_rule(rules_view(self.rules@), id@) is None,
            },
    {
        let ghost rv = rules_view(self.rules@);
        let mut i: usize = 0;
        while i < self.rules.len()
            invariant
                i <= self.rules.len(),
                rv == rules_view(self.rules@),
                forall|m: int| 0 <= m < i ==> rv[m].identifier != id@,
            decreases self.rules.len() - i,
        {
            proof {
                assert(rv[i as int] == self.rules@[i as int]@);
            }
            if self.rules[i].identifier == *id {
                proof {
                    lemma_find_rule(rv, id@);
                }
                return Some(i);
            }
            i = i + 1;
        }
        proof {
            lemma_find_rule(rv, id@);
        }
        None
    }

    /// The regenerated `only_rules` section for the catalog and tally.
    pub fn only_rules_section(
        &self,
        counts: &Vec<(String, u32)>,
        include_counts: bool,
        minimum_violations: u32,
        ignore_fixable: bool,
        always_disabled: &Vec<String>,
    ) -> (r: String)
        ensures
            r@ == spec_only_rules_section(
                rules_view(self.rules@),
                counts_view(counts@),
                include_counts,
                minimum_violations as int,
                ignore_fixable,
                always_disabled.deep_view(),
            ),
    {
        let ghost rv = rules_view(self.rules@);
        let ghost cv = counts_view(counts@);
        let ghost ad = always_disabled.deep_view();
        let mut s = String::from_str("only_rules:\n");
        let mut k: usize = 0;
        proof {
            assert(s@ =~= "only_rules:\n"@ + spec_rule_lines(
                rv.take(0int),
                cv,
                include_counts,
                minimum_violations as int,
                ignore_fixable,
                ad,
            ));
        }
        while k < self.rules.len()
            invariant
                k <= self.rules.len(),
                rv == rules_view(self.rules@),
                cv == counts_view(counts@),
                ad == always_disabled.deep_view(),
                s@ == "only_rules:\n"@ + spec_rule_lines(
                    rv.take(k as int),
                    cv,
                    include_counts,
                    minimum_violations as int,
                    ignore_fixable,
                    ad,
                ),
            decreases self.rules.len() - k,
        {
            let ghost before = s@;
            proof {
                assert(rv.take(k + 1int).drop_last() =~= rv.take(k as int));
                assert(rv.take(k + 1int).last() == rv[k as int]);
                assert(rv[k as int] == self.rules@[k as int]@);
            }
            let count = lookup_exec(counts, &self.rules[k].identifier);
            let entry = rule_entry_exec(
                &self.rules[k],
                count,
                include_counts,
                minimum_violations,
                ignore_fixable,
                always_disabled,
            );
            s.append(entry.as_str());
            s.append("\n");
            proof {
                let lines_k = spec_rule_lines(
                    rv.take(k as int),
                    cv,
                    include_counts,
                    minimum_violations as int,
                    ignore_fixable,
                    ad,
                );
                let entry_v = spec_rule_entry(
                    rv[k as int],
                    lookup(cv, rv[k as int].identifier),
                    include_counts,
                    minimum_violations as int,
                    ignore_fixable,
                    ad,
                );
                assert(s@ =~= "only_rules:\n"@ + (lines_k + entry_v + "\n"@));
            }
            k = k + 1;
        }
        proof {
            assert(rv.take(rv.len() as int) =~= rv);
        }
        s
    }

    /// Composes the generated configuration document.
    ///
    /// When a pre-existing document is supplied, it is re-serialized with
    /// its `disabled_rules` and `only_rules` keys stripped and every
    /// other top-level key preserved in order, and the fresh `only_rules`
    /// section follows it; otherwise the output is the section alone.
    /// The section itself never depends on the pre-existing document,
    /// and failure means exactly that the pre-existing document did not
    /// parse as a string-keyed mapping, or its remainder did not emit.
    pub fn generate(
        &self,
        diagnostics: &Vec<Diagnostic>,
        existing_document: Option<&String>,
        include_counts: bool,
        minimum_violations: u32,
        ignore_fixable: bool,
        config: &Config,
    ) -> (r: Result<String, Error>)
        requires
            diagnostics@.len() <= u32::MAX as int,
        ensures
            ({
                let section = spec_only_rules_section(
                    rules_view(self.rules@),
                    spec_aggregate(diags_view(diagnostics@)),
                    include_counts,
                    minimum_violations as int,
                    ignore_fixable,
                    always_disabled_view(*config),
                );
                match r {
                    Ok(s) => {
                        &&& s@.len() >= section.len()
                        &&& s@.skip(s@.len() - section.len()) == section
                        &&& (existing_document is None ==> s@ == section)
                        &&& (existing_document matches Some(doc) ==> {
                            &&& yaml_entries_of(doc@) matches Some(entries)
                            &&& yaml_emitted(spec_strip(entries, owned_keys())) matches Some(pre)
                            &&& s@ == pre + "\n"@ + section
                        })
                    },
                    Err(e) => {
                        &&& e == Error::ConfigDocument
                        &&& existing_document matches Some(doc) && (yaml_entries_of(doc@) is None
                            || yaml_emitted(
                            spec_strip(yaml_entries_of(doc@)->0, owned_keys()),
                        ) is None)
                    },
                }
            }),
    {
        let ghost section_v = spec_only_rules_section(
            rules_view(self.rules@),
            spec_aggregate(diags_view(diagnostics@)),
            include_counts,
            minimum_violations as int,
            ignore_fixable,
            always_disabled_view(*config),
        );
        let counts = count_violations(diagnostics);
        let empty_list: Vec<String> = Vec::new();
        let always_disabled: &Vec<String> = match &config.always_disabled_rules {
            Some(v) => v,
            None => &empty_list,
        };
        proof {
            assert(always_disabled.deep_view() =~~= always_disabled_view(*config));
        }
        let mut output = String::new();
        let ghost mut stripped_emission: Seq<char> = Seq::empty();
        if let Some(doc) = existing_document {
            let mut keys: Vec<String> = Vec::new();
            keys.push(String::from_str("disabled_rules"));
            keys.push(String::from_str("only_rules"));
            proof {
                assert(keys.deep_view() =~~= owned_keys());
            }
            match modify_yaml(doc.as_str(), &keys) {
                Ok(pre) => {
                    proof {
                        stripped_emission = pre@;
                    }
                    output.append(pre.as_str());
                    output.append("\n");
                },
                Err(e) => {
                    return Err(e);
                },
            }
        }
        let ghost preamble = output@;
        let section = self.only_rules_section(
            &counts,
            include_counts,
            minimum_violations,
            ignore_fixable,
            always_disabled,
        );
        output.append(section.as_str());
        proof {
            assert(output@ == preamble + section_v);
            assert(output@.skip(output@.len() - section_v.len()) =~= section_v);
            if existing_document is None {
                assert(preamble =~= Seq::<char>::empty());
                assert(output@ =~= section_v);
            } else {
                assert(preamble == stripped_emission + "\n"@);
                assert(output@ =~= stripped_emission + "\n"@ + section_v);
            }
        }
        Ok(output)
    }
}

/// Generate idempotence: the `only_rules` section is a pure function of
/// the catalog, the tally and the options.  Any two generated outputs
/// over the same rules, counts and options end with the same section,
/// whatever pre-existing documents were merged in front — so feeding a
/// generated document back in leaves the section unchanged.
pub proof fn lemma_generate_section_stable(
    o1: Seq<char>,
    o2: Seq<char>,
    rules: Seq<RuleV>,
    counts: Seq<(Seq<char>, int)>,
    include_counts: bool,
    minimum_violations: int,
    ignore_fixable: bool,
    always_disabled: Seq<Seq<char>>,
)
    requires
        ({
            let section = spec_only_rules_section(
                rules,
                counts,
                include_counts,
                minimum_violations,
                ignore_fixable,
                always_disabled,
            );
            o1.len() >= section.len() && o1.skip(o1.len() - section.len()) == section && o2.len()
                >= section.len() && o2.skip(o2.len() - section.len()) == section
        }),
    ensures
        ({
            let section = spec_only_rules_section(
                rules,
                counts,
                include_counts,
                minimum_violations,
                ignore_fixable,
                always_disabled,
            );
            o1.skip(o1.len() - section.len()) == o2.skip(o2.len() - section.len())
        }),
{
}

} // verus!
