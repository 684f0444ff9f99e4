use tohru::error::{Error, RuleProblem};
use tohru::rules::{govern, parse_rule, parse_rules, part_rule, select, split_lines, RuleAction};
use tohru::glob::Verdict;

fn problem(line: &str) -> RuleProblem {
    match parse_rule(7, line) {
        Err(Error::Rule(7, problem)) => problem,
        Err(other) => panic!("{other:?}"),
        Ok(_) => panic!("accepted {line:?}"),
    }
}

#[test]
fn the_last_rule_that_matches_governs() {
    let rules = parse_rules("+ copied\n*0600 copied").ok().unwrap();
    assert_eq!(govern(&rules, "copied", false), Some(RuleAction::CopyWithMode(0o600)));
    let rules = parse_rules("*0600 copied\n+ copied").ok().unwrap();
    assert_eq!(govern(&rules, "copied", false), Some(RuleAction::Copy));
    assert_eq!(govern(&rules, "other", false), None);
}

#[test]
fn a_rule_for_a_directory_governs_what_is_below_it() {
    let rules = parse_rules("- build/\n= build/kept").ok().unwrap();
    assert_eq!(govern(&rules, "build", true), Some(RuleAction::Ignore));
    assert_eq!(govern(&rules, "build", false), None);
    assert_eq!(govern(&rules, "build/x", false), Some(RuleAction::Ignore));
    assert_eq!(govern(&rules, "build/kept", false), Some(RuleAction::Link));
}

#[test]
fn globs_match_as_in_ignore_files() {
    let rules = parse_rules("+ *.conf\n- /top\n+ a/**/z").ok().unwrap();
    assert_eq!(govern(&rules, "x/y.conf", false), Some(RuleAction::Copy));
    assert_eq!(govern(&rules, "top", false), Some(RuleAction::Ignore));
    assert_eq!(govern(&rules, "x/top", false), None);
    assert_eq!(govern(&rules, "a/b/c/z", false), Some(RuleAction::Copy));
}

#[test]
fn blank_lines_and_comments_are_no_rules() {
    let rules = parse_rules("\n# + a\n\n+ b\r\n").ok().unwrap();
    assert_eq!(rules.len(), 1);
    assert_eq!(govern(&rules, "b", false), Some(RuleAction::Copy));
    assert_eq!(govern(&rules, "a", false), None);
}

#[test]
fn lines_are_split_as_the_standard_library_does() {
    for text in ["", "a", "a\n", "a\n\nb", "a\r\nb\r", "\r\n", "\n", "a\rb\n"] {
        assert_eq!(split_lines(text), text.lines().collect::<Vec<_>>(), "{text:?}");
    }
}

#[test]
fn rules_fall_into_action_and_pattern() {
    assert_eq!(part_rule(1, "- x").unwrap(), (RuleAction::Ignore, "x"));
    assert_eq!(part_rule(1, "= x").unwrap(), (RuleAction::Link, "x"));
    assert_eq!(part_rule(1, "+ x y").unwrap(), (RuleAction::Copy, "x y"));
    assert_eq!(part_rule(1, "*7654 x").unwrap(), (RuleAction::CopyWithMode(0o7654), "x"));
}

#[test]
fn wrong_rules_are_refused() {
    assert_eq!(problem("x"), RuleProblem::UnknownAction);
    assert_eq!(problem("-x"), RuleProblem::UnknownAction);
    assert_eq!(problem("*0644"), RuleProblem::NoPattern);
    assert_eq!(problem("*644 x"), RuleProblem::BadPermissions);
    assert_eq!(problem("*0648 x"), RuleProblem::BadPermissions);
    assert_eq!(problem("+ "), RuleProblem::EmptyOrNegated);
    assert_eq!(problem("- !x"), RuleProblem::EmptyOrNegated);
}

#[test]
fn a_pattern_that_is_no_glob_is_refused_with_its_line() {
    match parse_rules("+ a\n\n+ {b") {
        Err(Error::Glob(3, text)) => assert!(!text.is_empty()),
        Err(other) => panic!("{other:?}"),
        Ok(_) => panic!("accepted"),
    }
    let message = parse_rules("+ {b").err().unwrap().message();
    assert!(message.starts_with(b"rule 1: "), "{:?}", String::from_utf8(message));
}

#[test]
fn the_last_verdict_that_says_something_counts() {
    assert_eq!(select(&vec![]), None);
    assert_eq!(select(&vec![Verdict::Unmatched]), None);
    assert_eq!(select(&vec![Verdict::Matched, Verdict::Unmatched]), Some(0));
    assert_eq!(select(&vec![Verdict::Matched, Verdict::Matched, Verdict::Unmatched]), Some(1));
}
