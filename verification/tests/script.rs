//! Where a validity clause may stand in a query, and how it reads.

use kyzo_query::plan::{DeltaAxis, ValidityClause};
use kyzo_query::script::{parse_script, Arg, Script};
use kyzo_query::history::AsOf;
use kyzo_query::seam::NoStoredInputs;

fn parsed_validity_clause(text: &str) -> ValidityClause {
    match parse_script(text) {
        Ok(Script::Rules(mut rules)) => {
            let mut rule = rules.remove(0);
            assert_eq!(rule.head, None);
            let atom = rule.body.remove(0);
            assert!(atom.stored);
            assert!(!atom.negated);
            assert_eq!(atom.name, "base_rel");
            atom.validity.expect("a validity clause")
        }
        other => panic!("expected rules, got {other:?}"),
    }
}

#[test]
fn spans_at_write_op_is_refused_at_parse() {
    let err = parse_script(":create sp_write_refused {k: Int, val: Any} @spans iv")
        .expect_err("`@spans` on a write op must not parse");
    assert!(!err.message().is_empty());
}

#[test]
fn a_write_op_takes_an_instant() {
    match parse_script(":create rel {k: Int, val} @ 7") {
        Ok(Script::Write(w)) => {
            assert_eq!(w.op, "create");
            assert_eq!(w.relation, "rel");
            assert_eq!(w.columns, vec!["k".to_string(), "val".to_string()]);
            assert_eq!(w.at, Some(7));
        }
        other => panic!("expected a write, got {other:?}"),
    }
    match parse_script(":put rel {k}") {
        Ok(Script::Write(w)) => assert_eq!(w.at, None),
        other => panic!("expected a write, got {other:?}"),
    }
    assert!(parse_script(":create rel {k} @delta(0, 1) d").is_err());
    assert!(parse_script(":create rel {k} @delta_sys(0, 1) d").is_err());
    assert!(parse_script(":create rel {k} @ t").is_err());
    assert!(parse_script(":create rel {k, } @ 7").is_err());
    assert!(parse_script(":create rel").is_err());
}

#[test]
fn validity_clause_on_a_rule_application_is_refused_at_parse() {
    let err = parse_script("r[x] := *base_rel[x]; ?[x] := r[x] @ 5")
        .expect_err("`@` on a rule application must not parse");
    assert!(!err.message().is_empty());
    assert!(parse_script("r[x] := *base_rel[x]; ?[x] := r[x @ 5]").is_err());
    assert!(parse_script("r[x] := *base_rel[x]; ?[x] := r[x]").is_ok());
}

#[test]
fn spans_clause_parses_through_real_script_text() {
    match parsed_validity_clause("?[x, v, iv] := *base_rel[x, v @spans iv]") {
        ValidityClause::Spans { sys, var } => {
            assert_eq!(sys, i64::MAX);
            assert_eq!(var, "iv");
        }
        other => panic!("expected a Spans clause, got {other:?}"),
    }
}

#[test]
fn spans_clause_with_explicit_sys_parses_through_real_script_text() {
    match parsed_validity_clause("?[x, v, iv] := *base_rel[x, v @spans iv, 5]") {
        ValidityClause::Spans { sys, var } => {
            assert_eq!(sys, 5);
            assert_eq!(var, "iv");
        }
        other => panic!("expected a Spans clause, got {other:?}"),
    }
}

#[test]
fn delta_clause_parses_through_real_script_text() {
    match parsed_validity_clause("?[x, v, sgn] := *base_rel[x, v @delta(0, 10) sgn]") {
        ValidityClause::Delta { axis, from, to, var } => {
            assert_eq!(axis, DeltaAxis::Valid);
            assert_eq!(from, 0);
            assert_eq!(to, 10);
            assert_eq!(var, "sgn");
        }
        other => panic!("expected a Delta clause, got {other:?}"),
    }
}

#[test]
fn delta_sys_clause_parses_through_real_script_text() {
    match parsed_validity_clause("?[x, v, sgn] := *base_rel[x, v @delta_sys(0, 10) sgn]") {
        ValidityClause::Delta { axis, from, to, var } => {
            assert_eq!(axis, DeltaAxis::Sys);
            assert_eq!(from, 0);
            assert_eq!(to, 10);
            assert_eq!(var, "sgn");
        }
        other => panic!("expected a Delta clause, got {other:?}"),
    }
}

#[test]
fn an_instant_parses_as_a_current_read() {
    match parsed_validity_clause("?[x] := *base_rel{x @ -3}") {
        ValidityClause::At(at) => assert_eq!(at, AsOf::current(-3)),
        other => panic!("expected an At clause, got {other:?}"),
    }
}

#[test]
fn spans_keyword_requires_a_boundary_not_just_a_prefix_match() {
    let err = parse_script("?[x, v] := *base_rel[x, v @spansX]")
        .expect_err("`@spansX` must not silently parse as `@spans` plus a mistyped tail");
    assert!(!err.message().is_empty());
}

#[test]
fn delta_keyword_requires_a_boundary_not_just_a_prefix_match() {
    let err = parse_script("?[x, v] := *base_rel[x, v @deltafoo]")
        .expect_err("`@deltafoo` must not silently parse as `@delta` plus a mistyped tail");
    assert!(!err.message().is_empty());
}

#[test]
fn delta_sys_keyword_requires_a_boundary_not_just_a_prefix_match() {
    let err = parse_script("?[x, v] := *base_rel[x, v @delta_sysX]")
        .expect_err("`@delta_sysX` must not silently parse as `@delta_sys` plus a mistyped tail");
    assert!(!err.message().is_empty());
}

#[test]
fn rules_negation_and_constants_read_as_written() {
    let text = "r[x] := *a[x, 1], not *b{x}, not s[x, -2]; ?[x] := r[x]";
    match parse_script(text) {
        Ok(Script::Rules(rules)) => {
            assert_eq!(rules.len(), 2);
            assert_eq!(rules[0].head, Some("r".to_string()));
            assert_eq!(rules[1].head, None);
            let body = &rules[0].body;
            assert_eq!(body.len(), 3);
            assert_eq!(
                body.iter().map(|a| (a.negated, a.stored)).collect::<Vec<_>>(),
                vec![(false, true), (true, true), (true, false)]
            );
            assert!(matches!(body[0].args[1], Arg::Int(1)));
            assert!(matches!(body[2].args[1], Arg::Int(-2)));
            assert!(body[0].validity.is_none());
        }
        other => panic!("expected rules, got {other:?}"),
    }
}

#[test]
fn what_is_no_rule_is_refused() {
    for text in [
        "",
        "?[x]",
        "?[x] :=",
        "?[x] := *a[x],",
        "?[x] := *a[x}",
        "?[x] := a{x}",
        "?[x] := *a[x x]",
        "?[x] := *a[x,]",
        "[x] := *a[x]",
        "?[x] := *a[x];",
        "?[x] := *a[x @]",
        "?[x] := *a[x @spans]",
        "?[x] := *a[x @spans iv,]",
        "?[x] := *a[x @delta(0) s]",
        "?[x] := *a[x @delta(0, 1)]",
        "?[x] := *a[x @ 99999999999999999999]",
    ] {
        assert!(parse_script(text).is_err(), "must not parse: {text}");
    }
}

#[test]
fn fixed_rule_stored_input_is_a_refusing_seam() {
    let src = NoStoredInputs;
    let hist = "hist".to_string();
    let err = src
        .stored_scan_all(&hist, Some(AsOf::current(20)))
        .err()
        .expect("NoStoredInputs must refuse an as-of stored scan");
    assert!(err.message().contains("not available to fixed rules"));
    assert_eq!(err.name, "hist");
    assert!(src.stored_scan_all(&hist, None).is_err());
    assert!(src.stored_arity(&hist).is_err());
}
