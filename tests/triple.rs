use guppy::triple::{CfgExpr, Platform, Triple};

#[test]
fn test_parse() {
    let target = Triple::new("x86_64-pc-darwin".to_string()).expect("this triple is known to target-lexicon");
    assert!(
        !target.is_builtin(),
        "should not have been able to parse x86_64-pc-darwin as a builtin"
    );
    assert_eq!(target.as_str(), "x86_64-pc-darwin", "lexicon triple matched correctly");
    assert!(target.matches("target_arch", "x86_64"), "lexicon triple matched correctly");
    assert!(target.matches("target_vendor", "pc"), "lexicon triple matched correctly");
    assert!(target.matches("target_family", "unix"), "lexicon triple matched correctly");
    assert!(!target.matches("target_os", "linux"), "lexicon triple matched correctly");
    assert!(target.matches("target_os", "macos"), "lexicon triple matched correctly");
    assert!(!target.matches("no_such_key", "x"), "lexicon triple matched correctly");
    assert!(!target.matches("target_env", "gnu"), "lexicon triple matched correctly");
}

#[test]
fn builtin_triple_parses_from_table() {
    let t = Triple::from_str("x86_64-unknown-linux-gnu").unwrap();
    assert!(t.is_builtin());
    assert_eq!(t.as_str(), "x86_64-unknown-linux-gnu");
}

#[test]
fn unknown_triple_is_rejected() {
    let err = Triple::new("cannot-be-known".to_string()).unwrap_err();
    assert_eq!(err.triple_str, "cannot-be-known");
    assert!(!err.reason.is_empty());
}

#[test]
fn triples_compare_by_string() {
    let a = Triple::new("x86_64-unknown-linux-gnu".to_string()).unwrap();
    let b = Triple::from_str("x86_64-unknown-linux-gnu").unwrap();
    let c = Triple::from_str("aarch64-unknown-linux-gnu").unwrap();
    assert!(a.same_as(&b));
    assert!(!a.same_as(&c));
    let p = Platform::new(b, vec![]);
    assert!(a.eval(&p));
    assert!(!c.eval(&p));
}

#[test]
fn predicates_on_builtin_and_lexicon_targets() {
    let linux = Triple::from_str("x86_64-unknown-linux-gnu").unwrap();
    assert!(linux.matches("target_os", "linux"));
    assert!(!linux.matches("target_os", "windows"));
    assert!(linux.matches("target_arch", "x86_64"));
    assert!(!linux.matches("no_such_key", "x"));
    let darwin = Triple::from_str("x86_64-pc-darwin").unwrap();
    assert!(darwin.matches("target_arch", "x86_64"));
    assert!(!darwin.matches("target_os", "linux"));
}

#[test]
fn predicate_combinators_and_target_features() {
    let p = Platform::new(
        Triple::from_str("x86_64-unknown-linux-gnu").unwrap(),
        vec!["sse2".to_string()],
    );
    let linux = CfgExpr::Key("target_os".to_string(), "linux".to_string());
    let windows = CfgExpr::Key("target_os".to_string(), "windows".to_string());
    assert!(p.eval_expr(&CfgExpr::Any(Box::new(windows), Box::new(linux))));
    let windows = CfgExpr::Key("target_os".to_string(), "windows".to_string());
    assert!(p.eval_expr(&CfgExpr::Not(Box::new(windows))));
    let sse = CfgExpr::TargetFeature("sse2".to_string());
    let avx = CfgExpr::TargetFeature("avx".to_string());
    assert!(!p.eval_expr(&CfgExpr::All(Box::new(sse), Box::new(avx))));
    assert!(p.has_feature(&"sse2".to_string()));
    assert!(!p.eval_expr(&CfgExpr::Const(false)));
}

#[test]
fn keys_and_values_must_be_plain() {
    let linux = Triple::from_str("x86_64-unknown-linux-gnu").unwrap();
    assert!(!linux.matches("not(target_os", "windows\")"));
    assert!(!linux.matches("target_os", "linux\" , target_arch = \"x86_64"));
    assert!(!linux.matches("", "linux"));
    assert!(linux.matches("target_os", "linux"));
}

#[test]
fn exact_triple_predicate() {
    let p = Platform::new(Triple::from_str("x86_64-unknown-linux-gnu").unwrap(), vec![]);
    assert!(p.eval_expr(&CfgExpr::Triple("x86_64-unknown-linux-gnu".to_string())));
    assert!(!p.eval_expr(&CfgExpr::Triple("x86_64-pc-windows-msvc".to_string())));
}
