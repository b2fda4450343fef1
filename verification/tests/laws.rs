use envsubst::env_context::{is_valid_name, EnvContext, Scope};
use envsubst::run::{outcome, Outcome};
use envsubst::var_map::VarMap;

fn vars(pairs: &[(&str, &str)]) -> VarMap<String> {
    VarMap::from_pairs(pairs.iter().map(|(k, v)| (k.to_string(), v.to_string())).collect())
}

#[test]
fn var_map_insert_then_get() {
    let mut m: VarMap<String> = VarMap::new();
    assert!(m.is_empty());
    m.insert("A".to_string(), "1".to_string());
    m.insert("B".to_string(), "2".to_string());
    m.insert("A".to_string(), "3".to_string());
    assert_eq!(m.get("A").map(String::as_str), Some("3"));
    assert_eq!(m.get("B").map(String::as_str), Some("2"));
    assert_eq!(m.get("C"), None);
    assert_eq!(m.len(), 2);
    assert_eq!(m.keys(), vec!["A".to_string(), "B".to_string()]);
}

#[test]
fn var_map_later_bindings_win() {
    let m = vars(&[("A", "1"), ("A", "2")]);
    assert_eq!(m.get("A").map(String::as_str), Some("2"));
    let mut base = vars(&[("A", "base"), ("B", "base")]);
    base.extend(vars(&[("B", "override"), ("C", "new")]));
    assert_eq!(base.get("A").map(String::as_str), Some("base"));
    assert_eq!(base.get("B").map(String::as_str), Some("override"));
    assert_eq!(base.get("C").map(String::as_str), Some("new"));
    assert_eq!(base.len(), 3);
}

#[test]
fn found_value_is_kept_whatever_the_environment_says_later() {
    let mut ctx = EnvContext::new(VarMap::new(), true);
    assert_eq!(ctx.lookup("X", Some("one".to_string())), Some("one".to_string()));
    assert_eq!(ctx.lookup("X", Some("two".to_string())), Some("one".to_string()));
    assert_eq!(ctx.lookup("X", None), Some("one".to_string()));
    assert!(!ctx.has_unresolved());
}

#[test]
fn missing_name_stays_missing_and_is_counted() {
    let mut ctx = EnvContext::new(VarMap::new(), true);
    assert_eq!(ctx.lookup("Y", None), None);
    assert_eq!(ctx.lookup("Y", Some("late".to_string())), None);
    assert_eq!(ctx.missing_vars().get("Y"), Some(&2));
    let out = ctx.substitute("$Y ${Y} ${Y:-d}", &vars(&[("Y", "now")]));
    assert_eq!(out, "$Y ${Y} d");
    assert_eq!(ctx.missing_vars().get("Y"), Some(&5));
}

#[test]
fn default_syntax_still_counts_as_missing() {
    let mut ctx = EnvContext::new(VarMap::new(), true);
    let out = ctx.substitute("${UNSET:-fallback}", &VarMap::new());
    assert_eq!(out, "fallback");
    assert_eq!(ctx.missing_vars().get("UNSET"), Some(&1));
    assert_eq!(outcome(1, &ctx, true), Outcome::Unresolved);
    assert_eq!(outcome(1, &ctx, false), Outcome::Success);
    assert_eq!(outcome(0, &ctx, true), Outcome::NoFilesMatched);
}

#[test]
fn env_file_mode_never_reads_the_process_environment() {
    let mut ctx = EnvContext::new(vars(&[("A", "file")]), false);
    assert_eq!(ctx.lookup("A", Some("process".to_string())), Some("file".to_string()));
    assert_eq!(ctx.lookup("B", Some("process".to_string())), None);
    let out = ctx.substitute("$A $B", &vars(&[("A", "p"), ("B", "p")]));
    assert_eq!(out, "file $B");
}

#[test]
fn out_of_scope_names_are_neither_substituted_nor_recorded() {
    let scope = Scope::new(vec!["IN".to_string()]).unwrap();
    let mut ctx = EnvContext::scoped(VarMap::new(), true, scope);
    assert_eq!(ctx.lookup("OUT", Some("x".to_string())), None);
    let out = ctx.substitute("$IN $OUT", &vars(&[("OUT", "x")]));
    assert_eq!(out, "$IN $OUT");
    let missing = ctx.missing_vars();
    assert_eq!(missing.len(), 1);
    assert_eq!(missing.get("IN"), Some(&1));
    assert!(!missing.contains_key("OUT"));
}

#[test]
fn shell_syntax_is_expanded_by_shellexpand() {
    let mut ctx = EnvContext::new(vars(&[("A", "a"), ("B_1", "b")]), false);
    let out = ctx.substitute("$A-${B_1}x $$ ${A:-z} $ {A} no vars", &VarMap::new());
    assert_eq!(out, "a-bx $ a $ {A} no vars");
    assert_eq!(ctx.substitute("plain text", &VarMap::new()), "plain text");
}

#[test]
fn scope_names_are_shell_identifiers() {
    assert!(is_valid_name("A_b9"));
    assert!(is_valid_name("_x"));
    assert!(!is_valid_name(""));
    assert!(!is_valid_name("9a"));
    assert!(!is_valid_name("a-b"));
    assert!(!is_valid_name("é"));
    let res = Scope::new(vec!["OK".to_string(), "bad name".to_string(), "1x".to_string()]);
    assert_eq!(res.err(), Some("bad name".to_string()));
    let scope = Scope::new(vec!["OK".to_string()]).unwrap();
    assert!(scope.contains("OK"));
    assert!(!scope.contains("NO"));
}

#[test]
fn unknown_references_stay_as_written_and_are_recorded() {
    let mut ctx = EnvContext::new(VarMap::new(), true);
    assert_eq!(ctx.substitute("a ${X} b", &VarMap::new()), "a ${X} b");
    assert_eq!(ctx.substitute("a $Y.", &VarMap::new()), "a $Y.");
    assert_eq!(ctx.substitute("${Z:-dflt}!", &VarMap::new()), "dflt!");
    let missing = ctx.missing_vars();
    assert_eq!(missing.get("X"), Some(&1));
    assert_eq!(missing.get("Y"), Some(&1));
    assert_eq!(missing.get("Z"), Some(&1));
    assert_eq!(ctx.substitute("a ${X} b", &vars(&[("X", "late")])), "a ${X} b");
    assert_eq!(ctx.missing_vars().get("X"), Some(&2));
}
