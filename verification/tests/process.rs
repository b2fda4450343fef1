use envsubst::env_context::{EnvContext, Scope};
use envsubst::env_file::parse_env_file;
use envsubst::expand::process_file;
use envsubst::run::{outcome, Outcome};
use envsubst::var_map::VarMap;

// The fixtures under xtask/testdata/integration, as text.
const BASE: &str = "xtask/testdata/integration";
const TEMPLATE_PATH: &str = "xtask/testdata/integration/template.yaml";
const TEMPLATE: &str =
    "greeting: ${EV_GREETING}\nservice: ${EV_SERVICE}\nunset: ${EV_UNDEFINED_12345}\n";
const SERVICE_PATH: &str = "xtask/testdata/integration/nested/service.conf";
const SERVICE: &str = "host = ${EV_HOST}\nport = ${EV_PORT}\ndebug = ${EV_DEBUG}\n";

fn vars(pairs: &[(&str, &str)]) -> VarMap<String> {
    VarMap::from_pairs(pairs.iter().map(|(k, v)| (k.to_string(), v.to_string())).collect())
}

#[test]
fn integration_template_to_output_dir() {
    let env = vars(&[("EV_GREETING", "hello"), ("EV_SERVICE", "my-svc")]);
    let mut ctx = EnvContext::new(VarMap::new(), true);
    let out = process_file(TEMPLATE, TEMPLATE_PATH, BASE, Some("/tmp/out"), &mut ctx, &env);
    assert_eq!(out.destination.as_deref(), Some("/tmp/out/template.yaml"));
    assert!(out.text.contains("greeting: hello"));
    assert!(out.text.contains("service: my-svc"));
    assert!(out.text.contains("${EV_UNDEFINED_12345}"), "unset var left as-is");
}

#[test]
fn integration_nested_structure_preserved() {
    let env = vars(&[("EV_HOST", "localhost"), ("EV_PORT", "8080"), ("EV_DEBUG", "true")]);
    let mut ctx = EnvContext::new(VarMap::new(), true);
    let out = process_file(SERVICE, SERVICE_PATH, BASE, Some("/tmp/out"), &mut ctx, &env);
    assert_eq!(out.destination.as_deref(), Some("/tmp/out/nested/service.conf"));
    assert!(out.text.contains("host = localhost"));
    assert!(out.text.contains("port = 8080"));
    assert!(out.text.contains("debug = true"));
}

#[test]
fn pattern_without_directory_mirrors_structure_into_output_dir() {
    let env = vars(&[("EV_HOST", "h"), ("EV_PORT", "1"), ("EV_DEBUG", "d")]);
    let mut ctx = EnvContext::new(VarMap::new(), true);
    let base = envsubst::paths::glob_base("**/*.conf");
    let out = process_file(SERVICE, "nested/service.conf", &base, Some("/out"), &mut ctx, &env);
    assert_eq!(out.destination.as_deref(), Some("/out/nested/service.conf"));
    assert_eq!(out.text, "host = h\nport = 1\ndebug = d\n");
}

#[test]
fn integration_env_file_mode_uses_preloaded() {
    let preloaded = parse_env_file("EV_HOST=db.example.com\nEV_PORT=5432\nEV_DEBUG=false\n");
    let mut ctx = EnvContext::new(preloaded, false);
    let out = process_file(SERVICE, SERVICE_PATH, BASE, Some("/tmp/out"), &mut ctx, &VarMap::new());
    assert_eq!(out.destination.as_deref(), Some("/tmp/out/nested/service.conf"));
    assert!(out.text.contains("host = db.example.com"));
    assert!(out.text.contains("port = 5432"));
    assert!(out.text.contains("debug = false"));
}

#[test]
fn integration_env_file_mode_ignores_real_env() {
    let env = vars(&[("EV_HOST", "real-host"), ("EV_PORT", "9999"), ("EV_DEBUG", "real-debug")]);
    let preloaded = vars(&[("EV_HOST", "file-host"), ("EV_PORT", "1111"), ("EV_DEBUG", "file-debug")]);
    let mut ctx = EnvContext::new(preloaded, false);
    let out = process_file(SERVICE, SERVICE_PATH, BASE, Some("/tmp/out"), &mut ctx, &env);
    assert!(out.text.contains("host = file-host"), "real env must be ignored");
    assert!(out.text.contains("port = 1111"));
}

#[test]
fn integration_missing_vars_tracked() {
    let env = vars(&[("EV_GREETING", "hey"), ("EV_SERVICE", "svc")]);
    let mut ctx = EnvContext::new(VarMap::new(), true);
    process_file(TEMPLATE, TEMPLATE_PATH, BASE, Some("/tmp/out"), &mut ctx, &env);
    assert!(ctx.missing_vars().contains_key("EV_UNDEFINED_12345"));
}

#[test]
fn integration_stdout_when_no_output_dir() {
    let env = vars(&[("EV_GREETING", "hi"), ("EV_SERVICE", "s")]);
    let mut ctx = EnvContext::new(VarMap::new(), true);
    let out = process_file(TEMPLATE, TEMPLATE_PATH, BASE, None, &mut ctx, &env);
    assert!(out.destination.is_none());
    assert_eq!(out.text, "greeting: hi\nservice: s\nunset: ${EV_UNDEFINED_12345}\n");
}

#[test]
fn fail_on_missing_real_env_has_unresolved_vars() {
    let env = vars(&[("EV_GREETING", "hi"), ("EV_SERVICE", "svc")]);
    let mut ctx = EnvContext::new(VarMap::new(), true);
    process_file(TEMPLATE, TEMPLATE_PATH, BASE, Some("/tmp/out"), &mut ctx, &env);
    let missing = ctx.missing_vars();
    assert!(
        missing.contains_key("EV_UNDEFINED_12345"),
        "unresolved var must appear in missing_vars — fail_on_missing would exit 1"
    );
    assert_eq!(missing.len(), 1, "only the truly absent var should be missing");
    assert_eq!(outcome(1, &ctx, true), Outcome::Unresolved);
}

#[test]
fn fail_on_missing_env_file_mode_has_unresolved_vars() {
    let preloaded = parse_env_file("EV_GREETING=hello\nEV_SERVICE=svc\n");
    let mut ctx = EnvContext::new(preloaded, false);
    process_file(TEMPLATE, TEMPLATE_PATH, BASE, Some("/tmp/out"), &mut ctx, &VarMap::new());
    let missing = ctx.missing_vars();
    assert!(
        missing.contains_key("EV_UNDEFINED_12345"),
        "absent var must appear in missing_vars in env-file mode — fail_on_missing would exit 1"
    );
    assert_eq!(missing.len(), 1);
}

#[test]
fn fail_on_missing_all_vars_resolved_means_empty_missing() {
    let env = vars(&[("EV_HOST", "h"), ("EV_PORT", "80"), ("EV_DEBUG", "false")]);
    let mut ctx = EnvContext::new(VarMap::new(), true);
    process_file(SERVICE, SERVICE_PATH, BASE, Some("/tmp/out"), &mut ctx, &env);
    assert!(ctx.missing_vars().is_empty(), "no missing vars — fail_on_missing would not exit");
    assert_eq!(outcome(1, &ctx, true), Outcome::Success);
}

// Scoped substitution

fn scope(names: &[&str]) -> Scope {
    Scope::new(names.iter().map(|n| n.to_string()).collect()).unwrap()
}

#[test]
fn scope_substitutes_selected_variables_only() {
    let env = vars(&[("SCOPED_VALUE", "selected"), ("UNSCOPED_VALUE", "unselected")]);
    let mut ctx = EnvContext::scoped(VarMap::new(), true, scope(&["SCOPED_VALUE"]));
    let out = ctx.substitute("${SCOPED_VALUE}/${UNSCOPED_VALUE}", &env);
    assert_eq!(out, "selected/${UNSCOPED_VALUE}");
}

#[test]
fn scope_is_repeatable_and_supports_the_short_flag() {
    let env = vars(&[("FIRST_VALUE", "first"), ("SECOND_VALUE", "second"), ("UNSCOPED_VALUE", "unscoped")]);
    let mut ctx = EnvContext::scoped(VarMap::new(), true, scope(&["FIRST_VALUE", "SECOND_VALUE"]));
    let out = ctx.substitute("${FIRST_VALUE}/${SECOND_VALUE}/${UNSCOPED_VALUE}", &env);
    assert_eq!(out, "first/second/${UNSCOPED_VALUE}");
}

#[test]
fn fail_on_missing_ignores_out_of_scope_references() {
    let env = vars(&[("SCOPED_VALUE", "selected")]);
    let mut ctx = EnvContext::scoped(VarMap::new(), true, scope(&["SCOPED_VALUE"]));
    let out = ctx.substitute("${SCOPED_VALUE}/${OUT_OF_SCOPE_MISSING}", &env);
    assert_eq!(out, "selected/${OUT_OF_SCOPE_MISSING}");
    assert_eq!(outcome(1, &ctx, true), Outcome::Success);
}

#[test]
fn fail_on_missing_reports_scoped_variables_without_writing_output() {
    let mut ctx = EnvContext::scoped(VarMap::new(), true, scope(&["REQUIRED_VALUE"]));
    let out = process_file("${REQUIRED_VALUE}", "t/template.txt", "t", Some("rendered"), &mut ctx, &VarMap::new());
    assert_eq!(out.destination.as_deref(), Some("rendered/template.txt"));
    assert_eq!(outcome(1, &ctx, true), Outcome::Unresolved);
    assert_eq!(ctx.missing_vars().get("REQUIRED_VALUE"), Some(&1));
}

#[test]
fn scope_uses_env_file_values_without_consulting_process_environment() {
    let env = vars(&[("FROM_FILE", "process-value"), ("OUT_OF_SCOPE", "process-only")]);
    let preloaded = parse_env_file("FROM_FILE=file-value\n");
    let mut ctx = EnvContext::scoped(preloaded, false, scope(&["FROM_FILE"]));
    let out = ctx.substitute("${FROM_FILE}/${OUT_OF_SCOPE}", &env);
    assert_eq!(out, "file-value/${OUT_OF_SCOPE}");
}

#[test]
fn scope_accepts_empty_values() {
    let env = vars(&[("EMPTY_VALUE", "")]);
    let mut ctx = EnvContext::scoped(VarMap::new(), true, scope(&["EMPTY_VALUE"]));
    let out = ctx.substitute("before${EMPTY_VALUE}after", &env);
    assert_eq!(out, "beforeafter");
    assert_eq!(outcome(1, &ctx, true), Outcome::Success);
}

#[test]
fn scope_rejects_invalid_variable_names() {
    let res = Scope::new(vec!["invalid-name".to_string()]);
    assert_eq!(res.err(), Some("invalid-name".to_string()));
}
