use envsubst::env_context::EnvContext;
use envsubst::var_map::VarMap;

fn ctx_real() -> EnvContext {
    EnvContext::new(VarMap::new(), true)
}

fn ctx_file(pairs: &[(&str, &str)]) -> EnvContext {
    let pairs = pairs
        .iter()
        .map(|(k, v)| (k.to_string(), v.to_string()))
        .collect();
    EnvContext::new(VarMap::from_pairs(pairs), false)
}

/// A process environment that holds `name` with `value`, or does not hold
/// `name` at all.
fn env_with(name: &str, value: Option<&str>) -> VarMap<String> {
    let mut env = VarMap::new();
    if let Some(v) = value {
        env.insert(name.to_string(), v.to_string());
    }
    env
}

// Real env mode

#[test]
fn real_env_found() {
    let env = env_with("EV_FOUND", Some("hello"));
    assert_eq!(ctx_real().lookup_in("EV_FOUND", &env), Some("hello".to_string()));
}

#[test]
fn real_env_missing_returns_none() {
    let env = env_with("EV_ABSENT", None);
    assert_eq!(ctx_real().lookup_in("EV_ABSENT", &env), None);
}

#[test]
fn real_env_missing_tracked() {
    let env = env_with("EV_MISS", None);
    let mut ctx = ctx_real();
    ctx.lookup_in("EV_MISS", &env);
    assert_eq!(ctx.missing_vars().get("EV_MISS"), Some(&1));
}

#[test]
fn real_env_missing_count_increments() {
    let env = env_with("EV_CNT", None);
    let mut ctx = ctx_real();
    for _ in 0..3 {
        ctx.lookup_in("EV_CNT", &env);
    }
    assert_eq!(ctx.missing_vars().get("EV_CNT"), Some(&3));
}

#[test]
fn real_env_found_var_not_in_missing() {
    let env = env_with("EV_OK", Some("v"));
    let mut ctx = ctx_real();
    ctx.lookup_in("EV_OK", &env);
    assert!(ctx.missing_vars().is_empty());
}

#[test]
fn real_env_cache_survives_removal() {
    let mut ctx = ctx_real();
    ctx.lookup_in("EV_CACHE", &env_with("EV_CACHE", Some("cached")));
    assert_eq!(
        ctx.lookup_in("EV_CACHE", &env_with("EV_CACHE", None)),
        Some("cached".to_string())
    );
    assert!(ctx.missing_vars().is_empty());
}

// Env-file mode (use_real_env = false)

#[test]
fn file_mode_returns_preloaded_value() {
    let env = env_with("EV_FILE", None);
    let mut ctx = ctx_file(&[("EV_FILE", "from-file")]);
    assert_eq!(ctx.lookup_in("EV_FILE", &env), Some("from-file".to_string()));
    assert!(ctx.missing_vars().is_empty());
}

#[test]
fn file_mode_ignores_real_env() {
    let env = env_with("EV_IGNORE", Some("real-value"));
    let mut ctx = ctx_file(&[("EV_IGNORE", "file-value")]);
    // Real env is ignored — file value wins
    assert_eq!(ctx.lookup_in("EV_IGNORE", &env), Some("file-value".to_string()));
}

#[test]
fn file_mode_missing_when_not_in_preloaded() {
    // Real env has the var, but file mode should not see it
    let env = env_with("EV_REAL_ONLY", Some("real"));
    let mut ctx = ctx_file(&[("OTHER", "irrelevant")]);
    assert_eq!(ctx.lookup_in("EV_REAL_ONLY", &env), None);
    assert_eq!(ctx.missing_vars().get("EV_REAL_ONLY"), Some(&1));
}

// Template integration

#[test]
fn template_substitutes_found_var() {
    let env = env_with("EV_T_FOUND", Some("world"));
    let mut ctx = ctx_real();
    let out = ctx.substitute("hello ${EV_T_FOUND}", &env);
    assert_eq!(out, "hello world");
}

#[test]
fn template_leaves_missing_as_literal() {
    let env = env_with("EV_T_MISS", None);
    let mut ctx = ctx_real();
    let out = ctx.substitute("val: ${EV_T_MISS}", &env);
    assert_eq!(out, "val: ${EV_T_MISS}");
    assert_eq!(ctx.missing_vars().get("EV_T_MISS"), Some(&1));
}

#[test]
fn template_file_mode_substitutes_preloaded() {
    let env = env_with("EV_T_FILE", None);
    let mut ctx = ctx_file(&[("EV_T_FILE", "from-dotenv")]);
    let out = ctx.substitute("cfg: ${EV_T_FILE}", &env);
    assert_eq!(out, "cfg: from-dotenv");
}
