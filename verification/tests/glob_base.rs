use envsubst::paths::glob_base;
use std::path::{Path, PathBuf};

fn base(pattern: &str) -> PathBuf {
    PathBuf::from(glob_base(pattern))
}

#[test]
fn glob_base_double_star() {
    assert_eq!(base("templates/**/*.yaml"), PathBuf::from("templates"));
}

#[test]
fn glob_base_no_directory() {
    assert_eq!(base("*.yaml"), PathBuf::from("."));
}

#[test]
fn glob_base_absolute() {
    assert_eq!(base("/etc/conf/*.conf"), PathBuf::from("/etc/conf"));
}

#[test]
fn glob_base_mid_component() {
    assert_eq!(base("conf/file-*.yaml"), PathBuf::from("conf"));
}

#[test]
fn glob_base_no_wildcard() {
    assert_eq!(base("conf/file.yaml"), PathBuf::from("conf"));
}

#[test]
fn glob_base_question_mark() {
    assert_eq!(base("conf/file-?.yaml"), PathBuf::from("conf"));
}

#[test]
fn glob_base_bracket() {
    assert_eq!(base("conf/[abc]*.yaml"), PathBuf::from("conf"));
}

/// The same computation written with `std::path`, as a check on the verified
/// path arithmetic.
fn std_glob_base(pattern: &str) -> String {
    let wildcard = pattern.find(['*', '?', '[']).unwrap_or(pattern.len());
    let prefix = &pattern[..wildcard];
    let trimmed = prefix.trim_end_matches(['/', '\\']);
    if trimmed.is_empty() {
        return ".".to_string();
    }
    let path = Path::new(trimmed);
    if prefix.ends_with('/') || prefix.ends_with('\\') {
        trimmed.to_string()
    } else {
        path.parent()
            .filter(|p| !p.as_os_str().is_empty())
            .unwrap_or(Path::new("."))
            .to_str()
            .unwrap()
            .to_string()
    }
}

#[test]
fn glob_base_agrees_with_std_path() {
    let patterns = [
        "", "*", "a", "a/b", "a/b/c*", "/a", "/", "//x*", "./a", "./a/b*", ".", "..", "../x/*.y",
        "a/./b*", "a/.*", "a//b*", "a/../b?", "./", "a\\b*", "a\\", "/*", "x/[y]", "é/ü*", "a/b/",
        "a/b//*", ".a/b*", "a/..*", "./././a*", "/./a*",
    ];
    for p in patterns {
        assert_eq!(glob_base(p), std_glob_base(p), "pattern {p:?}");
    }
}
