use envsubst::paths::{glob_base, output_path};
use std::path::{Component, Path};

/// The same computation written with `std::path`, as a check on the verified
/// path arithmetic; a leading `.` of `base` is a leading part of every
/// relative `file` without a start component of its own.
fn std_output_path(file: &str, base: &str, out_dir: &str) -> String {
    let file = Path::new(file);
    let mut base_comps = Path::new(base).components();
    let file_is_plain_relative = !matches!(
        file.components().next(),
        Some(Component::RootDir) | Some(Component::CurDir)
    );
    let base = if file_is_plain_relative && base_comps.clone().next() == Some(Component::CurDir) {
        base_comps.next();
        base_comps.as_path()
    } else {
        Path::new(base)
    };
    let rel = file
        .strip_prefix(base)
        .unwrap_or_else(|_| file.file_name().map(Path::new).unwrap_or(file));
    Path::new(out_dir).join(rel).to_str().unwrap().to_string()
}

#[test]
fn output_path_mirrors_structure_below_base() {
    assert_eq!(output_path("templates/a/b.yaml", "templates", "/out"), "/out/a/b.yaml");
    assert_eq!(output_path("/in/root.conf", "/in", "/out"), "/out/root.conf");
    assert_eq!(output_path("/in/nested/inner.conf", "/in", "/out/"), "/out/nested/inner.conf");
}

#[test]
fn output_path_mirrors_structure_below_current_directory() {
    // A pattern without a directory part: its base is `.`, and the files it
    // matches keep their directories.
    let base = glob_base("**/*.conf");
    assert_eq!(base, ".");
    assert_eq!(output_path("nested/inner.conf", &base, "/out"), "/out/nested/inner.conf");
    assert_eq!(output_path("root.conf", &base, "/out"), "/out/root.conf");
    assert_eq!(output_path("./nested/inner.conf", &base, "/out"), "/out/nested/inner.conf");
    assert_eq!(output_path("nested/inner.conf", "./nested", "out"), "out/inner.conf");
    assert_eq!(output_path("other/inner.conf", "./nested", "out"), "out/inner.conf");
}

#[test]
fn output_path_falls_back_to_file_name() {
    assert_eq!(output_path("elsewhere/x.txt", "templates", "out"), "out/x.txt");
    assert_eq!(output_path("..", "templates", "out"), "out/..");
}

#[test]
fn output_path_agrees_with_std_path() {
    let files = [
        "a/b/c.txt", "./a/b", "/a/b", "a//b/./c", "a/b/", "a/b/.", "..", ".", "", "a", "/", "x/../y",
        "./", "a/./b/", "//a//b",
    ];
    let bases = [
        "a", "a/b", ".", "", "/", "/a", "./a", "a/", "a/./b", "x", "a/b/c.txt", "//a", "./", "./.", ".//a",
    ];
    let outs = ["out", "out/", "", "/abs"];
    for f in files {
        for b in bases {
            for o in outs {
                assert_eq!(output_path(f, b, o), std_output_path(f, b, o), "{f:?} {b:?} {o:?}");
            }
        }
    }
}
