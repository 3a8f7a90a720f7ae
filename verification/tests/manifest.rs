use rmpl::manifest::{extract_value, PackageManifest, WorkspaceManifest};

#[test]
fn test_extract_value() {
    assert_eq!(extract_value("name: \"test\""), "test");
    assert_eq!(extract_value("version: 1.0.0"), "1.0.0");
}

#[test]
fn extract_value_edges() {
    assert_eq!(extract_value("no colon"), "");
    assert_eq!(extract_value("url: http://x"), "http");
    assert_eq!(extract_value("key:   \"\"quoted\"\"  "), "quoted");
}

const WORKSPACE: &str = "# demo workspace\nworkspace:\n  name: demo\n  members:\n    - libs/a\n    - \"libs/b\"\n  dependencies:\n    serde: \"1.0\"\nprofiles:\n  release:\n    opt_level: 3\n    lto: true\n  debug:\n    debug: true\n    strip: false\n";

#[test]
fn workspace_manifest_fields() {
    let m = WorkspaceManifest::parse(WORKSPACE, "/ws".to_string()).unwrap();
    assert_eq!(m.root, "/ws");
    assert_eq!(m.name, "demo");
    assert_eq!(m.members, vec!["libs/a".to_string(), "libs/b".to_string()]);
    assert_eq!(m.dependencies.len(), 1);
    assert_eq!(m.dependencies[0].0, "serde");
    // The version is read from the text after the dependency's colon, which has no
    // colon of its own: it is always empty.
    assert_eq!(m.dependencies[0].1.version, "");
    assert!(m.dependencies[0].1.features.is_empty());
    assert_eq!(m.profiles.len(), 2);
    let (name, release) = &m.profiles[0];
    assert_eq!(name, "release");
    assert_eq!(release.target, "target/release");
    assert_eq!((release.opt_level, release.debug, release.lto, release.strip), (3, false, true, false));
    let (name, debug) = &m.profiles[1];
    assert_eq!(name, "debug");
    assert_eq!(debug.target, "target/debug");
    assert_eq!((debug.opt_level, debug.debug, debug.lto, debug.strip), (0, true, false, false));
}

#[test]
fn workspace_manifest_defaults_and_repeats() {
    let m = WorkspaceManifest::parse("", "r".to_string()).unwrap();
    assert_eq!(m.name, "unnamed");
    assert!(m.members.is_empty() && m.dependencies.is_empty() && m.profiles.is_empty());
    let text = "workspace:\n  dependencies:\n    a: x\n    b: y\n    a: z\nprofiles:\n  p:\n    opt_level: +7\n    opt_level: 99999999999\n";
    let m = WorkspaceManifest::parse(text, "r".to_string()).unwrap();
    let names: Vec<&str> = m.dependencies.iter().map(|(k, _)| k.as_str()).collect();
    assert_eq!(names, vec!["a", "b"]);
    assert_eq!(m.profiles.len(), 1);
    assert_eq!(m.profiles[0].1.opt_level, 0);
}

#[test]
fn workspace_members_only_after_members_line() {
    let text = "workspace:\n  - stray\n  members:\n  - kept\nother:\n  - ignored\n";
    let m = WorkspaceManifest::parse(text, "r".to_string()).unwrap();
    assert_eq!(m.members, vec!["kept".to_string()]);
}

const PACKAGE: &str = "package:\n  name: app\n  version: 0.2.0\n  description: \"An app\"\n\nbin:\n  - name: app\n    path: main.rs\n  - name: tool\n    path: tool.rs\ndependencies:\n  mylib: workspace\n  serde: \"1.0\"\n";

#[test]
fn package_manifest_fields() {
    let p = PackageManifest::parse(PACKAGE).unwrap();
    assert_eq!(p.name, "app");
    assert_eq!(p.version, "0.2.0");
    assert_eq!(p.edition, "2021");
    assert_eq!(p.description, Some("An app".to_string()));
    assert_eq!(p.src_dir, "src");
    let bins: Vec<(&str, &str)> = p.bins.iter().map(|b| (b.name.as_str(), b.path.as_str())).collect();
    assert_eq!(bins, vec![("app", "main.rs"), ("tool", "tool.rs")]);
    assert!(p.lib.is_none() && p.tests.is_empty() && p.benches.is_empty());
    assert_eq!(
        p.dependencies,
        vec![("mylib".to_string(), "workspace".to_string()), ("serde".to_string(), "1.0".to_string())]
    );
}

#[test]
fn package_manifest_default_binary() {
    let p = PackageManifest::parse("package:\n  name: lib-only\n  src_dir: source\nbin:\n  - name: nopath\n").unwrap();
    assert_eq!(p.src_dir, "source");
    assert_eq!(p.bins.len(), 1);
    assert_eq!(p.bins[0].name, "lib-only");
    assert_eq!(p.bins[0].path, "src/main.rs");
}

#[test]
fn package_manifest_crlf_lines() {
    let p = PackageManifest::parse("package:\r\n  name: win\r\n  version: 1.2.3\r\n").unwrap();
    assert_eq!(p.name, "win");
    assert_eq!(p.version, "1.2.3");
}

#[test]
fn profiles_are_found_by_name() {
    let m = WorkspaceManifest::parse(WORKSPACE, "/ws".to_string()).unwrap();
    assert_eq!(m.get_profile("release").map(|p| p.opt_level), Some(3));
    assert_eq!(m.get_profile("debug").map(|p| p.target.clone()), Some("target/debug".to_string()));
    assert!(m.get_profile("bench").is_none());
}

#[test]
fn repeated_dependency_keeps_its_place_and_takes_the_new_spec() {
    let p = PackageManifest::parse("dependencies:\n  a: \"1\"\n  b: 2\n  a: 3\n").unwrap();
    assert_eq!(
        p.dependencies,
        vec![("a".to_string(), "3".to_string()), ("b".to_string(), "2".to_string())]
    );
}

#[test]
fn workspace_manifest_flow_forms() {
    let text = "workspace:\n  members: [rmpl, mylib, hello_macro]\n  profiles:\n    debug: { opt-level: 0 }\n    release: { opt-level: 3 }\n";
    let m = WorkspaceManifest::parse(text, "r".to_string()).unwrap();
    assert_eq!(
        m.members,
        vec!["rmpl".to_string(), "mylib".to_string(), "hello_macro".to_string()]
    );
    assert_eq!(m.profiles.len(), 2);
    assert_eq!(m.get_profile("debug").map(|p| p.opt_level), Some(0));
    assert_eq!(m.get_profile("release").map(|p| p.opt_level), Some(3));
    assert_eq!(m.get_profile("release").map(|p| p.target.clone()), Some("target/release".to_string()));
}

#[test]
fn workspace_manifest_flow_items_are_cleaned() {
    let text = "workspace:\n  members: [ \"a\" ,, b, ]\n  profiles:\n    fast: { opt_level: 2, lto: true, strip: true }\n    fast: { debug: true }\n    plain:\n      opt-level: 1\n";
    let m = WorkspaceManifest::parse(text, "r".to_string()).unwrap();
    assert_eq!(m.members, vec!["a".to_string(), "b".to_string()]);
    assert_eq!(m.profiles.len(), 2);
    let fast = m.get_profile("fast").unwrap();
    assert_eq!((fast.opt_level, fast.debug, fast.lto, fast.strip), (2, true, true, true));
    assert_eq!(m.get_profile("plain").map(|p| p.opt_level), Some(1));
}

#[test]
fn blank_and_comment_lines_change_nothing() {
    let dense = "workspace:\n  name: w\n  members:\n    - a\nprofiles:\n  release:\n    opt_level: 3\n";
    let sparse = "\n# top\nworkspace:\n\n  name: w\n   # note\n  members:\n\n    - a\n#\nprofiles:\n  release:\n\n    opt_level: 3\n\n";
    let a = WorkspaceManifest::parse(dense, "r".to_string()).unwrap();
    let b = WorkspaceManifest::parse(sparse, "r".to_string()).unwrap();
    assert_eq!(a.name, b.name);
    assert_eq!(a.members, b.members);
    assert_eq!(a.profiles.len(), b.profiles.len());
    assert_eq!(a.get_profile("release").map(|p| p.opt_level), b.get_profile("release").map(|p| p.opt_level));
}
