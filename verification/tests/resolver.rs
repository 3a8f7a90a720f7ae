use rmpl::manifest::{PackageManifest, WorkspaceManifest};
use rmpl::resolver::{LoadedPackage, ResolvedWorkspace};

fn workspace() -> WorkspaceManifest {
    let text = "workspace:\n  name: w\n  members:\n    - a\n    - b\n    - c\n  dependencies:\n    a: \"0.1\"\n    b: \"0.1\"\n";
    WorkspaceManifest::parse(text, "/w".to_string()).unwrap()
}

fn package(name: &str, deps: &[(&str, &str)]) -> LoadedPackage {
    let mut text = format!("package:\n  name: {}\ndependencies:\n", name);
    for (d, spec) in deps {
        text.push_str(&format!("  {}: {}\n", d, spec));
    }
    LoadedPackage {
        path: format!("/w/{}", name),
        manifest_path: format!("/w/{}/package.yaml", name),
        manifest: PackageManifest::parse(&text).unwrap(),
    }
}

#[test]
fn build_order_puts_dependencies_first() {
    let loaded = vec![
        package("c", &[("a", "workspace"), ("b", "workspace")]),
        package("a", &[("b", "workspace"), ("serde", "1.0")]),
        package("b", &[]),
    ];
    let w = ResolvedWorkspace::resolve(workspace(), loaded).unwrap();
    assert_eq!(w.build_order, vec!["b".to_string(), "a".to_string(), "c".to_string()]);
    let a = w.get_package("a").unwrap();
    assert_eq!(a.dependencies, vec!["b ".to_string(), "serde 1.0".to_string()]);
    assert_eq!(a.path, "/w/a");
    assert_eq!(a.manifest_path, "/w/a/package.yaml");
    assert!(w.get_package("serde").is_none());
    assert_eq!(w.manifest.name, "w");
}

#[test]
fn workspace_dependency_without_declaration_is_dropped() {
    let loaded = vec![package("a", &[("zzz", "workspace")])];
    let w = ResolvedWorkspace::resolve(workspace(), loaded).unwrap();
    assert!(w.get_package("a").unwrap().dependencies.is_empty());
    assert_eq!(w.build_order, vec!["a".to_string()]);
}

#[test]
fn dependency_cycle_is_an_error() {
    let loaded = vec![package("a", &[("b", "workspace")]), package("b", &[("a", "workspace")])];
    let err = ResolvedWorkspace::resolve(workspace(), loaded).unwrap_err();
    assert_eq!(err, "Circular dependency detected: a");
}

#[test]
fn later_package_of_same_name_replaces_earlier() {
    let mut second = package("a", &[]);
    second.path = "/w/other".to_string();
    let loaded = vec![package("a", &[("b", "x")]), second];
    let w = ResolvedWorkspace::resolve(workspace(), loaded).unwrap();
    assert_eq!(w.packages.len(), 1);
    assert_eq!(w.get_package("a").unwrap().path, "/w/other");
    assert!(w.get_package("a").unwrap().dependencies.is_empty());
}

#[test]
fn roots_are_taken_in_name_order() {
    let loaded = vec![package("zeta", &[]), package("alpha", &[]), package("mid", &[])];
    let w = ResolvedWorkspace::resolve(workspace(), loaded).unwrap();
    assert_eq!(w.build_order, vec!["alpha".to_string(), "mid".to_string(), "zeta".to_string()]);
}

#[test]
fn self_dependency_is_a_cycle() {
    let loaded = vec![package("a", &[("a", "1")])];
    let err = ResolvedWorkspace::resolve(workspace(), loaded).unwrap_err();
    assert_eq!(err, "Circular dependency detected: a");
}
