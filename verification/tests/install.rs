use rmpl::install::{install_dir_for, install_step, shell_config_update, InstallStep};
use rmpl::manifest::WorkspaceManifest;

#[test]
fn path_line_is_appended_once() {
    assert_eq!(
        shell_config_update("alias ll=ls", "/home/u/.rmpl/bin"),
        Some("alias ll=ls\n\n# rmpl binaries\nexport PATH=\"/home/u/.rmpl/bin:$PATH\"\n".to_string())
    );
    assert_eq!(
        shell_config_update("x\n", "/d"),
        Some("x\n\n# rmpl binaries\nexport PATH=\"/d:$PATH\"\n".to_string())
    );
    assert_eq!(shell_config_update("export PATH=\"/d:$PATH\"\n", "/d"), None);
}

#[test]
fn install_steps() {
    assert_eq!(install_step(false, false, false), InstallStep::Missing);
    assert_eq!(install_step(false, true, true), InstallStep::Missing);
    assert_eq!(install_step(true, true, false), InstallStep::Skip);
    assert_eq!(install_step(true, true, true), InstallStep::Copy);
    assert_eq!(install_step(true, false, false), InstallStep::Copy);
}

#[test]
fn install_directories_by_profile() {
    let none = WorkspaceManifest::parse("workspace:\n  name: w\n", "r".to_string()).unwrap();
    assert_eq!(install_dir_for(&none, "release"), "target/release");
    assert_eq!(install_dir_for(&none, "debug"), "target/debug");
    assert_eq!(install_dir_for(&none, "bench"), "target/debug");
    let mut m = WorkspaceManifest::parse(
        "profiles:\n  release:\n    opt_level: 3\n  debug:\n    debug: true\n",
        "r".to_string(),
    )
    .unwrap();
    m.profiles[0].1.target = "out/fast".to_string();
    m.profiles[1].1.target = "out/slow".to_string();
    assert_eq!(install_dir_for(&m, "release"), "out/fast");
    assert_eq!(install_dir_for(&m, "debug"), "out/slow");
    assert_eq!(install_dir_for(&m, "custom"), "out/slow");
}
