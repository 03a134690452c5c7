use pwm::errors::Error;
use pwm::installer::{
    classify_first_pass, install_plan, is_link_entry, missing_packages, parse_pending_marker,
    pending_marker_content, resolve_link_target, update_plan, EntryAction, MarkerKind,
    TarEntryKind,
};
use pwm::packages::Package;
use pwm::utils::Compression;

fn parse_all(lines: &[&str]) -> Vec<Package> {
    lines.iter().map(|l| Package::try_from(l).unwrap()).collect()
}

#[test]
fn pending_marker_round_trip() {
    let package = Package::try_from("msys\tbash\t5.1\tzst\tx86_64\t+").unwrap();
    let content = pending_marker_content(MarkerKind::Install, &package);
    assert_eq!(content, "install\nmsys\tbash\t5.1\tzst\tx86_64\t+");
    assert_eq!(content.lines().count(), 2);
    let (kind, parsed) = parse_pending_marker(&content).unwrap();
    assert_eq!(kind, MarkerKind::Install);
    assert_eq!(parsed, package);
    let content = pending_marker_content(MarkerKind::Update, &package);
    let (kind, parsed) = parse_pending_marker(&content).unwrap();
    assert_eq!(kind, MarkerKind::Update);
    assert_eq!(parsed, package);
}

#[test]
fn pending_marker_rejects_malformed_text() {
    assert!(parse_pending_marker("").is_none());
    assert!(parse_pending_marker("install").is_none());
    assert!(parse_pending_marker("remove\nmsys\tbash\t5.1").is_none());
    assert!(parse_pending_marker("install\nnot a record").is_none());
}

#[test]
fn first_pass_classification() {
    assert_eq!(
        classify_first_pass(".PKGINFO", TarEntryKind::Regular, false),
        EntryAction::Ignore
    );
    assert_eq!(
        classify_first_pass(".INSTALL", TarEntryKind::Regular, false),
        EntryAction::UnpackInstallScript
    );
    assert_eq!(
        classify_first_pass(".INSTALL", TarEntryKind::Regular, true),
        EntryAction::Ignore
    );
    assert_eq!(
        classify_first_pass("/etc/passwd", TarEntryKind::Regular, false),
        EntryAction::Ignore
    );
    assert_eq!(
        classify_first_pass("usr/../../etc", TarEntryKind::Regular, false),
        EntryAction::Ignore
    );
    assert_eq!(
        classify_first_pass("usr/bin", TarEntryKind::Directory, false),
        EntryAction::CreateDirectory
    );
    assert_eq!(
        classify_first_pass("usr/bin/sh", TarEntryKind::Symlink, false),
        EntryAction::Defer
    );
    assert_eq!(
        classify_first_pass("usr/bin/x", TarEntryKind::Regular, false),
        EntryAction::UnpackFile
    );
    assert_eq!(
        classify_first_pass("dev/null", TarEntryKind::Other, false),
        EntryAction::Warn
    );
}

#[test]
fn second_pass_selects_safe_links_only() {
    assert!(is_link_entry("usr/bin/sh", TarEntryKind::Symlink));
    assert!(is_link_entry("usr/bin/sh", TarEntryKind::HardLink));
    assert!(!is_link_entry("usr/bin/sh", TarEntryKind::Regular));
    assert!(!is_link_entry("/usr/bin/sh", TarEntryKind::Symlink));
    assert!(!is_link_entry("usr/../sh", TarEntryKind::Symlink));
    assert!(!is_link_entry(".INSTALL", TarEntryKind::Symlink));
}

#[test]
fn link_target_resolution() {
    assert_eq!(resolve_link_target("root", "/usr/bin/bash"), "root/usr/bin/bash");
    assert_eq!(resolve_link_target("root", "usr/bin/bash"), "root/usr/bin/bash");
}

#[test]
fn missing_packages_skips_installed_and_fails_on_unknown() {
    let available = parse_all(&["msys\tbash\t5.1\tzst\tx86_64\t+", "msys\tinfo\t7\tzst\tx86_64\t+"]);
    let installed = parse_all(&["msys\tbash\t5.1\tzst\tx86_64\t+"]);
    let names = vec!["bash".to_string(), "info".to_string()];
    let missing = missing_packages(&names, &installed, &available).unwrap();
    assert_eq!(missing.len(), 1);
    assert_eq!(missing[0].name(), "info");
    let names = vec!["nothere".to_string()];
    assert!(missing_packages(&names, &installed, &available).is_none());
}

#[test]
fn install_plan_bootstraps_before_targets() {
    let available = parse_all(&[
        "msys\tbash\t5.1\tzst\tx86_64\t+",
        "msys\tinfo\t7\tzst\tx86_64\t+",
        "msys\tcoreutils\t9\tzst\tx86_64\t+",
        "msys\tvim\t9.0\tzst\tx86_64\t+",
    ]);
    let installed = Vec::new();
    let targets = parse_all(&["msys\tvim\t9.0\tzst\tx86_64\t+"]);
    let steps = install_plan(&targets, &installed, &available).unwrap();
    let names: Vec<(String, bool)> = steps
        .iter()
        .map(|s| (s.package.name().to_string(), s.setup))
        .collect();
    assert_eq!(
        names,
        vec![
            ("bash".to_string(), false),
            ("info".to_string(), true),
            ("coreutils".to_string(), true),
            ("info".to_string(), false),
            ("coreutils".to_string(), false),
            ("vim".to_string(), false),
        ]
    );
}

#[test]
fn install_plan_fails_without_bootstrap_packages() {
    let available = parse_all(&["msys\tvim\t9.0\tzst\tx86_64\t+"]);
    let installed = Vec::new();
    let targets = parse_all(&["msys\tvim\t9.0\tzst\tx86_64\t+"]);
    assert!(install_plan(&targets, &installed, &available).is_none());
}

#[test]
fn update_plan_keeps_only_uninstalled_versions() {
    let installed = parse_all(&["msys\tbash\t5.1\tzst\tx86_64\t+"]);
    let targets = parse_all(&[
        "msys\tbash\t5.1\tzst\tx86_64\t+",
        "msys\tbash\t5.2\tzst\tx86_64\t+",
        "msys\tvim\t9.0\tzst\tx86_64\t+",
    ]);
    let plan = update_plan(&targets, &installed);
    assert_eq!(plan.len(), 2);
    assert_eq!(plan[0].version, "5.2");
    assert_eq!(plan[1].name(), "vim");
}

#[test]
fn decompression_error_on_garbage() {
    match Compression::ZSTD.decompress(b"garbage") {
        Err(Error::DecompressionError) => {}
        _ => panic!("expected a decompression error"),
    }
    match Compression::GZ.decompress(b"short") {
        Err(Error::DecompressionError) => {}
        _ => panic!("expected a decompression error"),
    }
}
