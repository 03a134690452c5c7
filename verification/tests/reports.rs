use pwm::commands::{
    list_all_installed_packages, list_installed_packages, package_score, search_results,
};
use pwm::packages::Package;
use pwm::paths;
use pwm::requirements::Requirements;

fn parse_all(lines: &[&str]) -> Vec<Package> {
    lines.iter().map(|l| Package::try_from(l).unwrap()).collect()
}

#[test]
fn installed_report_lists_matched_names() {
    let installed = parse_all(&["msys\tbash\t5.1", "msys\tvim, gvim\t9.0"]);
    let names = vec!["gvim".to_string(), "nothere".to_string(), "bash".to_string()];
    let report = list_installed_packages(&installed, &names);
    assert_eq!(report, vec!["vim 9.0".to_string(), "bash 5.1".to_string()]);
    let report = list_all_installed_packages(&installed);
    assert_eq!(report, vec!["bash 5.1".to_string(), "vim 9.0".to_string()]);
}

#[test]
fn search_scores_follow_the_rules() {
    let exact = Package::try_from("msys\tgrep\t3.8").unwrap();
    let prefixed = Package::try_from("msys\tgrepmail\t1.0").unwrap();
    let lib = Package::try_from("msys\tlibgrep\t1.0").unwrap();
    let inner = Package::try_from("msys\tungrepable\t1.0").unwrap();
    let unrelated = Package::try_from("msys\tvim\t9.0").unwrap();
    let terms = vec!["grep".to_string()];
    assert_eq!(package_score(&exact, &terms), 8);
    assert_eq!(package_score(&prefixed, &terms), 4);
    assert_eq!(package_score(&lib, &terms), 2);
    assert_eq!(package_score(&inner, &terms), 1);
    assert_eq!(package_score(&unrelated, &terms), 0);
    let packages = vec![unrelated, inner, lib, prefixed, exact];
    let hits = search_results(&packages, &terms);
    let names: Vec<&str> = hits.iter().map(|h| h.package.name()).collect();
    assert_eq!(names, vec!["grep", "grepmail", "libgrep", "ungrepable"]);
    let scores: Vec<u16> = hits.iter().map(|h| h.score).collect();
    assert_eq!(scores, vec![8, 4, 2, 1]);
}

#[test]
fn search_sums_scores_over_terms() {
    let package = Package::try_from("msys\tgrep\t3.8").unwrap();
    let terms = vec!["grep".to_string(), "gr".to_string(), "ep".to_string()];
    assert_eq!(package_score(&package, &terms), 8 + 4 + 1);
}

#[test]
fn state_file_paths() {
    assert_eq!(
        paths::get_installed_packages_file_path("root"),
        "root/var/local/packages/installed"
    );
    assert_eq!(
        paths::get_available_packages_file_path("root"),
        "root/var/local/packages/available"
    );
    assert_eq!(
        paths::get_pending_installation_file_path("root"),
        "root/var/local/packages/pending"
    );
    assert_eq!(
        paths::get_installed_packages_backup_file_path("root"),
        "root/var/local/packages/backup"
    );
}

#[test]
fn requirements_hold_each_name_once() {
    let mut requirements = Requirements::new();
    assert!(requirements.is_empty());
    assert!(requirements.add("bash".to_string()));
    assert!(!requirements.add("bash".to_string()));
    requirements.append("coreutils".to_string());
    requirements.append("coreutils".to_string());
    assert!(requirements.add("info".to_string()));
    // list front-to-back: info, bash, coreutils; take draws from the back
    assert_eq!(requirements.take(), Some("coreutils".to_string()));
    assert_eq!(requirements.take(), Some("bash".to_string()));
    assert_eq!(requirements.take(), Some("info".to_string()));
    assert_eq!(requirements.take(), None);
    assert!(requirements.is_empty());
}

#[test]
fn cache_assembles_paths_and_catalogs() {
    let installed = parse_all(&["msys\tbash\t5.1"]);
    let available = parse_all(&["msys\tbash\t5.1", "msys\tvim\t9.0"]);
    let cache = pwm::cache::Cache::assemble("root", installed, available);
    assert_eq!(cache.installed_packages.len(), 1);
    assert_eq!(cache.available_packages.len(), 2);
    assert_eq!(
        cache.available_packages_file_path,
        "root/var/local/packages/available"
    );
    assert_eq!(
        cache.installed_packages_backup_file_path,
        "root/var/local/packages/backup"
    );
}
