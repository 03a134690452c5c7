use pwm::available_packages::latest_version;
use pwm::dependencies::{dependency_name, list};
use pwm::packages::Package;

fn parse_all(lines: &[&str]) -> Vec<Package> {
    lines.iter().map(|l| Package::try_from(l).unwrap()).collect()
}

#[test]
fn dependency_names() {
    let name = dependency_name("test");
    assert_eq!("test", name);
    let name = dependency_name("package=1.0");
    assert_eq!("package", name);
    let name = dependency_name("name>=1.0");
    assert_eq!("name", name);
}

#[test]
fn dependency_name_remaps_sh_to_bash() {
    assert_eq!("bash", dependency_name("sh"));
    assert_eq!("bash", dependency_name("sh>=4"));
}

#[test]
fn dependency_list_with_no_previous_installs() {
    let available_packages = parse_all(&[
        "msys\tpackage1\t1.0\tzst\tx86_64\t+\tpackage2",
        "msys\tpackage2\t1.0\tzst\tx86_64\t+",
    ]);
    let package1 = latest_version("package1", &available_packages);
    assert!(package1.is_some());
    let package1 = package1.unwrap();
    let package2 = latest_version("package2", &available_packages);
    assert!(package2.is_some());
    let package2 = package2.unwrap();
    let empty = Vec::new();
    let roots = vec![Package::try_from("msys\tpackage1\t1.0\tzst\tx86_64\t+\tpackage2").unwrap()];
    let result = list(&roots, &empty, &available_packages);
    assert_eq!(2, result.len());
    let first = result.first().unwrap();
    let last = result.last().unwrap();
    assert_eq!(package2, first);
    assert_eq!(package1, last);
}

#[test]
fn dependency_list_with_previous_installs() {
    let available_packages = parse_all(&[
        "msys\tpackage1\t1.0\tzst\tx86_64\t+\tpackage2",
        "msys\tpackage2\t1.0\tzst\tx86_64\t+",
    ]);
    let package1 = latest_version("package1", &available_packages);
    assert!(package1.is_some());
    let package1 = package1.unwrap();
    let installed_packages =
        vec![Package::try_from("msys\tpackage2\t1.0\tzst\tx86_64\t+").unwrap()];
    let roots = vec![Package::try_from("msys\tpackage1\t1.0\tzst\tx86_64\t+\tpackage2").unwrap()];
    let result = list(&roots, &installed_packages, &available_packages);
    assert_eq!(1, result.len());
    let first = result.first().unwrap();
    assert_eq!(package1, first);
}

#[test]
fn dependency_list_tolerates_cycles() {
    let available_packages = parse_all(&[
        "msys\tlibintl\t1.0\tzst\tx86_64\t+\tlibiconv",
        "msys\tlibiconv\t1.0\tzst\tx86_64\t+\tlibintl",
    ]);
    let empty = Vec::new();
    let roots = vec![available_packages[0].duplicate()];
    let result = list(&roots, &empty, &available_packages);
    assert_eq!(2, result.len());
    for i in 0..result.len() {
        for j in (i + 1)..result.len() {
            assert_ne!(result[i], result[j]);
        }
    }
}
