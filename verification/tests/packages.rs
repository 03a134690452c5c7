use pwm::packages::{Package, Packages};
use pwm::repositories::Repository;
use pwm::utils::Compression;

#[test]
fn test_parsing_with_dependencies() {
    let package =
        Package::try_from("msys\tname\tversion\tzst\t+\tdep1\tdep2=1\tdep3>3.2\tdep4").unwrap();
    assert_eq!(package.repository, Repository::Msys);
    assert_eq!(package.name(), "name");
    assert_eq!(1, package.names.len());
    assert_eq!(package.version, "version");
    assert!(package.compression.is_some());
    assert_eq!(package.compression.unwrap(), Compression::ZSTD);
    let dependencies = package.dependencies.as_ref().unwrap();
    assert_eq!(
        dependencies.len(),
        4,
        "Expected 4 dependencies but got: {}: {:?}",
        dependencies.len(),
        dependencies
    );
    assert_eq!(dependencies.get(0).unwrap(), "dep1");
    assert_eq!(dependencies.get(1).unwrap(), "dep2=1");
    assert_eq!(dependencies.get(2).unwrap(), "dep3>3.2");
    assert_eq!(dependencies.get(3).unwrap(), "dep4");
    // the "+" marks the dependency list: no architecture, hence no URL
    assert!(package.arch.is_none());
    assert!(package.url().is_none());
}

#[test]
fn test_parsing_with_empty_dependencies() {
    let package = Package::try_from("mingw64\tpackage, package-git\t1.0\txz\t+").unwrap();
    assert_eq!(package.repository, Repository::Mingw64);
    assert_eq!(package.name(), "package");
    assert_eq!(2, package.names.len());
    assert_eq!(package.version, "1.0");
    assert!(package.compression.is_some());
    assert_eq!(package.compression.unwrap(), Compression::XZ);
    let dependencies = package.dependencies.as_ref().unwrap();
    assert!(dependencies.is_empty());
    // the "+" marks the dependency list: no architecture, hence no URL
    assert!(package.arch.is_none());
    assert!(package.url().is_none());
}

#[test]
fn test_parsing_without_dependencies() {
    let package = Package::try_from("msys\tname\tversion\tzst\tany").unwrap();
    assert_eq!(package.repository, Repository::Msys);
    assert_eq!(package.name(), "name");
    assert_eq!(1, package.names.len());
    assert_eq!(package.version, "version");
    assert!(package.compression.is_some());
    assert_eq!(package.compression.unwrap(), Compression::ZSTD);
    assert!(package.dependencies.is_none());
    assert!(package.url().is_some());
    let url = package.url().unwrap();
    assert!(url.starts_with(package.repository.url()));
    assert!(url.ends_with(&format!(
        ".{}.{}",
        "pkg.tar",
        package.compression.unwrap().extension()
    )));
}

#[test]
fn test_parsing_without_compression() {
    let package = Package::try_from("msys\tname\tversion").unwrap();
    assert_eq!(package.repository, Repository::Msys);
    assert_eq!(package.name(), "name");
    assert_eq!(package.version, "version");
    assert!(package.compression.is_none());
    assert!(package.dependencies.is_none());
    assert!(package.url().is_none());
}

#[test]
fn test_formatting_with_dependencies() {
    let repository = Repository::Msys;
    let name = "name".to_string();
    let version = "version".to_string();
    let compression = Compression::ZSTD;
    let arch = "any";
    let compression = Some(compression);
    let dep1 = "dep1".to_string();
    let dep2 = "dep2=1.0".to_string();
    let dep3 = "dep3".to_string();
    let dep4 = "dep4>0".to_string();
    let dep5 = "dep5".to_string();
    let package = Package {
        repository,
        names: vec![name],
        version,
        compression,
        arch: Some(arch.to_string()),
        dependencies: Some(vec![dep1, dep2, dep3, dep4, dep5]),
    };
    assert_eq!(
        &package.to_line(),
        "msys\tname\tversion\tzst\tany\t+\tdep1\tdep2=1.0\tdep3\tdep4>0\tdep5"
    )
}

#[test]
fn test_formatting_without_dependencies() {
    let repository = Repository::Mingw64;
    let name1 = "package".to_string();
    let name2 = "package-git".to_string();
    let version = "1.0".to_string();
    let compression = Compression::XZ;
    let arch = "x86_64";
    let compression = Some(compression);
    let package = Package {
        repository,
        names: vec![name1, name2],
        version,
        compression,
        arch: Some(arch.to_string()),
        dependencies: None,
    };
    assert_eq!(
        &package.to_line(),
        "mingw64\tpackage, package-git\t1.0\txz\tx86_64"
    )
}

#[test]
fn test_cant_parse() {
    assert!(Package::try_from("").is_err());
    assert!(Package::try_from("msys").is_err());
    assert!(Package::try_from("msys\tname").is_err());
    assert!(Package::try_from("msys\tname, name2").is_err());
    assert!(Package::try_from("unknown_repo\tname\t1.0\tzst\tx86_64").is_err());
    assert!(Package::try_from("msys\tname\t-\t1.0\tunknown_ext\tany").is_err());
}

#[test]
fn test_eq() {
    let package = Package::try_from("msys\ta\t1\tzst\tany\t+\td1\td2").unwrap();
    assert_eq!(
        package,
        Package::try_from("mingw64\ta\t1\txz\tx86_64\t+\td1\td2\td3").unwrap()
    );
    assert_eq!(
        package,
        Package::try_from("msys\ta, b\t1\tzst\tx86_64").unwrap()
    );
    assert_eq!(
        package,
        Package::try_from("msys\ta\t1\tzst\tx86_64").unwrap()
    );
    assert_eq!(
        package,
        Package::try_from("msys\ta\t1\tzst\tany\t+").unwrap()
    );
    assert_eq!(
        package,
        Package::try_from("msys\ta\t1\tzst\tx86_64").unwrap()
    );
    assert_eq!(package, Package::try_from("msys\ta\t1\txz\tany").unwrap());
    assert_ne!(
        package,
        Package::try_from("msys\tb\t1\tzst\t+\td1\td2").unwrap()
    );
    assert_ne!(
        package,
        Package::try_from("msys\ta\t2\tzst\t+\td1\td2").unwrap()
    );
}

#[test]
fn read_packages_from_non_existing_file() {
    assert!(Packages::get_packages_from_file(b"this is not a zstd stream").is_err());
}

#[test]
fn format_parse_format_round_trip() {
    let lines = [
        "msys\tname\tversion",
        "msys\tname\tversion\tzst",
        "mingw64\tpackage, package-git\t1.0\txz\tx86_64",
        "msys\ta\t1\tzst\tany\t+",
        "msys\ta\t1\tzst\tany\t+\td1\td2>3",
        "msys\ta\t1\tzst\t+\td1",
    ];
    for line in lines {
        let once = Package::try_from(line).unwrap().to_line();
        assert_eq!(once, line);
        let twice = Package::try_from(&once).unwrap().to_line();
        assert_eq!(twice, once);
    }
}
