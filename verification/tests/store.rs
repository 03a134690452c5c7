use pwm::errors::Error;
use pwm::installed_packages::{append_package, get_packages, replace_package};
use pwm::packages::{Package, Packages};

fn encode_catalog(text: &str) -> Vec<u8> {
    zstd::encode_all(text.as_bytes(), zstd::DEFAULT_COMPRESSION_LEVEL).unwrap()
}

#[test]
fn installed_packages_read_packages_from_file() {
    let bytes = encode_catalog("\nmsys\tpackage, p\tversion\nmsys\tp1\t1.0\nmingw64\tp2\t3");
    let packages = Packages::get_packages_from_file(&bytes).unwrap();
    assert_eq!(packages.len(), 3);
    for line in ["msys\tpackage, p\tversion", "msys\tp1\t1.0", "mingw64\tp2\t3"] {
        let target = Package::try_from(line).unwrap();
        assert!(packages.iter().any(|it| it == &target));
    }
}

#[test]
fn unreadable_installed_catalog_yields_empty_set() {
    assert!(get_packages(b"not a zstd stream").is_empty());
    let malformed = encode_catalog("\nnot a record line");
    assert!(get_packages(&malformed).is_empty());
    match Packages::get_packages_from_file(&encode_catalog("\nnot a record line")) {
        Err(Error::ParseError) => {}
        _ => panic!("expected a parse error"),
    }
}

#[test]
fn append_then_read_contains_the_package() {
    let package = Package::try_from("msys\tbash\t5.1\tzst\tx86_64\t+").unwrap();
    let catalog = "";
    let catalog = append_package(catalog, &package);
    assert_eq!(catalog, "\nmsys\tbash\t5.1\tzst\tx86_64\t+");
    let other = Package::try_from("msys\tvim\t9.0\tzst\tx86_64\t+").unwrap();
    let catalog = append_package(&catalog, &other);
    let bytes = encode_catalog(&catalog);
    let packages = get_packages(&bytes);
    assert_eq!(packages.len(), 2);
    assert!(packages.iter().any(|it| it == &package));
    assert!(packages.iter().any(|it| it == &other));
}

#[test]
fn replace_leaves_exactly_one_record_of_the_name() {
    let old = Package::try_from("msys\tbash\t5.1\tzst\tx86_64\t+").unwrap();
    let other = Package::try_from("msys\tvim\t9.0\tzst\tx86_64\t+").unwrap();
    let catalog = append_package(&append_package("", &old), &other);
    let newer = Package::try_from("msys\tbash\t5.2\tzst\tx86_64\t+").unwrap();
    let replaced = replace_package(&catalog, &newer);
    let packages = get_packages(&encode_catalog(&replaced));
    assert_eq!(packages.len(), 2);
    let bash_records: Vec<_> = packages.iter().filter(|p| p.matches("bash")).collect();
    assert_eq!(bash_records.len(), 1);
    assert_eq!(bash_records[0].version, "5.2");
    assert!(packages.iter().any(|it| it == &other));
}
