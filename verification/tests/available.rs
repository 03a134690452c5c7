use pwm::available_packages::{
    get_repository_versions_from_file, latest_version, merge_catalogs, repositories_to_sync,
    save_packages, RemoteEtag,
};
use pwm::packages::{Package, Packages};
use pwm::repositories::{Repository, RepositoryVersion};
use pwm::utils::ETag;

fn encode_catalog(text: &str) -> Vec<u8> {
    zstd::encode_all(text.as_bytes(), zstd::DEFAULT_COMPRESSION_LEVEL).unwrap()
}

fn parse_all(lines: &[&str]) -> Vec<Package> {
    lines.iter().map(|l| Package::try_from(l).unwrap()).collect()
}

fn catalog_file1() -> Vec<u8> {
    encode_catalog(
        "msys 1 mingw64 2\n\
         msys\tpackage1\t1.0\n\
         msys\tpackage2\t1.0\tzst\tx86_64\n\
         msys\tpackage3\t1.0.1\tzst\tany\n\
         mingw64\tpackage4\t3.1\n\
         mingw64\tpackage5\t3.1.2\n",
    )
}

fn assert_file1_packages(packages: &[Package]) {
    assert_eq!(packages.len(), 5);
    for line in [
        "msys\tpackage1\t1.0",
        "msys\tpackage2\t1.0\tzst\tx86_64",
        "msys\tpackage3\t1.0.1\tzst\tany",
        "mingw64\tpackage4\t3.1",
        "mingw64\tpackage5\t3.1.2",
    ] {
        let target = Package::try_from(line).unwrap();
        assert!(packages.iter().any(|it| it == &target));
    }
}

#[test]
fn available_packages_read_packages_from_file() {
    let packages = Packages::get_packages_from_file(&catalog_file1()).unwrap();
    assert_file1_packages(&packages);
}

#[test]
fn read_repository_versions_from_file() {
    let versions = get_repository_versions_from_file(b"not a zstd stream at all");
    assert!(versions.is_empty());
    let file2 = encode_catalog("mingw64 3\nmingw64\tpackage4\t3.1\n");
    let versions = get_repository_versions_from_file(&file2);
    assert_eq!(versions.len(), 1);
    assert_eq!(versions[0].repository, Repository::Mingw64);
    assert_eq!(versions[0].etag.value, "3");
    let versions = get_repository_versions_from_file(&catalog_file1());
    assert_eq!(versions.len(), 2);
    assert_eq!(versions[0].repository, Repository::Msys);
    assert_eq!(versions[0].etag.value, "1");
    assert_eq!(versions[1].repository, Repository::Mingw64);
    assert_eq!(versions[1].etag.value, "2");
}

#[test]
fn write_packages_to_file() {
    let all = Packages::get_packages_from_file(&catalog_file1()).unwrap();
    let mut msys_packages = Vec::new();
    let mut mingw64_packages = Vec::new();
    for it in all {
        match it.repository {
            Repository::Msys => msys_packages.push(it),
            Repository::Mingw64 => mingw64_packages.push(it),
        }
    }
    let packages = vec![
        Packages {
            version: RepositoryVersion {
                repository: Repository::Msys,
                etag: ETag { value: "1".to_string() },
            },
            list: msys_packages,
        },
        Packages {
            version: RepositoryVersion {
                repository: Repository::Mingw64,
                etag: ETag { value: "2".to_string() },
            },
            list: mingw64_packages,
        },
    ];
    let bytes = save_packages(&packages).unwrap();
    let versions = get_repository_versions_from_file(&bytes);
    assert_eq!(versions.len(), 2);
    assert_eq!(versions[0].etag.value, "1");
    assert_eq!(versions[1].etag.value, "2");
    let read_back = Packages::get_packages_from_file(&bytes).unwrap();
    assert_file1_packages(&read_back);
}

#[test]
fn latest_version_selection() {
    let packages = parse_all(&[
        "msys\tname\t1.0",
        "msys\tname\t1.2",
        "msys\tother\t0.9",
    ]);
    let latest = latest_version("name", &packages);
    assert!(latest.is_some());
    assert_eq!("1.2", latest.unwrap().version.as_str());
    let latest = latest_version("other", &packages);
    assert!(latest.is_some());
    assert_eq!("0.9", latest.unwrap().version.as_str());
    let latest = latest_version("not_there", &packages);
    assert!(latest.is_none());
}

#[test]
fn latest_version_on_empty_catalog() {
    let packages: Vec<Package> = Vec::new();
    assert!(latest_version("anything", &packages).is_none());
}

#[test]
fn header_only_catalog_yields_empty_set() {
    let bytes = encode_catalog("msys 1 mingw64 2\n");
    let packages = Packages::get_packages_from_file(&bytes).unwrap();
    assert!(packages.is_empty());
}

#[test]
fn sync_skipped_when_all_repos_fresh() {
    let cache_versions = vec![
        RepositoryVersion { etag: ETag { value: "A".to_string() }, repository: Repository::Msys },
        RepositoryVersion {
            etag: ETag { value: "B".to_string() },
            repository: Repository::Mingw64,
        },
    ];
    let remote = vec![
        RemoteEtag { repository: Repository::Msys, etag: Some(ETag { value: "A".to_string() }) },
        RemoteEtag {
            repository: Repository::Mingw64,
            etag: Some(ETag { value: "B".to_string() }),
        },
    ];
    let to_sync = repositories_to_sync(&cache_versions, &remote);
    assert!(to_sync.is_empty());
}

#[test]
fn sync_needed_on_changed_etag_or_cold_cache() {
    let cache_versions = vec![RepositoryVersion {
        etag: ETag { value: "A".to_string() },
        repository: Repository::Msys,
    }];
    let remote = vec![
        RemoteEtag {
            repository: Repository::Msys,
            etag: Some(ETag { value: "A2".to_string() }),
        },
    ];
    let to_sync = repositories_to_sync(&cache_versions, &remote);
    assert_eq!(to_sync, vec![Repository::Msys, Repository::Mingw64]);
    let remote_failed = vec![RemoteEtag { repository: Repository::Msys, etag: None }];
    let to_sync = repositories_to_sync(&cache_versions, &remote_failed);
    assert_eq!(to_sync, vec![Repository::Mingw64]);
}

#[test]
fn merge_after_partial_failure() {
    let cached = parse_all(&["msys\told1\t1.0", "mingw64\told2\t2.0"]);
    let cache_versions = vec![
        RepositoryVersion { etag: ETag { value: "A".to_string() }, repository: Repository::Msys },
        RepositoryVersion {
            etag: ETag { value: "B".to_string() },
            repository: Repository::Mingw64,
        },
    ];
    let synced = vec![Packages {
        version: RepositoryVersion {
            etag: ETag { value: "A2".to_string() },
            repository: Repository::Msys,
        },
        list: parse_all(&["msys\tnew1\t1.1"]),
    }];
    let merged = merge_catalogs(&cached, &cache_versions, &synced);
    assert_eq!(merged.len(), 2);
    assert_eq!(merged[0].version.repository, Repository::Msys);
    assert_eq!(merged[0].version.etag.value, "A2");
    assert_eq!(merged[0].list.len(), 1);
    assert_eq!(merged[0].list[0].name(), "new1");
    assert_eq!(merged[1].version.repository, Repository::Mingw64);
    assert_eq!(merged[1].version.etag.value, "B");
    assert_eq!(merged[1].list.len(), 1);
    assert_eq!(merged[1].list[0].name(), "old2");
    let text_bytes = save_packages(&merged).unwrap();
    let versions = get_repository_versions_from_file(&text_bytes);
    assert_eq!(versions.len(), 2);
    assert_eq!(versions[0].etag.value, "A2");
    assert_eq!(versions[1].etag.value, "B");
    let catalog_text = pwm::available_packages::catalog_text(&merged);
    assert!(catalog_text.starts_with("msys A2 mingw64 B\n"));
}
