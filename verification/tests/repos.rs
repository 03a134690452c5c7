use pwm::repositories::{
    bootstrap_entry_action, bootstrap_unpack_path, parse_artifact_link, BootstrapAction, Repository,
};
use pwm::utils::{Compression, ETag, Response};

fn fake_gzip(payload: &[u8]) -> Vec<u8> {
    // fixed ten-byte member header, then one stored deflate block
    let mut out = vec![0x1f, 0x8b, 0x08, 0, 0, 0, 0, 0, 0, 0];
    out.push(0x01);
    let len = payload.len() as u16;
    out.extend_from_slice(&len.to_le_bytes());
    out.extend_from_slice(&(!len).to_le_bytes());
    out.extend_from_slice(payload);
    out
}

#[test]
fn repository_names_and_urls() {
    assert_eq!(Repository::Msys.name(), "msys");
    assert_eq!(Repository::Mingw64.name(), "mingw64");
    assert_eq!(Repository::Msys.package_prefix(), "");
    assert_eq!(Repository::Mingw64.package_prefix(), "mingw-w64-x86_64-");
    assert_eq!(Repository::Msys.url(), "https://repo.msys2.org/msys/x86_64/");
    assert_eq!(Repository::Msys.db_url(), "https://repo.msys2.org/msys/x86_64/msys.db");
    assert_eq!(Repository::from("msys"), Some(Repository::Msys));
    assert_eq!(Repository::from("mingw64"), Some(Repository::Mingw64));
    assert_eq!(Repository::from("unknown"), None);
    assert_eq!(Repository::enabled(), vec![Repository::Msys, Repository::Mingw64]);
}

#[test]
fn compression_extensions() {
    assert_eq!(Compression::ZSTD.extension(), "zst");
    assert_eq!(Compression::XZ.extension(), "xz");
    assert_eq!(Compression::GZ.extension(), "gz");
    assert_eq!(Compression::from_extension("zst"), Some(Compression::ZSTD));
    assert_eq!(Compression::from_extension("xz"), Some(Compression::XZ));
    assert_eq!(Compression::from_extension("gz"), Some(Compression::GZ));
    assert_eq!(Compression::from_extension("rar"), None);
}

#[test]
fn gzip_decompression_skips_the_member_header() {
    let payload = b"hello deflate world";
    let data = fake_gzip(payload);
    let out = Compression::GZ.decompress(&data).unwrap();
    assert_eq!(out, payload);
}

#[test]
fn zstd_round_trip_through_the_codec() {
    let body = b"some catalog text";
    let compressed = zstd::encode_all(&body[..], zstd::DEFAULT_COMPRESSION_LEVEL).unwrap();
    let out = Compression::ZSTD.decompress(&compressed).unwrap();
    assert_eq!(out, body);
}

#[test]
fn xz_decompression_through_the_codec() {
    // a minimal xz stream holding the five bytes of "hello"
    let data: Vec<u8> = vec![
        0xfd, 0x37, 0x7a, 0x58, 0x5a, 0x00, 0x00, 0x04, 0xe6, 0xd6, 0xb4, 0x46, 0x02, 0x00, 0x21,
        0x01, 0x16, 0x00, 0x00, 0x00, 0x74, 0x2f, 0xe5, 0xa3, 0x01, 0x00, 0x04, 0x68, 0x65, 0x6c,
        0x6c, 0x6f, 0x00, 0x00, 0x00, 0x00, 0xb1, 0x37, 0xb9, 0xdb, 0xe5, 0xda, 0x1e, 0x9b, 0x00,
        0x01, 0x1d, 0x05, 0xb8, 0x2d, 0x80, 0xaf, 0x1f, 0xb6, 0xf3, 0x7d, 0x01, 0x00, 0x00, 0x00,
        0x00, 0x04, 0x59, 0x5a,
    ];
    let out = Compression::XZ.decompress(&data).unwrap();
    assert_eq!(out, b"hello");
    assert!(Compression::XZ.decompress(b"not an xz stream").is_err());
}

#[test]
fn read_description_parses_a_desc_file() {
    let desc = "%NAME%\nbash\n\n%VERSION%\n5.1-1\n\n%FILENAME%\nbash-5.1-1-x86_64.pkg.tar.zst\n\n%DEPENDS%\nncurses\nsh";
    let package = Repository::Msys.read_description(desc).unwrap();
    assert_eq!(package.name(), "bash");
    assert_eq!(package.version, "5.1-1");
    assert_eq!(package.compression, Some(Compression::ZSTD));
    assert_eq!(package.arch.as_deref(), Some("x86_64"));
    assert_eq!(
        package.dependencies,
        Some(vec!["ncurses".to_string(), "sh".to_string()])
    );
    assert_eq!(
        package.url().unwrap(),
        "https://repo.msys2.org/msys/x86_64/bash-5.1-1-x86_64.pkg.tar.zst"
    );
}

#[test]
fn read_description_skips_incomplete_files() {
    assert!(Repository::Msys.read_description("%NAME%\nbash").is_none());
    assert!(Repository::Msys
        .read_description("%NAME%\nbash\n\n%VERSION%\n5.1-1")
        .is_none());
    let unknown_ext = "%NAME%\nbash\n\n%VERSION%\n5.1-1\n\n%FILENAME%\nbash-5.1-1-x86_64.pkg.tar.rar";
    assert!(Repository::Msys.read_description(unknown_ext).is_none());
}

#[test]
fn read_description_without_depends_means_no_dependencies() {
    let desc = "%NAME%\nbash\n\n%VERSION%\n5.1-1\n\n%FILENAME%\nbash-5.1-1-x86_64.pkg.tar.zst";
    let package = Repository::Msys.read_description(desc).unwrap();
    assert_eq!(package.dependencies, Some(Vec::new()));
}

#[test]
fn remote_packages_reads_a_database() {
    let desc = "%NAME%\nbash\n\n%VERSION%\n5.1-1\n\n%FILENAME%\nbash-5.1-1-x86_64.pkg.tar.zst\n\n%DEPENDS%\nncurses";
    let mut builder = tar::Builder::new(Vec::new());
    let mut header = tar::Header::new_gnu();
    header.set_size(desc.len() as u64);
    header.set_cksum();
    builder
        .append_data(&mut header, "bash-5.1-1/desc", desc.as_bytes())
        .unwrap();
    let mut other = tar::Header::new_gnu();
    other.set_size(4);
    other.set_cksum();
    builder
        .append_data(&mut other, "bash-5.1-1/files", &b"data"[..])
        .unwrap();
    let tar_bytes = builder.into_inner().unwrap();
    let response = Response { etag: ETag { value: "E1".to_string() }, body: fake_gzip(&tar_bytes) };
    let packages = Repository::Msys.remote_packages(response).unwrap();
    assert_eq!(packages.version.repository, Repository::Msys);
    assert_eq!(packages.version.etag.value, "E1");
    assert_eq!(packages.list.len(), 1);
    assert_eq!(packages.list[0].name(), "bash");
    assert_eq!(packages.list[0].version, "5.1-1");
}

#[test]
fn artifact_links_name_their_compression() {
    assert_eq!(
        parse_artifact_link("bash-5.1-1-x86_64.pkg.tar.zst"),
        Some(("bash-5.1-1".to_string(), Compression::ZSTD))
    );
    assert_eq!(
        parse_artifact_link("tzcode-2022a-any.pkg.tar.xz"),
        Some(("tzcode-2022a".to_string(), Compression::XZ))
    );
    assert_eq!(parse_artifact_link("bash-5.1-1-x86_64.pkg.tar.gz"), None);
    assert_eq!(parse_artifact_link("index.html"), None);
}

#[test]
fn pkginfo_dependency_lines() {
    let text = "pkgname = bash\ndepend = ncurses\ndepend = libintl>=0.19\nbuilddate = 1\ndepend = sh";
    assert_eq!(
        pwm::dependencies::pkginfo_dependencies(text),
        vec!["ncurses".to_string(), "libintl".to_string(), "sh".to_string()]
    );
}

#[test]
fn bootstrap_latest_key_picks_the_newest_version() {
    let keys = vec![
        "bash-4.4-1".to_string(),
        "bash-completion-2.11".to_string(),
        "bashdb-5".to_string(),
        "bash-5.1-2".to_string(),
        "vim-9.0".to_string(),
    ];
    assert_eq!(pwm::repositories::bootstrap_latest_key("bash", &keys), Some(3));
    assert_eq!(pwm::repositories::bootstrap_latest_key("vim", &keys), Some(4));
    assert_eq!(pwm::repositories::bootstrap_latest_key("nothere", &keys), None);
    // a key whose suffix does not start with a digit is no candidate
    assert_eq!(pwm::repositories::bootstrap_latest_key("bashdb", &keys), Some(2));
}

#[test]
fn bootstrap_entry_actions() {
    assert_eq!(bootstrap_entry_action(".BUILDINFO"), BootstrapAction::Skip);
    assert_eq!(bootstrap_entry_action(".MTREE"), BootstrapAction::Skip);
    assert_eq!(bootstrap_entry_action(".PKGINFO"), BootstrapAction::ReadPkgInfo);
    assert_eq!(bootstrap_entry_action(".INSTALL"), BootstrapAction::RunInstallScript);
    assert_eq!(bootstrap_entry_action("/etc/passwd"), BootstrapAction::Skip);
    assert_eq!(bootstrap_entry_action("usr/../etc"), BootstrapAction::Skip);
    assert_eq!(bootstrap_entry_action("usr/bin/bash.exe"), BootstrapAction::Unpack);
    assert_eq!(bootstrap_unpack_path("mingw64/bin/gcc.exe"), "usr/bin/gcc.exe");
    assert_eq!(bootstrap_unpack_path("usr/bin/bash.exe"), "usr/bin/bash.exe");
}

#[test]
fn remote_packages_rejects_garbage() {
    let response = Response { etag: ETag { value: "E1".to_string() }, body: b"tiny".to_vec() };
    assert!(Repository::Msys.remote_packages(response).is_err());
}
