//! The static set of enabled repositories and their versions.

use vstd::prelude::*;

use crate::text::str_eq;
use crate::utils::ETag;

verus! {

/// One of the enabled package repositories.
#[derive(Debug, Clone, Copy, Eq, PartialEq, Structural)]
pub enum Repository {
    Msys,
    Mingw64,
}

/// A repository together with the ETag its database carried when it was
/// last synced.
#[derive(Debug)]
pub struct RepositoryVersion {
    pub etag: ETag,
    pub repository: Repository,
}

/// The mathematical shape of a repository version.
pub struct RepositoryVersionModel {
    pub etag: Seq<char>,
    pub repository: Repository,
}

impl View for RepositoryVersion {
    type V = RepositoryVersionModel;

    open spec fn view(&self) -> RepositoryVersionModel {
        RepositoryVersionModel { etag: self.etag.value@, repository: self.repository }
    }
}

impl DeepView for RepositoryVersion {
    type V = RepositoryVersionModel;

    open spec fn deep_view(&self) -> RepositoryVersionModel {
        self.view()
    }
}

impl RepositoryVersion {
    /// A copy of this version, equal to it.
    pub fn duplicate(&self) -> (r: RepositoryVersion)
        ensures
            r == *self,
    {
        RepositoryVersion { etag: self.etag.duplicate(), repository: self.repository }
    }
}

/// The enabled repositories, in their fixed order.
pub open spec fn enabled_repositories() -> Seq<Repository> {
    seq![Repository::Msys, Repository::Mingw64]
}

impl Repository {
    /// The name of this repository.
    pub open spec fn spec_name(self) -> Seq<char> {
        match self {
            Repository::Msys => "msys"@,
            Repository::Mingw64 => "mingw64"@,
        }
    }

    /// The name of this repository.
    pub fn name(&self) -> (r: &'static str)
        ensures
            r@ == self.spec_name(),
    {
        match self {
            Repository::Msys => "msys",
            Repository::Mingw64 => "mingw64",
        }
    }

    /// The prefix its packages carry in upstream package names.
    pub open spec fn spec_package_prefix(self) -> Seq<char> {
        match self {
            Repository::Msys => ""@,
            Repository::Mingw64 => "mingw-w64-x86_64-"@,
        }
    }

    /// The prefix its packages carry in upstream package names.
    pub fn package_prefix(&self) -> (r: &'static str)
        ensures
            r@ == self.spec_package_prefix(),
    {
        match self {
            Repository::Msys => "",
            Repository::Mingw64 => "mingw-w64-x86_64-",
        }
    }

    /// The base URL of this repository's artifacts.
    pub open spec fn spec_url(self) -> Seq<char> {
        match self {
            Repository::Msys => "https://repo.msys2.org/msys/x86_64/"@,
            Repository::Mingw64 => "https://repo.msys2.org/mingw/x86_64/"@,
        }
    }

    /// The base URL of this repository's artifacts.
    pub fn url(&self) -> (r: &'static str)
        ensures
            r@ == self.spec_url(),
    {
        match self {
            Repository::Msys => "https://repo.msys2.org/msys/x86_64/",
            Repository::Mingw64 => "https://repo.msys2.org/mingw/x86_64/",
        }
    }

    /// The enabled repositories, in their fixed order.
    pub fn enabled() -> (r: Vec<Repository>)
        ensures
            r@ == enabled_repositories(),
    {
        let mut v: Vec<Repository> = Vec::new();
        v.push(Repository::Msys);
        v.push(Repository::Mingw64);
        proof {
            assert(v@ =~= enabled_repositories());
        }
        v
    }

    /// The enabled repository with the given name, if any.
    pub open spec fn spec_from(name: Seq<char>) -> Option<Repository> {
        if name == "msys"@ {
            Some(Repository::Msys)
        } else if name == "mingw64"@ {
            Some(Repository::Mingw64)
        } else {
            None
        }
    }

    /// The enabled repository with the given name, if any.
    pub fn from(name: &str) -> (r: Option<Repository>)
        ensures
            r == Repository::spec_from(name@),
    {
        if str_eq(name, "msys") {
            Some(Repository::Msys)
        } else if str_eq(name, "mingw64") {
            Some(Repository::Mingw64)
        } else {
            None
        }
    }

    /// The URL of this repository's remote database file.
    pub open spec fn spec_db_url(self) -> Seq<char> {
        self.spec_url() + self.spec_name() + ".db"@
    }

    /// The URL of this repository's remote database file.
    pub fn db_url(&self) -> (r: String)
        ensures
            r@ == self.spec_db_url(),
    {
        let mut s = self.url().to_owned();
        s.append(self.name());
        s.append(".db");
        s
    }
}

/// The separator between the sections of a package description.
pub open spec fn nn_sep() -> Seq<char> {
    seq!['\n', '\n']
}

/// The sections of a package description: pieces between blank lines,
/// each split into its lines.
pub open spec fn spec_sections(desc: Seq<char>) -> Seq<Seq<Seq<char>>> {
    crate::text::split_seq(desc, nn_sep()).map_values(
        |sec: Seq<char>| crate::text::split_seq(sec, seq!['\n']),
    )
}

/// The value lines of the first section whose first line is `key`.
pub open spec fn spec_section_values(key: Seq<char>, sections: Seq<Seq<Seq<char>>>) -> Option<
    Seq<Seq<char>>,
>
    decreases sections.len(),
{
    if sections.len() == 0 {
        None
    } else if sections[0].len() >= 1 && sections[0][0] == key {
        Some(sections[0].skip(1))
    } else {
        spec_section_values(key, sections.skip(1))
    }
}

/// The compression named by the artifact filename's extension.
pub open spec fn spec_filename_compression(filename: Seq<char>) -> Option<
    crate::utils::Compression,
> {
    let parts = crate::text::split_seq(filename, seq!['.']);
    if parts.len() >= 2 {
        crate::utils::Compression::spec_from_extension(parts.last())
    } else {
        None
    }
}

/// The architecture inside an artifact filename of the shape
/// `{name}-{version}-{arch}.pkg.tar.{ext}`, if the filename has it.
pub open spec fn spec_filename_arch(
    filename: Seq<char>,
    name: Seq<char>,
    version: Seq<char>,
    ext: Seq<char>,
) -> Option<Seq<char>> {
    let prefix = name + seq!['-'] + version + seq!['-'];
    let suffix = ".pkg.tar."@ + ext;
    if crate::text::spec_starts_with(filename, prefix) && crate::text::spec_ends_with(
        filename,
        suffix,
    ) && prefix.len() + suffix.len() <= filename.len() {
        Some(filename.subrange(prefix.len() as int, filename.len() - suffix.len()))
    } else {
        None
    }
}

/// What a `desc` file describes: a record named by its `%NAME%` section,
/// versioned by `%VERSION%`, with compression and architecture inferred
/// from `%FILENAME%`, and with the `%DEPENDS%` values as dependencies,
/// an absent section meaning none. A description missing a required
/// section, or naming an unknown compression, describes nothing.
pub open spec fn spec_read_description(repo: Repository, desc: Seq<char>) -> Option<
    crate::packages::PackageModel,
> {
    let sections = spec_sections(desc);
    match spec_section_values("%NAME%"@, sections) {
        None => None,
        Some(names) => if names.len() == 0 {
            None
        } else {
            match spec_section_values("%VERSION%"@, sections) {
                None => None,
                Some(versions) => if versions.len() == 0 {
                    None
                } else {
                    match spec_section_values("%FILENAME%"@, sections) {
                        None => None,
                        Some(filenames) => if filenames.len() == 0 {
                            None
                        } else {
                            match spec_filename_compression(filenames[0]) {
                                None => None,
                                Some(c) => Some(
                                    crate::packages::PackageModel {
                                        repository: repo,
                                        names: seq![names[0]],
                                        version: versions[0],
                                        compression: Some(c),
                                        arch: spec_filename_arch(
                                            filenames[0],
                                            names[0],
                                            versions[0],
                                            c.spec_extension(),
                                        ),
                                        dependencies: Some(
                                            match spec_section_values("%DEPENDS%"@, sections) {
                                                Some(ds) => ds,
                                                None => Seq::empty(),
                                            },
                                        ),
                                    },
                                ),
                            }
                        },
                    }
                },
            }
        },
    }
}

/// The sections of a package description, split into lines.
fn split_sections(desc: &str) -> (r: Vec<Vec<String>>)
    ensures
        r.deep_view() == spec_sections(desc@),
{
    proof {
        reveal_strlit("\n\n");
        reveal_strlit("\n");
        assert(("\n\n")@ =~= nn_sep());
        assert(("\n")@ =~= seq!['\n']);
    }
    let raw = crate::text::split_str(desc, "\n\n");
    let ghost graw = raw.deep_view();
    let mut out: Vec<Vec<String>> = Vec::new();
    let mut i: usize = 0;
    proof {
        assert(out.deep_view() =~= graw.take(0).map_values(
            |sec: Seq<char>| crate::text::split_seq(sec, seq!['\n']),
        ));
    }
    while i < raw.len()
        invariant
            i <= graw.len(),
            graw.len() == raw@.len(),
            graw == raw.deep_view(),
            ("\n")@ == seq!['\n'],
            out.deep_view() == graw.take(i as int).map_values(
                |sec: Seq<char>| crate::text::split_seq(sec, seq!['\n']),
            ),
        decreases raw@.len() - i,
    {
        let ghost prev = out.deep_view();
        out.push(crate::text::split_str(raw[i].as_str(), "\n"));
        proof {
            assert(out.deep_view() =~= prev.push(
                crate::text::split_seq(graw[i as int], seq!['\n']),
            ));
            assert(graw.take(i + 1).map_values(
                |sec: Seq<char>| crate::text::split_seq(sec, seq!['\n']),
            ) =~= graw.take(i as int).map_values(
                |sec: Seq<char>| crate::text::split_seq(sec, seq!['\n']),
            ).push(crate::text::split_seq(graw[i as int], seq!['\n'])));
        }
        i = i + 1;
    }
    proof {
        assert(graw.take(graw.len() as int) =~= graw);
        assert(out.deep_view() =~= spec_sections(desc@));
    }
    out
}

/// The value lines of the first section whose first line is `key`.
fn section_values(key: &str, sections: &Vec<Vec<String>>) -> (r: Option<Vec<String>>)
    ensures
        match r {
            Some(v) => spec_section_values(key@, sections.deep_view()) == Some(v.deep_view()),
            None => spec_section_values(key@, sections.deep_view()) is None,
        },
{
    let ghost gsec = sections.deep_view();
    let mut i: usize = 0;
    proof {
        assert(gsec.skip(0) =~= gsec);
    }
    while i < sections.len()
        invariant
            i <= gsec.len(),
            gsec.len() == sections@.len(),
            gsec == sections.deep_view(),
            spec_section_values(key@, gsec) == spec_section_values(key@, gsec.skip(i as int)),
        decreases sections@.len() - i,
    {
        proof {
            assert(gsec.skip(i as int)[0] == gsec[i as int]);
            assert(gsec.skip(i as int).skip(1) =~= gsec.skip(i + 1));
        }
        let section = &sections[i];
        if section.len() >= 1 && crate::text::str_eq(section[0].as_str(), key) {
            let mut values: Vec<String> = Vec::new();
            proof {
                assert(values.deep_view() =~= gsec[i as int].subrange(1, 1));
            }
            let mut j: usize = 1;
            while j < section.len()
                invariant
                    1 <= j <= gsec[i as int].len(),
                    i < gsec.len(),
                    gsec.len() == sections@.len(),
                    gsec == sections.deep_view(),
                    section == &sections[i as int],
                    gsec[i as int].len() == section@.len(),
                    gsec[i as int] == section.deep_view(),
                    values.deep_view() == gsec[i as int].subrange(1, j as int),
                decreases section@.len() - j,
            {
                let ghost prev = values.deep_view();
                values.push(section[j].clone());
                proof {
                    assert(values.deep_view() =~= prev.push(gsec[i as int][j as int]));
                    assert(gsec[i as int].subrange(1, j + 1) =~= gsec[i as int].subrange(
                        1,
                        j as int,
                    ).push(gsec[i as int][j as int]));
                }
                j = j + 1;
            }
            proof {
                assert(values.deep_view() =~= gsec[i as int].skip(1));
            }
            return Some(values);
        }
        i = i + 1;
    }
    proof {
        assert(gsec.skip(i as int).len() == 0);
    }
    None
}

/// What the entries of an in-memory tar stream are, each one's path and
/// contents, or nothing where the stream cannot be read.
pub uninterp spec fn tar_items_of(data: Seq<u8>) -> Option<Seq<(Seq<char>, Seq<u8>)>>;

/// Relies on tar::Archive over a byte slice: the entries, their paths and
/// their contents are a function of the stream's bytes alone, and reading
/// fails exactly where the library cannot list the entries.
#[verifier::external_body]
fn tar_entry_list(data: &[u8]) -> (r: Option<Vec<(String, Vec<u8>)>>)
    ensures
        match r {
            Some(v) => tar_items_of(data@) is Some && tar_items_of(data@)->0.len() == v@.len() && (
            forall|i: int|
                0 <= i < v@.len() ==> tar_items_of(data@)->0[i] == (
                    (#[trigger] v@[i]).0@,
                    v@[i].1@,
                )),
            None => tar_items_of(data@) is None,
        },
{
    let mut archive = tar::Archive::new(data);
    let entries = match archive.entries() {
        Ok(e) => e,
        Err(_) => return None,
    };
    let mut out: Vec<(String, Vec<u8>)> = Vec::new();
    for entry in entries {
        if let Ok(mut e) = entry {
            let path = String::from_utf8_lossy(&e.path_bytes()).to_string();
            let mut buf: Vec<u8> = Vec::new();
            if std::io::Read::read_to_end(&mut e, &mut buf).is_ok() { out.push((path, buf)); }
        }
    }
    Some(out)
}

impl Repository {
    /// What a `desc` file of this repository describes, if anything.
    pub fn read_description(&self, desc: &str) -> (r: Option<crate::packages::Package>)
        ensures
            match r {
                Some(p) => spec_read_description(*self, desc@) == Some(p@),
                None => spec_read_description(*self, desc@) is None,
            },
    {
        proof {
            reveal_strlit("%NAME%");
            reveal_strlit("%VERSION%");
            reveal_strlit("%FILENAME%");
            reveal_strlit("%DEPENDS%");
            reveal_strlit(".");
            reveal_strlit("-");
            reveal_strlit(".pkg.tar.");
            assert((".")@ =~= seq!['.']);
            assert(("-")@ =~= seq!['-']);
        }
        let sections = split_sections(desc);
        let names = match section_values("%NAME%", &sections) {
            Some(v) => v,
            None => {
                return None;
            },
        };
        if names.len() == 0 {
            return None;
        }
        let versions = match section_values("%VERSION%", &sections) {
            Some(v) => v,
            None => {
                return None;
            },
        };
        if versions.len() == 0 {
            return None;
        }
        let filenames = match section_values("%FILENAME%", &sections) {
            Some(v) => v,
            None => {
                return None;
            },
        };
        if filenames.len() == 0 {
            return None;
        }
        let filename = &filenames[0];
        let parts = crate::text::split_str(filename.as_str(), ".");
        let compression = if parts.len() >= 2 {
            proof {
                assert(parts.deep_view().last() == parts@[parts@.len() - 1]@);
            }
            match crate::utils::Compression::from_extension(parts[parts.len() - 1].as_str()) {
                Some(c) => c,
                None => {
                    return None;
                },
            }
        } else {
            return None;
        };
        let dependencies = match section_values("%DEPENDS%", &sections) {
            Some(v) => v,
            None => Vec::new(),
        };
        let mut prefix = names[0].clone();
        prefix.append("-");
        prefix.append(versions[0].as_str());
        prefix.append("-");
        let mut suffix = ".pkg.tar.".to_owned();
        suffix.append(compression.extension());
        let plen = prefix.as_str().unicode_len();
        let slen = suffix.as_str().unicode_len();
        let flen = filename.as_str().unicode_len();
        let arch: Option<String> = if crate::text::starts_with_str(
            filename.as_str(),
            prefix.as_str(),
        ) && crate::text::ends_with_str(filename.as_str(), suffix.as_str()) && plen <= flen && slen
            <= flen - plen {
            Some(filename.as_str().substring_char(plen, flen - slen).to_owned())
        } else {
            None
        };
        let mut name_vec: Vec<String> = Vec::new();
        name_vec.push(names[0].clone());
        let p = crate::packages::Package {
            repository: *self,
            names: name_vec,
            version: versions[0].clone(),
            compression: Some(compression),
            arch,
            dependencies: Some(dependencies),
        };
        proof {
            assert(p@.names =~= seq![names.deep_view()[0]]);
            assert(p@.arch =~= spec_filename_arch(
                filenames.deep_view()[0],
                names.deep_view()[0],
                versions.deep_view()[0],
                compression.spec_extension(),
            ));
            assert(p@.dependencies =~= Some(
                match spec_section_values("%DEPENDS%"@, sections.deep_view()) {
                    Some(ds) => ds,
                    None => Seq::<Seq<char>>::empty(),
                },
            ));
            assert(spec_read_description(*self, desc@) == Some(p@));
        }
        Some(p)
    }
}

/// The records that a repository database's tar entries describe: for
/// each entry whose path ends in `/desc` and whose contents decode as
/// UTF-8, what the description describes, in entry order.
pub open spec fn spec_db_packages(repo: Repository, items: Seq<(Seq<char>, Seq<u8>)>) -> Seq<
    crate::packages::PackageModel,
>
    decreases items.len(),
{
    if items.len() == 0 {
        Seq::empty()
    } else {
        let head: Seq<crate::packages::PackageModel> = if crate::text::spec_ends_with(
            items[0].0,
            "/desc"@,
        ) {
            if vstd::utf8::valid_utf8(items[0].1) {
                match spec_read_description(repo, vstd::utf8::decode_utf8(items[0].1)) {
                    Some(p) => seq![p],
                    None => Seq::empty(),
                }
            } else {
                Seq::empty()
            }
        } else {
            Seq::empty()
        };
        head + spec_db_packages(repo, items.skip(1))
    }
}

impl Repository {
    /// The packages that a downloaded repository database holds: the
    /// gzipped tar's `desc` files, parsed, under the download's ETag.
    /// Fails with `DecompressionError` exactly where the body cannot be
    /// decompressed or its entries cannot be listed.
    pub fn remote_packages(&self, response: crate::utils::Response) -> (r: Result<
        crate::packages::Packages,
        crate::errors::Error,
    >)
        ensures
            match r {
                Ok(ps) => {
                    &&& crate::utils::decoded_of(
                        crate::utils::Compression::GZ,
                        response.body@,
                    ) is Some
                    &&& tar_items_of(
                        crate::utils::decoded_of(
                            crate::utils::Compression::GZ,
                            response.body@,
                        )->0,
                    ) is Some
                    &&& ps@.list == spec_db_packages(
                        *self,
                        tar_items_of(
                            crate::utils::decoded_of(
                                crate::utils::Compression::GZ,
                                response.body@,
                            )->0,
                        )->0,
                    )
                    &&& ps@.version == RepositoryVersionModel {
                        etag: response.etag.value@,
                        repository: *self,
                    }
                },
                Err(e) => e == crate::errors::Error::DecompressionError && (crate::utils::decoded_of(
                    crate::utils::Compression::GZ,
                    response.body@,
                ) is None || tar_items_of(
                    crate::utils::decoded_of(crate::utils::Compression::GZ, response.body@)->0,
                ) is None),
            },
    {
        let data = match crate::utils::Compression::GZ.decompress(response.body.as_slice()) {
            Ok(d) => d,
            Err(e) => {
                return Err(e);
            },
        };
        let items = match tar_entry_list(data.as_slice()) {
            Some(v) => v,
            None => {
                return Err(crate::errors::Error::DecompressionError);
            },
        };
        let ghost gitems = tar_items_of(data@)->0;
        proof {
            reveal_strlit("/desc");
        }
        let mut list: Vec<crate::packages::Package> = Vec::new();
        let mut i: usize = 0;
        proof {
            assert(gitems.skip(0) =~= gitems);
            assert(list.deep_view() + spec_db_packages(*self, gitems.skip(0)) =~= spec_db_packages(
                *self,
                gitems,
            ));
        }
        while i < items.len()
            invariant
                i <= gitems.len(),
                gitems.len() == items@.len(),
                forall|k: int|
                    0 <= k < items@.len() ==> gitems[k] == ((#[trigger] items@[k]).0@, items@[k].1@),
                spec_db_packages(*self, gitems) == list.deep_view() + spec_db_packages(
                    *self,
                    gitems.skip(i as int),
                ),
            decreases items@.len() - i,
        {
            let ghost prev = list.deep_view();
            proof {
                assert(gitems.skip(i as int)[0] == gitems[i as int]);
                assert(gitems.skip(i as int).skip(1) =~= gitems.skip(i + 1));
            }
            if crate::text::ends_with_str(items[i].0.as_str(), "/desc") {
                match crate::utils::bytes_to_string(clone_bytes(&items[i].1)) {
                    Some(desc) => {
                        match self.read_description(desc.as_str()) {
                            Some(p) => {
                                let ghost gp = p@;
                                list.push(p);
                                proof {
                                    assert(list.deep_view() =~= prev.push(gp));
                                    assert(prev + (seq![gp] + spec_db_packages(
                                        *self,
                                        gitems.skip(i + 1),
                                    )) =~= list.deep_view() + spec_db_packages(
                                        *self,
                                        gitems.skip(i + 1),
                                    ));
                                }
                            },
                            None => {
                                proof {
                                    assert(Seq::<crate::packages::PackageModel>::empty()
                                        + spec_db_packages(*self, gitems.skip(i + 1))
                                        =~= spec_db_packages(*self, gitems.skip(i + 1)));
                                }
                            },
                        }
                    },
                    None => {
                        proof {
                            assert(Seq::<crate::packages::PackageModel>::empty() + spec_db_packages(
                                *self,
                                gitems.skip(i + 1),
                            ) =~= spec_db_packages(*self, gitems.skip(i + 1)));
                        }
                    },
                }
            } else {
                proof {
                    assert(Seq::<crate::packages::PackageModel>::empty() + spec_db_packages(
                        *self,
                        gitems.skip(i + 1),
                    ) =~= spec_db_packages(*self, gitems.skip(i + 1)));
                }
            }
            i = i + 1;
        }
        proof {
            assert(gitems.skip(gitems.len() as int).len() == 0);
            assert(spec_db_packages(*self, gitems.skip(gitems.len() as int)) =~= Seq::<
                crate::packages::PackageModel,
            >::empty());
            assert(list.deep_view() + Seq::<crate::packages::PackageModel>::empty()
                =~= list.deep_view());
        }
        Ok(crate::packages::Packages { version: RepositoryVersion { etag: response.etag, repository: *self }, list })
    }
}

/// A copy of a byte vector, with the same bytes.
fn clone_bytes(v: &Vec<u8>) -> (r: Vec<u8>)
    ensures
        r@ == v@,
{
    let r = v.clone();
    proof {
        assert forall|i: int| 0 <= i < v@.len() implies r@[i] == v@[i] by {
            assert(cloned(v@[i], r@[i]));
        }
        assert(r@ =~= v@);
    }
    r
}

/// What an artifact link's text names: for a filename of the shape
/// `{name}-{x86_64|any}.pkg.tar.{xz|zst}`, the name part and the
/// compression; nothing for any other text.
pub open spec fn spec_artifact_link(text: Seq<char>) -> Option<(Seq<char>, crate::utils::Compression)> {
    if crate::text::spec_ends_with(text, "-x86_64.pkg.tar.zst"@) {
        Some((text.take(text.len() - "-x86_64.pkg.tar.zst"@.len()), crate::utils::Compression::ZSTD))
    } else if crate::text::spec_ends_with(text, "-any.pkg.tar.zst"@) {
        Some((text.take(text.len() - "-any.pkg.tar.zst"@.len()), crate::utils::Compression::ZSTD))
    } else if crate::text::spec_ends_with(text, "-x86_64.pkg.tar.xz"@) {
        Some((text.take(text.len() - "-x86_64.pkg.tar.xz"@.len()), crate::utils::Compression::XZ))
    } else if crate::text::spec_ends_with(text, "-any.pkg.tar.xz"@) {
        Some((text.take(text.len() - "-any.pkg.tar.xz"@.len()), crate::utils::Compression::XZ))
    } else {
        None
    }
}

/// What an artifact link's text names, if it has an artifact's shape.
pub fn parse_artifact_link(text: &str) -> (r: Option<(String, crate::utils::Compression)>)
    ensures
        match r {
            Some(pair) => spec_artifact_link(text@) == Some((pair.0@, pair.1)),
            None => spec_artifact_link(text@) is None,
        },
{
    proof {
        reveal_strlit("-x86_64.pkg.tar.zst");
        reveal_strlit("-any.pkg.tar.zst");
        reveal_strlit("-x86_64.pkg.tar.xz");
        reveal_strlit("-any.pkg.tar.xz");
    }
    let n = text.unicode_len();
    if crate::text::ends_with_str(text, "-x86_64.pkg.tar.zst") {
        let cut = n - "-x86_64.pkg.tar.zst".unicode_len();
        Some((text.substring_char(0, cut).to_owned(), crate::utils::Compression::ZSTD))
    } else if crate::text::ends_with_str(text, "-any.pkg.tar.zst") {
        let cut = n - "-any.pkg.tar.zst".unicode_len();
        Some((text.substring_char(0, cut).to_owned(), crate::utils::Compression::ZSTD))
    } else if crate::text::ends_with_str(text, "-x86_64.pkg.tar.xz") {
        let cut = n - "-x86_64.pkg.tar.xz".unicode_len();
        Some((text.substring_char(0, cut).to_owned(), crate::utils::Compression::XZ))
    } else if crate::text::ends_with_str(text, "-any.pkg.tar.xz") {
        let cut = n - "-any.pkg.tar.xz".unicode_len();
        Some((text.substring_char(0, cut).to_owned(), crate::utils::Compression::XZ))
    } else {
        None
    }
}

/// An ASCII decimal digit.
pub open spec fn spec_ascii_digit(c: char) -> bool {
    48 <= c as u32 <= 57
}

/// Whether the listing key names an artifact of the package: it starts
/// with the name and a dash, and a version beginning with a digit
/// follows.
pub open spec fn spec_version_candidate(key: Seq<char>, name: Seq<char>) -> bool {
    &&& crate::text::spec_starts_with(key, name + seq!['-'])
    &&& key.len() > name.len() + 1
    &&& spec_ascii_digit(key[name.len() as int + 1])
}

/// The version part of a candidate listing key.
pub open spec fn spec_key_version(key: Seq<char>, name: Seq<char>) -> Seq<char> {
    key.skip(name.len() as int + 1)
}

/// The index `bootstrap_latest_key` selects: among the candidate keys of
/// the name, the one with the greatest version, the last of equals.
pub open spec fn spec_bootstrap_key(keys: Seq<Seq<char>>, name: Seq<char>) -> Option<int>
    decreases keys.len(),
{
    if keys.len() == 0 {
        None
    } else {
        let rest = spec_bootstrap_key(keys.drop_last(), name);
        if spec_version_candidate(keys.last(), name) {
            match rest {
                None => Some(keys.len() - 1),
                Some(j) => if crate::text::spec_str_le(
                    spec_key_version(keys[j], name),
                    spec_key_version(keys.last(), name),
                ) {
                    Some(keys.len() - 1)
                } else {
                    Some(j)
                },
            }
        } else {
            rest
        }
    }
}

/// The listing key of the package's newest artifact: among the keys of
/// the shape `{name}-{version}` with the version starting in a digit,
/// the one with the greatest version, the last of equals.
pub fn bootstrap_latest_key(name: &str, keys: &Vec<String>) -> (r: Option<usize>)
    requires
        name@.len() < usize::MAX,
    ensures
        match (r, spec_bootstrap_key(keys.deep_view(), name@)) {
            (Some(k), Some(i)) => k as int == i && 0 <= i < keys@.len(),
            (None, None) => true,
            _ => false,
        },
{
    proof {
        reveal_strlit("-");
        assert(("-")@ =~= seq!['-']);
    }
    let ghost gkeys = keys.deep_view();
    let mut prefix = name.to_owned();
    prefix.append("-");
    let plen = name.unicode_len() + 1;
    let mut best: Option<usize> = None;
    let mut i: usize = 0;
    proof {
        assert(gkeys.take(0) =~= Seq::<Seq<char>>::empty());
    }
    while i < keys.len()
        invariant
            i <= gkeys.len(),
            gkeys.len() == keys@.len(),
            gkeys == keys.deep_view(),
            prefix@ == name@ + seq!['-'],
            plen == name@.len() + 1,
            match best {
                Some(b) => spec_bootstrap_key(gkeys.take(i as int), name@) == Some(b as int) && b
                    < i && spec_version_candidate(gkeys[b as int], name@),
                None => spec_bootstrap_key(gkeys.take(i as int), name@) is None,
            },
        decreases keys@.len() - i,
    {
        proof {
            assert(gkeys[i as int] == keys@[i as int]@);
            assert(gkeys.take(i + 1).drop_last() =~= gkeys.take(i as int));
            assert(gkeys.take(i + 1).last() == gkeys[i as int]);
            assert forall|j: int| 0 <= j < i + 1 implies gkeys.take(i + 1)[j] == gkeys[j] by {}
        }
        let key = &keys[i];
        let klen = key.as_str().unicode_len();
        let candidate = crate::text::starts_with_str(key.as_str(), prefix.as_str()) && klen > plen
            && {
            let c = key.as_str().get_char(plen);
            let u = c as u32;
            48 <= u && u <= 57
        };
        if candidate {
            proof {
                assert(spec_version_candidate(gkeys[i as int], name@));
            }
            match best {
                None => {
                    best = Some(i);
                },
                Some(b) => {
                    let bkey = &keys[b];
                    let bver = bkey.as_str().substring_char(plen, bkey.as_str().unicode_len());
                    let iver = key.as_str().substring_char(plen, klen);
                    proof {
                        assert(bver@ =~= spec_key_version(gkeys[b as int], name@));
                        assert(iver@ =~= spec_key_version(gkeys[i as int], name@));
                    }
                    if crate::text::str_le(bver, iver) {
                        best = Some(i);
                    }
                },
            }
        }
        i = i + 1;
    }
    proof {
        assert(gkeys.take(gkeys.len() as int) =~= gkeys);
    }
    best
}

/// What the bootstrap extraction does with one archive entry.
#[derive(Debug, Clone, Copy, Eq, PartialEq, Structural)]
pub enum BootstrapAction {
    Skip,
    ReadPkgInfo,
    RunInstallScript,
    Unpack,
}

/// What the bootstrap extraction does with an entry: metadata is
/// skipped, the package information is read for its dependencies, the
/// install script is run, unsafe paths are skipped, and everything else
/// is unpacked.
pub open spec fn spec_bootstrap_action(path: Seq<char>) -> BootstrapAction {
    if crate::text::spec_starts_with(path, "/"@) {
        BootstrapAction::Skip
    } else if path == ".BUILDINFO"@ || path == ".MTREE"@ {
        BootstrapAction::Skip
    } else if path == ".PKGINFO"@ {
        BootstrapAction::ReadPkgInfo
    } else if path == ".INSTALL"@ {
        BootstrapAction::RunInstallScript
    } else if crate::text::spec_contains(path, ".."@) {
        BootstrapAction::Skip
    } else {
        BootstrapAction::Unpack
    }
}

/// What the bootstrap extraction does with an entry.
pub fn bootstrap_entry_action(path: &str) -> (r: BootstrapAction)
    ensures
        r == spec_bootstrap_action(path@),
{
    proof {
        reveal_strlit("/");
        reveal_strlit("..");
        reveal_strlit(".BUILDINFO");
        reveal_strlit(".MTREE");
        reveal_strlit(".PKGINFO");
        reveal_strlit(".INSTALL");
        assert(("..")@.len() == 2);
    }
    if crate::text::starts_with_str(path, "/") {
        BootstrapAction::Skip
    } else if crate::text::str_eq(path, ".BUILDINFO") || crate::text::str_eq(path, ".MTREE") {
        BootstrapAction::Skip
    } else if crate::text::str_eq(path, ".PKGINFO") {
        BootstrapAction::ReadPkgInfo
    } else if crate::text::str_eq(path, ".INSTALL") {
        BootstrapAction::RunInstallScript
    } else if crate::text::contains_str(path, "..") {
        BootstrapAction::Skip
    } else {
        BootstrapAction::Unpack
    }
}

/// Where the bootstrap unpacks an entry: a path under `mingw64/` moves
/// under `usr/`, every other path stays.
pub open spec fn spec_bootstrap_unpack_path(path: Seq<char>) -> Seq<char> {
    if crate::text::spec_starts_with(path, "mingw64/"@) {
        "usr/"@ + path.skip("mingw64/"@.len() as int)
    } else {
        path
    }
}

/// Where the bootstrap unpacks an entry.
pub fn bootstrap_unpack_path(path: &str) -> (r: String)
    ensures
        r@ == spec_bootstrap_unpack_path(path@),
{
    proof {
        reveal_strlit("mingw64/");
        reveal_strlit("usr/");
        assert(("mingw64/")@.len() == 8);
    }
    if crate::text::starts_with_str(path, "mingw64/") {
        let mut s = "usr/".to_owned();
        s.append(path.substring_char(8, path.unicode_len()));
        s
    } else {
        path.to_owned()
    }
}

/// The two repository names are distinct, and each repository's name
/// resolves back to it.
pub proof fn lemma_repository_name_round_trip(r: Repository)
    ensures
        Repository::spec_from(r.spec_name()) == Some(r),
{
    reveal_strlit("msys");
    reveal_strlit("mingw64");
    assert("msys"@.len() == 4);
    assert("mingw64"@.len() == 7);
}

} // verus!
