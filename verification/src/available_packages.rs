//! The available-packages cache: the latest-version query, the decision
//! which repositories to sync, the merge after a partial failure, and the
//! on-disk catalog image with its header of repository versions.

use vstd::prelude::*;

use crate::packages::{Package, PackageModel, Packages, PackagesModel};
use crate::repositories::{
    enabled_repositories, Repository, RepositoryVersion, RepositoryVersionModel,
};
use crate::text::{
    lemma_str_le_refl, lemma_str_le_total, lemma_str_le_trans, spec_str_le, str_le,
};
use crate::utils::ETag;

verus! {

/// What `latest_version` returns: the record at `i` matches the queried
/// name, no matching record has a greater version, and none after `i` has
/// the same version.
pub open spec fn is_latest_at(ps: Seq<PackageModel>, name: Seq<char>, i: int) -> bool {
    &&& 0 <= i < ps.len()
    &&& crate::packages::spec_matches(ps[i], name)
    &&& (forall|j: int|
        0 <= j < ps.len() && crate::packages::spec_matches(#[trigger] ps[j], name) ==> spec_str_le(
            ps[j].version,
            ps[i].version,
        ))
    &&& (forall|j: int|
        i < j < ps.len() && crate::packages::spec_matches(#[trigger] ps[j], name) ==> ps[j].version
            != ps[i].version)
}

/// The index `latest_version` selects: among the records matching `name`,
/// the one with the greatest version, the last of equals.
pub open spec fn spec_latest_idx(ps: Seq<PackageModel>, name: Seq<char>) -> Option<int>
    decreases ps.len(),
{
    if ps.len() == 0 {
        None
    } else {
        let rest = spec_latest_idx(ps.drop_last(), name);
        if crate::packages::spec_matches(ps.last(), name) {
            match rest {
                None => Some(ps.len() - 1),
                Some(j) => if spec_str_le(ps[j].version, ps.last().version) {
                    Some(ps.len() - 1)
                } else {
                    Some(j)
                },
            }
        } else {
            rest
        }
    }
}

/// The record with the greatest version among those whose names contain
/// `name`; ties fall to the record seen last. `None` means the package is
/// unknown.
pub fn latest_version<'a>(name: &str, packages: &'a Vec<Package>) -> (r: Option<&'a Package>)
    ensures
        match r {
            Some(p) => exists|i: int|
                is_latest_at(packages.deep_view(), name@, i) && p == &packages[i],
            None => forall|j: int|
                0 <= j < packages@.len() ==> !crate::packages::spec_matches(
                    #[trigger] packages.deep_view()[j],
                    name@,
                ),
        },
        match (r, spec_latest_idx(packages.deep_view(), name@)) {
            (Some(p), Some(i)) => 0 <= i < packages@.len() && p == &packages[i as int],
            (None, None) => true,
            _ => false,
        },
{
    let ghost ps = packages.deep_view();
    let mut best: Option<usize> = None;
    let mut i: usize = 0;
    proof {
        assert(ps.take(0) =~= Seq::<PackageModel>::empty());
    }
    while i < packages.len()
        invariant
            i <= ps.len(),
            ps.len() == packages@.len(),
            ps == packages.deep_view(),
            match best {
                Some(b) => b < i && crate::packages::spec_matches(ps[b as int], name@) && (forall|
                    j: int,
                |
                    0 <= j < i && crate::packages::spec_matches(#[trigger] ps[j], name@)
                        ==> spec_str_le(ps[j].version, ps[b as int].version)) && (forall|j: int|
                    b < j < i && crate::packages::spec_matches(#[trigger] ps[j], name@)
                        ==> ps[j].version != ps[b as int].version),
                None => forall|j: int|
                    0 <= j < i ==> !crate::packages::spec_matches(#[trigger] ps[j], name@),
            },
            match best {
                Some(b) => spec_latest_idx(ps.take(i as int), name@) == Some(b as int),
                None => spec_latest_idx(ps.take(i as int), name@) is None,
            },
        decreases packages@.len() - i,
    {
        proof {
            assert(ps[i as int] == packages@[i as int]@);
            assert(ps.take(i + 1).drop_last() =~= ps.take(i as int));
            assert(ps.take(i + 1).last() == ps[i as int]);
            assert forall|j: int| 0 <= j < i + 1 implies ps.take(i + 1)[j] == ps[j] by {}
        }
        if packages[i].matches(name) {
            match best {
                None => {
                    proof {
                        lemma_str_le_refl(ps[i as int].version);
                    }
                    best = Some(i);
                },
                Some(b) => {
                    if str_le(packages[b].version.as_str(), packages[i].version.as_str()) {
                        proof {
                            assert forall|j: int|
                                0 <= j < i && crate::packages::spec_matches(
                                    #[trigger] ps[j],
                                    name@,
                                ) implies spec_str_le(ps[j].version, ps[i as int].version) by {
                                lemma_str_le_trans(
                                    ps[j].version,
                                    ps[b as int].version,
                                    ps[i as int].version,
                                );
                            }
                            lemma_str_le_refl(ps[i as int].version);
                        }
                        best = Some(i);
                    } else {
                        proof {
                            lemma_str_le_total(ps[b as int].version, ps[i as int].version);
                            if ps[i as int].version == ps[b as int].version {
                                lemma_str_le_refl(ps[b as int].version);
                            }
                        }
                    }
                },
            }
        }
        i = i + 1;
    }
    proof {
        assert(ps.take(ps.len() as int) =~= ps);
    }
    match best {
        Some(b) => Some(&packages[b]),
        None => None,
    }
}

/// Whether a repository must be synced: yes when the cache holds no
/// version for it; otherwise only when the remote ETag is known and
/// differs from the cached one.
pub open spec fn spec_needs_sync(cached: Option<Seq<char>>, remote: Option<Seq<char>>) -> bool {
    match cached {
        None => true,
        Some(ce) => match remote {
            Some(re) => re != ce,
            None => false,
        },
    }
}

/// The first cached version of the given repository, if any.
pub open spec fn spec_find_version(vs: Seq<RepositoryVersionModel>, repo: Repository) -> Option<
    RepositoryVersionModel,
>
    decreases vs.len(),
{
    if vs.len() == 0 {
        None
    } else if vs[0].repository == repo {
        Some(vs[0])
    } else {
        spec_find_version(vs.skip(1), repo)
    }
}

/// The first cached version of the given repository, if any.
pub fn find_version<'a>(vs: &'a Vec<RepositoryVersion>, repo: Repository) -> (r: Option<
    &'a RepositoryVersion,
>)
    ensures
        match r {
            Some(v) => spec_find_version(vs.deep_view(), repo) == Some(v@),
            None => spec_find_version(vs.deep_view(), repo) is None,
        },
{
    let ghost gvs = vs.deep_view();
    let mut i: usize = 0;
    proof {
        assert(gvs.skip(0) =~= gvs);
    }
    while i < vs.len()
        invariant
            i <= gvs.len(),
            gvs.len() == vs@.len(),
            gvs == vs.deep_view(),
            spec_find_version(gvs, repo) == spec_find_version(gvs.skip(i as int), repo),
        decreases vs@.len() - i,
    {
        proof {
            assert(gvs.skip(i as int)[0] == gvs[i as int]);
            assert(gvs.skip(i as int).skip(1) =~= gvs.skip(i + 1));
        }
        if vs[i].repository == repo {
            return Some(&vs[i]);
        }
        i = i + 1;
    }
    proof {
        assert(gvs.skip(i as int).len() == 0);
    }
    None
}

/// A probe of one repository's remote ETag: what came back, or nothing
/// where the probe failed.
#[derive(Debug)]
pub struct RemoteEtag {
    pub repository: Repository,
    pub etag: Option<ETag>,
}

/// The mathematical shape of a remote-ETag probe.
pub struct RemoteEtagModel {
    pub repository: Repository,
    pub etag: Option<Seq<char>>,
}

impl View for RemoteEtag {
    type V = RemoteEtagModel;

    open spec fn view(&self) -> RemoteEtagModel {
        RemoteEtagModel {
            repository: self.repository,
            etag: match self.etag {
                Some(ref e) => Some(e.value@),
                None => None,
            },
        }
    }
}

impl DeepView for RemoteEtag {
    type V = RemoteEtagModel;

    open spec fn deep_view(&self) -> RemoteEtagModel {
        self.view()
    }
}

/// The first probe of the given repository, if any.
pub open spec fn spec_find_remote(rs: Seq<RemoteEtagModel>, repo: Repository) -> Option<
    RemoteEtagModel,
>
    decreases rs.len(),
{
    if rs.len() == 0 {
        None
    } else if rs[0].repository == repo {
        Some(rs[0])
    } else {
        spec_find_remote(rs.skip(1), repo)
    }
}

/// The first probe of the given repository, if any.
fn find_remote<'a>(rs: &'a Vec<RemoteEtag>, repo: Repository) -> (r: Option<&'a RemoteEtag>)
    ensures
        match r {
            Some(v) => spec_find_remote(rs.deep_view(), repo) == Some(v@),
            None => spec_find_remote(rs.deep_view(), repo) is None,
        },
{
    let ghost grs = rs.deep_view();
    let mut i: usize = 0;
    proof {
        assert(grs.skip(0) =~= grs);
    }
    while i < rs.len()
        invariant
            i <= grs.len(),
            grs.len() == rs@.len(),
            grs == rs.deep_view(),
            spec_find_remote(grs, repo) == spec_find_remote(grs.skip(i as int), repo),
        decreases rs@.len() - i,
    {
        proof {
            assert(grs.skip(i as int)[0] == grs[i as int]);
            assert(grs.skip(i as int).skip(1) =~= grs.skip(i + 1));
        }
        if rs[i].repository == repo {
            return Some(&rs[i]);
        }
        i = i + 1;
    }
    proof {
        assert(grs.skip(i as int).len() == 0);
    }
    None
}

/// Whether one enabled repository must be synced, given the cached
/// versions and the remote ETag probes.
pub open spec fn spec_repo_needs_sync(
    cache: Seq<RepositoryVersionModel>,
    remote: Seq<RemoteEtagModel>,
    repo: Repository,
) -> bool {
    spec_needs_sync(
        match spec_find_version(cache, repo) {
            Some(v) => Some(v.etag),
            None => None,
        },
        match spec_find_remote(remote, repo) {
            Some(pr) => pr.etag,
            None => None,
        },
    )
}

/// The enabled repositories that must be synced, in their fixed order: a
/// repository with no cached version always; one with a cached version
/// only when its probe answered with a different ETag.
pub fn repositories_to_sync(
    cache_versions: &Vec<RepositoryVersion>,
    remote_etags: &Vec<RemoteEtag>,
) -> (r: Vec<Repository>)
    ensures
        r@ == enabled_repositories().filter(
            |repo: Repository|
                spec_repo_needs_sync(cache_versions.deep_view(), remote_etags.deep_view(), repo),
        ),
{
    let ghost pred = |repo: Repository|
        spec_repo_needs_sync(cache_versions.deep_view(), remote_etags.deep_view(), repo);
    let enabled = Repository::enabled();
    let mut out: Vec<Repository> = Vec::new();
    proof {
        reveal(Seq::filter);
        assert(enabled@.take(0) =~= Seq::<Repository>::empty());
        assert(out@ =~= enabled@.take(0).filter(pred));
    }
    let mut i: usize = 0;
    while i < enabled.len()
        invariant
            i <= enabled@.len(),
            enabled@ == enabled_repositories(),
            pred == (|repo: Repository|
                spec_repo_needs_sync(cache_versions.deep_view(), remote_etags.deep_view(), repo)),
            out@ == enabled@.take(i as int).filter(pred),
        decreases enabled@.len() - i,
    {
        let repo = enabled[i];
        let needed = match find_version(cache_versions, repo) {
            None => true,
            Some(cached) => {
                match find_remote(remote_etags, repo) {
                    Some(probe) => {
                        match &probe.etag {
                            Some(re) => !re.same(&cached.etag),
                            None => false,
                        }
                    },
                    None => false,
                }
            },
        };
        proof {
            assert(needed == pred(repo));
        }
        if needed {
            out.push(repo);
        }
        proof {
            reveal(Seq::filter);
            assert(enabled@.take(i + 1).drop_last() =~= enabled@.take(i as int));
            assert(enabled@.take(i + 1).last() == repo);
            assert(out@ =~= enabled@.take(i + 1).filter(pred));
        }
        i = i + 1;
    }
    proof {
        assert(enabled@.take(enabled@.len() as int) =~= enabled@);
    }
    out
}

/// The first synced section of the given repository, if any.
pub open spec fn spec_find_synced(ss: Seq<PackagesModel>, repo: Repository) -> Option<PackagesModel>
    decreases ss.len(),
{
    if ss.len() == 0 {
        None
    } else if ss[0].version.repository == repo {
        Some(ss[0])
    } else {
        spec_find_synced(ss.skip(1), repo)
    }
}

/// The first synced section of the given repository, if any.
fn find_synced<'a>(ss: &'a Vec<Packages>, repo: Repository) -> (r: Option<&'a Packages>)
    ensures
        match r {
            Some(v) => spec_find_synced(ss.deep_view(), repo) == Some(v@),
            None => spec_find_synced(ss.deep_view(), repo) is None,
        },
{
    let ghost gss = ss.deep_view();
    let mut i: usize = 0;
    proof {
        assert(gss.skip(0) =~= gss);
    }
    while i < ss.len()
        invariant
            i <= gss.len(),
            gss.len() == ss@.len(),
            gss == ss.deep_view(),
            spec_find_synced(gss, repo) == spec_find_synced(gss.skip(i as int), repo),
        decreases ss@.len() - i,
    {
        proof {
            assert(gss.skip(i as int)[0] == gss[i as int]);
            assert(gss.skip(i as int).skip(1) =~= gss.skip(i + 1));
        }
        if ss[i].version.repository == repo {
            return Some(&ss[i]);
        }
        i = i + 1;
    }
    proof {
        assert(gss.skip(i as int).len() == 0);
    }
    None
}

/// A copy of a vector of packages, with the same models.
pub fn clone_package_vec(v: &Vec<Package>) -> (r: Vec<Package>)
    ensures
        r.deep_view() == v.deep_view(),
{
    let mut r: Vec<Package> = Vec::new();
    let mut i: usize = 0;
    while i < v.len()
        invariant
            i <= v@.len(),
            r.deep_view() =~= v.deep_view().take(i as int),
        decreases v@.len() - i,
    {
        let ghost prev = r.deep_view();
        r.push(v[i].duplicate());
        proof {
            assert(r.deep_view() =~= prev.push(v@[i as int]@));
            assert(v.deep_view().take(i + 1) =~= v.deep_view().take(i as int).push(v@[i as int]@));
        }
        i = i + 1;
    }
    proof {
        assert(v.deep_view().take(v@.len() as int) =~= v.deep_view());
    }
    r
}

impl Packages {
    /// A copy of this section, with the same model.
    pub fn duplicate(&self) -> (r: Packages)
        ensures
            r@ == self@,
    {
        Packages { version: self.version.duplicate(), list: clone_package_vec(&self.list) }
    }
}

/// The cached packages of one repository, in their cached order.
fn filter_by_repo(cached: &Vec<Package>, repo: Repository) -> (r: Vec<Package>)
    ensures
        r.deep_view() == cached.deep_view().filter(|p: PackageModel| p.repository == repo),
{
    let ghost pred = |p: PackageModel| p.repository == repo;
    let mut r: Vec<Package> = Vec::new();
    proof {
        reveal(Seq::filter);
        assert(cached.deep_view().take(0) =~= Seq::<PackageModel>::empty());
        assert(r.deep_view() =~= cached.deep_view().take(0).filter(pred));
    }
    let mut i: usize = 0;
    while i < cached.len()
        invariant
            i <= cached@.len(),
            pred == (|p: PackageModel| p.repository == repo),
            r.deep_view() == cached.deep_view().take(i as int).filter(pred),
        decreases cached@.len() - i,
    {
        let ghost prev = r.deep_view();
        let ghost gp = cached.deep_view()[i as int];
        if cached[i].repository == repo {
            r.push(cached[i].duplicate());
            proof {
                assert(r.deep_view() =~= prev.push(gp));
            }
        }
        proof {
            reveal(Seq::filter);
            assert(cached.deep_view().take(i + 1).drop_last() =~= cached.deep_view().take(i as int));
            assert(cached.deep_view().take(i + 1).last() == gp);
            assert(r.deep_view() =~= cached.deep_view().take(i + 1).filter(pred));
        }
        i = i + 1;
    }
    proof {
        assert(cached.deep_view().take(cached@.len() as int) =~= cached.deep_view());
    }
    r
}

/// The catalog sections after a sync, in the order of `repos`: the fresh
/// section where one was synced, else the cached section under its cached
/// version; a repository with neither contributes nothing.
pub open spec fn spec_merge_sections(
    repos: Seq<Repository>,
    cached: Seq<PackageModel>,
    cache_versions: Seq<RepositoryVersionModel>,
    synced: Seq<PackagesModel>,
) -> Seq<PackagesModel>
    decreases repos.len(),
{
    if repos.len() == 0 {
        Seq::empty()
    } else {
        let head = match spec_find_synced(synced, repos[0]) {
            Some(pk) => seq![pk],
            None => match spec_find_version(cache_versions, repos[0]) {
                Some(v) => seq![
                    PackagesModel {
                        version: v,
                        list: cached.filter(|p: PackageModel| p.repository == repos[0]),
                    },
                ],
                None => Seq::empty(),
            },
        };
        head + spec_merge_sections(repos.skip(1), cached, cache_versions, synced)
    }
}

/// Merges a partially successful sync with the cached catalog: for every
/// enabled repository, in order, the freshly synced section where the
/// sync succeeded, else the cached section stamped with its cached ETag.
pub fn merge_catalogs(
    cached: &Vec<Package>,
    cache_versions: &Vec<RepositoryVersion>,
    synced: &Vec<Packages>,
) -> (r: Vec<Packages>)
    ensures
        r.deep_view() == spec_merge_sections(
            enabled_repositories(),
            cached.deep_view(),
            cache_versions.deep_view(),
            synced.deep_view(),
        ),
{
    let ghost gcached = cached.deep_view();
    let ghost gversions = cache_versions.deep_view();
    let ghost gsynced = synced.deep_view();
    let enabled = Repository::enabled();
    let mut out: Vec<Packages> = Vec::new();
    let mut i: usize = 0;
    proof {
        assert(enabled@.skip(0) =~= enabled@);
        assert(out.deep_view() =~= Seq::<PackagesModel>::empty());
    }
    while i < enabled.len()
        invariant
            i <= enabled@.len(),
            enabled@ == enabled_repositories(),
            gcached == cached.deep_view(),
            gversions == cache_versions.deep_view(),
            gsynced == synced.deep_view(),
            spec_merge_sections(enabled@, gcached, gversions, gsynced) == out.deep_view()
                + spec_merge_sections(enabled@.skip(i as int), gcached, gversions, gsynced),
        decreases enabled@.len() - i,
    {
        let repo = enabled[i];
        let ghost prev = out.deep_view();
        proof {
            assert(enabled@.skip(i as int)[0] == repo);
            assert(enabled@.skip(i as int).skip(1) =~= enabled@.skip(i + 1));
        }
        match find_synced(synced, repo) {
            Some(pk) => {
                out.push(pk.duplicate());
                proof {
                    assert(out.deep_view() =~= prev.push(pk@));
                    assert(prev + (seq![pk@] + spec_merge_sections(
                        enabled@.skip(i + 1),
                        gcached,
                        gversions,
                        gsynced,
                    )) =~= out.deep_view() + spec_merge_sections(
                        enabled@.skip(i + 1),
                        gcached,
                        gversions,
                        gsynced,
                    ));
                }
            },
            None => {
                match find_version(cache_versions, repo) {
                    Some(v) => {
                        let list = filter_by_repo(cached, repo);
                        let section = Packages { version: v.duplicate(), list };
                        let ghost gsection = section@;
                        out.push(section);
                        proof {
                            assert(out.deep_view() =~= prev.push(gsection));
                            assert(prev + (seq![gsection] + spec_merge_sections(
                                enabled@.skip(i + 1),
                                gcached,
                                gversions,
                                gsynced,
                            )) =~= out.deep_view() + spec_merge_sections(
                                enabled@.skip(i + 1),
                                gcached,
                                gversions,
                                gsynced,
                            ));
                        }
                    },
                    None => {
                        proof {
                            assert(Seq::<PackagesModel>::empty() + spec_merge_sections(
                                enabled@.skip(i + 1),
                                gcached,
                                gversions,
                                gsynced,
                            ) =~= spec_merge_sections(enabled@.skip(i + 1), gcached, gversions, gsynced));
                        }
                    },
                }
            },
        }
        i = i + 1;
    }
    proof {
        assert(enabled@.skip(enabled@.len() as int).len() == 0);
        assert(out.deep_view() + Seq::<PackagesModel>::empty() =~= out.deep_view());
    }
    out
}

/// One header piece per section: the repository's name, a space, and the
/// ETag it was synced at.
pub open spec fn spec_header_pieces(rps: Seq<PackagesModel>) -> Seq<Seq<char>> {
    rps.map_values(
        |rp: PackagesModel| rp.version.repository.spec_name() + seq![' '] + rp.version.etag,
    )
}

/// The header line of the catalog: the pieces joined by single spaces.
pub open spec fn spec_header_line(rps: Seq<PackagesModel>) -> Seq<char> {
    crate::text::join_seq(spec_header_pieces(rps), seq![' '])
}

/// The record lines of the sections, in section order.
pub open spec fn section_lines(rps: Seq<PackagesModel>) -> Seq<Seq<char>>
    decreases rps.len(),
{
    if rps.len() == 0 {
        Seq::empty()
    } else {
        rps[0].list.map_values(|p: PackageModel| crate::packages::fmt_line(p)) + section_lines(
            rps.skip(1),
        )
    }
}

/// A text holding the given lines, each ended by a newline.
pub open spec fn lines_text(ls: Seq<Seq<char>>) -> Seq<char>
    decreases ls.len(),
{
    if ls.len() == 0 {
        Seq::empty()
    } else {
        ls[0] + seq!['\n'] + lines_text(ls.skip(1))
    }
}

/// The full catalog image: the header line, then every section's record
/// lines, each line ended by a newline.
pub open spec fn spec_catalog_text(rps: Seq<PackagesModel>) -> Seq<char> {
    spec_header_line(rps) + seq!['\n'] + lines_text(section_lines(rps))
}

/// Appending one line to a lines text appends the line and a newline.
proof fn lemma_lines_text_snoc(ls: Seq<Seq<char>>, l: Seq<char>)
    ensures
        lines_text(ls + seq![l]) == lines_text(ls) + l + seq!['\n'],
    decreases ls.len(),
{
    if ls.len() == 0 {
        assert(ls + seq![l] =~= seq![l]);
        assert(seq![l][0] == l);
        assert(seq![l].skip(1) =~= Seq::<Seq<char>>::empty());
        assert(lines_text(Seq::<Seq<char>>::empty()) == Seq::<char>::empty());
        assert(lines_text(seq![l]) == l + seq!['\n'] + Seq::<char>::empty());
        assert(l + seq!['\n'] + Seq::<char>::empty() =~= Seq::<char>::empty() + l + seq!['\n']);
    } else {
        lemma_lines_text_snoc(ls.skip(1), l);
        assert((ls + seq![l]).skip(1) =~= ls.skip(1) + seq![l]);
        assert((ls + seq![l])[0] == ls[0]);
        assert(lines_text(ls + seq![l]) == ls[0] + seq!['\n'] + (lines_text(ls.skip(1)) + l
            + seq!['\n']));
        assert(ls[0] + seq!['\n'] + (lines_text(ls.skip(1)) + l + seq!['\n']) =~= (ls[0]
            + seq!['\n'] + lines_text(ls.skip(1))) + l + seq!['\n']);
    }
}

/// Appending one section to a section list appends its record lines.
proof fn lemma_section_lines_snoc(rps: Seq<PackagesModel>, rp: PackagesModel)
    ensures
        section_lines(rps + seq![rp]) == section_lines(rps) + rp.list.map_values(
            |p: PackageModel| crate::packages::fmt_line(p),
        ),
    decreases rps.len(),
{
    let tail = rp.list.map_values(|p: PackageModel| crate::packages::fmt_line(p));
    if rps.len() == 0 {
        assert(rps + seq![rp] =~= seq![rp]);
        assert(seq![rp][0] == rp);
        assert(seq![rp].skip(1) =~= Seq::<PackagesModel>::empty());
        assert(section_lines(Seq::<PackagesModel>::empty()) == Seq::<Seq<char>>::empty());
        assert(section_lines(seq![rp]) == tail + Seq::<Seq<char>>::empty());
        assert(tail + Seq::<Seq<char>>::empty() =~= Seq::<Seq<char>>::empty() + tail);
    } else {
        lemma_section_lines_snoc(rps.skip(1), rp);
        assert((rps + seq![rp]).skip(1) =~= rps.skip(1) + seq![rp]);
        assert((rps + seq![rp])[0] == rps[0]);
        let head = rps[0].list.map_values(|p: PackageModel| crate::packages::fmt_line(p));
        assert(section_lines(rps + seq![rp]) == head + (section_lines(rps.skip(1)) + tail));
        assert(head + (section_lines(rps.skip(1)) + tail) =~= (head + section_lines(rps.skip(1)))
            + tail);
    }
}

/// Builds the catalog image of the given sections, ready to be
/// compressed and written as one file.
pub fn catalog_text(rps: &Vec<Packages>) -> (r: String)
    ensures
        r@ == spec_catalog_text(rps.deep_view()),
{
    proof {
        reveal_strlit(" ");
        reveal_strlit("\n");
        assert((" ")@ =~= seq![' ']);
        assert(("\n")@ =~= seq!['\n']);
    }
    let ghost grps = rps.deep_view();
    let mut pieces: Vec<String> = Vec::new();
    let mut i: usize = 0;
    proof {
        assert(pieces.deep_view() =~= spec_header_pieces(grps.take(0)));
    }
    while i < rps.len()
        invariant
            i <= grps.len(),
            grps.len() == rps@.len(),
            grps == rps.deep_view(),
            (" ")@ == seq![' '],
            pieces.deep_view() == spec_header_pieces(grps.take(i as int)),
        decreases rps@.len() - i,
    {
        let ghost prev = pieces.deep_view();
        let mut piece = rps[i].version.repository.name().to_owned();
        piece.append(" ");
        piece.append(rps[i].version.etag.value.as_str());
        proof {
            assert(piece@ == grps[i as int].version.repository.spec_name() + seq![' ']
                + grps[i as int].version.etag);
        }
        pieces.push(piece);
        proof {
            assert(pieces.deep_view() =~= prev.push(
                grps[i as int].version.repository.spec_name() + seq![' ']
                    + grps[i as int].version.etag,
            ));
            assert(spec_header_pieces(grps.take(i + 1)) =~= spec_header_pieces(
                grps.take(i as int),
            ).push(
                grps[i as int].version.repository.spec_name() + seq![' ']
                    + grps[i as int].version.etag,
            ));
        }
        i = i + 1;
    }
    proof {
        assert(grps.take(grps.len() as int) =~= grps);
    }
    let mut s = crate::text::join_str(&pieces, " ");
    s.append("\n");
    let ghost base = spec_header_line(grps) + seq!['\n'];
    let ghost glines = section_lines(grps);
    let mut i: usize = 0;
    proof {
        assert(section_lines(grps.take(0)) =~= Seq::<Seq<char>>::empty());
        assert(s@ =~= base + lines_text(section_lines(grps.take(0))));
    }
    while i < rps.len()
        invariant
            i <= grps.len(),
            grps.len() == rps@.len(),
            grps == rps.deep_view(),
            ("\n")@ == seq!['\n'],
            s@ == base + lines_text(section_lines(grps.take(i as int))),
        decreases rps@.len() - i,
    {
        let section = &rps[i];
        let ghost gsec = grps[i as int];
        let ghost sec_fmt = gsec.list.map_values(|p: PackageModel| crate::packages::fmt_line(p));
        let mut j: usize = 0;
        proof {
            assert(sec_fmt.take(0) =~= Seq::<Seq<char>>::empty());
            assert(section_lines(grps.take(i as int)) + sec_fmt.take(0) =~= section_lines(
                grps.take(i as int),
            ));
        }
        while j < section.list.len()
            invariant
                j <= gsec.list.len(),
                gsec == grps[i as int],
                i < grps.len(),
                grps.len() == rps@.len(),
                grps == rps.deep_view(),
                section == &rps[i as int],
                gsec.list.len() == section.list@.len(),
                gsec == section@,
                ("\n")@ == seq!['\n'],
                sec_fmt == gsec.list.map_values(|p: PackageModel| crate::packages::fmt_line(p)),
                s@ == base + lines_text(
                    section_lines(grps.take(i as int)) + sec_fmt.take(j as int),
                ),
            decreases section.list@.len() - j,
        {
            let line = section.list[j].to_line();
            s.append(line.as_str());
            s.append("\n");
            proof {
                let pre = section_lines(grps.take(i as int)) + sec_fmt.take(j as int);
                lemma_lines_text_snoc(pre, sec_fmt[j as int]);
                assert(gsec.list[j as int] == section.list@[j as int]@);
                assert(sec_fmt[j as int] == crate::packages::fmt_line(gsec.list[j as int]));
                assert(pre + seq![sec_fmt[j as int]] =~= section_lines(grps.take(i as int))
                    + sec_fmt.take(j + 1));
            }
            j = j + 1;
        }
        proof {
            assert(sec_fmt.take(gsec.list.len() as int) =~= sec_fmt);
            lemma_section_lines_snoc(grps.take(i as int), gsec);
            assert(grps.take(i as int) + seq![gsec] =~= grps.take(i + 1));
        }
        i = i + 1;
    }
    proof {
        assert(grps.take(grps.len() as int) =~= grps);
    }
    s
}

/// The repository versions named by a header's space-separated fields:
/// alternating repository names and ETags; nothing on an odd count or an
/// unknown name.
pub open spec fn parse_header_pairs(cols: Seq<Seq<char>>) -> Option<Seq<RepositoryVersionModel>>
    decreases cols.len(),
{
    if cols.len() == 0 {
        Some(Seq::empty())
    } else if cols.len() == 1 {
        None
    } else {
        match Repository::spec_from(cols[0]) {
            None => None,
            Some(repo) => match parse_header_pairs(cols.skip(2)) {
                None => None,
                Some(rest) => Some(
                    seq![RepositoryVersionModel { etag: cols[1], repository: repo }] + rest,
                ),
            },
        }
    }
}

/// The repository versions in a catalog text's header line; an absent or
/// malformed header yields none.
pub open spec fn header_versions_of(text: Seq<char>) -> Seq<RepositoryVersionModel> {
    let ls = crate::text::lines_of(text);
    if ls.len() == 0 {
        Seq::empty()
    } else {
        match parse_header_pairs(crate::text::split_seq(ls[0], seq![' '])) {
            Some(vs) => vs,
            None => Seq::empty(),
        }
    }
}

/// The repository versions in a catalog file's header; an unreadable file
/// yields none.
pub open spec fn header_versions_of_bytes(data: Seq<u8>) -> Seq<RepositoryVersionModel> {
    match crate::utils::zstd_decoded(data) {
        None => Seq::empty(),
        Some(bytes) => if vstd::utf8::valid_utf8(bytes) {
            header_versions_of(vstd::utf8::decode_utf8(bytes))
        } else {
            Seq::empty()
        },
    }
}

/// Reads only the header of the catalog file: the repository versions it
/// names, in header order; an unreadable or malformed header yields none.
pub fn get_repository_versions_from_file(data: &[u8]) -> (r: Vec<RepositoryVersion>)
    ensures
        r.deep_view() == header_versions_of_bytes(data@),
{
    let bytes = match crate::utils::Compression::ZSTD.decompress(data) {
        Ok(b) => b,
        Err(_) => {
            let r: Vec<RepositoryVersion> = Vec::new();
            proof {
                assert(r.deep_view() =~= header_versions_of_bytes(data@));
            }
            return r;
        },
    };
    let text = match crate::utils::bytes_to_string(bytes) {
        Some(t) => t,
        None => {
            let r: Vec<RepositoryVersion> = Vec::new();
            proof {
                assert(r.deep_view() =~= header_versions_of_bytes(data@));
            }
            return r;
        },
    };
    let lines = crate::text::split_lines(text.as_str());
    if lines.len() == 0 {
        let r: Vec<RepositoryVersion> = Vec::new();
        proof {
            assert(r.deep_view() =~= header_versions_of_bytes(data@));
        }
        return r;
    }
    proof {
        reveal_strlit(" ");
        assert((" ")@ =~= seq![' ']);
    }
    let cols = crate::text::split_str(lines[0].as_str(), " ");
    let ghost gcols = cols.deep_view();
    proof {
        assert(gcols == crate::text::split_seq(crate::text::lines_of(text@)[0], seq![' ']));
    }
    let mut out: Vec<RepositoryVersion> = Vec::new();
    let mut i: usize = 0;
    proof {
        assert(gcols.skip(0) =~= gcols);
        assert(out.deep_view() =~= Seq::<RepositoryVersionModel>::empty());
    }
    while i < cols.len()
        invariant
            i <= gcols.len(),
            gcols.len() == cols@.len(),
            gcols == cols.deep_view(),
            header_versions_of_bytes(data@) == (match parse_header_pairs(gcols) {
                Some(vs) => vs,
                None => Seq::<RepositoryVersionModel>::empty(),
            }),
            parse_header_pairs(gcols) == (match parse_header_pairs(gcols.skip(i as int)) {
                None => None::<Seq<RepositoryVersionModel>>,
                Some(rest) => Some(out.deep_view() + rest),
            }),
        decreases cols@.len() - i,
    {
        proof {
            assert(gcols.skip(i as int)[0] == gcols[i as int]);
        }
        if i + 1 == cols.len() {
            proof {
                assert(parse_header_pairs(gcols.skip(i as int)) is None);
            }
            let r: Vec<RepositoryVersion> = Vec::new();
            proof {
                assert(r.deep_view() =~= Seq::<RepositoryVersionModel>::empty());
            }
            return r;
        }
        proof {
            assert(gcols.skip(i as int)[1] == gcols[i + 1]);
            assert(gcols.skip(i as int).skip(2) =~= gcols.skip(i + 2));
        }
        match Repository::from(cols[i].as_str()) {
            None => {
                proof {
                    assert(parse_header_pairs(gcols.skip(i as int)) is None);
                }
                let r: Vec<RepositoryVersion> = Vec::new();
                proof {
                    assert(r.deep_view() =~= Seq::<RepositoryVersionModel>::empty());
                }
                return r;
            },
            Some(repo) => {
                let ghost prev = out.deep_view();
                out.push(
                    RepositoryVersion {
                        etag: ETag::new(cols[i + 1].clone()),
                        repository: repo,
                    },
                );
                proof {
                    assert(out.deep_view() =~= prev.push(
                        RepositoryVersionModel { etag: gcols[i + 1], repository: repo },
                    ));
                    match parse_header_pairs(gcols.skip(i + 2)) {
                        None => {},
                        Some(rest) => {
                            assert(prev + (seq![
                                RepositoryVersionModel { etag: gcols[i + 1], repository: repo },
                            ] + rest) =~= out.deep_view() + rest);
                        },
                    }
                }
                i = i + 2;
            },
        }
    }
    proof {
        assert(gcols.skip(i as int).len() == 0);
        assert(parse_header_pairs(gcols.skip(i as int)) == Some(Seq::<
            RepositoryVersionModel,
        >::empty()));
        assert(out.deep_view() + Seq::<RepositoryVersionModel>::empty() =~= out.deep_view());
    }
    out
}

/// An ETag that the header format carries faithfully: free of spaces and
/// newlines.
pub open spec fn wf_version(v: RepositoryVersionModel) -> bool {
    !crate::text::has_char(v.etag, ' ') && !crate::text::has_char(v.etag, '\n')
}

/// The header fields of the written catalog: repository names and ETags,
/// alternating, in section order.
pub open spec fn interleaved_header(rps: Seq<PackagesModel>) -> Seq<Seq<char>>
    decreases rps.len(),
{
    if rps.len() == 0 {
        Seq::empty()
    } else {
        seq![rps[0].version.repository.spec_name(), rps[0].version.etag] + interleaved_header(
            rps.skip(1),
        )
    }
}

/// The repository names are free of spaces and newlines.
proof fn lemma_repo_name_plain(r: Repository)
    ensures
        !crate::text::has_char(r.spec_name(), ' '),
        !crate::text::has_char(r.spec_name(), '\n'),
{
    reveal_strlit("msys");
    reveal_strlit("mingw64");
    assert(r == Repository::Msys || r == Repository::Mingw64);
    assert("msys"@ =~= seq!['m', 's', 'y', 's']);
    assert("mingw64"@ =~= seq!['m', 'i', 'n', 'g', 'w', '6', '4']);
    assert forall|k: int| 0 <= k < "msys"@.len() implies ("msys"@[k] != ' ' && "msys"@[k]
        != '\n') by {}
    assert forall|k: int| 0 <= k < "mingw64"@.len() implies ("mingw64"@[k] != ' ' && "mingw64"@[k]
        != '\n') by {}
}

/// The header line splits back into its names and ETags.
proof fn lemma_header_split(rps: Seq<PackagesModel>)
    requires
        rps.len() >= 1,
        forall|k: int| 0 <= k < rps.len() ==> wf_version(#[trigger] rps[k].version),
    ensures
        crate::text::split_seq(spec_header_line(rps), seq![' ']) == interleaved_header(rps),
    decreases rps.len(),
{
    let name0 = rps[0].version.repository.spec_name();
    let etag0 = rps[0].version.etag;
    let piece0 = name0 + seq![' '] + etag0;
    lemma_repo_name_plain(rps[0].version.repository);
    crate::text::lemma_split_append(name0, etag0, ' ');
    crate::text::lemma_split_single(name0, ' ');
    crate::text::lemma_split_single(etag0, ' ');
    assert(crate::text::split_seq(piece0, seq![' ']) == seq![name0] + seq![etag0]);
    if rps.len() == 1 {
        assert(spec_header_pieces(rps).len() == 1);
        assert(spec_header_pieces(rps)[0] == piece0);
        assert(spec_header_line(rps) == piece0);
        assert(interleaved_header(rps.skip(1)) =~= Seq::<Seq<char>>::empty());
        assert(seq![name0] + seq![etag0] =~= seq![name0, etag0] + Seq::<Seq<char>>::empty());
    } else {
        lemma_header_split(rps.skip(1));
        let rest_pieces = spec_header_pieces(rps.skip(1));
        assert(spec_header_pieces(rps).skip(1) =~= rest_pieces);
        assert(spec_header_pieces(rps)[0] == piece0);
        assert(spec_header_line(rps) == piece0 + seq![' '] + spec_header_line(rps.skip(1)));
        crate::text::lemma_split_append(piece0, spec_header_line(rps.skip(1)), ' ');
        assert(crate::text::split_seq(piece0 + seq![' '] + spec_header_line(rps.skip(1)), seq![' '])
            == (seq![name0] + seq![etag0]) + interleaved_header(rps.skip(1)));
        assert((seq![name0] + seq![etag0]) + interleaved_header(rps.skip(1)) =~= seq![name0, etag0]
            + interleaved_header(rps.skip(1)));
    }
}

/// The interleaved header fields parse back to the sections' versions.
proof fn lemma_header_pairs(rps: Seq<PackagesModel>)
    ensures
        parse_header_pairs(interleaved_header(rps)) == Some(
            rps.map_values(|rp: PackagesModel| rp.version),
        ),
    decreases rps.len(),
{
    let g = |rp: PackagesModel| rp.version;
    if rps.len() == 0 {
        assert(interleaved_header(rps).len() == 0);
        assert(rps.map_values(g) =~= Seq::<RepositoryVersionModel>::empty());
    } else {
        lemma_header_pairs(rps.skip(1));
        let cols = interleaved_header(rps);
        let name0 = rps[0].version.repository.spec_name();
        assert(cols[0] == name0);
        assert(cols[1] == rps[0].version.etag);
        assert(cols.len() >= 2);
        crate::repositories::lemma_repository_name_round_trip(rps[0].version.repository);
        assert(cols.skip(2) =~= interleaved_header(rps.skip(1)));
        assert(rps.skip(1).map_values(g) == parse_header_pairs(cols.skip(2))->0);
        assert(RepositoryVersionModel {
            etag: cols[1],
            repository: rps[0].version.repository,
        } == rps[0].version);
        assert(seq![rps[0].version] + rps.skip(1).map_values(g) =~= rps.map_values(g));
    }
}

/// The record lines of well-formed sections are newline-free and
/// nonempty, and parse to the sections' records in order.
proof fn lemma_sections(rps: Seq<PackagesModel>)
    requires
        forall|k: int, l: int|
            0 <= k < rps.len() && 0 <= l < (#[trigger] rps[k].list).len() ==> crate::packages::wf(
                #[trigger] rps[k].list[l],
            ),
    ensures
        forall|m: int|
            0 <= m < section_lines(rps).len() ==> !crate::text::has_char(
                #[trigger] section_lines(rps)[m],
                '\n',
            ) && section_lines(rps)[m].len() >= 1,
        crate::packages::parse_record_lines(section_lines(rps)) == Some(all_models(rps)),
    decreases rps.len(),
{
    if rps.len() == 0 {
        assert(section_lines(rps).len() == 0);
        assert(all_models(rps) =~= Seq::<PackageModel>::empty());
    } else {
        lemma_sections(rps.skip(1));
        let head = rps[0].list.map_values(|p: PackageModel| crate::packages::fmt_line(p));
        assert(section_lines(rps) == head + section_lines(rps.skip(1)));
        assert forall|l: int| 0 <= l < rps[0].list.len() implies crate::packages::wf(
            #[trigger] rps[0].list[l],
        ) by {}
        crate::packages::lemma_record_lines_of_list(rps[0].list);
        assert forall|m: int| 0 <= m < head.len() implies !crate::text::has_char(
            #[trigger] head[m],
            '\n',
        ) && head[m].len() >= 1 by {
            assert(head[m] == crate::packages::fmt_line(rps[0].list[m]));
            crate::installed_packages::lemma_fmt_line_plain(rps[0].list[m]);
        }
        assert forall|m: int| 0 <= m < section_lines(rps).len() implies !crate::text::has_char(
            #[trigger] section_lines(rps)[m],
            '\n',
        ) && section_lines(rps)[m].len() >= 1 by {
            if m < head.len() {
                assert(section_lines(rps)[m] == head[m]);
            } else {
                assert(section_lines(rps)[m] == section_lines(rps.skip(1))[m - head.len()]);
            }
        }
        crate::packages::lemma_parse_record_lines_concat(head, section_lines(rps.skip(1)));
        assert(rps[0].list.map_values(|p: PackageModel| crate::packages::normalized(p))
            + all_models(rps.skip(1)) == all_models(rps));
    }
}

/// The records of the written sections, each taken through one
/// normalization pass, in section order.
pub open spec fn all_models(rps: Seq<PackagesModel>) -> Seq<PackageModel>
    decreases rps.len(),
{
    if rps.len() == 0 {
        Seq::empty()
    } else {
        rps[0].list.map_values(|p: PackageModel| crate::packages::normalized(p)) + all_models(
            rps.skip(1),
        )
    }
}

/// A text of newline-ended lines splits into the lines and a final empty
/// piece.
proof fn lemma_lines_text_split(ls: Seq<Seq<char>>)
    requires
        forall|m: int| 0 <= m < ls.len() ==> !crate::text::has_char(#[trigger] ls[m], '\n'),
    ensures
        crate::text::split_seq(lines_text(ls), seq!['\n']) == ls + seq![Seq::<char>::empty()],
    decreases ls.len(),
{
    if ls.len() == 0 {
        assert(lines_text(ls) == Seq::<char>::empty());
        crate::text::lemma_split_single(Seq::<char>::empty(), '\n');
        assert(seq![Seq::<char>::empty()] =~= ls + seq![Seq::<char>::empty()]);
    } else {
        lemma_lines_text_split(ls.skip(1));
        crate::text::lemma_split_append(ls[0], lines_text(ls.skip(1)), '\n');
        crate::text::lemma_split_single(ls[0], '\n');
        assert(crate::text::split_seq(lines_text(ls), seq!['\n']) == seq![ls[0]] + (ls.skip(1)
            + seq![Seq::<char>::empty()]));
        assert(seq![ls[0]] + (ls.skip(1) + seq![Seq::<char>::empty()]) =~= ls + seq![Seq::<
            char,
        >::empty()]);
    }
}

/// Reading a written catalog back: the header names exactly the sections'
/// repository versions, in the order in which the sections' records
/// follow in the body, and the records are the sections' records in that
/// same order.
pub proof fn lemma_catalog_round_trip(rps: Seq<PackagesModel>)
    requires
        forall|k: int| 0 <= k < rps.len() ==> wf_version((#[trigger] rps[k]).version),
        forall|k: int, l: int|
            0 <= k < rps.len() && 0 <= l < (#[trigger] rps[k].list).len() ==> crate::packages::wf(
                #[trigger] rps[k].list[l],
            ),
    ensures
        header_versions_of(spec_catalog_text(rps)) == rps.map_values(
            |rp: PackagesModel| rp.version,
        ),
        crate::packages::records_of_text(spec_catalog_text(rps)) == Some(all_models(rps)),
{
    let nl = seq!['\n'];
    let header = spec_header_line(rps);
    let secs = section_lines(rps);
    let text = spec_catalog_text(rps);
    lemma_sections(rps);
    assert forall|k: int| 0 <= k < spec_header_pieces(rps).len() implies !crate::text::has_char(
        #[trigger] spec_header_pieces(rps)[k],
        '\n',
    ) by {
        let piece = spec_header_pieces(rps)[k];
        let name = rps[k].version.repository.spec_name();
        let etag = rps[k].version.etag;
        assert(piece == name + seq![' '] + etag);
        lemma_repo_name_plain(rps[k].version.repository);
        assert(piece == crate::text::join_seq(seq![name, etag], seq![' '])) by {
            assert(seq![name, etag].skip(1) =~= seq![etag]);
            assert(crate::text::join_seq(seq![etag], seq![' ']) == etag);
        }
        assert forall|j: int| 0 <= j < seq![' '].len() implies seq![' '][j] != '\n' by {}
        assert(!crate::text::has_char(seq![' '], '\n'));
        let pair = seq![name, etag];
        assert forall|j: int| 0 <= j < pair.len() implies !crate::text::has_char(
            #[trigger] pair[j],
            '\n',
        ) by {
            assert(pair[0] == name && pair[1] == etag);
        }
        crate::text::lemma_join_no_char(pair, seq![' '], '\n');
    }
    assert forall|j: int| 0 <= j < seq![' '].len() implies seq![' '][j] != '\n' by {}
    assert(!crate::text::has_char(seq![' '], '\n'));
    crate::text::lemma_join_no_char(spec_header_pieces(rps), seq![' '], '\n');
    assert(!crate::text::has_char(header, '\n'));
    crate::text::lemma_split_append(header, lines_text(secs), '\n');
    crate::text::lemma_split_single(header, '\n');
    lemma_lines_text_split(secs);
    let parts = crate::text::split_seq(text, nl);
    assert(parts == seq![header] + (secs + seq![Seq::<char>::empty()]));
    assert(parts.last() == Seq::<char>::empty()) by {
        assert(parts.len() == 1 + secs.len() + 1);
        assert(parts[parts.len() - 1] == (secs + seq![Seq::<char>::empty()])[secs.len() as int]);
    }
    let ls = crate::text::lines_of(text);
    assert(ls == parts.drop_last());
    assert(ls =~= seq![header] + secs);
    assert(ls.len() >= 1);
    assert(ls[0] == header);
    assert(ls.skip(1) =~= secs);
    if rps.len() == 0 {
        assert(spec_header_pieces(rps).len() == 0);
        assert(header == Seq::<char>::empty());
        crate::text::lemma_split_nonempty(header, seq![' ']);
        assert(!crate::text::has_char(Seq::<char>::empty(), ' '));
        crate::text::lemma_split_single(header, ' ');
        assert(crate::text::split_seq(header, seq![' ']) == seq![Seq::<char>::empty()]);
        assert(parse_header_pairs(seq![Seq::<char>::empty()]) is None);
        assert(rps.map_values(|rp: PackagesModel| rp.version) =~= Seq::<
            RepositoryVersionModel,
        >::empty());
    } else {
        lemma_header_split(rps);
        lemma_header_pairs(rps);
    }
}

/// A catalog text with only a header and no record lines yields the
/// empty set of records.
pub proof fn lemma_header_only_catalog(text: Seq<char>)
    requires
        crate::text::lines_of(text).len() <= 1,
    ensures
        crate::packages::records_of_text(text) == Some(Seq::<PackageModel>::empty()),
{
    let ls = crate::text::lines_of(text);
    if ls.len() == 1 {
        assert(ls.skip(1) =~= Seq::<Seq<char>>::empty());
        assert(crate::packages::parse_record_lines(Seq::<Seq<char>>::empty()) == Some(Seq::<
            PackageModel,
        >::empty()));
    }
}

/// Compresses the catalog image of the given sections: what `Some` holds
/// decompresses back to the image's bytes.
pub fn save_packages(rps: &Vec<Packages>) -> (r: Option<Vec<u8>>)
    ensures
        match r {
            Some(v) => crate::utils::zstd_decoded(v@) == Some(
                vstd::utf8::encode_utf8(spec_catalog_text(rps.deep_view())),
            ),
            None => true,
        },
{
    let text = catalog_text(rps);
    crate::utils::zstd_compress(text.as_str().as_bytes())
}

} // verus!
