//! The transactional installer's decisions: the pending marker's two-line
//! form, the safety classification of archive entries, the link-target
//! rule, and the ordered plans for installing and updating.

use vstd::prelude::*;

use crate::dependencies::present;
use crate::errors::Error;
use crate::packages::{
    fmt_line, normalized, parse_line, spec_matches, wf, Package, PackageModel,
};
use crate::text::{
    contains_str, lemma_split_append, lines_of, spec_contains, spec_starts_with, split_lines,
    split_seq, starts_with_str, str_eq,
};

verus! {

/// Which transaction a pending marker records.
#[derive(Debug, Clone, Copy, Eq, PartialEq, Structural)]
pub enum MarkerKind {
    Install,
    Update,
}

impl MarkerKind {
    /// The marker's first line.
    pub open spec fn spec_word(self) -> Seq<char> {
        match self {
            MarkerKind::Install => "install"@,
            MarkerKind::Update => "update"@,
        }
    }

    /// The marker's first line.
    pub fn word(&self) -> (r: &'static str)
        ensures
            r@ == self.spec_word(),
    {
        match self {
            MarkerKind::Install => "install",
            MarkerKind::Update => "update",
        }
    }
}

/// The two-line content of a pending marker: the transaction word, then
/// the package's record line.
pub fn pending_marker_content(kind: MarkerKind, package: &Package) -> (r: String)
    ensures
        r@ == kind.spec_word() + seq!['\n'] + fmt_line(package@),
{
    proof {
        reveal_strlit("\n");
        assert(("\n")@ =~= seq!['\n']);
    }
    let mut s = kind.word().to_owned();
    s.append("\n");
    let line = package.to_line();
    s.append(line.as_str());
    s
}

/// What a marker text records: its first line names the transaction, its
/// second holds the interrupted package's record; anything else records
/// nothing.
pub open spec fn spec_parse_marker(text: Seq<char>) -> Option<(MarkerKind, PackageModel)> {
    let ls = lines_of(text);
    if ls.len() < 2 {
        None
    } else {
        let kind = if ls[0] == "install"@ {
            Some(MarkerKind::Install)
        } else if ls[0] == "update"@ {
            Some(MarkerKind::Update)
        } else {
            None
        };
        match kind {
            None => None,
            Some(k) => match parse_line(ls[1]) {
                None => None,
                Some(p) => Some((k, p)),
            },
        }
    }
}

/// Reads a pending marker's text: the transaction to replay and the
/// package it was interrupted on, if the text records one.
pub fn parse_pending_marker(text: &str) -> (r: Option<(MarkerKind, Package)>)
    ensures
        match r {
            Some(pair) => spec_parse_marker(text@) == Some((pair.0, pair.1@)),
            None => spec_parse_marker(text@) is None,
        },
{
    proof {
        reveal_strlit("install");
        reveal_strlit("update");
    }
    let ls = split_lines(text);
    if ls.len() < 2 {
        return None;
    }
    proof {
        assert(ls.deep_view()[0] == ls@[0]@);
        assert(ls.deep_view()[1] == ls@[1]@);
    }
    let kind = if str_eq(ls[0].as_str(), "install") {
        MarkerKind::Install
    } else if str_eq(ls[0].as_str(), "update") {
        MarkerKind::Update
    } else {
        return None;
    };
    match Package::try_from(ls[1].as_str()) {
        Ok(p) => Some((kind, p)),
        Err(_) => None,
    }
}

/// Writing a marker for a well-formed record and reading it back yields
/// the same transaction and that one record: the marker holds exactly one
/// record on exactly two lines.
pub proof fn lemma_marker_round_trip(kind: MarkerKind, p: PackageModel)
    requires
        wf(p),
    ensures
        ({
            let content = kind.spec_word() + seq!['\n'] + fmt_line(p);
            &&& lines_of(content).len() == 2
            &&& spec_parse_marker(content) == Some((kind, normalized(p)))
        }),
{
    let nl = seq!['\n'];
    let word = kind.spec_word();
    let line = fmt_line(p);
    let content = word + nl + line;
    reveal_strlit("install");
    reveal_strlit("update");
    assert("install"@ =~= seq!['i', 'n', 's', 't', 'a', 'l', 'l']);
    assert("update"@ =~= seq!['u', 'p', 'd', 'a', 't', 'e']);
    assert forall|k: int| 0 <= k < word.len() implies word[k] != '\n' by {
        assert(kind == MarkerKind::Install || kind == MarkerKind::Update);
    }
    assert(!crate::text::has_char(word, '\n'));
    crate::installed_packages::lemma_fmt_line_plain(p);
    crate::packages::lemma_parse_of_format(p);
    lemma_split_append(word, line, '\n');
    crate::text::lemma_split_single(word, '\n');
    crate::text::lemma_split_single(line, '\n');
    assert(split_seq(content, nl) == seq![word] + seq![line]);
    assert((seq![word] + seq![line]) =~= seq![word, line]);
    assert(split_seq(content, nl).last() == line);
    assert(line.len() >= 1);
    assert(lines_of(content) == seq![word, line]);
    assert(lines_of(content)[0] == word);
    assert(lines_of(content)[1] == line);
    assert(kind == MarkerKind::Install || kind == MarkerKind::Update);
    assert("install"@ != "update"@);
}

/// The kinds of archive entry the installer distinguishes.
#[derive(Debug, Clone, Copy, Eq, PartialEq, Structural)]
pub enum TarEntryKind {
    Regular,
    Directory,
    Symlink,
    HardLink,
    Other,
}

/// What the first extraction pass does with one entry.
#[derive(Debug, Clone, Copy, Eq, PartialEq, Structural)]
pub enum EntryAction {
    Ignore,
    UnpackInstallScript,
    CreateDirectory,
    UnpackFile,
    Defer,
    Warn,
}

/// A path the extraction accepts: relative, and free of `..`.
pub open spec fn spec_safe_path(path: Seq<char>) -> bool {
    !spec_starts_with(path, "/"@) && !spec_contains(path, ".."@)
}

/// Whether the path names one of the archive's metadata entries.
pub open spec fn spec_metadata_name(path: Seq<char>) -> bool {
    path == ".BUILDINFO"@ || path == ".MTREE"@ || path == ".PKGINFO"@
}

/// What the first pass does with an entry: metadata is ignored, the
/// install script is unpacked unless in setup mode, unsafe paths are
/// ignored, directories are created, regular files unpacked, links
/// deferred to the second pass, and anything else warned about.
pub open spec fn spec_classify_first(path: Seq<char>, kind: TarEntryKind, setup: bool) -> EntryAction {
    if spec_starts_with(path, "/"@) {
        EntryAction::Ignore
    } else if spec_metadata_name(path) {
        EntryAction::Ignore
    } else if path == ".INSTALL"@ {
        if !setup {
            EntryAction::UnpackInstallScript
        } else {
            EntryAction::Ignore
        }
    } else if spec_contains(path, ".."@) {
        EntryAction::Ignore
    } else {
        match kind {
            TarEntryKind::Directory => EntryAction::CreateDirectory,
            TarEntryKind::Symlink => EntryAction::Defer,
            TarEntryKind::HardLink => EntryAction::Defer,
            TarEntryKind::Regular => EntryAction::UnpackFile,
            TarEntryKind::Other => EntryAction::Warn,
        }
    }
}

/// What the first pass does with an entry.
pub fn classify_first_pass(path: &str, kind: TarEntryKind, setup: bool) -> (r: EntryAction)
    ensures
        r == spec_classify_first(path@, kind, setup),
{
    proof {
        reveal_strlit("/");
        reveal_strlit("..");
        reveal_strlit(".BUILDINFO");
        reveal_strlit(".MTREE");
        reveal_strlit(".PKGINFO");
        reveal_strlit(".INSTALL");
        assert(("..")@.len() == 2);
    }
    if starts_with_str(path, "/") {
        EntryAction::Ignore
    } else if str_eq(path, ".BUILDINFO") || str_eq(path, ".MTREE") || str_eq(path, ".PKGINFO") {
        EntryAction::Ignore
    } else if str_eq(path, ".INSTALL") {
        if !setup {
            EntryAction::UnpackInstallScript
        } else {
            EntryAction::Ignore
        }
    } else if contains_str(path, "..") {
        EntryAction::Ignore
    } else {
        match kind {
            TarEntryKind::Directory => EntryAction::CreateDirectory,
            TarEntryKind::Symlink => EntryAction::Defer,
            TarEntryKind::HardLink => EntryAction::Defer,
            TarEntryKind::Regular => EntryAction::UnpackFile,
            TarEntryKind::Other => EntryAction::Warn,
        }
    }
}

/// Whether the second pass creates a link for this entry: only link
/// entries under safe, non-metadata paths.
pub open spec fn spec_link_entry(path: Seq<char>, kind: TarEntryKind) -> bool {
    &&& (kind == TarEntryKind::Symlink || kind == TarEntryKind::HardLink)
    &&& !spec_starts_with(path, "/"@)
    &&& !spec_metadata_name(path)
    &&& path != ".INSTALL"@
    &&& !spec_contains(path, ".."@)
}

/// Whether the second pass creates a link for this entry.
pub fn is_link_entry(path: &str, kind: TarEntryKind) -> (r: bool)
    ensures
        r == spec_link_entry(path@, kind),
{
    proof {
        reveal_strlit("/");
        reveal_strlit("..");
        reveal_strlit(".BUILDINFO");
        reveal_strlit(".MTREE");
        reveal_strlit(".PKGINFO");
        reveal_strlit(".INSTALL");
        assert(("..")@.len() == 2);
    }
    let is_link = match kind {
        TarEntryKind::Symlink => true,
        TarEntryKind::HardLink => true,
        _ => false,
    };
    is_link && !starts_with_str(path, "/") && !str_eq(path, ".BUILDINFO") && !str_eq(
        path,
        ".MTREE",
    ) && !str_eq(path, ".PKGINFO") && !str_eq(path, ".INSTALL") && !contains_str(path, "..")
}

/// Where a link's target resolves: a target starting with a slash is
/// taken relative to the installation root, any other relative to the
/// root directly.
pub open spec fn spec_link_target(root: Seq<char>, target: Seq<char>) -> Seq<char> {
    if spec_starts_with(target, "/"@) {
        root + target
    } else {
        root + seq!['/'] + target
    }
}

/// Where a link's target resolves under the installation root.
pub fn resolve_link_target(root: &str, target: &str) -> (r: String)
    ensures
        r@ == spec_link_target(root@, target@),
{
    proof {
        reveal_strlit("/");
        assert(("/")@ =~= seq!['/']);
    }
    let mut s = root.to_owned();
    if !starts_with_str(target, "/") {
        s.append("/");
    }
    s.append(target);
    s
}

/// Whether no available record matches the name.
pub open spec fn unavailable(available: Seq<PackageModel>, name: Seq<char>) -> bool {
    forall|j: int| 0 <= j < available.len() ==> !spec_matches(#[trigger] available[j], name)
}

/// Whether some installed record matches the name.
pub open spec fn spec_installed_match(installed: Seq<PackageModel>, name: Seq<char>) -> bool {
    exists|j: int| 0 <= j < installed.len() && spec_matches(#[trigger] installed[j], name)
}

/// What `missing_packages` yields: for each name in input order with no
/// installed match, the latest available record of that name; nothing as
/// soon as a name is neither installed nor available.
pub open spec fn spec_missing_packages(
    names: Seq<Seq<char>>,
    installed: Seq<PackageModel>,
    available: Seq<PackageModel>,
) -> Option<Seq<PackageModel>>
    decreases names.len(),
{
    if names.len() == 0 {
        Some(Seq::empty())
    } else {
        match spec_missing_packages(names.skip(1), installed, available) {
            None => None,
            Some(rest) => if spec_installed_match(installed, names[0]) {
                Some(rest)
            } else {
                match crate::available_packages::spec_latest_idx(available, names[0]) {
                    None => None,
                    Some(i) => Some(seq![available[i]] + rest),
                }
            },
        }
    }
}

/// The latest available record of each named package that is not yet
/// installed; nothing as soon as one name is neither installed nor
/// available.
pub fn missing_packages(names: &Vec<String>, installed: &Vec<Package>, available: &Vec<Package>) -> (r:
    Option<Vec<Package>>)
    ensures
        match r {
            Some(v) => spec_missing_packages(
                names.deep_view(),
                installed.deep_view(),
                available.deep_view(),
            ) == Some(v.deep_view()),
            None => spec_missing_packages(
                names.deep_view(),
                installed.deep_view(),
                available.deep_view(),
            ) is None,
        },
        r is None ==> exists|i: int|
            0 <= i < names@.len() && unavailable(available.deep_view(), names.deep_view()[i]) && (
            forall|j: int|
                0 <= j < installed@.len() ==> !spec_matches(
                    #[trigger] installed.deep_view()[j],
                    names.deep_view()[i],
                )),
{
    let ghost gnames = names.deep_view();
    let ghost ginst = installed.deep_view();
    let ghost gavail = available.deep_view();
    let mut out: Vec<Package> = Vec::new();
    let mut i: usize = 0;
    proof {
        assert(gnames.skip(0) =~= gnames);
        assert(out.deep_view() =~= Seq::<PackageModel>::empty());
    }
    while i < names.len()
        invariant
            i <= gnames.len(),
            gnames.len() == names@.len(),
            gnames == names.deep_view(),
            ginst == installed.deep_view(),
            gavail == available.deep_view(),
            spec_missing_packages(gnames, ginst, gavail) == (match spec_missing_packages(
                gnames.skip(i as int),
                ginst,
                gavail,
            ) {
                None => None::<Seq<PackageModel>>,
                Some(rest) => Some(out.deep_view() + rest),
            }),
        decreases names@.len() - i,
    {
        proof {
            assert(gnames.skip(i as int)[0] == gnames[i as int]);
            assert(gnames.skip(i as int).skip(1) =~= gnames.skip(i + 1));
            assert(gnames[i as int] == names@[i as int]@);
        }
        let name = &names[i];
        let mut installed_match = false;
        let mut j: usize = 0;
        while j < installed.len()
            invariant
                j <= installed@.len(),
                ginst == installed.deep_view(),
                installed_match ==> spec_installed_match(ginst, name@),
                !installed_match ==> forall|k: int|
                    0 <= k < j ==> !spec_matches(#[trigger] installed.deep_view()[k], name@),
            decreases installed@.len() - j,
        {
            if installed[j].matches(name.as_str()) {
                proof {
                    assert(spec_matches(installed.deep_view()[j as int], name@));
                }
                installed_match = true;
            }
            j = j + 1;
        }
        if !installed_match {
            proof {
                assert(!spec_installed_match(ginst, gnames[i as int]));
            }
            match crate::available_packages::latest_version(name.as_str(), available) {
                Some(p) => {
                    let ghost prev = out.deep_view();
                    let ghost idx = crate::available_packages::spec_latest_idx(
                        gavail,
                        gnames[i as int],
                    )->0;
                    out.push(p.duplicate());
                    proof {
                        assert(out.deep_view() =~= prev.push(gavail[idx]));
                        match spec_missing_packages(gnames.skip(i + 1), ginst, gavail) {
                            None => {},
                            Some(rest) => {
                                assert(prev + (seq![gavail[idx]] + rest) =~= out.deep_view()
                                    + rest);
                            },
                        }
                    }
                },
                None => {
                    proof {
                        assert(crate::available_packages::spec_latest_idx(
                            gavail,
                            gnames[i as int],
                        ) is None);
                        assert(spec_missing_packages(gnames.skip(i as int), ginst, gavail) is None);
                        assert(names.deep_view()[i as int] == name@);
                        assert(unavailable(available.deep_view(), names.deep_view()[i as int]));
                        assert(forall|k: int|
                            0 <= k < installed@.len() ==> !spec_matches(
                                #[trigger] installed.deep_view()[k],
                                names.deep_view()[i as int],
                            ));
                    }
                    return None;
                },
            }
        } else {
            proof {
                assert(spec_installed_match(ginst, gnames[i as int]));
            }
        }
        i = i + 1;
    }
    proof {
        assert(gnames.skip(gnames.len() as int).len() == 0);
        assert(spec_missing_packages(gnames.skip(gnames.len() as int), ginst, gavail) == Some(
            Seq::<PackageModel>::empty(),
        ));
        assert(out.deep_view() + Seq::<PackageModel>::empty() =~= out.deep_view());
    }
    Some(out)
}

/// One step of an install plan: a package to install, and whether in
/// setup mode, which extracts files without running hooks or recording.
#[derive(Debug)]
pub struct InstallStep {
    pub package: Package,
    pub setup: bool,
}

/// The mathematical shape of one install step.
pub struct InstallStepModel {
    pub package: PackageModel,
    pub setup: bool,
}

impl View for InstallStep {
    type V = InstallStepModel;

    open spec fn view(&self) -> InstallStepModel {
        InstallStepModel { package: self.package@, setup: self.setup }
    }
}

impl DeepView for InstallStep {
    type V = InstallStepModel;

    open spec fn deep_view(&self) -> InstallStepModel {
        self.view()
    }
}

/// The given records as install steps, all in the given mode.
pub open spec fn steps_of(ps: Seq<PackageModel>, setup: bool) -> Seq<InstallStepModel> {
    ps.map_values(|p: PackageModel| InstallStepModel { package: p, setup })
}

/// The ordered steps that install the targets, in four phases: first the
/// missing `bash` with its dependencies, hooks on; then the missing
/// `info` and `coreutils` with theirs, once in setup mode and once
/// normally, the same packages in the same order both times; then the
/// targets with theirs. Every target's identity appears among the last
/// phase's packages. Nothing when a required bootstrap package is
/// neither installed nor available.
pub fn install_plan(targets: &Vec<Package>, installed: &Vec<Package>, available: &Vec<Package>) -> (r:
    Option<Vec<InstallStep>>)
    ensures
        r is None ==> unavailable(available.deep_view(), "bash"@) || unavailable(
            available.deep_view(),
            "info"@,
        ) || unavailable(available.deep_view(), "coreutils"@),
        match r {
            Some(steps) => exists|bash_order: Seq<PackageModel>, boot_order: Seq<
                PackageModel,
            >, target_order: Seq<PackageModel>|
                {
                    &&& #[trigger] steps.deep_view() == steps_of(bash_order, false) + steps_of(
                        boot_order,
                        true,
                    ) + steps_of(boot_order, false) + steps_of(target_order, false)
                    &&& forall|i: int|
                        0 <= i < targets@.len() ==> crate::dependencies::present(
                            target_order,
                            #[trigger] targets.deep_view()[i],
                        )
                },
            None => true,
        },
{
    proof {
        reveal_strlit("bash");
        reveal_strlit("info");
        reveal_strlit("coreutils");
    }
    let mut steps: Vec<InstallStep> = Vec::new();
    let mut installed_now = crate::available_packages::clone_package_vec(installed);
    let mut bash_names: Vec<String> = Vec::new();
    bash_names.push("bash".to_owned());
    let bash = match missing_packages(&bash_names, &installed_now, available) {
        Some(v) => v,
        None => {
            proof {
                let i = choose|i: int|
                    0 <= i < bash_names@.len() && unavailable(
                        available.deep_view(),
                        bash_names.deep_view()[i],
                    ) && (forall|j: int|
                        0 <= j < installed_now@.len() ==> !spec_matches(
                            #[trigger] installed_now.deep_view()[j],
                            bash_names.deep_view()[i],
                        ));
                assert(bash_names.deep_view()[i] == "bash"@);
            }
            return None;
        },
    };
    let ghost mut bash_order: Seq<PackageModel> = Seq::empty();
    if bash.len() > 0 {
        let ordered = crate::dependencies::list(&bash, &installed_now, available);
        proof {
            bash_order = ordered.deep_view();
            assert(steps.deep_view() =~= steps_of(bash_order.take(0), false));
        }
        let mut k: usize = 0;
        while k < ordered.len()
            invariant
                k <= bash_order.len(),
                bash_order == ordered.deep_view(),
                bash_order.len() == ordered@.len(),
                steps.deep_view() == steps_of(bash_order.take(k as int), false),
            decreases ordered@.len() - k,
        {
            let ghost prev = steps.deep_view();
            steps.push(InstallStep { package: ordered[k].duplicate(), setup: false });
            installed_now.push(ordered[k].duplicate());
            proof {
                assert(steps.deep_view() =~= prev.push(
                    InstallStepModel { package: bash_order[k as int], setup: false },
                ));
                assert(steps_of(bash_order.take(k + 1), false) =~= steps_of(
                    bash_order.take(k as int),
                    false,
                ).push(InstallStepModel { package: bash_order[k as int], setup: false }));
            }
            k = k + 1;
        }
        proof {
            assert(bash_order.take(bash_order.len() as int) =~= bash_order);
        }
    } else {
        proof {
            assert(steps.deep_view() =~= steps_of(bash_order, false));
        }
    }
    let ghost after_bash = steps.deep_view();
    proof {
        assert(after_bash == steps_of(bash_order, false));
    }
    let mut ic_names: Vec<String> = Vec::new();
    ic_names.push("info".to_owned());
    ic_names.push("coreutils".to_owned());
    let info_coreutils = match missing_packages(&ic_names, &installed_now, available) {
        Some(v) => v,
        None => {
            proof {
                let i = choose|i: int|
                    0 <= i < ic_names@.len() && unavailable(
                        available.deep_view(),
                        ic_names.deep_view()[i],
                    ) && (forall|j: int|
                        0 <= j < installed_now@.len() ==> !spec_matches(
                            #[trigger] installed_now.deep_view()[j],
                            ic_names.deep_view()[i],
                        ));
                assert(ic_names.deep_view()[i] == "info"@ || ic_names.deep_view()[i]
                    == "coreutils"@);
            }
            return None;
        },
    };
    let ghost mut boot_order: Seq<PackageModel> = Seq::empty();
    if info_coreutils.len() > 0 {
        let boot_pass = crate::dependencies::list(&info_coreutils, &installed_now, available);
        proof {
            boot_order = boot_pass.deep_view();
            assert(steps.deep_view() =~= after_bash + steps_of(boot_order.take(0), true));
        }
        let mut k: usize = 0;
        while k < boot_pass.len()
            invariant
                k <= boot_order.len(),
                boot_order == boot_pass.deep_view(),
                boot_order.len() == boot_pass@.len(),
                steps.deep_view() == after_bash + steps_of(boot_order.take(k as int), true),
            decreases boot_pass@.len() - k,
        {
            let ghost prev = steps.deep_view();
            steps.push(InstallStep { package: boot_pass[k].duplicate(), setup: true });
            proof {
                assert(steps.deep_view() =~= prev.push(
                    InstallStepModel { package: boot_order[k as int], setup: true },
                ));
                assert(steps_of(boot_order.take(k + 1), true) =~= steps_of(
                    boot_order.take(k as int),
                    true,
                ).push(InstallStepModel { package: boot_order[k as int], setup: true }));
                assert(prev.push(InstallStepModel { package: boot_order[k as int], setup: true })
                    =~= after_bash + steps_of(boot_order.take(k + 1), true));
            }
            k = k + 1;
        }
        proof {
            assert(boot_order.take(boot_order.len() as int) =~= boot_order);
        }
        let ghost after_setup = steps.deep_view();
        proof {
            assert(after_setup == after_bash + steps_of(boot_order, true));
            assert(steps.deep_view() =~= after_setup + steps_of(boot_order.take(0), false));
        }
        let mut k: usize = 0;
        while k < boot_pass.len()
            invariant
                k <= boot_order.len(),
                boot_order == boot_pass.deep_view(),
                boot_order.len() == boot_pass@.len(),
                steps.deep_view() == after_setup + steps_of(boot_order.take(k as int), false),
            decreases boot_pass@.len() - k,
        {
            let ghost prev = steps.deep_view();
            steps.push(InstallStep { package: boot_pass[k].duplicate(), setup: false });
            installed_now.push(boot_pass[k].duplicate());
            proof {
                assert(steps.deep_view() =~= prev.push(
                    InstallStepModel { package: boot_order[k as int], setup: false },
                ));
                assert(steps_of(boot_order.take(k + 1), false) =~= steps_of(
                    boot_order.take(k as int),
                    false,
                ).push(InstallStepModel { package: boot_order[k as int], setup: false }));
                assert(prev.push(InstallStepModel { package: boot_order[k as int], setup: false })
                    =~= after_setup + steps_of(boot_order.take(k + 1), false));
            }
            k = k + 1;
        }
        proof {
            assert(boot_order.take(boot_order.len() as int) =~= boot_order);
        }
    } else {
        proof {
            assert(steps_of(boot_order, true) =~= Seq::<InstallStepModel>::empty());
            assert(steps_of(boot_order, false) =~= Seq::<InstallStepModel>::empty());
        }
    }
    let ghost after_boot = steps.deep_view();
    proof {
        assert(after_boot =~= after_bash + steps_of(boot_order, true) + steps_of(
            boot_order,
            false,
        ));
    }
    let ordered = crate::dependencies::list(targets, &installed_now, available);
    let ghost target_order = ordered.deep_view();
    proof {
        assert(steps.deep_view() =~= after_boot + steps_of(target_order.take(0), false));
    }
    let mut k: usize = 0;
    while k < ordered.len()
        invariant
            k <= target_order.len(),
            target_order == ordered.deep_view(),
            target_order.len() == ordered@.len(),
            steps.deep_view() == after_boot + steps_of(target_order.take(k as int), false),
        decreases ordered@.len() - k,
    {
        let ghost prev = steps.deep_view();
        steps.push(InstallStep { package: ordered[k].duplicate(), setup: false });
        proof {
            assert(steps.deep_view() =~= prev.push(
                InstallStepModel { package: target_order[k as int], setup: false },
            ));
            assert(steps_of(target_order.take(k + 1), false) =~= steps_of(
                target_order.take(k as int),
                false,
            ).push(InstallStepModel { package: target_order[k as int], setup: false }));
            assert(prev.push(InstallStepModel { package: target_order[k as int], setup: false })
                =~= after_boot + steps_of(target_order.take(k + 1), false));
        }
        k = k + 1;
    }
    proof {
        assert(target_order.take(target_order.len() as int) =~= target_order);
        assert(steps.deep_view() =~= steps_of(bash_order, false) + steps_of(boot_order, true)
            + steps_of(boot_order, false) + steps_of(target_order, false));
    }
    Some(steps)
}

/// The packages of `targets` whose exact name and version are not
/// already installed: the ones an update must fetch.
pub fn update_plan(targets: &Vec<Package>, installed: &Vec<Package>) -> (r: Vec<Package>)
    ensures
        r.deep_view() == targets.deep_view().filter(
            |p: PackageModel| !present(installed.deep_view(), p),
        ),
{
    let ghost pred = |p: PackageModel| !present(installed.deep_view(), p);
    let mut out: Vec<Package> = Vec::new();
    proof {
        reveal(Seq::filter);
        assert(targets.deep_view().take(0) =~= Seq::<PackageModel>::empty());
        assert(out.deep_view() =~= targets.deep_view().take(0).filter(pred));
    }
    let mut i: usize = 0;
    while i < targets.len()
        invariant
            i <= targets@.len(),
            pred == (|p: PackageModel| !present(installed.deep_view(), p)),
            out.deep_view() == targets.deep_view().take(i as int).filter(pred),
        decreases targets@.len() - i,
    {
        let ghost prev = out.deep_view();
        let ghost gp = targets.deep_view()[i as int];
        if !crate::dependencies::contains_pkg(installed, &targets[i]) {
            out.push(targets[i].duplicate());
            proof {
                assert(out.deep_view() =~= prev.push(gp));
            }
        }
        proof {
            reveal(Seq::filter);
            assert(targets.deep_view().take(i + 1).drop_last() =~= targets.deep_view().take(
                i as int,
            ));
            assert(targets.deep_view().take(i + 1).last() == gp);
            assert(out.deep_view() =~= targets.deep_view().take(i + 1).filter(pred));
        }
        i = i + 1;
    }
    proof {
        assert(targets.deep_view().take(targets@.len() as int) =~= targets.deep_view());
    }
    out
}

} // verus!
