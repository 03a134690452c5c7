//! The dependency resolver: a cycle-tolerant ordering of packages such
//! that dependencies come before their dependents.

use vstd::prelude::*;

use crate::available_packages::latest_version;
use crate::packages::{pkg_eq, Package, PackageModel};
use crate::text::str_eq;

verus! {

/// The characters that may follow a dependency name as a version
/// constraint operator.
pub open spec fn spec_operator_char(c: char) -> bool {
    c == '=' || c == '>' || c == '~' || c == '#' || c == '*'
}

/// The longest prefix of a dependency token free of operator characters.
pub open spec fn spec_dep_prefix(s: Seq<char>) -> Seq<char>
    decreases s.len(),
{
    if s.len() == 0 {
        s
    } else if spec_operator_char(s[0]) {
        Seq::empty()
    } else {
        seq![s[0]] + spec_dep_prefix(s.skip(1))
    }
}

/// The package name inside a dependency token: the part before any
/// version constraint, with `sh` standing for `bash`.
pub open spec fn spec_dependency_name(s: Seq<char>) -> Seq<char> {
    if spec_dep_prefix(s) == "sh"@ {
        "bash"@
    } else {
        spec_dep_prefix(s)
    }
}

/// The prefix before the first operator character is the token up to
/// that position.
proof fn lemma_dep_prefix(s: Seq<char>, i: int)
    requires
        0 <= i <= s.len(),
        forall|j: int| 0 <= j < i ==> !spec_operator_char(s[j]),
        i == s.len() || spec_operator_char(s[i]),
    ensures
        spec_dep_prefix(s) == s.take(i),
    decreases s.len(),
{
    if s.len() == 0 {
        assert(s.take(i) =~= s);
    } else if i == 0 {
        assert(s.take(0) =~= Seq::<char>::empty());
    } else {
        assert(!spec_operator_char(s[0]));
        lemma_dep_prefix(s.skip(1), i - 1);
        assert(s.skip(1).take(i - 1) =~= s.take(i).skip(1));
        assert(seq![s[0]] + s.take(i).skip(1) =~= s.take(i));
    }
}

/// Whether the character is a version constraint operator.
fn char_is_op(c: char) -> (r: bool)
    ensures
        r == spec_operator_char(c),
{
    c == '=' || c == '>' || c == '~' || c == '#' || c == '*'
}

/// The package name inside a dependency token: the part before any
/// version constraint, with `sh` standing for `bash`.
pub fn dependency_name(name_with_optional_version: &str) -> (r: String)
    ensures
        r@ == spec_dependency_name(name_with_optional_version@),
{
    let s = name_with_optional_version;
    let n = s.unicode_len();
    let mut i: usize = 0;
    while i < n && !char_is_op(s.get_char(i))
        invariant
            i <= n,
            n == s@.len(),
            forall|j: int| 0 <= j < i ==> !spec_operator_char(s@[j]),
        decreases n - i,
    {
        i = i + 1;
    }
    proof {
        lemma_dep_prefix(s@, i as int);
    }
    let prefix = s.substring_char(0, i);
    proof {
        reveal_strlit("sh");
        reveal_strlit("bash");
    }
    if str_eq(prefix, "sh") {
        "bash".to_owned()
    } else {
        prefix.to_owned()
    }
}

/// The package name inside a dependency token, without the `sh` remap.
pub fn dependency_prefix(name_with_optional_version: &str) -> (r: String)
    ensures
        r@ == spec_dep_prefix(name_with_optional_version@),
{
    let s = name_with_optional_version;
    let n = s.unicode_len();
    let mut i: usize = 0;
    while i < n && !char_is_op(s.get_char(i))
        invariant
            i <= n,
            n == s@.len(),
            forall|j: int| 0 <= j < i ==> !spec_operator_char(s@[j]),
        decreases n - i,
    {
        i = i + 1;
    }
    proof {
        lemma_dep_prefix(s@, i as int);
    }
    s.substring_char(0, i).to_owned()
}

/// The dependency names that a `.PKGINFO` text declares: the value of
/// each `depend = token` line, the token's version constraint stripped.
pub open spec fn spec_pkginfo_deps(lines: Seq<Seq<char>>) -> Seq<Seq<char>>
    decreases lines.len(),
{
    if lines.len() == 0 {
        Seq::empty()
    } else {
        let parts = crate::text::split_seq(lines[0], " = "@);
        let head: Seq<Seq<char>> = if parts.len() == 2 && parts[0] == "depend"@ {
            seq![spec_dep_prefix(parts[1])]
        } else {
            Seq::empty()
        };
        head + spec_pkginfo_deps(lines.skip(1))
    }
}

/// The dependency names that a `.PKGINFO` text declares.
pub fn pkginfo_dependencies(text: &str) -> (r: Vec<String>)
    ensures
        r.deep_view() == spec_pkginfo_deps(crate::text::lines_of(text@)),
{
    proof {
        reveal_strlit(" = ");
        reveal_strlit("depend");
    }
    let lines = crate::text::split_lines(text);
    let ghost glines = crate::text::lines_of(text@);
    let mut out: Vec<String> = Vec::new();
    let mut i: usize = 0;
    proof {
        assert(glines.skip(0) =~= glines);
        assert(out.deep_view() + spec_pkginfo_deps(glines.skip(0)) =~= spec_pkginfo_deps(glines));
    }
    while i < lines.len()
        invariant
            i <= glines.len(),
            glines.len() == lines@.len(),
            glines == lines.deep_view(),
            (" = ")@.len() == 3,
            spec_pkginfo_deps(glines) == out.deep_view() + spec_pkginfo_deps(
                glines.skip(i as int),
            ),
        decreases lines@.len() - i,
    {
        let ghost prev = out.deep_view();
        proof {
            assert(glines.skip(i as int)[0] == glines[i as int]);
            assert(glines.skip(i as int).skip(1) =~= glines.skip(i + 1));
            assert(glines[i as int] == lines@[i as int]@);
        }
        let parts = crate::text::split_str(lines[i].as_str(), " = ");
        if parts.len() == 2 && str_eq(parts[0].as_str(), "depend") {
            let dep = dependency_prefix(parts[1].as_str());
            out.push(dep);
            proof {
                let gparts = crate::text::split_seq(glines[i as int], " = "@);
                assert(parts.deep_view()[1] == gparts[1]);
                assert(out.deep_view() =~= prev.push(spec_dep_prefix(gparts[1])));
                assert(prev + (seq![spec_dep_prefix(gparts[1])] + spec_pkginfo_deps(
                    glines.skip(i + 1),
                )) =~= out.deep_view() + spec_pkginfo_deps(glines.skip(i + 1)));
            }
        } else {
            proof {
                assert(Seq::<Seq<char>>::empty() + spec_pkginfo_deps(glines.skip(i + 1))
                    =~= spec_pkginfo_deps(glines.skip(i + 1)));
            }
        }
        i = i + 1;
    }
    proof {
        assert(glines.skip(glines.len() as int).len() == 0);
        assert(spec_pkginfo_deps(glines.skip(glines.len() as int)) =~= Seq::<Seq<char>>::empty());
        assert(out.deep_view() + Seq::<Seq<char>>::empty() =~= out.deep_view());
    }
    out
}

/// Whether some record in `s` has the identity of `x`.
pub open spec fn present(s: Seq<PackageModel>, x: PackageModel) -> bool {
    exists|j: int| 0 <= j < s.len() && pkg_eq(s[j], x)
}

/// Whether `x` is one of the records of `s`.
pub open spec fn one_of(s: Seq<PackageModel>, x: PackageModel) -> bool {
    exists|j: int| 0 <= j < s.len() && s[j] == x
}

/// Whether `d` is what some dependency token of `p` resolves to: the
/// latest available record of the token's name.
pub open spec fn resolved_dependency(
    available: Seq<PackageModel>,
    p: PackageModel,
    d: PackageModel,
) -> bool {
    &&& p.dependencies is Some
    &&& exists|t: int, i: int|
        {
            &&& 0 <= t < p.dependencies->0.len()
            &&& #[trigger] crate::available_packages::is_latest_at(
                available,
                spec_dependency_name(#[trigger] p.dependencies->0[t]),
                i,
            )
            &&& d == available[i]
        }
}

/// Whether `x` may stand in the resolver's output beside the roots: it
/// is what some record's dependency token resolves to, and it is not
/// already installed.
pub open spec fn dependency_sourced(
    available: Seq<PackageModel>,
    installed: Seq<PackageModel>,
    x: PackageModel,
) -> bool {
    (exists|p: PackageModel| resolved_dependency(available, p, x)) && !present(installed, x)
}

/// Whether some record in the vector has the identity of `p`.
pub fn contains_pkg(v: &Vec<Package>, p: &Package) -> (r: bool)
    ensures
        r == present(v.deep_view(), p@),
{
    let mut i: usize = 0;
    while i < v.len()
        invariant
            i <= v@.len(),
            forall|j: int| 0 <= j < i ==> !pkg_eq(v.deep_view()[j], p@),
        decreases v@.len() - i,
    {
        if &v[i] == p {
            proof {
                assert(pkg_eq(v.deep_view()[i as int], p@));
            }
            return true;
        }
        i = i + 1;
    }
    false
}

/// Moves `dep` to the front of the queue, removing any other record with
/// its identity: every identity present before stays present.
fn promote_front(deque: &mut Vec<Package>, dep: Package)
    ensures
        final(deque)@.len() >= 1,
        final(deque).deep_view()[0] == dep@,
        forall|x: PackageModel|
            #[trigger] present(old(deque).deep_view(), x) ==> present(final(deque).deep_view(), x),
        forall|k: int|
            0 <= k < final(deque)@.len() ==> #[trigger] final(deque).deep_view()[k] == dep@
                || one_of(old(deque).deep_view(), final(deque).deep_view()[k]),
{
    let ghost gold = deque.deep_view();
    let mut fresh: Vec<Package> = Vec::new();
    let ghost gdep = dep@;
    fresh.push(dep);
    proof {
        assert(fresh.deep_view()[0] == gdep);
    }
    let mut i: usize = 0;
    while i < deque.len()
        invariant
            i <= gold.len(),
            gold.len() == deque@.len(),
            gold == deque.deep_view(),
            fresh@.len() >= 1,
            fresh.deep_view()[0] == gdep,
            forall|j: int|
                0 <= j < i ==> pkg_eq(gold[j], gdep) || (exists|k: int|
                    0 <= k < fresh.deep_view().len() && fresh.deep_view()[k] == gold[j]),
            forall|k: int|
                0 <= k < fresh@.len() ==> #[trigger] fresh.deep_view()[k] == gdep || one_of(
                    gold,
                    fresh.deep_view()[k],
                ),
        decreases deque@.len() - i,
    {
        let keep = !(&deque[i] == &fresh[0]);
        let ghost prevdeep = fresh.deep_view();
        proof {
            assert(gold[i as int] == deque@[i as int]@);
        }
        if keep {
            fresh.push(deque[i].duplicate());
            proof {
                assert(fresh.deep_view() =~= prevdeep.push(gold[i as int]));
                assert(one_of(gold, gold[i as int]));
                assert forall|j: int|
                    0 <= j < i + 1 implies pkg_eq(gold[j], gdep) || (exists|k: int|
                    0 <= k < fresh.deep_view().len() && fresh.deep_view()[k] == gold[j]) by {
                    if j == i {
                        assert(fresh.deep_view()[prevdeep.len() as int] == gold[j]);
                    } else if !pkg_eq(gold[j], gdep) {
                        let k = choose|k: int| 0 <= k < prevdeep.len() && prevdeep[k] == gold[j];
                        assert(fresh.deep_view()[k] == gold[j]);
                    }
                }
            }
        } else {
            proof {
                assert(pkg_eq(gold[i as int], gdep));
            }
        }
        i = i + 1;
    }
    proof {
        assert forall|x: PackageModel| #[trigger] present(gold, x) implies present(
            fresh.deep_view(),
            x,
        ) by {
            let j = choose|j: int| 0 <= j < gold.len() && pkg_eq(gold[j], x);
            if pkg_eq(gold[j], gdep) {
                assert(pkg_eq(fresh.deep_view()[0], x));
            } else {
                let k = choose|k: int|
                    0 <= k < fresh.deep_view().len() && fresh.deep_view()[k] == gold[j];
                assert(pkg_eq(fresh.deep_view()[k], x));
            }
        }
    }
    *deque = fresh;
}

/// The count of declared dependencies of a record, the sort key of the
/// resolver's front insertion.
fn dep_count(p: &Package) -> (r: usize)
    ensures
        r == (match p@.dependencies {
            Some(ds) => ds.len(),
            None => 0,
        }),
{
    match &p.dependencies {
        Some(ds) => ds.len(),
        None => 0,
    }
}

/// Reorders records by descending count of declared dependencies,
/// keeping the first of equals first; every record of the result is one
/// of the given records.
fn sort_by_dep_count(v: Vec<Package>) -> (r: Vec<Package>)
    ensures
        forall|k: int| 0 <= k < r@.len() ==> one_of(v.deep_view(), #[trigger] r.deep_view()[k]),
{
    let ghost gv = v.deep_view();
    let mut rest = v;
    let mut out: Vec<Package> = Vec::new();
    proof {
        assert forall|k: int| 0 <= k < rest@.len() implies one_of(
            gv,
            #[trigger] rest.deep_view()[k],
        ) by {}
    }
    while rest.len() > 0
        invariant
            forall|k: int| 0 <= k < rest@.len() ==> one_of(gv, #[trigger] rest.deep_view()[k]),
            forall|k: int| 0 <= k < out@.len() ==> one_of(gv, #[trigger] out.deep_view()[k]),
        decreases rest@.len(),
    {
        let mut best: usize = 0;
        let mut best_count = dep_count(&rest[0]);
        let mut k: usize = 1;
        while k < rest.len()
            invariant
                best < k <= rest@.len(),
                rest@.len() >= 1,
            decreases rest@.len() - k,
        {
            let c = dep_count(&rest[k]);
            if c > best_count {
                best = k;
                best_count = c;
            }
            k = k + 1;
        }
        let ghost grest = rest.deep_view();
        let ghost gout = out.deep_view();
        let picked = rest.remove(best);
        let ghost gpicked = picked@;
        out.push(picked);
        proof {
            assert(gpicked == grest[best as int]);
            assert(out.deep_view() =~= gout.push(gpicked));
            assert forall|j: int| 0 <= j < rest@.len() implies one_of(
                gv,
                #[trigger] rest.deep_view()[j],
            ) by {
                if j < best {
                    assert(rest.deep_view()[j] == grest[j]);
                } else {
                    assert(rest.deep_view()[j] == grest[j + 1]);
                }
            }
        }
    }
    out
}

/// The packages of `roots`, each preceded by its still-missing
/// dependencies as far as they resolve without cycling. The output holds
/// no two records of one identity, each root's identity appears, and
/// every record is either one of the roots, or a resolved dependency of
/// some record that is not already installed.
pub fn list(roots: &Vec<Package>, installed_packages: &Vec<Package>, available_packages: &Vec<
    Package,
>) -> (r: Vec<Package>)
    ensures
        forall|i: int, j: int|
            0 <= i < j < r@.len() ==> !pkg_eq(r.deep_view()[i], r.deep_view()[j]),
        forall|i: int|
            0 <= i < roots@.len() ==> present(r.deep_view(), #[trigger] roots.deep_view()[i]),
        forall|k: int|
            0 <= k < r@.len() ==> one_of(roots.deep_view(), #[trigger] r.deep_view()[k])
                || dependency_sourced(
                available_packages.deep_view(),
                installed_packages.deep_view(),
                r.deep_view()[k],
            ),
{
    let ghost groots = roots.deep_view();
    let ghost ginstalled = installed_packages.deep_view();
    let ghost gavail = available_packages.deep_view();
    let mut deque: Vec<Package> = Vec::new();
    let mut i: usize = 0;
    while i < roots.len()
        invariant
            i <= groots.len(),
            groots == roots.deep_view(),
            deque.deep_view() =~= groots.take(i as int),
        decreases roots@.len() - i,
    {
        let ghost prev = deque.deep_view();
        deque.push(roots[i].duplicate());
        proof {
            assert(deque.deep_view() =~= prev.push(groots[i as int]));
            assert(groots.take(i + 1) =~= groots.take(i as int).push(groots[i as int]));
        }
        i = i + 1;
    }
    proof {
        assert(groots.take(groots.len() as int) =~= groots);
        assert forall|i2: int| 0 <= i2 < groots.len() implies present(
            deque.deep_view(),
            #[trigger] groots[i2],
        ) by {
            assert(pkg_eq(deque.deep_view()[i2], groots[i2]));
        }
    }
    let mut processed: Vec<Package> = Vec::new();
    let mut snapshots: Vec<String> = Vec::new();
    let mut fuel: u64 = u64::MAX;
    while deque.len() > 0
        invariant
            groots == roots.deep_view(),
            ginstalled == installed_packages.deep_view(),
            gavail == available_packages.deep_view(),
            forall|a: int, b: int|
                0 <= a < b < processed@.len() ==> !pkg_eq(
                    processed.deep_view()[a],
                    processed.deep_view()[b],
                ),
            forall|i2: int|
                0 <= i2 < groots.len() ==> present(deque.deep_view(), #[trigger] groots[i2])
                    || present(processed.deep_view(), #[trigger] groots[i2]),
            forall|k: int|
                0 <= k < deque@.len() ==> one_of(groots, #[trigger] deque.deep_view()[k])
                    || dependency_sourced(gavail, ginstalled, deque.deep_view()[k]),
            forall|k: int|
                0 <= k < processed@.len() ==> one_of(groots, #[trigger] processed.deep_view()[k])
                    || dependency_sourced(gavail, ginstalled, processed.deep_view()[k]),
        decreases fuel, deque@.len(),
    {
        let missing = missing_dependencies(
            &deque[0],
            installed_packages,
            &processed,
            available_packages,
        );
        let snapshot = snapshot_of(&deque);
        let fresh_snapshot = insert_if_new(&mut snapshots, snapshot);
        if fresh_snapshot && missing.len() > 0 && fuel > 0 {
            let ghost gmissing = missing.deep_view();
            let sorted = sort_by_dep_count(missing);
            proof {
                assert forall|m: int|
                    0 <= m < sorted@.len() implies dependency_sourced(
                    gavail,
                    ginstalled,
                    #[trigger] sorted.deep_view()[m],
                ) by {
                    let im = choose|im: int|
                        0 <= im < gmissing.len() && gmissing[im] == sorted.deep_view()[m];
                    assert(dependency_sourced(gavail, ginstalled, gmissing[im]));
                }
            }
            let mut d: usize = 0;
            while d < sorted.len()
                invariant
                    d <= sorted@.len(),
                    groots == roots.deep_view(),
                    ginstalled == installed_packages.deep_view(),
                    gavail == available_packages.deep_view(),
                    forall|i2: int|
                        0 <= i2 < groots.len() ==> present(deque.deep_view(), #[trigger] groots[i2])
                            || present(processed.deep_view(), #[trigger] groots[i2]),
                    forall|m: int|
                        0 <= m < sorted@.len() ==> dependency_sourced(
                            gavail,
                            ginstalled,
                            #[trigger] sorted.deep_view()[m],
                        ),
                    forall|k: int|
                        0 <= k < deque@.len() ==> one_of(groots, #[trigger] deque.deep_view()[k])
                            || dependency_sourced(gavail, ginstalled, deque.deep_view()[k]),
                decreases sorted@.len() - d,
            {
                let ghost gbefore = deque.deep_view();
                promote_front(&mut deque, sorted[d].duplicate());
                proof {
                    assert forall|k: int|
                        0 <= k < deque@.len() implies one_of(
                        groots,
                        #[trigger] deque.deep_view()[k],
                    ) || dependency_sourced(gavail, ginstalled, deque.deep_view()[k]) by {
                        if deque.deep_view()[k] == sorted.deep_view()[d as int] {
                            assert(dependency_sourced(
                                gavail,
                                ginstalled,
                                sorted.deep_view()[d as int],
                            ));
                        } else {
                            let j = choose|j: int|
                                0 <= j < gbefore.len() && gbefore[j] == deque.deep_view()[k];
                            assert(one_of(groots, gbefore[j]) || dependency_sourced(
                                gavail,
                                ginstalled,
                                gbefore[j],
                            ));
                        }
                    }
                }
                d = d + 1;
            }
            fuel = fuel - 1;
        } else {
            let ghost gdeque = deque.deep_view();
            let front = deque.remove(0);
            proof {
                assert(front@ == gdeque[0]);
                assert forall|j: int|
                    0 <= j < deque@.len() implies deque.deep_view()[j] == gdeque[j + 1] by {}
            }
            let ghost gprocessed = processed.deep_view();
            let keep = !contains_pkg(&processed, &front);
            if keep {
                processed.push(front);
                proof {
                    assert(processed.deep_view() =~= gprocessed.push(gdeque[0]));
                }
            }
            proof {
                assert forall|i2: int| 0 <= i2 < groots.len() implies present(
                    deque.deep_view(),
                    #[trigger] groots[i2],
                ) || present(processed.deep_view(), #[trigger] groots[i2]) by {
                    if present(gdeque, groots[i2]) {
                        let j = choose|j: int| 0 <= j < gdeque.len() && pkg_eq(gdeque[j], groots[i2]);
                        if j == 0 {
                            if keep {
                                assert(pkg_eq(
                                    processed.deep_view()[processed@.len() - 1],
                                    groots[i2],
                                ));
                            } else {
                                let k = choose|k: int|
                                    0 <= k < gprocessed.len() && pkg_eq(gprocessed[k], gdeque[0]);
                                assert(pkg_eq(processed.deep_view()[k], groots[i2]));
                            }
                        } else {
                            assert(pkg_eq(deque.deep_view()[j - 1], groots[i2]));
                        }
                    } else if present(gprocessed, groots[i2]) {
                        let k = choose|k: int|
                            0 <= k < gprocessed.len() && pkg_eq(gprocessed[k], groots[i2]);
                        assert(pkg_eq(processed.deep_view()[k], groots[i2]));
                    }
                }
            }
        }
    }
    processed
}

/// The still-missing dependencies of a record: each dependency token's
/// package, as far as it is available and neither installed nor already
/// processed.
fn missing_dependencies(
    package: &Package,
    installed_packages: &Vec<Package>,
    processed: &Vec<Package>,
    available_packages: &Vec<Package>,
) -> (r: Vec<Package>)
    ensures
        forall|k: int|
            0 <= k < r@.len() ==> resolved_dependency(
                available_packages.deep_view(),
                package@,
                #[trigger] r.deep_view()[k],
            ) && !present(installed_packages.deep_view(), r.deep_view()[k]),
{
    let mut missing: Vec<Package> = Vec::new();
    match &package.dependencies {
        None => {},
        Some(tokens) => {
            let mut t: usize = 0;
            while t < tokens.len()
                invariant
                    t <= tokens@.len(),
                    package@.dependencies == Some(tokens.deep_view()),
                    forall|k: int|
                        0 <= k < missing@.len() ==> resolved_dependency(
                            available_packages.deep_view(),
                            package@,
                            #[trigger] missing.deep_view()[k],
                        ) && !present(installed_packages.deep_view(), missing.deep_view()[k]),
                decreases tokens@.len() - t,
            {
                let name = dependency_name(tokens[t].as_str());
                match latest_version(name.as_str(), available_packages) {
                    None => {},
                    Some(dep) => {
                        if !contains_pkg(installed_packages, dep) && !contains_pkg(
                            processed,
                            dep,
                        ) {
                            let ghost prev = missing.deep_view();
                            missing.push(dep.duplicate());
                            proof {
                                assert(missing.deep_view() =~= prev.push(dep@));
                                let i = choose|i: int|
                                    crate::available_packages::is_latest_at(
                                        available_packages.deep_view(),
                                        name@,
                                        i,
                                    ) && dep == &available_packages[i];
                                assert(available_packages.deep_view()[i] == dep@);
                                assert(package@.dependencies->0[t as int] == tokens@[t as int]@);
                                assert(name@ == spec_dependency_name(
                                    package@.dependencies->0[t as int],
                                ));
                                assert(resolved_dependency(
                                    available_packages.deep_view(),
                                    package@,
                                    dep@,
                                ));
                            }
                        }
                    },
                }
                t = t + 1;
            }
        },
    }
    missing
}

/// The queue's state as one string: the canonical names of its records,
/// joined by the name separator.
fn snapshot_of(deque: &Vec<Package>) -> (r: String)
{
    let mut names: Vec<String> = Vec::new();
    let mut i: usize = 0;
    while i < deque.len()
        decreases deque@.len() - i,
    {
        if deque[i].names.len() > 0 {
            names.push(deque[i].names[0].clone());
        }
        i = i + 1;
    }
    crate::text::join_str(&names, ", ")
}

/// Records the snapshot if it is new; says whether it was.
fn insert_if_new(snapshots: &mut Vec<String>, snapshot: String) -> (r: bool)
{
    let mut i: usize = 0;
    while i < snapshots.len()
        decreases snapshots@.len() - i,
    {
        if str_eq(snapshots[i].as_str(), snapshot.as_str()) {
            return false;
        }
        i = i + 1;
    }
    snapshots.push(snapshot);
    true
}

} // verus!
