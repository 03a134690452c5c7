//! The listing and search reports that the top-level commands print.

use vstd::prelude::*;

use crate::packages::{spec_matches, Package, PackageModel};
use crate::text::{
    lemma_str_le_antisym, lemma_str_le_refl, lemma_str_le_total, lemma_str_le_trans, spec_contains,
    spec_starts_with, spec_str_le, starts_with_str, str_eq, str_le,
};

verus! {

/// One report line of a record: its canonical name, a space, its version.
pub open spec fn spec_report_line(p: PackageModel) -> Seq<char> {
    p.names[0] + seq![' '] + p.version
}

/// The first record matching the name, if any.
pub open spec fn spec_first_matching(ps: Seq<PackageModel>, name: Seq<char>) -> Option<PackageModel>
    decreases ps.len(),
{
    if ps.len() == 0 {
        None
    } else if spec_matches(ps[0], name) {
        Some(ps[0])
    } else {
        spec_first_matching(ps.skip(1), name)
    }
}

/// The report of the queried installed packages: for each queried name
/// in order, the line of the first installed record matching it.
pub open spec fn spec_installed_report(ps: Seq<PackageModel>, names: Seq<Seq<char>>) -> Seq<
    Seq<char>,
>
    decreases names.len(),
{
    if names.len() == 0 {
        Seq::empty()
    } else {
        let head: Seq<Seq<char>> = match spec_first_matching(ps, names[0]) {
            Some(p) => seq![spec_report_line(p)],
            None => Seq::empty(),
        };
        head + spec_installed_report(ps, names.skip(1))
    }
}

/// A first matching record matches the name and has at least one name.
proof fn lemma_first_matching(ps: Seq<PackageModel>, name: Seq<char>)
    ensures
        match spec_first_matching(ps, name) {
            Some(p) => spec_matches(p, name) && p.names.len() >= 1,
            None => true,
        },
    decreases ps.len(),
{
    if ps.len() > 0 && !spec_matches(ps[0], name) {
        lemma_first_matching(ps.skip(1), name);
    }
}

/// One report line of a record.
fn report_line(p: &Package) -> (r: String)
    requires
        p@.names.len() >= 1,
    ensures
        r@ == spec_report_line(p@),
{
    proof {
        reveal_strlit(" ");
        assert((" ")@ =~= seq![' ']);
    }
    let mut s = p.names[0].clone();
    s.append(" ");
    s.append(p.version.as_str());
    proof {
        assert(p@.names[0] == p.names@[0]@);
    }
    s
}

/// The first record matching the name, if any.
fn first_matching<'a>(ps: &'a Vec<Package>, name: &str) -> (r: Option<&'a Package>)
    ensures
        match r {
            Some(p) => spec_first_matching(ps.deep_view(), name@) == Some(p@),
            None => spec_first_matching(ps.deep_view(), name@) is None,
        },
{
    let ghost gps = ps.deep_view();
    let mut i: usize = 0;
    proof {
        assert(gps.skip(0) =~= gps);
    }
    while i < ps.len()
        invariant
            i <= gps.len(),
            gps.len() == ps@.len(),
            gps == ps.deep_view(),
            spec_first_matching(gps, name@) == spec_first_matching(gps.skip(i as int), name@),
        decreases ps@.len() - i,
    {
        proof {
            assert(gps.skip(i as int)[0] == gps[i as int]);
            assert(gps.skip(i as int).skip(1) =~= gps.skip(i + 1));
        }
        if ps[i].matches(name) {
            return Some(&ps[i]);
        }
        i = i + 1;
    }
    proof {
        assert(gps.skip(i as int).len() == 0);
    }
    None
}

/// The report of the queried installed packages, one line per matched
/// name, in query order.
pub fn list_installed_packages(installed: &Vec<Package>, names: &Vec<String>) -> (r: Vec<String>)
    ensures
        r.deep_view() == spec_installed_report(installed.deep_view(), names.deep_view()),
{
    let ghost gps = installed.deep_view();
    let ghost gnames = names.deep_view();
    let mut out: Vec<String> = Vec::new();
    let mut i: usize = 0;
    proof {
        assert(gnames.skip(0) =~= gnames);
        assert(out.deep_view() + spec_installed_report(gps, gnames.skip(0)) =~= spec_installed_report(
            gps,
            gnames,
        ));
    }
    while i < names.len()
        invariant
            i <= gnames.len(),
            gnames.len() == names@.len(),
            gnames == names.deep_view(),
            gps == installed.deep_view(),
            spec_installed_report(gps, gnames) == out.deep_view() + spec_installed_report(
                gps,
                gnames.skip(i as int),
            ),
        decreases names@.len() - i,
    {
        let ghost prev = out.deep_view();
        proof {
            assert(gnames.skip(i as int)[0] == gnames[i as int]);
            assert(gnames.skip(i as int).skip(1) =~= gnames.skip(i + 1));
            assert(gnames[i as int] == names@[i as int]@);
        }
        match first_matching(installed, names[i].as_str()) {
            Some(p) => {
                proof {
                    lemma_first_matching(gps, gnames[i as int]);
                }
                let line = report_line(p);
                out.push(line);
                proof {
                    assert(out.deep_view() =~= prev.push(
                        spec_report_line(spec_first_matching(gps, gnames[i as int])->0),
                    ));
                    assert(prev + (seq![
                        spec_report_line(spec_first_matching(gps, gnames[i as int])->0),
                    ] + spec_installed_report(gps, gnames.skip(i + 1))) =~= out.deep_view()
                        + spec_installed_report(gps, gnames.skip(i + 1)));
                }
            },
            None => {
                proof {
                    assert(Seq::<Seq<char>>::empty() + spec_installed_report(
                        gps,
                        gnames.skip(i + 1),
                    ) =~= spec_installed_report(gps, gnames.skip(i + 1)));
                }
            },
        }
        i = i + 1;
    }
    proof {
        assert(gnames.skip(gnames.len() as int).len() == 0);
        assert(spec_installed_report(gps, gnames.skip(gnames.len() as int)) =~= Seq::<
            Seq<char>,
        >::empty());
        assert(out.deep_view() + Seq::<Seq<char>>::empty() =~= out.deep_view());
    }
    out
}

/// The report of every installed package, one line each, in catalog
/// order.
pub fn list_all_installed_packages(installed: &Vec<Package>) -> (r: Vec<String>)
    requires
        forall|k: int| 0 <= k < installed@.len() ==> (#[trigger] installed.deep_view()[k]).names.len()
            >= 1,
    ensures
        r.deep_view() == installed.deep_view().map_values(|p: PackageModel| spec_report_line(p)),
{
    let ghost gps = installed.deep_view();
    let mut out: Vec<String> = Vec::new();
    let mut i: usize = 0;
    proof {
        assert(out.deep_view() =~= gps.take(0).map_values(|p: PackageModel| spec_report_line(p)));
    }
    while i < installed.len()
        invariant
            i <= gps.len(),
            gps.len() == installed@.len(),
            gps == installed.deep_view(),
            forall|k: int| 0 <= k < gps.len() ==> (#[trigger] gps[k]).names.len() >= 1,
            out.deep_view() == gps.take(i as int).map_values(
                |p: PackageModel| spec_report_line(p),
            ),
        decreases installed@.len() - i,
    {
        let ghost prev = out.deep_view();
        proof {
            assert(gps[i as int].names.len() >= 1);
            assert(gps[i as int] == installed@[i as int]@);
        }
        let line = report_line(&installed[i]);
        out.push(line);
        proof {
            assert(out.deep_view() =~= prev.push(spec_report_line(gps[i as int])));
            assert(gps.take(i + 1).map_values(|p: PackageModel| spec_report_line(p)) =~= gps.take(
                i as int,
            ).map_values(|p: PackageModel| spec_report_line(p)).push(
                spec_report_line(gps[i as int]),
            ));
        }
        i = i + 1;
    }
    proof {
        assert(gps.take(gps.len() as int) =~= gps);
    }
    out
}

/// The score one term contributes to a name: an exact match counts
/// eight, a name starting with the term four, one starting with `lib`
/// and the term two, any other occurrence one.
pub open spec fn spec_term_score(name: Seq<char>, term: Seq<char>) -> int {
    if name == term {
        8
    } else if spec_starts_with(name, term) {
        4
    } else if spec_starts_with(name, "lib"@ + term) {
        2
    } else if spec_contains(name, term) {
        1
    } else {
        0
    }
}

/// The score of a name over all search terms: the sum of the terms'
/// contributions.
pub open spec fn spec_score(name: Seq<char>, terms: Seq<Seq<char>>) -> int
    decreases terms.len(),
{
    if terms.len() == 0 {
        0
    } else {
        spec_term_score(name, terms[0]) + spec_score(name, terms.skip(1))
    }
}

/// The score of a package's canonical name over the search terms.
pub fn package_score(package: &Package, terms: &Vec<String>) -> (r: u16)
    requires
        package@.names.len() >= 1,
        terms@.len() <= 0x1fff,
    ensures
        r as int == spec_score(package@.names[0], terms.deep_view()),
{
    proof {
        reveal_strlit("lib");
    }
    let ghost gname = package@.names[0];
    let ghost gterms = terms.deep_view();
    let name = package.name();
    let mut score: u16 = 0;
    let mut i: usize = 0;
    proof {
        assert(gterms.skip(0) =~= gterms);
    }
    while i < terms.len()
        invariant
            i <= gterms.len(),
            gterms.len() == terms@.len(),
            gterms == terms.deep_view(),
            gterms.len() <= 0x1fff,
            name@ == gname,
            ("lib")@ == "lib"@,
            score as int + spec_score(gname, gterms.skip(i as int)) == spec_score(gname, gterms),
            score <= 8 * i,
        decreases terms@.len() - i,
    {
        proof {
            assert(gterms.skip(i as int)[0] == gterms[i as int]);
            assert(gterms.skip(i as int).skip(1) =~= gterms.skip(i + 1));
            assert(gterms[i as int] == terms@[i as int]@);
            lemma_term_score_bounds(gname, gterms[i as int]);
        }
        let term = &terms[i];
        let contribution: u16 = if str_eq(name, term.as_str()) {
            8
        } else if starts_with_str(name, term.as_str()) {
            4
        } else {
            let mut libterm = "lib".to_owned();
            libterm.append(term.as_str());
            if starts_with_str(name, libterm.as_str()) {
                2
            } else {
                proof {
                    if term@.len() == 0 {
                        assert(name@.subrange(0, 0) =~= term@);
                        assert(spec_starts_with(name@, term@));
                    }
                }
                if crate::text::contains_str(name, term.as_str()) {
                    1
                } else {
                    0
                }
            }
        };
        score = score + contribution;
        i = i + 1;
    }
    proof {
        assert(gterms.skip(gterms.len() as int).len() == 0);
    }
    score
}

/// Every term contributes between nothing and eight.
proof fn lemma_term_score_bounds(name: Seq<char>, term: Seq<char>)
    ensures
        0 <= spec_term_score(name, term) <= 8,
{
}

/// One search result: a matched package and its score.
#[derive(Debug)]
pub struct SearchHit {
    pub score: u16,
    pub package: Package,
}

/// The mathematical shape of a search result.
pub struct SearchHitModel {
    pub score: int,
    pub package: PackageModel,
}

impl View for SearchHit {
    type V = SearchHitModel;

    open spec fn view(&self) -> SearchHitModel {
        SearchHitModel { score: self.score as int, package: self.package@ }
    }
}

impl DeepView for SearchHit {
    type V = SearchHitModel;

    open spec fn deep_view(&self) -> SearchHitModel {
        self.view()
    }
}

/// The packages whose names score above zero, paired with their scores,
/// in catalog order.
pub fn search_hits(packages: &Vec<Package>, terms: &Vec<String>) -> (r: Vec<SearchHit>)
    requires
        forall|k: int| 0 <= k < packages@.len() ==> (#[trigger] packages.deep_view()[k]).names.len()
            >= 1,
        terms@.len() <= 0x1fff,
    ensures
        r.deep_view() == packages.deep_view().filter(
            |p: PackageModel| spec_score(p.names[0], terms.deep_view()) > 0,
        ).map_values(
            |p: PackageModel| SearchHitModel {
                score: spec_score(p.names[0], terms.deep_view()),
                package: p,
            },
        ),
        forall|k: int|
            0 <= k < r@.len() ==> (#[trigger] r.deep_view()[k]).package.names.len() >= 1,
{
    let ghost gps = packages.deep_view();
    let ghost gterms = terms.deep_view();
    let ghost pred = |p: PackageModel| spec_score(p.names[0], gterms) > 0;
    let ghost tohit = |p: PackageModel|
        SearchHitModel { score: spec_score(p.names[0], gterms), package: p };
    let mut out: Vec<SearchHit> = Vec::new();
    proof {
        reveal(Seq::filter);
        assert(gps.take(0) =~= Seq::<PackageModel>::empty());
        assert(out.deep_view() =~= gps.take(0).filter(pred).map_values(tohit));
    }
    let mut i: usize = 0;
    while i < packages.len()
        invariant
            i <= gps.len(),
            gps.len() == packages@.len(),
            gps == packages.deep_view(),
            gterms == terms.deep_view(),
            gterms.len() <= 0x1fff,
            forall|k: int| 0 <= k < gps.len() ==> (#[trigger] gps[k]).names.len() >= 1,
            pred == (|p: PackageModel| spec_score(p.names[0], gterms) > 0),
            tohit == (|p: PackageModel|
                SearchHitModel { score: spec_score(p.names[0], gterms), package: p }),
            out.deep_view() == gps.take(i as int).filter(pred).map_values(tohit),
            forall|k: int|
                0 <= k < out@.len() ==> (#[trigger] out.deep_view()[k]).package.names.len() >= 1,
        decreases packages@.len() - i,
    {
        let ghost prev = out.deep_view();
        proof {
            assert(gps[i as int].names.len() >= 1);
            assert(gps[i as int] == packages@[i as int]@);
        }
        let score = package_score(&packages[i], terms);
        if score > 0 {
            out.push(SearchHit { score, package: packages[i].duplicate() });
            proof {
                assert(out.deep_view() =~= prev.push(tohit(gps[i as int])));
            }
        }
        proof {
            reveal(Seq::filter);
            assert(gps.take(i + 1).drop_last() =~= gps.take(i as int));
            assert(gps.take(i + 1).last() == gps[i as int]);
            assert(gps.take(i + 1).filter(pred).map_values(tohit) =~= (if pred(gps[i as int]) {
                gps.take(i as int).filter(pred).map_values(tohit).push(tohit(gps[i as int]))
            } else {
                gps.take(i as int).filter(pred).map_values(tohit)
            }));
            assert(out.deep_view() =~= gps.take(i + 1).filter(pred).map_values(tohit));
        }
        i = i + 1;
    }
    proof {
        assert(gps.take(gps.len() as int) =~= gps);
    }
    out
}

/// Whether hit `a` may stand no later than hit `b` in the printed
/// order: the higher score first; equal scores by canonical name and
/// then version, from last to first.
pub open spec fn spec_hit_ordered(a: SearchHitModel, b: SearchHitModel) -> bool {
    if a.score != b.score {
        a.score > b.score
    } else if a.package.names[0] != b.package.names[0] {
        spec_str_le(b.package.names[0], a.package.names[0])
    } else {
        spec_str_le(b.package.version, a.package.version)
    }
}

/// The printed order relates any two hits, one way or the other.
proof fn lemma_hit_ordered_total(a: SearchHitModel, b: SearchHitModel)
    ensures
        spec_hit_ordered(a, b) || spec_hit_ordered(b, a),
{
    if a.score == b.score {
        lemma_str_le_total(a.package.names[0], b.package.names[0]);
        if a.package.names[0] == b.package.names[0] {
            lemma_str_le_total(a.package.version, b.package.version);
        } else if spec_str_le(a.package.names[0], b.package.names[0]) && spec_str_le(
            b.package.names[0],
            a.package.names[0],
        ) {
            lemma_str_le_antisym(a.package.names[0], b.package.names[0]);
        }
    }
}

/// The printed order is reflexive.
proof fn lemma_hit_ordered_refl(a: SearchHitModel)
    ensures
        spec_hit_ordered(a, a),
{
    lemma_str_le_refl(a.package.version);
}

/// The printed order is transitive.
proof fn lemma_hit_ordered_trans(a: SearchHitModel, b: SearchHitModel, c: SearchHitModel)
    requires
        spec_hit_ordered(a, b),
        spec_hit_ordered(b, c),
    ensures
        spec_hit_ordered(a, c),
{
    if a.score == b.score && b.score == c.score {
        let na = a.package.names[0];
        let nb = b.package.names[0];
        let nc = c.package.names[0];
        if na == nb && nb == nc {
            lemma_str_le_trans(c.package.version, b.package.version, a.package.version);
        } else if na != nb && nb != nc {
            lemma_str_le_trans(nc, nb, na);
            if na == nc {
                lemma_str_le_antisym(nb, na);
            }
        }
    }
}

/// Whether hit `a` may stand no later than hit `b` in the printed order.
fn hit_ordered(a: &SearchHit, b: &SearchHit) -> (r: bool)
    requires
        a@.package.names.len() >= 1,
        b@.package.names.len() >= 1,
    ensures
        r == spec_hit_ordered(a@, b@),
{
    proof {
        assert(a@.package.names[0] == a.package.names@[0]@);
        assert(b@.package.names[0] == b.package.names@[0]@);
    }
    if a.score != b.score {
        a.score > b.score
    } else {
        let an = a.package.names[0].as_str();
        let bn = b.package.names[0].as_str();
        if !str_eq(an, bn) {
            str_le(bn, an)
        } else {
            str_le(b.package.version.as_str(), a.package.version.as_str())
        }
    }
}

/// Orders the hits as the search command prints them: the same hits, by
/// descending score, equal scores by descending package order, the first
/// of equals staying first.
fn sort_hits(v: Vec<SearchHit>) -> (r: Vec<SearchHit>)
    requires
        forall|k: int|
            0 <= k < v@.len() ==> (#[trigger] v.deep_view()[k]).package.names.len() >= 1,
    ensures
        r.deep_view().to_multiset() == v.deep_view().to_multiset(),
        forall|i: int, j: int|
            0 <= i < j < r@.len() ==> spec_hit_ordered(r.deep_view()[i], r.deep_view()[j]),
{
    broadcast use vstd::seq_lib::group_to_multiset_ensures;

    let ghost gv = v.deep_view();
    let mut rest = v;
    let mut out: Vec<SearchHit> = Vec::new();
    proof {
        assert(out.deep_view() =~= Seq::<SearchHitModel>::empty());
        assert(out.deep_view().to_multiset().add(rest.deep_view().to_multiset())
            =~= gv.to_multiset());
    }
    while rest.len() > 0
        invariant
            forall|k: int|
                0 <= k < rest@.len() ==> (#[trigger] rest.deep_view()[k]).package.names.len() >= 1,
            forall|k: int|
                0 <= k < out@.len() ==> (#[trigger] out.deep_view()[k]).package.names.len() >= 1,
            out.deep_view().to_multiset().add(rest.deep_view().to_multiset()) == gv.to_multiset(),
            forall|i: int, j: int|
                0 <= i < j < out@.len() ==> spec_hit_ordered(
                    out.deep_view()[i],
                    out.deep_view()[j],
                ),
            forall|i: int, k: int|
                0 <= i < out@.len() && 0 <= k < rest@.len() ==> spec_hit_ordered(
                    #[trigger] out.deep_view()[i],
                    #[trigger] rest.deep_view()[k],
                ),
        decreases rest@.len(),
    {
        let mut best: usize = 0;
        let mut k: usize = 1;
        proof {
            lemma_hit_ordered_refl(rest.deep_view()[0]);
        }
        while k < rest.len()
            invariant
                best < k <= rest@.len(),
                rest@.len() >= 1,
                forall|m: int|
                    0 <= m < rest@.len() ==> (#[trigger] rest.deep_view()[m]).package.names.len()
                        >= 1,
                forall|m: int|
                    0 <= m < k ==> spec_hit_ordered(
                        rest.deep_view()[best as int],
                        #[trigger] rest.deep_view()[m],
                    ),
            decreases rest@.len() - k,
        {
            let strictly_before = hit_ordered(&rest[k], &rest[best]) && !hit_ordered(
                &rest[best],
                &rest[k],
            );
            if strictly_before {
                proof {
                    lemma_hit_ordered_refl(rest.deep_view()[k as int]);
                    assert forall|m: int| 0 <= m < k + 1 implies spec_hit_ordered(
                        rest.deep_view()[k as int],
                        #[trigger] rest.deep_view()[m],
                    ) by {
                        if m < k {
                            lemma_hit_ordered_trans(
                                rest.deep_view()[k as int],
                                rest.deep_view()[best as int],
                                rest.deep_view()[m],
                            );
                        }
                    }
                }
                best = k;
            } else {
                proof {
                    lemma_hit_ordered_total(
                        rest.deep_view()[best as int],
                        rest.deep_view()[k as int],
                    );
                }
            }
            k = k + 1;
        }
        let ghost grest = rest.deep_view();
        let ghost gout = out.deep_view();
        let picked = rest.remove(best);
        let ghost gpicked = picked@;
        out.push(picked);
        proof {
            gout.to_multiset_ensures();
            grest.to_multiset_ensures();
            assert(gpicked == grest[best as int]);
            assert(rest.deep_view() =~= grest.remove(best as int));
            assert(out.deep_view() =~= gout.push(gpicked));
            assert(grest.contains(grest[best as int]));
            assert(gout.push(gpicked).to_multiset() =~= gout.to_multiset().insert(gpicked));
            assert(grest.remove(best as int).to_multiset() =~= grest.to_multiset().remove(
                grest[best as int],
            ));
            assert(out.deep_view().to_multiset() == gout.to_multiset().insert(gpicked));
            assert(rest.deep_view().to_multiset() == grest.to_multiset().remove(gpicked));
            assert(out.deep_view().to_multiset().add(rest.deep_view().to_multiset())
                =~= gv.to_multiset());
            assert forall|i: int, k2: int|
                0 <= i < out@.len() && 0 <= k2 < rest@.len() implies spec_hit_ordered(
                #[trigger] out.deep_view()[i],
                #[trigger] rest.deep_view()[k2],
            ) by {
                let old_k = if k2 < best { k2 } else { k2 + 1 };
                assert(rest.deep_view()[k2] == grest[old_k]);
                if i < gout.len() {
                    assert(spec_hit_ordered(gout[i], grest[old_k]));
                } else {
                    assert(out.deep_view()[i] == gpicked);
                    assert(spec_hit_ordered(grest[best as int], grest[old_k]));
                }
            }
            assert forall|i: int, j: int|
                0 <= i < j < out@.len() implies spec_hit_ordered(
                out.deep_view()[i],
                out.deep_view()[j],
            ) by {
                if j == out@.len() - 1 {
                    assert(out.deep_view()[j] == gpicked);
                    assert(spec_hit_ordered(gout[i], grest[best as int]));
                }
            }
        }
    }
    out
}

/// The search results ordered as the search command prints them: the
/// hits of the scored packages, by descending score, equal scores by
/// descending package order.
pub fn search_results(packages: &Vec<Package>, terms: &Vec<String>) -> (r: Vec<SearchHit>)
    requires
        forall|k: int| 0 <= k < packages@.len() ==> (#[trigger] packages.deep_view()[k]).names.len()
            >= 1,
        terms@.len() <= 0x1fff,
    ensures
        r.deep_view().to_multiset() == packages.deep_view().filter(
            |p: PackageModel| spec_score(p.names[0], terms.deep_view()) > 0,
        ).map_values(
            |p: PackageModel| SearchHitModel {
                score: spec_score(p.names[0], terms.deep_view()),
                package: p,
            },
        ).to_multiset(),
        forall|i: int, j: int|
            0 <= i < j < r@.len() ==> spec_hit_ordered(r.deep_view()[i], r.deep_view()[j]),
{
    let hits = search_hits(packages, terms);
    sort_hits(hits)
}

} // verus!
