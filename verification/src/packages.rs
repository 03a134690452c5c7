//! The package record: its in-memory form, its one-line on-disk form, and
//! the parsing and formatting between the two.

use vstd::prelude::*;

use crate::errors::Error;
use crate::repositories::{Repository, RepositoryVersion};
use crate::text::{
    has_char, join_seq, join_str, lemma_join_no_char, lemma_join_split, lemma_split_join,
    split_seq, split_str, str_eq,
};
use crate::utils::Compression;

verus! {

/// The mathematical shape of a package record.
pub struct PackageModel {
    pub repository: Repository,
    pub names: Seq<Seq<char>>,
    pub version: Seq<char>,
    pub compression: Option<Compression>,
    pub arch: Option<Seq<char>>,
    pub dependencies: Option<Seq<Seq<char>>>,
}

/// One package record: the canonical name and its aliases, the version,
/// and the optional compression, architecture and dependency list.
#[derive(Debug)]
pub struct Package {
    pub repository: Repository,
    pub names: Vec<String>,
    pub version: String,
    pub compression: Option<Compression>,
    pub arch: Option<String>,
    pub dependencies: Option<Vec<String>>,
}

impl View for Package {
    type V = PackageModel;

    open spec fn view(&self) -> PackageModel {
        PackageModel {
            repository: self.repository,
            names: self.names.deep_view(),
            version: self.version@,
            compression: self.compression,
            arch: self.arch.deep_view(),
            dependencies: self.dependencies.deep_view(),
        }
    }
}

impl DeepView for Package {
    type V = PackageModel;

    open spec fn deep_view(&self) -> PackageModel {
        self.view()
    }
}

/// The separator between alternative names inside the name field.
pub open spec fn name_sep() -> Seq<char> {
    seq![',', ' ']
}

/// The separator between the fields of a record line.
pub open spec fn tab_sep() -> Seq<char> {
    seq!['\t']
}

/// The field that starts the dependency list.
pub open spec fn plus_field() -> Seq<char> {
    seq!['+']
}

/// The fields of a record line, in order: repository, names, version,
/// then optionally compression extension, architecture, and a `+` field
/// followed by the dependency tokens.
pub open spec fn fmt_fields(p: PackageModel) -> Seq<Seq<char>> {
    let base = seq![p.repository.spec_name(), join_seq(p.names, name_sep()), p.version];
    let with_comp = match p.compression {
        Some(c) => base.push(c.spec_extension()),
        None => base,
    };
    let with_arch = match p.arch {
        Some(a) => with_comp.push(a),
        None => with_comp,
    };
    match p.dependencies {
        Some(deps) => with_arch.push(plus_field()) + deps,
        None => with_arch,
    }
}

/// The one-line form of a record: its fields joined by tabs.
pub open spec fn fmt_line(p: PackageModel) -> Seq<char> {
    join_seq(fmt_fields(p), tab_sep())
}

/// The least index of a field equal to `x`, if any.
pub open spec fn first_index_eq(cols: Seq<Seq<char>>, x: Seq<char>) -> Option<int>
    decreases cols.len(),
{
    if cols.len() == 0 {
        None
    } else if cols[0] == x {
        Some(0)
    } else {
        match first_index_eq(cols.skip(1), x) {
            Some(i) => Some(i + 1),
            None => None,
        }
    }
}

/// `first_index_eq` returns the least index holding `x`, or `None` when no
/// field holds it.
pub proof fn lemma_first_index_eq(cols: Seq<Seq<char>>, x: Seq<char>)
    ensures
        match first_index_eq(cols, x) {
            Some(i) => 0 <= i < cols.len() && cols[i] == x && (forall|j: int|
                0 <= j < i ==> cols[j] != x),
            None => forall|j: int| 0 <= j < cols.len() ==> cols[j] != x,
        },
    decreases cols.len(),
{
    if cols.len() > 0 && cols[0] != x {
        lemma_first_index_eq(cols.skip(1), x);
        assert forall|j: int| 0 <= j < cols.skip(1).len() implies cols.skip(1)[j] == cols[j + 1] by {}
        match first_index_eq(cols.skip(1), x) {
            Some(i) => {
                assert(cols.skip(1)[i] == x);
                assert forall|j: int| 0 <= j < i + 1 implies cols[j] != x by {
                    if j > 0 {
                        assert(cols.skip(1)[j - 1] != x);
                    }
                }
            },
            None => {
                assert forall|j: int| 0 <= j < cols.len() implies cols[j] != x by {
                    if j > 0 {
                        assert(cols.skip(1)[j - 1] != x);
                    }
                }
            },
        }
    }
}

/// What the record grammar makes of a field sequence: at least three
/// fields, a known repository, a known compression extension if a fourth
/// field is present, the fifth field as architecture unless the dependency
/// marker claims it first, and everything after the first `+` field as
/// dependency tokens.
pub open spec fn parse_fields(cols: Seq<Seq<char>>) -> Option<PackageModel> {
    if cols.len() < 3 {
        None
    } else {
        match Repository::spec_from(cols[0]) {
            None => None,
            Some(repo) => {
                let compression = if cols.len() >= 4 {
                    Compression::spec_from_extension(cols[3])
                } else {
                    None
                };
                if cols.len() >= 4 && compression is None {
                    None
                } else {
                    let plus = first_index_eq(cols, plus_field());
                    Some(
                        PackageModel {
                            repository: repo,
                            names: split_seq(cols[1], name_sep()),
                            version: cols[2],
                            compression,
                            arch: if cols.len() >= 5 && (plus is None || plus->0 > 4) {
                                Some(cols[4])
                            } else {
                                None
                            },
                            dependencies: match plus {
                                Some(i) => Some(cols.skip(i + 1)),
                                None => None,
                            },
                        },
                    )
                }
            },
        }
    }
}

/// What the record grammar makes of a line: its tab-separated fields, parsed.
pub open spec fn parse_line(s: Seq<char>) -> Option<PackageModel> {
    parse_fields(split_seq(s, tab_sep()))
}

impl Package {
    /// The canonical name of this package: the first of its names.
    pub fn name(&self) -> (r: &str)
        requires
            self@.names.len() >= 1,
        ensures
            r@ == self@.names[0],
    {
        self.names[0].as_str()
    }

    /// Whether any of this package's names equals `name`.
    pub fn matches(&self, name: &str) -> (r: bool)
        ensures
            r == spec_matches(self@, name@),
    {
        let mut i: usize = 0;
        while i < self.names.len()
            invariant
                i <= self@.names.len(),
                self@.names.len() == self.names@.len(),
                forall|j: int| 0 <= j < i ==> self@.names[j] != name@,
        decreases self.names@.len() - i,
        {
            if str_eq(self.names[i].as_str(), name) {
                proof {
                    assert(self@.names[i as int] == name@);
                }
                return true;
            }
            i = i + 1;
        }
        false
    }

    /// A copy of this package, with the same model.
    pub fn duplicate(&self) -> (r: Package)
        ensures
            r@ == self@,
    {
        let r = Package {
            repository: self.repository,
            names: clone_string_vec(&self.names),
            version: self.version.clone(),
            compression: self.compression,
            arch: match &self.arch {
                Some(a) => Some(a.clone()),
                None => None,
            },
            dependencies: match &self.dependencies {
                Some(d) => Some(clone_string_vec(d)),
                None => None,
            },
        };
        proof {
            assert(r@.names =~= self@.names);
            assert(r@.arch =~= self@.arch);
            assert(r@.dependencies =~= self@.dependencies);
        }
        r
    }

    /// The one-line form of this record.
    pub fn to_line(&self) -> (r: String)
        ensures
            r@ == fmt_line(self@),
    {
        proof {
            reveal_strlit(", ");
            reveal_strlit("\t");
            reveal_strlit("+");
            assert((", ")@ =~= name_sep());
            assert(("\t")@ =~= tab_sep());
            assert(("+")@ =~= plus_field());
        }
        let mut cols: Vec<String> = Vec::new();
        cols.push(self.repository.name().to_owned());
        cols.push(join_str(&self.names, ", "));
        cols.push(self.version.clone());
        match &self.compression {
            Some(c) => {
                cols.push(c.extension().to_owned());
            },
            None => {},
        }
        match &self.arch {
            Some(a) => {
                cols.push(a.clone());
            },
            None => {},
        }
        let ghost with_arch = cols.deep_view();
        proof {
            assert(with_arch =~= {
                let base = seq![
                    self@.repository.spec_name(),
                    join_seq(self@.names, name_sep()),
                    self@.version,
                ];
                let with_comp = match self@.compression {
                    Some(c) => base.push(c.spec_extension()),
                    None => base,
                };
                match self@.arch {
                    Some(a) => with_comp.push(a),
                    None => with_comp,
                }
            });
        }
        match &self.dependencies {
            Some(deps) => {
                cols.push("+".to_owned());
                proof {
                    assert(cols.deep_view() =~= with_arch.push(plus_field()) + deps.deep_view().take(
                        0,
                    ));
                }
                let mut j: usize = 0;
                while j < deps.len()
                    invariant
                        j <= deps@.len(),
                        cols.deep_view() == with_arch.push(plus_field()) + deps.deep_view().take(
                            j as int,
                        ),
                    decreases deps@.len() - j,
                {
                    let ghost prev = cols.deep_view();
                    cols.push(deps[j].clone());
                    proof {
                        assert(cols.deep_view() =~= prev.push(deps@[j as int]@));
                        assert(deps.deep_view().take(j + 1) =~= deps.deep_view().take(j as int).push(
                            deps@[j as int]@,
                        ));
                        assert(cols.deep_view() =~= with_arch.push(plus_field())
                            + deps.deep_view().take(j + 1));
                    }
                    j = j + 1;
                }
                proof {
                    assert(deps.deep_view().take(deps@.len() as int) =~= deps.deep_view());
                    assert(cols.deep_view() =~= fmt_fields(self@));
                }
            },
            None => {
                proof {
                    assert(cols.deep_view() =~= fmt_fields(self@));
                }
            },
        }
        join_str(&cols, "\t")
    }

    /// Parses a record line; fails with `ParseError` exactly where the
    /// grammar rejects the line.
    pub fn try_from(value: &str) -> (r: Result<Package, Error>)
        ensures
            match r {
                Ok(p) => parse_line(value@) == Some(p@),
                Err(e) => e == Error::ParseError && parse_line(value@) is None,
            },
    {
        proof {
            reveal_strlit(", ");
            reveal_strlit("\t");
            reveal_strlit("+");
            assert((", ")@ =~= name_sep());
            assert(("\t")@ =~= tab_sep());
            assert(("+")@ =~= plus_field());
        }
        let cols = split_str(value, "\t");
        let ghost gcols = cols.deep_view();
        proof {
            assert(gcols == split_seq(value@, tab_sep()));
        }
        if cols.len() < 3 {
            return Err(Error::ParseError);
        }
        let repository = match Repository::from(cols[0].as_str()) {
            Some(r) => r,
            None => {
                return Err(Error::ParseError);
            },
        };
        let compression = if cols.len() >= 4 {
            match Compression::from_extension(cols[3].as_str()) {
                Some(c) => Some(c),
                None => {
                    return Err(Error::ParseError);
                },
            }
        } else {
            None
        };
        let names = split_str(cols[1].as_str(), ", ");
        let version = cols[2].clone();
        let mut plus_at: Option<usize> = None;
        let mut i: usize = 0;
        while i < cols.len() && plus_at.is_none()
            invariant
                i <= gcols.len(),
                gcols.len() == cols@.len(),
                gcols == cols.deep_view(),
                ("+")@ == plus_field(),
                match plus_at {
                    Some(k) => k < gcols.len() && gcols[k as int] == plus_field() && (forall|j: int|
                        0 <= j < k ==> gcols[j] != plus_field()),
                    None => forall|j: int| 0 <= j < i ==> gcols[j] != plus_field(),
                },
            decreases cols@.len() - i,
        {
            if str_eq(cols[i].as_str(), "+") {
                plus_at = Some(i);
            }
            i = i + 1;
        }
        proof {
            lemma_first_index_eq(gcols, plus_field());
            match plus_at {
                Some(k) => {
                    match first_index_eq(gcols, plus_field()) {
                        Some(f) => {
                            if f < k {
                                assert(gcols[f] != plus_field());
                            }
                            if k < f {
                                assert(gcols[k as int] != plus_field());
                            }
                        },
                        None => {
                            assert(gcols[k as int] != plus_field());
                        },
                    }
                    assert(first_index_eq(gcols, plus_field()) == Some(k as int));
                },
                None => {
                    match first_index_eq(gcols, plus_field()) {
                        Some(f) => {
                            assert(gcols[f] != plus_field());
                        },
                        None => {},
                    }
                    assert(first_index_eq(gcols, plus_field()) is None);
                },
            }
        }
        let arch = if cols.len() >= 5 && (match plus_at {
            None => true,
            Some(k) => k > 4,
        }) {
            Some(cols[4].clone())
        } else {
            None
        };
        let dependencies = match plus_at {
            Some(k) => {
                let mut deps: Vec<String> = Vec::new();
                proof {
                    assert(deps.deep_view() =~= gcols.subrange(k + 1, k + 1));
                }
                let mut j: usize = k + 1;
                while j < cols.len()
                    invariant
                        k < j <= gcols.len(),
                        gcols.len() == cols@.len(),
                        gcols == cols.deep_view(),
                        deps.deep_view() == gcols.subrange(k + 1, j as int),
                    decreases cols@.len() - j,
                {
                    let ghost prev = deps.deep_view();
                    deps.push(cols[j].clone());
                    proof {
                        assert(deps.deep_view() =~= prev.push(gcols[j as int]));
                        assert(gcols.subrange(k + 1, j + 1) =~= gcols.subrange(k + 1, j as int).push(
                            gcols[j as int],
                        ));
                    }
                    j = j + 1;
                }
                proof {
                    assert(deps.deep_view() =~= gcols.skip(k + 1));
                }
                Some(deps)
            },
            None => None,
        };
        let p = Package { repository, names, version, compression, arch, dependencies };
        proof {
            assert(p@.names == split_seq(gcols[1], name_sep()));
            assert(p@.arch =~= (if gcols.len() >= 5 && (first_index_eq(gcols, plus_field()) is None
                || first_index_eq(gcols, plus_field())->0 > 4) {
                Some(gcols[4])
            } else {
                None
            }));
            assert(p@.dependencies =~= (match first_index_eq(gcols, plus_field()) {
                Some(i) => Some(gcols.skip(i + 1)),
                None => None,
            }));
            assert(parse_fields(gcols) == Some(p@));
        }
        Ok(p)
    }
}

/// A field value that the line format can carry: free of tabs and newlines.
pub open spec fn wf_field(s: Seq<char>) -> bool {
    !has_char(s, '\t') && !has_char(s, '\n')
}

/// A record that the line format represents faithfully: at least one name,
/// every textual field free of tabs and newlines, no field that the parser
/// would mistake for the `+` marker, and an architecture or dependencies
/// only beside a compression.
pub open spec fn wf(p: PackageModel) -> bool {
    &&& p.names.len() >= 1
    &&& (forall|i: int| 0 <= i < p.names.len() ==> wf_field(#[trigger] p.names[i]))
    &&& !(p.names.len() == 1 && p.names[0] == plus_field())
    &&& wf_field(p.version)
    &&& p.version != plus_field()
    &&& (match p.arch {
        Some(a) => p.compression is Some && wf_field(a) && a != plus_field(),
        None => true,
    })
    &&& (match p.dependencies {
        Some(ds) => p.compression is Some && (forall|i: int|
            0 <= i < ds.len() ==> wf_field(#[trigger] ds[i])),
        None => true,
    })
}

/// The fixed strings of the format are tab- and newline-free, and none of
/// them is the `+` marker.
proof fn lemma_lit_facts()
    ensures
        wf_field("msys"@),
        wf_field("mingw64"@),
        wf_field("zst"@),
        wf_field("xz"@),
        wf_field("gz"@),
        "msys"@ != plus_field(),
        "mingw64"@ != plus_field(),
        "zst"@ != plus_field(),
        "xz"@ != plus_field(),
        "gz"@ != plus_field(),
        !has_char(name_sep(), '\t'),
        !has_char(name_sep(), '\n'),
        wf_field(plus_field()),
{
    reveal_strlit("msys");
    reveal_strlit("mingw64");
    reveal_strlit("zst");
    reveal_strlit("xz");
    reveal_strlit("gz");
    assert("msys"@ =~= seq!['m', 's', 'y', 's']);
    assert("mingw64"@ =~= seq!['m', 'i', 'n', 'g', 'w', '6', '4']);
    assert("zst"@ =~= seq!['z', 's', 't']);
    assert("xz"@ =~= seq!['x', 'z']);
    assert("gz"@ =~= seq!['g', 'z']);
    assert forall|k: int| 0 <= k < "msys"@.len() implies ("msys"@[k] != '\t' && "msys"@[k]
        != '\n') by {}
    assert forall|k: int| 0 <= k < "mingw64"@.len() implies ("mingw64"@[k] != '\t' && "mingw64"@[k]
        != '\n') by {}
    assert forall|k: int| 0 <= k < "zst"@.len() implies ("zst"@[k] != '\t' && "zst"@[k]
        != '\n') by {}
    assert forall|k: int| 0 <= k < "xz"@.len() implies ("xz"@[k] != '\t' && "xz"@[k] != '\n') by {}
    assert forall|k: int| 0 <= k < "gz"@.len() implies ("gz"@[k] != '\t' && "gz"@[k] != '\n') by {}
    assert forall|k: int| 0 <= k < name_sep().len() implies (name_sep()[k] != '\t' && name_sep()[k]
        != '\n') by {}
    assert forall|k: int| 0 <= k < plus_field().len() implies (plus_field()[k] != '\t'
        && plus_field()[k] != '\n') by {}
}

/// For a well-formed record, the joined name field is tab- and
/// newline-free and is not the `+` marker.
proof fn lemma_names_field(p: PackageModel)
    requires
        wf(p),
    ensures
        wf_field(join_seq(p.names, name_sep())),
        join_seq(p.names, name_sep()) != plus_field(),
{
    lemma_lit_facts();
    lemma_join_no_char(p.names, name_sep(), '\t');
    lemma_join_no_char(p.names, name_sep(), '\n');
    if p.names.len() == 1 {
        assert(join_seq(p.names, name_sep()) == p.names[0]);
    } else {
        assert(join_seq(p.names, name_sep()) == p.names[0] + name_sep() + join_seq(
            p.names.skip(1),
            name_sep(),
        ));
        assert(join_seq(p.names, name_sep()).len() >= 2);
        assert(plus_field().len() == 1);
    }
}

/// The record after one parse of its own line: the names resplit from
/// their joined form, everything else unchanged.
pub open spec fn normalized(p: PackageModel) -> PackageModel {
    PackageModel {
        repository: p.repository,
        names: split_seq(join_seq(p.names, name_sep()), name_sep()),
        version: p.version,
        compression: p.compression,
        arch: p.arch,
        dependencies: p.dependencies,
    }
}

/// Parsing the line of a well-formed record yields the record, with its
/// names resplit from their joined form.
pub proof fn lemma_parse_of_format(p: PackageModel)
    requires
        wf(p),
    ensures
        parse_line(fmt_line(p)) == Some(normalized(p)),
{
    lemma_lit_facts();
    lemma_names_field(p);
    crate::repositories::lemma_repository_name_round_trip(p.repository);
    let cols = fmt_fields(p);
    let namesf = join_seq(p.names, name_sep());
    let rname = p.repository.spec_name();
    assert(p.repository == Repository::Msys || p.repository == Repository::Mingw64);
    assert(wf_field(rname) && rname != plus_field());
    match (p.compression, p.arch, p.dependencies) {
        (None, None, None) => {
            assert(cols =~= seq![rname, namesf, p.version]);
            assert forall|k: int| 0 <= k < cols.len() implies !has_char(
                #[trigger] cols[k],
                '\t',
            ) by {}
            lemma_split_join(cols, '\t');
            assert(split_seq(fmt_line(p), tab_sep()) == cols);
            lemma_first_index_eq(cols, plus_field());
            match first_index_eq(cols, plus_field()) {
                Some(f) => {
                    assert(cols[f] == plus_field());
                    assert(false);
                },
                None => {},
            }
            assert(parse_fields(cols) == Some(normalized(p)));
        },
        (Some(c), None, None) => {
            crate::utils::lemma_extension_round_trip(c);
            assert(c == Compression::ZSTD || c == Compression::XZ || c == Compression::GZ);
            assert(wf_field(c.spec_extension()) && c.spec_extension() != plus_field());
            assert(cols =~= seq![rname, namesf, p.version, c.spec_extension()]);
            assert forall|k: int| 0 <= k < cols.len() implies !has_char(
                #[trigger] cols[k],
                '\t',
            ) by {}
            lemma_split_join(cols, '\t');
            assert(split_seq(fmt_line(p), tab_sep()) == cols);
            lemma_first_index_eq(cols, plus_field());
            match first_index_eq(cols, plus_field()) {
                Some(f) => {
                    assert(cols[f] == plus_field());
                    assert(false);
                },
                None => {},
            }
            assert(parse_fields(cols) == Some(normalized(p)));
        },
        (Some(c), Some(a), None) => {
            crate::utils::lemma_extension_round_trip(c);
            assert(c == Compression::ZSTD || c == Compression::XZ || c == Compression::GZ);
            assert(wf_field(c.spec_extension()) && c.spec_extension() != plus_field());
            assert(cols =~= seq![rname, namesf, p.version, c.spec_extension(), a]);
            assert forall|k: int| 0 <= k < cols.len() implies !has_char(
                #[trigger] cols[k],
                '\t',
            ) by {}
            lemma_split_join(cols, '\t');
            assert(split_seq(fmt_line(p), tab_sep()) == cols);
            lemma_first_index_eq(cols, plus_field());
            match first_index_eq(cols, plus_field()) {
                Some(f) => {
                    assert(cols[f] == plus_field());
                    assert(false);
                },
                None => {},
            }
            assert(parse_fields(cols) == Some(normalized(p)));
        },
        (Some(c), Some(a), Some(ds)) => {
            crate::utils::lemma_extension_round_trip(c);
            assert(c == Compression::ZSTD || c == Compression::XZ || c == Compression::GZ);
            assert(wf_field(c.spec_extension()) && c.spec_extension() != plus_field());
            let head = seq![rname, namesf, p.version, c.spec_extension(), a, plus_field()];
            assert(cols =~= head + ds);
            assert forall|k: int| 0 <= k < cols.len() implies !has_char(
                #[trigger] cols[k],
                '\t',
            ) by {
                if k >= 6 {
                    assert(cols[k] == ds[k - 6]);
                    assert(wf_field(ds[k - 6]));
                }
            }
            lemma_split_join(cols, '\t');
            assert(split_seq(fmt_line(p), tab_sep()) == cols);
            lemma_first_index_eq(cols, plus_field());
            assert(cols[5] == plus_field());
            match first_index_eq(cols, plus_field()) {
                Some(f) => {
                    if f < 5 {
                        assert(cols[f] == plus_field());
                        assert(false);
                    }
                    if f > 5 {
                        assert(cols[5] != plus_field());
                        assert(false);
                    }
                },
                None => {
                    assert(cols[5] != plus_field());
                    assert(false);
                },
            }
            assert(first_index_eq(cols, plus_field()) == Some(5int));
            assert(cols.skip(6) =~= ds);
            assert(parse_fields(cols) == Some(normalized(p)));
        },
        (Some(c), None, Some(ds)) => {
            crate::utils::lemma_extension_round_trip(c);
            assert(c == Compression::ZSTD || c == Compression::XZ || c == Compression::GZ);
            assert(wf_field(c.spec_extension()) && c.spec_extension() != plus_field());
            let head = seq![rname, namesf, p.version, c.spec_extension(), plus_field()];
            assert(cols =~= head + ds);
            assert forall|k: int| 0 <= k < cols.len() implies !has_char(
                #[trigger] cols[k],
                '\t',
            ) by {
                if k >= 5 {
                    assert(cols[k] == ds[k - 5]);
                    assert(wf_field(ds[k - 5]));
                }
            }
            lemma_split_join(cols, '\t');
            assert(split_seq(fmt_line(p), tab_sep()) == cols);
            lemma_first_index_eq(cols, plus_field());
            assert(cols[4] == plus_field());
            match first_index_eq(cols, plus_field()) {
                Some(f) => {
                    if f < 4 {
                        assert(cols[f] == plus_field());
                        assert(false);
                    }
                    if f > 4 {
                        assert(cols[4] != plus_field());
                        assert(false);
                    }
                },
                None => {
                    assert(cols[4] != plus_field());
                    assert(false);
                },
            }
            assert(first_index_eq(cols, plus_field()) == Some(4int));
            assert(cols.skip(5) =~= ds);
            assert(parse_fields(cols) == Some(normalized(p)));
        },
        _ => {
            assert(false);
        },
    }
}

/// Formatting, parsing, and formatting again reproduces the first
/// formatting: one normalization pass reaches a fixed point.
pub proof fn lemma_format_round_trip(p: PackageModel)
    requires
        wf(p),
    ensures
        parse_line(fmt_line(p)) is Some,
        fmt_line(parse_line(fmt_line(p))->0) == fmt_line(p),
{
    lemma_parse_of_format(p);
    let q = normalized(p);
    lemma_join_split(join_seq(p.names, name_sep()), name_sep());
    assert(join_seq(q.names, name_sep()) == join_seq(p.names, name_sep()));
    assert(fmt_fields(q) =~= fmt_fields(p));
}

/// A line in canonical form: the formatted image of some well-formed record.
pub open spec fn canonical_line(s: Seq<char>) -> bool {
    exists|p: PackageModel| wf(p) && s == fmt_line(p)
}

/// Parsing and reformatting a canonical line reproduces it exactly.
pub proof fn lemma_canonical_line_round_trip(s: Seq<char>)
    requires
        canonical_line(s),
    ensures
        parse_line(s) is Some,
        fmt_line(parse_line(s)->0) == s,
{
    let p = choose|p: PackageModel| wf(p) && s == fmt_line(p);
    lemma_format_round_trip(p);
}

/// Whether any of the package's names equals `name`.
pub open spec fn spec_matches(p: PackageModel, name: Seq<char>) -> bool {
    exists|i: int| 0 <= i < p.names.len() && p.names[i] == name
}

/// The first of the package's names, if it has any.
pub open spec fn first_name(p: PackageModel) -> Option<Seq<char>> {
    if p.names.len() >= 1 {
        Some(p.names[0])
    } else {
        None
    }
}

/// Package identity: the pair of canonical name and version. Repository,
/// compression, architecture and dependencies are metadata.
pub open spec fn pkg_eq(a: PackageModel, b: PackageModel) -> bool {
    first_name(a) == first_name(b) && a.version == b.version
}

impl PartialEq for Package {
    fn eq(&self, other: &Self) -> (r: bool) {
        let names_eq = if self.names.len() >= 1 && other.names.len() >= 1 {
            proof {
                assert(self@.names[0] == self.names@[0]@);
                assert(other@.names[0] == other.names@[0]@);
            }
            str_eq(self.names[0].as_str(), other.names[0].as_str())
        } else {
            self.names.len() == 0 && other.names.len() == 0
        };
        names_eq && str_eq(self.version.as_str(), other.version.as_str())
    }
}

impl vstd::std_specs::cmp::PartialEqSpecImpl for Package {
    open spec fn obeys_eq_spec() -> bool {
        true
    }

    open spec fn eq_spec(&self, other: &Self) -> bool {
        pkg_eq(self@, other@)
    }
}

impl Eq for Package {

}

/// The artifact URL of the package, derived only when both compression
/// and architecture are known.
pub open spec fn spec_url_of(p: PackageModel) -> Option<Seq<char>> {
    match (p.compression, p.arch) {
        (Some(c), Some(a)) => Some(
            p.repository.spec_url() + p.names[0] + "-"@ + p.version + "-"@ + a + ".pkg.tar."@
                + c.spec_extension(),
        ),
        _ => None,
    }
}

impl Package {
    /// The URL of this package's artifact, absent when compression or
    /// architecture is unknown.
    pub fn url(&self) -> (r: Option<String>)
        requires
            self@.names.len() >= 1,
        ensures
            r.deep_view() == spec_url_of(self@),
    {
        match (&self.compression, &self.arch) {
            (Some(c), Some(a)) => {
                let mut s = self.repository.url().to_owned();
                s.append(self.names[0].as_str());
                s.append("-");
                s.append(self.version.as_str());
                s.append("-");
                s.append(a.as_str());
                s.append(".pkg.tar.");
                s.append(c.extension());
                proof {
                    assert(self@.names[0] == self.names@[0]@);
                }
                Some(s)
            },
            _ => None,
        }
    }
}

/// A copy of a vector of strings, with the same elements.
pub fn clone_string_vec(v: &Vec<String>) -> (r: Vec<String>)
    ensures
        r@ == v@,
{
    let r = v.clone();
    proof {
        assert forall|i: int| 0 <= i < v@.len() implies r@[i] == v@[i] by {
            assert(cloned(v@[i], r@[i]));
        }
        assert(r@ =~= v@);
    }
    r
}

/// Names that the joined name field represents exactly: none contains the
/// name separator.
pub open spec fn canonical_names(p: PackageModel) -> bool {
    forall|i: int| 0 <= i < p.names.len() ==> !crate::text::spec_contains(
        #[trigger] p.names[i],
        name_sep(),
    )
}

/// Parsing the line of a well-formed record with canonical names yields
/// the record itself.
pub proof fn lemma_parse_of_format_exact(p: PackageModel)
    requires
        wf(p),
        canonical_names(p),
    ensures
        parse_line(fmt_line(p)) == Some(p),
{
    lemma_parse_of_format(p);
    assert(name_sep().len() == 2 && name_sep()[0] != name_sep()[1]);
    crate::text::lemma_split_join_pair(p.names, name_sep());
}

/// The records parsed from a sequence of record lines; nothing when any
/// line is malformed.
pub open spec fn parse_record_lines(ls: Seq<Seq<char>>) -> Option<Seq<PackageModel>>
    decreases ls.len(),
{
    if ls.len() == 0 {
        Some(Seq::empty())
    } else {
        match parse_line(ls[0]) {
            None => None,
            Some(p) => match parse_record_lines(ls.skip(1)) {
                None => None,
                Some(rest) => Some(seq![p] + rest),
            },
        }
    }
}

/// Parsing a concatenation of record lines parses the two parts in turn.
pub proof fn lemma_parse_record_lines_concat(ls1: Seq<Seq<char>>, ls2: Seq<Seq<char>>)
    requires
        parse_record_lines(ls1) is Some,
        parse_record_lines(ls2) is Some,
    ensures
        parse_record_lines(ls1 + ls2) == Some(
            parse_record_lines(ls1)->0 + parse_record_lines(ls2)->0,
        ),
    decreases ls1.len(),
{
    if ls1.len() == 0 {
        assert(ls1 + ls2 =~= ls2);
        assert(parse_record_lines(ls1)->0 + parse_record_lines(ls2)->0 =~= parse_record_lines(
            ls2,
        )->0);
    } else {
        lemma_parse_record_lines_concat(ls1.skip(1), ls2);
        assert((ls1 + ls2)[0] == ls1[0]);
        assert((ls1 + ls2).skip(1) =~= ls1.skip(1) + ls2);
        let m = parse_line(ls1[0])->0;
        let r1 = parse_record_lines(ls1.skip(1))->0;
        let r2 = parse_record_lines(ls2)->0;
        assert(parse_record_lines(ls1 + ls2) == Some(seq![m] + (r1 + r2)));
        assert(seq![m] + (r1 + r2) =~= (seq![m] + r1) + r2);
    }
}

/// The lines of well-formed records parse to the records, each taken
/// through one normalization pass.
pub proof fn lemma_record_lines_of_list(ps: Seq<PackageModel>)
    requires
        forall|l: int| 0 <= l < ps.len() ==> wf(#[trigger] ps[l]),
    ensures
        parse_record_lines(ps.map_values(|p: PackageModel| fmt_line(p))) == Some(
            ps.map_values(|p: PackageModel| normalized(p)),
        ),
    decreases ps.len(),
{
    let f = |p: PackageModel| fmt_line(p);
    let g = |p: PackageModel| normalized(p);
    if ps.len() == 0 {
        assert(ps.map_values(f) =~= Seq::<Seq<char>>::empty());
        assert(ps.map_values(g) =~= Seq::<PackageModel>::empty());
    } else {
        lemma_record_lines_of_list(ps.skip(1));
        lemma_parse_of_format(ps[0]);
        assert(ps.map_values(f)[0] == fmt_line(ps[0]));
        assert(ps.map_values(f).skip(1) =~= ps.skip(1).map_values(f));
        assert(parse_record_lines(ps.map_values(f)) == Some(
            seq![normalized(ps[0])] + ps.skip(1).map_values(g),
        ));
        assert(seq![normalized(ps[0])] + ps.skip(1).map_values(g) =~= ps.map_values(g));
    }
}

/// The records of a catalog text: every line after the first, parsed.
pub open spec fn records_of_text(text: Seq<char>) -> Option<Seq<PackageModel>> {
    let ls = crate::text::lines_of(text);
    if ls.len() == 0 {
        Some(Seq::empty())
    } else {
        parse_record_lines(ls.skip(1))
    }
}

/// The records of a catalog file: its bytes decompressed, decoded as
/// UTF-8, and read line by line.
pub open spec fn catalog_models_of(data: Seq<u8>) -> Option<Seq<PackageModel>> {
    match crate::utils::zstd_decoded(data) {
        None => None,
        Some(bytes) => if vstd::utf8::valid_utf8(bytes) {
            records_of_text(vstd::utf8::decode_utf8(bytes))
        } else {
            None
        },
    }
}

/// A repository version together with the package records of that
/// repository's section of the catalog.
#[derive(Debug)]
pub struct Packages {
    pub version: RepositoryVersion,
    pub list: Vec<Package>,
}

/// The mathematical shape of one repository's catalog section.
pub struct PackagesModel {
    pub version: crate::repositories::RepositoryVersionModel,
    pub list: Seq<PackageModel>,
}

impl View for Packages {
    type V = PackagesModel;

    open spec fn view(&self) -> PackagesModel {
        PackagesModel { version: self.version@, list: self.list.deep_view() }
    }
}

impl DeepView for Packages {
    type V = PackagesModel;

    open spec fn deep_view(&self) -> PackagesModel {
        self.view()
    }
}

impl Packages {
    /// Bundles a repository version with its package list.
    pub fn create(version: RepositoryVersion, packages: Vec<Package>) -> (r: Packages)
        ensures
            r.version == version,
            r.list == packages,
    {
        Packages { version, list: packages }
    }

    /// Reads a catalog from the bytes of its file: decompresses, decodes,
    /// skips the header line, and parses every record line. Fails with
    /// `IOError` where the bytes cannot be decompressed or decoded, and
    /// with `ParseError` where a record line is malformed.
    pub fn get_packages_from_file(data: &[u8]) -> (r: Result<Vec<Package>, Error>)
        ensures
            match r {
                Ok(ps) => catalog_models_of(data@) == Some(ps.deep_view()),
                Err(e) => catalog_models_of(data@) is None && (e == Error::IOError || e
                    == Error::ParseError),
            },
    {
        let bytes = match Compression::ZSTD.decompress(data) {
            Ok(b) => b,
            Err(_) => {
                return Err(Error::IOError);
            },
        };
        let text = match crate::utils::bytes_to_string(bytes) {
            Some(t) => t,
            None => {
                return Err(Error::IOError);
            },
        };
        let lines = crate::text::split_lines(text.as_str());
        let ghost ls = crate::text::lines_of(text@);
        let mut out: Vec<Package> = Vec::new();
        if lines.len() == 0 {
            return Ok(out);
        }
        let mut i: usize = 1;
        while i < lines.len()
            invariant
                1 <= i <= ls.len(),
                ls.len() == lines@.len(),
                ls == lines.deep_view(),
                catalog_models_of(data@) == parse_record_lines(ls.skip(1)),
                parse_record_lines(ls.skip(1)) == (match parse_record_lines(ls.skip(i as int)) {
                    None => None::<Seq<PackageModel>>,
                    Some(rest) => Some(out.deep_view() + rest),
                }),
            decreases lines@.len() - i,
        {
            let p = match Package::try_from(lines[i].as_str()) {
                Ok(p) => p,
                Err(_) => {
                    proof {
                        assert(ls[i as int] == lines@[i as int]@);
                        assert(ls.skip(i as int)[0] == ls[i as int]);
                        assert(parse_record_lines(ls.skip(i as int)) is None);
                    }
                    return Err(Error::ParseError);
                },
            };
            let ghost prev = out.deep_view();
            out.push(p);
            proof {
                assert(out.deep_view() =~= prev.push(p@));
                assert(ls.skip(i as int)[0] == ls[i as int]);
                assert(ls.skip(i as int).skip(1) =~= ls.skip(i + 1));
                match parse_record_lines(ls.skip(i + 1)) {
                    None => {},
                    Some(rest) => {
                        assert(prev + (seq![p@] + rest) =~= out.deep_view() + rest);
                    },
                }
            }
            i = i + 1;
        }
        proof {
            assert(ls.skip(ls.len() as int) =~= Seq::<Seq<char>>::empty());
            assert(parse_record_lines(ls.skip(ls.len() as int)) == Some(
                Seq::<PackageModel>::empty(),
            ));
            assert(out.deep_view() + Seq::<PackageModel>::empty() =~= out.deep_view());
        }
        Ok(out)
    }
}

} // verus!
