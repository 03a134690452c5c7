//! The installed-packages store: reading the catalog, appending a record,
//! and replacing the records of a package by name.

use vstd::prelude::*;

use crate::errors::Error;
use crate::packages::{
    canonical_names, catalog_models_of, fmt_line, lemma_parse_of_format_exact, normalized,
    parse_line, parse_record_lines, records_of_text, spec_matches, wf, Package, PackageModel,
    Packages,
};
use crate::text::{
    join_seq, join_str, lemma_join_no_char, lemma_split_append, lemma_split_nonempty, lines_of,
    split_lines, split_seq, split_str,
};

verus! {

/// Reads the installed catalog from the bytes of its file; an unreadable
/// or malformed file yields the empty set.
pub fn get_packages(data: &[u8]) -> (r: Vec<Package>)
    ensures
        match catalog_models_of(data@) {
            Some(ms) => r.deep_view() == ms,
            None => r@.len() == 0,
        },
{
    match Packages::get_packages_from_file(data) {
        Ok(ps) => ps,
        Err(_) => Vec::new(),
    }
}

/// The text of the installed catalog after appending one record: a
/// newline, then the record's line.
pub fn append_package(catalog: &str, package: &Package) -> (r: String)
    ensures
        r@ == catalog@ + seq!['\n'] + fmt_line(package@),
{
    proof {
        reveal_strlit("\n");
        assert(("\n")@ =~= seq!['\n']);
    }
    let mut s = catalog.to_owned();
    s.append("\n");
    let line = package.to_line();
    s.append(line.as_str());
    s
}

/// A catalog text that the append protocol produces: either empty, or
/// with a nonempty final line, and with every record line well-formed.
pub open spec fn wf_catalog_text(catalog: Seq<char>) -> bool {
    &&& records_of_text(catalog) is Some
    &&& (catalog.len() == 0 || split_seq(catalog, seq!['\n']).last() != Seq::<char>::empty())
}

/// The formatted line of a well-formed record is nonempty and free of
/// newlines.
pub proof fn lemma_fmt_line_plain(p: PackageModel)
    requires
        wf(p),
    ensures
        !crate::text::has_char(fmt_line(p), '\n'),
        fmt_line(p).len() >= 1,
{
    let cols = crate::packages::fmt_fields(p);
    let rname = p.repository.spec_name();
    reveal_strlit("msys");
    reveal_strlit("mingw64");
    assert(p.repository == crate::repositories::Repository::Msys || p.repository
        == crate::repositories::Repository::Mingw64);
    assert(rname.len() >= 4) by {
        assert("msys"@.len() == 4);
        assert("mingw64"@.len() == 7);
    }
    assert forall|k: int| 0 <= k < cols.len() implies !crate::text::has_char(
        #[trigger] cols[k],
        '\n',
    ) by {
        lemma_fmt_fields_no_newline(p, k);
    }
    assert forall|k: int| 0 <= k < seq!['\t'].len() implies seq!['\t'][k] != '\n' by {}
    assert(!crate::text::has_char(seq!['\t'], '\n'));
    lemma_join_no_char(cols, seq!['\t'], '\n');
    assert(cols[0] == rname);
    if cols.len() == 1 {
        assert(fmt_line(p) == rname);
    } else {
        assert(fmt_line(p) == cols[0] + seq!['\t'] + join_seq(cols.skip(1), seq!['\t']));
    }
}

/// Each field of a well-formed record's line is free of newlines.
proof fn lemma_fmt_fields_no_newline(p: PackageModel, k: int)
    requires
        wf(p),
        0 <= k < crate::packages::fmt_fields(p).len(),
    ensures
        !crate::text::has_char(crate::packages::fmt_fields(p)[k], '\n'),
{
    let cols = crate::packages::fmt_fields(p);
    let rname = p.repository.spec_name();
    let namesf = join_seq(p.names, crate::packages::name_sep());
    reveal_strlit("msys");
    reveal_strlit("mingw64");
    reveal_strlit("zst");
    reveal_strlit("xz");
    reveal_strlit("gz");
    assert(p.repository == crate::repositories::Repository::Msys || p.repository
        == crate::repositories::Repository::Mingw64);
    assert("msys"@ =~= seq!['m', 's', 'y', 's']);
    assert("mingw64"@ =~= seq!['m', 'i', 'n', 'g', 'w', '6', '4']);
    assert("zst"@ =~= seq!['z', 's', 't']);
    assert("xz"@ =~= seq!['x', 'z']);
    assert("gz"@ =~= seq!['g', 'z']);
    assert forall|j: int| 0 <= j < rname.len() implies rname[j] != '\n' by {}
    assert(!crate::text::has_char(rname, '\n'));
    assert forall|j: int| 0 <= j < crate::packages::name_sep().len() implies
        crate::packages::name_sep()[j] != '\n' by {}
    assert(!crate::text::has_char(crate::packages::name_sep(), '\n'));
    lemma_join_no_char(p.names, crate::packages::name_sep(), '\n');
    assert forall|j: int| 0 <= j < crate::packages::plus_field().len() implies
        crate::packages::plus_field()[j] != '\n' by {}
    assert(!crate::text::has_char(crate::packages::plus_field(), '\n'));
    match p.compression {
        Some(c) => {
            assert(c == crate::utils::Compression::ZSTD || c == crate::utils::Compression::XZ || c
                == crate::utils::Compression::GZ);
            assert forall|j: int| 0 <= j < c.spec_extension().len() implies c.spec_extension()[j]
                != '\n' by {}
            assert(!crate::text::has_char(c.spec_extension(), '\n'));
        },
        None => {},
    }
    match (p.compression, p.arch, p.dependencies) {
        (None, None, None) => {
            assert(cols =~= seq![rname, namesf, p.version]);
        },
        (Some(c), None, None) => {
            assert(cols =~= seq![rname, namesf, p.version, c.spec_extension()]);
        },
        (Some(c), Some(a), None) => {
            assert(cols =~= seq![rname, namesf, p.version, c.spec_extension(), a]);
        },
        (Some(c), Some(a), Some(ds)) => {
            let head = seq![
                rname,
                namesf,
                p.version,
                c.spec_extension(),
                a,
                crate::packages::plus_field(),
            ];
            assert(cols =~= head + ds);
            if k >= 6 {
                assert(cols[k] == ds[k - 6]);
                assert(crate::packages::wf_field(ds[k - 6]));
            }
        },
        (Some(c), None, Some(ds)) => {
            let head = seq![
                rname,
                namesf,
                p.version,
                c.spec_extension(),
                crate::packages::plus_field(),
            ];
            assert(cols =~= head + ds);
            if k >= 5 {
                assert(cols[k] == ds[k - 5]);
                assert(crate::packages::wf_field(ds[k - 5]));
            }
        },
        _ => {
            assert(false);
        },
    }
}

/// Appending a record to a well-formed catalog keeps it well-formed and
/// adds exactly that record, parsed, at the end: afterwards the catalog
/// contains the appended package.
pub proof fn lemma_append_round_trip(catalog: Seq<char>, p: PackageModel)
    requires
        wf(p),
        wf_catalog_text(catalog),
    ensures
        ({
            let new_text = catalog + seq!['\n'] + fmt_line(p);
            &&& wf_catalog_text(new_text)
            &&& records_of_text(new_text) == Some(records_of_text(catalog)->0.push(normalized(p)))
        }),
{
    let nl = seq!['\n'];
    let line = fmt_line(p);
    let new_text = catalog + nl + line;
    lemma_fmt_line_plain(p);
    crate::packages::lemma_parse_of_format(p);
    lemma_split_append(catalog, line, '\n');
    lemma_split_nonempty(catalog, nl);
    lemma_split_nonempty(line, nl);
    crate::text::lemma_first_match(line, nl);
    match crate::text::first_match(line, nl) {
        Some(i) => {
            assert(crate::text::match_at(line, nl, i));
            assert(line.subrange(i, i + 1)[0] == line[i]);
            assert(line[i] == '\n');
            assert(crate::text::has_char(line, '\n'));
        },
        None => {},
    }
    assert(split_seq(line, nl) == seq![line]);
    let old_parts = split_seq(catalog, nl);
    let new_parts = split_seq(new_text, nl);
    assert(new_parts == old_parts + seq![line]);
    assert(new_parts.last() == line);
    assert(line != Seq::<char>::empty());
    assert(new_text.len() > 0);
    assert(lines_of(new_text) == new_parts);
    if catalog.len() == 0 {
        assert(catalog =~= Seq::<char>::empty());
        assert(old_parts == seq![Seq::<char>::empty()]) by {
            crate::text::lemma_first_match(catalog, nl);
        }
        assert(lines_of(catalog).len() == 0);
        assert(records_of_text(catalog) == Some(Seq::<PackageModel>::empty()));
        assert(new_parts =~= seq![Seq::<char>::empty(), line]);
        assert(new_parts.skip(1) =~= seq![line]);
        assert(parse_record_lines(seq![line].skip(1)) == Some(Seq::<PackageModel>::empty()));
        assert(seq![line].skip(1) =~= Seq::<Seq<char>>::empty());
        assert(parse_record_lines(seq![line]) == Some(seq![normalized(p)] + Seq::<
            PackageModel,
        >::empty()));
        assert(seq![normalized(p)] + Seq::<PackageModel>::empty() =~= Seq::<
            PackageModel,
        >::empty().push(normalized(p)));
    } else {
        assert(old_parts.last() != Seq::<char>::empty());
        assert(lines_of(catalog) == old_parts);
        let tail = old_parts.skip(1);
        assert(new_parts.skip(1) =~= tail + seq![line]);
        let ms = records_of_text(catalog)->0;
        assert(parse_record_lines(tail) == Some(ms));
        lemma_parse_record_lines_snoc(tail, line, ms, normalized(p));
        assert(ms.push(normalized(p)) =~= ms + seq![normalized(p)]);
    }
}

/// Parsing record lines with one more line at the end parses the lines,
/// then the line.
proof fn lemma_parse_record_lines_snoc(ls: Seq<Seq<char>>, l: Seq<char>, ms: Seq<PackageModel>, m: PackageModel)
    requires
        parse_record_lines(ls) == Some(ms),
        parse_line(l) == Some(m),
    ensures
        parse_record_lines(ls + seq![l]) == Some(ms + seq![m]),
    decreases ls.len(),
{
    if ls.len() == 0 {
        assert(ls + seq![l] =~= seq![l]);
        assert(seq![l][0] == l);
        assert(seq![l].skip(1) =~= Seq::<Seq<char>>::empty());
        assert(parse_record_lines(Seq::<Seq<char>>::empty()) == Some(Seq::<PackageModel>::empty()));
        assert(parse_record_lines(seq![l]) == Some(seq![m] + Seq::<PackageModel>::empty()));
        assert(seq![m] + Seq::<PackageModel>::empty() =~= ms + seq![m]);
    } else {
        let rest = parse_record_lines(ls.skip(1))->0;
        lemma_parse_record_lines_snoc(ls.skip(1), l, rest, m);
        assert((ls + seq![l]).skip(1) =~= ls.skip(1) + seq![l]);
        assert((ls + seq![l])[0] == ls[0]);
        assert(parse_record_lines(ls + seq![l]) == Some(
            seq![parse_line(ls[0])->0] + (rest + seq![m]),
        ));
        assert(seq![parse_line(ls[0])->0] + (rest + seq![m]) =~= (seq![parse_line(ls[0])->0]
            + rest) + seq![m]);
        assert(seq![parse_line(ls[0])->0] + rest =~= ms);
    }
}

/// A record line after the replacement pass: a parsed record matching the
/// package's canonical name becomes the package's line; everything else
/// stays as it was.
pub open spec fn replaced_line(line: Seq<char>, p: PackageModel) -> Seq<char> {
    match parse_line(line) {
        Some(m) => if spec_matches(m, p.names[0]) {
            fmt_line(p)
        } else {
            line
        },
        None => line,
    }
}

/// The text of the installed catalog after replacing every record that
/// matches the package's canonical name with the package's own record.
pub fn replace_package(catalog: &str, package: &Package) -> (r: String)
    requires
        package@.names.len() >= 1,
    ensures
        r@ == join_seq(
            split_seq(catalog@, seq!['\n']).map_values(|l: Seq<char>| replaced_line(l, package@)),
            seq!['\n'],
        ),
{
    proof {
        reveal_strlit("\n");
        assert(("\n")@ =~= seq!['\n']);
    }
    let parts = split_lines_raw(catalog);
    let ghost gparts = split_seq(catalog@, seq!['\n']);
    let mut out: Vec<String> = Vec::new();
    let mut i: usize = 0;
    while i < parts.len()
        invariant
            i <= gparts.len(),
            gparts.len() == parts@.len(),
            gparts == parts.deep_view(),
            package@.names.len() >= 1,
            out.deep_view() == gparts.take(i as int).map_values(
                |l: Seq<char>| replaced_line(l, package@),
            ),
        decreases parts@.len() - i,
    {
        let ghost prev = out.deep_view();
        let replaced = match Package::try_from(parts[i].as_str()) {
            Ok(current) => {
                if current.matches(package.name()) {
                    package.to_line()
                } else {
                    parts[i].clone()
                }
            },
            Err(_) => parts[i].clone(),
        };
        out.push(replaced);
        proof {
            assert(out.deep_view() =~= prev.push(replaced_line(gparts[i as int], package@)));
            assert(gparts.take(i + 1).map_values(|l: Seq<char>| replaced_line(l, package@))
                =~= gparts.take(i as int).map_values(|l: Seq<char>| replaced_line(l, package@)).push(
                replaced_line(gparts[i as int], package@),
            ));
        }
        i = i + 1;
    }
    proof {
        assert(gparts.take(gparts.len() as int) =~= gparts);
    }
    join_str(&out, "\n")
}

/// After appending a record with canonical names to a well-formed
/// catalog, the catalog contains that very record, at the end.
pub proof fn lemma_append_contains(catalog: Seq<char>, p: PackageModel)
    requires
        wf(p),
        canonical_names(p),
        wf_catalog_text(catalog),
    ensures
        ({
            let new_text = catalog + seq!['\n'] + fmt_line(p);
            &&& records_of_text(new_text) is Some
            &&& records_of_text(new_text)->0.len() >= 1
            &&& records_of_text(new_text)->0.last() == p
        }),
{
    lemma_append_round_trip(catalog, p);
    crate::packages::lemma_parse_of_format_exact(p);
    crate::packages::lemma_parse_of_format(p);
}

/// A record after the replacement pass: one that matches the package's
/// canonical name becomes the package; the rest stay.
pub open spec fn replaced_record(m: PackageModel, p: PackageModel) -> PackageModel {
    if spec_matches(m, p.names[0]) {
        p
    } else {
        m
    }
}

/// Parsing replaced record lines yields the replaced records.
proof fn lemma_parse_replaced_lines(ls: Seq<Seq<char>>, p: PackageModel)
    requires
        wf(p),
        canonical_names(p),
        p.names.len() >= 1,
        parse_record_lines(ls) is Some,
    ensures
        parse_record_lines(ls.map_values(|l: Seq<char>| replaced_line(l, p))) == Some(
            parse_record_lines(ls)->0.map_values(|m: PackageModel| replaced_record(m, p)),
        ),
    decreases ls.len(),
{
    let f = |l: Seq<char>| replaced_line(l, p);
    let g = |m: PackageModel| replaced_record(m, p);
    if ls.len() == 0 {
        assert(ls.map_values(f) =~= Seq::<Seq<char>>::empty());
        assert(parse_record_lines(ls)->0.map_values(g) =~= Seq::<PackageModel>::empty());
    } else {
        let m = parse_line(ls[0])->0;
        let rest = parse_record_lines(ls.skip(1))->0;
        lemma_parse_replaced_lines(ls.skip(1), p);
        lemma_parse_of_format_exact(p);
        assert(ls.map_values(f)[0] == f(ls[0]));
        assert(parse_line(f(ls[0])) == Some(g(m)));
        assert(ls.map_values(f).skip(1) =~= ls.skip(1).map_values(f));
        assert(parse_record_lines(ls.map_values(f)) == Some(
            seq![g(m)] + rest.map_values(g),
        ));
        assert(seq![g(m)] + rest.map_values(g) =~= (seq![m] + rest).map_values(g));
    }
}

/// Replacing in a catalog whose records parse: the records afterwards are
/// the records before, each one that matches the package's canonical name
/// replaced by the package itself. Where exactly one record matched that
/// name before, exactly one matches it after, and it is the package.
pub proof fn lemma_replace_records(catalog: Seq<char>, p: PackageModel)
    requires
        wf(p),
        canonical_names(p),
        p.names.len() >= 1,
        records_of_text(catalog) is Some,
    ensures
        ({
            let new_text = join_seq(
                split_seq(catalog, seq!['\n']).map_values(|l: Seq<char>| replaced_line(l, p)),
                seq!['\n'],
            );
            records_of_text(new_text) == Some(
                records_of_text(catalog)->0.map_values(|m: PackageModel| replaced_record(m, p)),
            )
        }),
{
    let nl = seq!['\n'];
    let f = |l: Seq<char>| replaced_line(l, p);
    let g = |m: PackageModel| replaced_record(m, p);
    let parts = split_seq(catalog, nl);
    let mapped = parts.map_values(f);
    let new_text = join_seq(mapped, nl);
    lemma_split_nonempty(catalog, nl);
    crate::text::lemma_split_parts_no_char(catalog, '\n');
    lemma_fmt_line_plain(p);
    assert forall|k: int| 0 <= k < mapped.len() implies !crate::text::has_char(
        #[trigger] mapped[k],
        '\n',
    ) by {
        assert(mapped[k] == f(parts[k]));
    }
    crate::text::lemma_split_join(mapped, '\n');
    assert(split_seq(new_text, nl) == mapped);
    assert(parse_line(Seq::<char>::empty()) is None) by {
        crate::text::lemma_split_nonempty(Seq::<char>::empty(), crate::packages::tab_sep());
        crate::text::lemma_first_match(Seq::<char>::empty(), crate::packages::tab_sep());
        assert(split_seq(Seq::<char>::empty(), crate::packages::tab_sep()) == seq![Seq::<
            char,
        >::empty()]);
    }
    assert(f(Seq::<char>::empty()) == Seq::<char>::empty());
    let ms = records_of_text(catalog)->0;
    if parts.last() == Seq::<char>::empty() {
        assert(mapped.last() == f(parts.last()));
        assert(mapped.last() == Seq::<char>::empty());
        assert(lines_of(catalog) == parts.drop_last());
        assert(lines_of(new_text) == mapped.drop_last());
        assert(mapped.drop_last() =~= parts.drop_last().map_values(f));
        if parts.len() == 1 {
            assert(lines_of(catalog).len() == 0);
            assert(lines_of(new_text).len() == 0);
            assert(ms == Seq::<PackageModel>::empty());
            assert(ms.map_values(g) =~= Seq::<PackageModel>::empty());
        } else {
            assert(lines_of(new_text).skip(1) =~= lines_of(catalog).skip(1).map_values(f));
            lemma_parse_replaced_lines(lines_of(catalog).skip(1), p);
        }
    } else {
        assert(lines_of(catalog) == parts);
        assert(mapped.last() == f(parts.last()));
        match parse_line(parts.last()) {
            Some(m0) => {
                if spec_matches(m0, p.names[0]) {
                    assert(mapped.last() == fmt_line(p));
                    assert(fmt_line(p) != Seq::<char>::empty());
                } else {
                    assert(mapped.last() == parts.last());
                }
            },
            None => {
                assert(mapped.last() == parts.last());
            },
        }
        assert(mapped.last() != Seq::<char>::empty());
        assert(lines_of(new_text) == mapped);
        assert(lines_of(new_text).skip(1) =~= lines_of(catalog).skip(1).map_values(f));
        lemma_parse_replaced_lines(lines_of(catalog).skip(1), p);
    }
}

/// The pieces of a text between newlines, a final empty piece included.
fn split_lines_raw(s: &str) -> (r: Vec<String>)
    ensures
        r.deep_view() == split_seq(s@, seq!['\n']),
{
    proof {
        reveal_strlit("\n");
        assert(("\n")@ =~= seq!['\n']);
    }
    split_str(s, "\n")
}

} // verus!
