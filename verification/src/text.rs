//! Splitting and joining of character sequences on a separator, the
//! foundation of the line-oriented package-record format.

use vstd::prelude::*;

verus! {

/// Index of the first occurrence of `sep` in `s`, if any.
pub open spec fn first_match(s: Seq<char>, sep: Seq<char>) -> Option<int>
    decreases s.len(),
{
    if s.len() < sep.len() {
        None
    } else if s.subrange(0, sep.len() as int) == sep {
        Some(0)
    } else if s.len() == 0 {
        None
    } else {
        match first_match(s.skip(1), sep) {
            Some(i) => Some(i + 1),
            None => None,
        }
    }
}

/// The pieces of `s` between occurrences of `sep`, in order.
pub open spec fn split_seq(s: Seq<char>, sep: Seq<char>) -> Seq<Seq<char>>
    decreases s.len() when sep.len() >= 1 via split_seq_decreases
{
    match first_match(s, sep) {
        None => seq![s],
        Some(i) => seq![s.subrange(0, i)] + split_seq(s.skip(i + sep.len()), sep),
    }
}

#[via_fn]
proof fn split_seq_decreases(s: Seq<char>, sep: Seq<char>) {
    lemma_first_match(s, sep);
}

/// The concatenation of `parts` with `sep` between consecutive parts.
pub open spec fn join_seq(parts: Seq<Seq<char>>, sep: Seq<char>) -> Seq<char>
    decreases parts.len(),
{
    if parts.len() == 0 {
        Seq::empty()
    } else if parts.len() == 1 {
        parts[0]
    } else {
        parts[0] + sep + join_seq(parts.skip(1), sep)
    }
}

/// Whether `sep` occurs in `s` starting at position `i`.
pub open spec fn match_at(s: Seq<char>, sep: Seq<char>, i: int) -> bool {
    0 <= i && i + sep.len() <= s.len() && s.subrange(i, i + sep.len()) == sep
}

/// A match inside the tail of `s` is a match of `s` one position later.
pub proof fn lemma_match_at_skip(s: Seq<char>, sep: Seq<char>, j: int)
    requires
        1 <= j,
        s.len() >= 1,
    ensures
        match_at(s, sep, j) <==> match_at(s.skip(1), sep, j - 1),
{
    if j + sep.len() <= s.len() {
        assert(s.subrange(j, j + sep.len()) =~= s.skip(1).subrange(j - 1, j - 1 + sep.len()));
    }
}

/// `first_match` returns the least position where `sep` occurs, or `None`
/// when it occurs nowhere.
pub proof fn lemma_first_match(s: Seq<char>, sep: Seq<char>)
    requires
        sep.len() >= 1,
    ensures
        match first_match(s, sep) {
            Some(i) => match_at(s, sep, i) && (forall|j: int| 0 <= j < i ==> !match_at(s, sep, j)),
            None => forall|j: int| !match_at(s, sep, j),
        },
    decreases s.len(),
{
    if s.len() < sep.len() {
        assert(forall|j: int| !match_at(s, sep, j));
    } else if s.subrange(0, sep.len() as int) == sep {
        assert(match_at(s, sep, 0));
    } else {
        lemma_first_match(s.skip(1), sep);
        match first_match(s.skip(1), sep) {
            Some(i) => {
                assert(match_at(s.skip(1), sep, i));
                lemma_match_at_skip(s, sep, i + 1);
                assert(match_at(s, sep, i + 1));
                assert forall|j: int| 0 <= j < i + 1 implies !match_at(s, sep, j) by {
                    if j == 0 {
                        assert(!match_at(s, sep, 0));
                    } else {
                        assert(!match_at(s.skip(1), sep, j - 1));
                        lemma_match_at_skip(s, sep, j);
                    }
                }
            },
            None => {
                assert forall|j: int| !match_at(s, sep, j) by {
                    if j == 0 {
                        assert(!match_at(s, sep, 0));
                    } else if 1 <= j {
                        assert(!match_at(s.skip(1), sep, j - 1));
                        lemma_match_at_skip(s, sep, j);
                    }
                }
            },
        }
    }
}

/// If `sep` occurs at `i` and nowhere earlier, `first_match` returns `i`.
pub proof fn lemma_first_match_unique(s: Seq<char>, sep: Seq<char>, i: int)
    requires
        sep.len() >= 1,
        match_at(s, sep, i),
        forall|j: int| 0 <= j < i ==> !match_at(s, sep, j),
    ensures
        first_match(s, sep) == Some(i),
{
    lemma_first_match(s, sep);
    match first_match(s, sep) {
        Some(k) => {
            if k < i {
                assert(!match_at(s, sep, k));
            } else if k > i {
                assert(!match_at(s, sep, i));
            }
        },
        None => {
            assert(!match_at(s, sep, i));
        },
    }
}

/// Whether the character `c` occurs in `s`.
pub open spec fn has_char(s: Seq<char>, c: char) -> bool {
    exists|k: int| 0 <= k < s.len() && s[k] == c
}

/// Splitting yields at least one piece.
pub proof fn lemma_split_nonempty(s: Seq<char>, sep: Seq<char>)
    requires
        sep.len() >= 1,
    ensures
        split_seq(s, sep).len() >= 1,
{
    lemma_first_match(s, sep);
}

/// Joining the pieces of a split restores the original sequence.
pub proof fn lemma_join_split(s: Seq<char>, sep: Seq<char>)
    requires
        sep.len() >= 1,
    ensures
        join_seq(split_seq(s, sep), sep) == s,
    decreases s.len(),
{
    lemma_first_match(s, sep);
    match first_match(s, sep) {
        None => {},
        Some(i) => {
            let rest = s.skip(i + sep.len());
            lemma_join_split(rest, sep);
            lemma_split_nonempty(rest, sep);
            let parts = seq![s.subrange(0, i)] + split_seq(rest, sep);
            assert(parts.len() >= 2);
            assert(parts.skip(1) =~= split_seq(rest, sep));
            assert(join_seq(parts, sep) == s.subrange(0, i) + sep + rest);
            assert(s.subrange(0, i) + sep + rest =~= s);
        },
    }
}

/// For a single-character separator occurring in no piece, splitting the
/// join restores the pieces.
pub proof fn lemma_split_join(parts: Seq<Seq<char>>, c: char)
    requires
        parts.len() >= 1,
        forall|k: int| 0 <= k < parts.len() ==> !has_char(#[trigger] parts[k], c),
    ensures
        split_seq(join_seq(parts, seq![c]), seq![c]) == parts,
    decreases parts.len(),
{
    let sep = seq![c];
    let s = join_seq(parts, sep);
    if parts.len() == 1 {
        lemma_first_match(s, sep);
        match first_match(s, sep) {
            Some(i) => {
                assert(s.subrange(i, i + 1) =~= seq![s[i]]);
                assert(seq![s[i]][0] == seq![c][0]);
                assert(s[i] == c);
                assert(has_char(parts[0], c));
            },
            None => {
                assert(split_seq(s, sep) =~= parts);
            },
        }
    } else {
        let i0 = parts[0].len() as int;
        let tail_join = join_seq(parts.skip(1), sep);
        assert(s == parts[0] + sep + tail_join);
        assert(s.len() == i0 + 1 + tail_join.len());
        assert(s.subrange(i0, i0 + 1) =~= seq![c]);
        assert(match_at(s, sep, i0));
        assert forall|j: int| 0 <= j < i0 implies !match_at(s, sep, j) by {
            if match_at(s, sep, j) {
                assert(s.subrange(j, j + 1)[0] == s[j]);
                assert(s[j] == c);
                assert(parts[0][j] == c);
                assert(has_char(parts[0], c));
            }
        }
        lemma_first_match_unique(s, sep, i0);
        assert(s.subrange(0, i0) =~= parts[0]);
        assert(s.skip(i0 + 1) =~= tail_join);
        lemma_split_join(parts.skip(1), c);
        assert(split_seq(s, sep) == seq![parts[0]] + parts.skip(1));
        assert(seq![parts[0]] + parts.skip(1) =~= parts);
    }
}

/// Splitting distributes over concatenation around a separator character.
pub proof fn lemma_split_append(a: Seq<char>, b: Seq<char>, c: char)
    ensures
        split_seq(a + seq![c] + b, seq![c]) == split_seq(a, seq![c]) + split_seq(b, seq![c]),
    decreases a.len(),
{
    let sep = seq![c];
    let s = a + sep + b;
    lemma_first_match(a, sep);
    match first_match(a, sep) {
        None => {
            assert(s.subrange(a.len() as int, a.len() as int + 1) =~= sep);
            assert(match_at(s, sep, a.len() as int));
            assert forall|j: int| 0 <= j < a.len() implies !match_at(s, sep, j) by {
                if match_at(s, sep, j) {
                    assert(s.subrange(j, j + 1)[0] == s[j]);
                    assert(s[j] == c);
                    assert(a.subrange(j, j + 1) =~= seq![c]);
                    assert(match_at(a, sep, j));
                }
            }
            lemma_first_match_unique(s, sep, a.len() as int);
            assert(s.subrange(0, a.len() as int) =~= a);
            assert(s.skip(a.len() as int + 1) =~= b);
            assert(split_seq(s, sep) == seq![a] + split_seq(b, sep));
            assert(split_seq(a, sep) == seq![a]);
        },
        Some(i) => {
            assert(match_at(a, sep, i));
            assert(s.subrange(i, i + 1) =~= a.subrange(i, i + 1));
            assert(match_at(s, sep, i));
            assert forall|j: int| 0 <= j < i implies !match_at(s, sep, j) by {
                if match_at(s, sep, j) {
                    assert(s.subrange(j, j + 1)[0] == s[j]);
                    assert(s[j] == c);
                    assert(a.subrange(j, j + 1) =~= seq![c]);
                    assert(match_at(a, sep, j));
                }
            }
            lemma_first_match_unique(s, sep, i);
            assert(s.subrange(0, i) =~= a.subrange(0, i));
            assert(s.skip(i + 1) =~= a.skip(i + 1) + sep + b);
            lemma_split_append(a.skip(i + 1), b, c);
            assert(split_seq(s, sep) == seq![a.subrange(0, i)] + (split_seq(a.skip(i + 1), sep)
                + split_seq(b, sep)));
            assert(split_seq(a, sep) == seq![a.subrange(0, i)] + split_seq(a.skip(i + 1), sep));
            assert(seq![a.subrange(0, i)] + (split_seq(a.skip(i + 1), sep) + split_seq(b, sep))
                =~= (seq![a.subrange(0, i)] + split_seq(a.skip(i + 1), sep)) + split_seq(b, sep));
        },
    }
}

/// For a two-character separator of distinct characters occurring in no
/// piece, splitting the join restores the pieces.
pub proof fn lemma_split_join_pair(parts: Seq<Seq<char>>, sep: Seq<char>)
    requires
        sep.len() == 2,
        sep[0] != sep[1],
        parts.len() >= 1,
        forall|k: int| 0 <= k < parts.len() ==> !spec_contains(#[trigger] parts[k], sep),
    ensures
        split_seq(join_seq(parts, sep), sep) == parts,
    decreases parts.len(),
{
    let s = join_seq(parts, sep);
    if parts.len() == 1 {
        lemma_first_match(parts[0], sep);
        match first_match(parts[0], sep) {
            Some(i) => {
                assert(match_at(parts[0], sep, i));
                assert(spec_contains(parts[0], sep));
            },
            None => {
                assert(split_seq(s, sep) =~= parts);
            },
        }
    } else {
        let n0 = parts[0];
        let i0 = n0.len() as int;
        let rest = join_seq(parts.skip(1), sep);
        assert(s == n0 + sep + rest);
        assert(s.subrange(i0, i0 + 2) =~= sep);
        assert(match_at(s, sep, i0));
        assert forall|j: int| 0 <= j < i0 implies !match_at(s, sep, j) by {
            if match_at(s, sep, j) {
                if j + 2 <= i0 {
                    assert(n0.subrange(j, j + 2) =~= s.subrange(j, j + 2));
                    assert(match_at(n0, sep, j));
                    assert(spec_contains(n0, sep));
                } else {
                    assert(j == i0 - 1);
                    assert(s.subrange(j, j + 2)[1] == s[i0]);
                    assert(s[i0] == sep[0]);
                    assert(s.subrange(j, j + 2)[1] == sep[1]);
                }
            }
        }
        lemma_first_match_unique(s, sep, i0);
        assert(s.subrange(0, i0) =~= n0);
        assert(s.skip(i0 + 2) =~= rest);
        lemma_split_join_pair(parts.skip(1), sep);
        assert(split_seq(s, sep) == seq![n0] + parts.skip(1));
        assert(seq![n0] + parts.skip(1) =~= parts);
    }
}

/// A sequence free of the separator character splits into itself alone.
pub proof fn lemma_split_single(s: Seq<char>, c: char)
    requires
        !has_char(s, c),
    ensures
        split_seq(s, seq![c]) == seq![s],
{
    lemma_first_match(s, seq![c]);
    match first_match(s, seq![c]) {
        Some(i) => {
            assert(match_at(s, seq![c], i));
            assert(s.subrange(i, i + 1)[0] == s[i]);
            assert(s[i] == c);
            assert(has_char(s, c));
        },
        None => {},
    }
}

/// The pieces of a split on a single character are free of that character.
pub proof fn lemma_split_parts_no_char(s: Seq<char>, c: char)
    ensures
        forall|k: int| 0 <= k < split_seq(s, seq![c]).len() ==> !has_char(
            #[trigger] split_seq(s, seq![c])[k],
            c,
        ),
    decreases s.len(),
{
    let sep = seq![c];
    lemma_first_match(s, sep);
    match first_match(s, sep) {
        None => {
            assert forall|j: int| 0 <= j < s.len() implies s[j] != c by {
                if s[j] == c {
                    assert(s.subrange(j, j + 1) =~= seq![c]);
                    assert(match_at(s, sep, j));
                }
            }
            assert(!has_char(s, c));
            assert(split_seq(s, sep) == seq![s]);
        },
        Some(i) => {
            let head = s.subrange(0, i);
            assert forall|j: int| 0 <= j < head.len() implies head[j] != c by {
                if head[j] == c {
                    assert(s.subrange(j, j + 1) =~= seq![c]);
                    assert(match_at(s, sep, j));
                }
            }
            assert(!has_char(head, c));
            lemma_split_parts_no_char(s.skip(i + 1), c);
            let rest = split_seq(s.skip(i + 1), sep);
            assert(split_seq(s, sep) == seq![head] + rest);
            assert forall|k: int| 0 <= k < split_seq(s, sep).len() implies !has_char(
                #[trigger] split_seq(s, sep)[k],
                c,
            ) by {
                if k == 0 {
                    assert(split_seq(s, sep)[0] == head);
                } else {
                    assert(split_seq(s, sep)[k] == rest[k - 1]);
                }
            }
        },
    }
}

/// A join of pieces free of `c`, with a separator free of `c`, is free of `c`.
pub proof fn lemma_join_no_char(parts: Seq<Seq<char>>, sep: Seq<char>, c: char)
    requires
        !has_char(sep, c),
        forall|k: int| 0 <= k < parts.len() ==> !has_char(#[trigger] parts[k], c),
    ensures
        !has_char(join_seq(parts, sep), c),
    decreases parts.len(),
{
    if parts.len() == 0 {
    } else if parts.len() == 1 {
        assert(!has_char(parts[0], c));
    } else {
        let rest = join_seq(parts.skip(1), sep);
        lemma_join_no_char(parts.skip(1), sep, c);
        let s = parts[0] + sep + rest;
        if has_char(s, c) {
            let k = choose|k: int| 0 <= k < s.len() && s[k] == c;
            if k < parts[0].len() {
                assert(parts[0][k] == c);
            } else if k < parts[0].len() + sep.len() {
                assert(sep[k - parts[0].len()] == c);
            } else {
                assert(rest[k - parts[0].len() - sep.len()] == c);
            }
        }
    }
}

/// Peeling the last piece off a join.
pub proof fn lemma_join_snoc(parts: Seq<Seq<char>>, sep: Seq<char>)
    requires
        parts.len() >= 2,
    ensures
        join_seq(parts, sep) == join_seq(parts.drop_last(), sep) + sep + parts.last(),
    decreases parts.len(),
{
    if parts.len() == 2 {
        assert(parts.skip(1).len() == 1);
        assert(parts.skip(1)[0] == parts[1]);
        assert(parts.drop_last().len() == 1);
        assert(parts.drop_last()[0] == parts[0]);
        assert(join_seq(parts.skip(1), sep) == parts.skip(1)[0]);
        assert(join_seq(parts, sep) == parts[0] + sep + parts[1]);
    } else {
        lemma_join_snoc(parts.skip(1), sep);
        assert(parts.skip(1).drop_last() =~= parts.drop_last().skip(1));
        assert(parts.skip(1).last() == parts.last());
        assert(parts.drop_last().len() >= 2);
        assert(join_seq(parts.drop_last(), sep) == parts[0] + sep + join_seq(
            parts.drop_last().skip(1),
            sep,
        ));
        assert((parts[0] + sep + (join_seq(parts.drop_last().skip(1), sep) + sep + parts.last()))
            =~= ((parts[0] + sep + join_seq(parts.drop_last().skip(1), sep)) + sep
            + parts.last()));
    }
}

/// The lines of a text, as a reader of the file would see them: pieces
/// between newlines, without a final empty piece.
pub open spec fn lines_of(s: Seq<char>) -> Seq<Seq<char>> {
    let parts = split_seq(s, seq!['\n']);
    if parts.len() >= 1 && parts.last() == Seq::<char>::empty() {
        parts.drop_last()
    } else {
        parts
    }
}

/// Whether `p` is a prefix of `s`.
pub open spec fn spec_starts_with(s: Seq<char>, p: Seq<char>) -> bool {
    p.len() <= s.len() && s.subrange(0, p.len() as int) == p
}

/// Whether `t` occurs somewhere in `s`.
pub open spec fn spec_contains(s: Seq<char>, t: Seq<char>) -> bool {
    exists|j: int| match_at(s, t, j)
}

/// Lexicographic order on character sequences, by code point.
pub open spec fn spec_str_le(a: Seq<char>, b: Seq<char>) -> bool
    decreases a.len(),
{
    if a.len() == 0 {
        true
    } else if b.len() == 0 {
        false
    } else if a[0] == b[0] {
        spec_str_le(a.skip(1), b.skip(1))
    } else {
        (a[0] as u32) < (b[0] as u32)
    }
}

/// The lexicographic order is reflexive.
pub proof fn lemma_str_le_refl(a: Seq<char>)
    ensures
        spec_str_le(a, a),
    decreases a.len(),
{
    if a.len() > 0 {
        lemma_str_le_refl(a.skip(1));
    }
}

/// The lexicographic order is total.
pub proof fn lemma_str_le_total(a: Seq<char>, b: Seq<char>)
    ensures
        spec_str_le(a, b) || spec_str_le(b, a),
    decreases a.len(),
{
    if a.len() > 0 && b.len() > 0 {
        if a[0] == b[0] {
            lemma_str_le_total(a.skip(1), b.skip(1));
        } else if (a[0] as u32) == (b[0] as u32) {
            vstd::utf8::char_u32_cast(a[0], a[0] as u32);
            vstd::utf8::char_u32_cast(b[0], b[0] as u32);
        }
    }
}

/// The lexicographic order is antisymmetric.
pub proof fn lemma_str_le_antisym(a: Seq<char>, b: Seq<char>)
    requires
        spec_str_le(a, b),
        spec_str_le(b, a),
    ensures
        a == b,
    decreases a.len(),
{
    if a.len() == 0 {
        assert(b.len() == 0);
        assert(a =~= b);
    } else {
        assert(b.len() > 0);
        if a[0] == b[0] {
            lemma_str_le_antisym(a.skip(1), b.skip(1));
            assert(a =~= seq![a[0]] + a.skip(1));
            assert(b =~= seq![b[0]] + b.skip(1));
        } else {
            assert((a[0] as u32) < (b[0] as u32) && (b[0] as u32) < (a[0] as u32));
        }
    }
}

/// The lexicographic order is transitive.
pub proof fn lemma_str_le_trans(a: Seq<char>, b: Seq<char>, c: Seq<char>)
    requires
        spec_str_le(a, b),
        spec_str_le(b, c),
    ensures
        spec_str_le(a, c),
    decreases a.len(),
{
    if a.len() > 0 {
        assert(b.len() > 0);
        assert(c.len() > 0);
        if a[0] == b[0] && b[0] == c[0] {
            lemma_str_le_trans(a.skip(1), b.skip(1), c.skip(1));
        }
    }
}

/// String equality decided character by character.
pub fn str_eq(a: &str, b: &str) -> (r: bool)
    ensures
        r == (a@ == b@),
{
    let n = a.unicode_len();
    if n != b.unicode_len() {
        return false;
    }
    let mut i: usize = 0;
    while i < n
        invariant
            n == a@.len(),
            n == b@.len(),
            i <= n,
            forall|j: int| 0 <= j < i ==> a@[j] == b@[j],
        decreases n - i,
    {
        if a.get_char(i) != b.get_char(i) {
            return false;
        }
        i = i + 1;
    }
    proof {
        assert(a@ =~= b@);
    }
    true
}

/// Position of the first occurrence of `sep` in `s`, if any.
pub fn find_first(s: &str, sep: &str) -> (r: Option<usize>)
    requires
        sep@.len() >= 1,
    ensures
        match r {
            Some(i) => first_match(s@, sep@) == Some(i as int),
            None => first_match(s@, sep@) is None,
        },
{
    let n = s.unicode_len();
    let m = sep.unicode_len();
    if n < m {
        return None;
    }
    let mut i: usize = 0;
    while i <= n - m
        invariant
            n == s@.len(),
            m == sep@.len(),
            1 <= m <= n,
            i <= n,
            forall|j: int| 0 <= j < i ==> !match_at(s@, sep@, j),
        decreases n - i,
    {
        let mut t: usize = 0;
        let mut ok = true;
        while t < m
            invariant
                n == s@.len(),
                m == sep@.len(),
                t <= m,
                i + m <= n,
                ok ==> forall|u: int| 0 <= u < t ==> s@[i + u] == sep@[u],
                !ok ==> !match_at(s@, sep@, i as int),
            decreases m - t,
        {
            if ok {
                if s.get_char(i + t) != sep.get_char(t) {
                    proof {
                        if match_at(s@, sep@, i as int) {
                            assert(s@.subrange(i as int, i + m as int)[t as int] == sep@[t as int]);
                        }
                    }
                    ok = false;
                }
            }
            t = t + 1;
        }
        if ok {
            proof {
                assert(s@.subrange(i as int, i + m as int) =~= sep@);
                lemma_first_match_unique(s@, sep@, i as int);
            }
            return Some(i);
        }
        i = i + 1;
    }
    proof {
        lemma_first_match(s@, sep@);
        if first_match(s@, sep@) is Some {
            let k = first_match(s@, sep@)->0;
            assert(match_at(s@, sep@, k));
            assert(k < i);
        }
    }
    None
}

/// Whether `t` occurs somewhere in `s`.
pub fn contains_str(s: &str, t: &str) -> (r: bool)
    requires
        t@.len() >= 1,
    ensures
        r == spec_contains(s@, t@),
{
    match find_first(s, t) {
        Some(i) => {
            proof {
                lemma_first_match(s@, t@);
                assert(match_at(s@, t@, i as int));
            }
            true
        },
        None => {
            proof {
                lemma_first_match(s@, t@);
            }
            false
        },
    }
}

/// Whether `p` is a prefix of `s`.
pub fn starts_with_str(s: &str, p: &str) -> (r: bool)
    ensures
        r == spec_starts_with(s@, p@),
{
    let n = s.unicode_len();
    let m = p.unicode_len();
    if m > n {
        return false;
    }
    let mut i: usize = 0;
    while i < m
        invariant
            n == s@.len(),
            m == p@.len(),
            m <= n,
            i <= m,
            forall|j: int| 0 <= j < i ==> s@[j] == p@[j],
        decreases m - i,
    {
        if s.get_char(i) != p.get_char(i) {
            proof {
                if spec_starts_with(s@, p@) {
                    assert(s@.subrange(0, m as int)[i as int] == p@[i as int]);
                }
            }
            return false;
        }
        i = i + 1;
    }
    proof {
        assert(s@.subrange(0, m as int) =~= p@);
    }
    true
}

/// Whether `t` is a suffix of `s`.
pub open spec fn spec_ends_with(s: Seq<char>, t: Seq<char>) -> bool {
    t.len() <= s.len() && s.subrange(s.len() - t.len(), s.len() as int) == t
}

/// Whether `t` is a suffix of `s`.
pub fn ends_with_str(s: &str, t: &str) -> (r: bool)
    ensures
        r == spec_ends_with(s@, t@),
{
    let n = s.unicode_len();
    let m = t.unicode_len();
    if m > n {
        return false;
    }
    let base = n - m;
    let mut i: usize = 0;
    while i < m
        invariant
            n == s@.len(),
            m == t@.len(),
            m <= n,
            base == n - m,
            i <= m,
            forall|j: int| 0 <= j < i ==> s@[base + j] == t@[j],
        decreases m - i,
    {
        if s.get_char(base + i) != t.get_char(i) {
            proof {
                if spec_ends_with(s@, t@) {
                    assert(s@.subrange(s@.len() - t@.len(), s@.len() as int)[i as int]
                        == t@[i as int]);
                }
            }
            return false;
        }
        i = i + 1;
    }
    proof {
        assert(s@.subrange(s@.len() - t@.len(), s@.len() as int) =~= t@);
    }
    true
}

/// Lexicographic order on strings, decided character by character.
pub fn str_le(a: &str, b: &str) -> (r: bool)
    ensures
        r == spec_str_le(a@, b@),
{
    let n = a.unicode_len();
    let m = b.unicode_len();
    let mut i: usize = 0;
    proof {
        assert(a@.skip(0) =~= a@);
        assert(b@.skip(0) =~= b@);
    }
    while i < n && i < m
        invariant
            n == a@.len(),
            m == b@.len(),
            i <= n,
            i <= m,
            spec_str_le(a@, b@) == spec_str_le(a@.skip(i as int), b@.skip(i as int)),
        decreases n - i,
    {
        let ca = a.get_char(i);
        let cb = b.get_char(i);
        if ca != cb {
            proof {
                assert(a@.skip(i as int)[0] == ca);
                assert(b@.skip(i as int)[0] == cb);
            }
            return (ca as u32) < (cb as u32);
        }
        proof {
            assert(a@.skip(i as int)[0] == b@.skip(i as int)[0]);
            assert(a@.skip(i as int).skip(1) =~= a@.skip(i + 1));
            assert(b@.skip(i as int).skip(1) =~= b@.skip(i + 1));
        }
        i = i + 1;
    }
    proof {
        assert(a@.skip(i as int).len() == n - i);
        assert(b@.skip(i as int).len() == m - i);
    }
    i >= n
}

/// The pieces of `s` between occurrences of `sep`.
pub fn split_str(s: &str, sep: &str) -> (r: Vec<String>)
    requires
        sep@.len() >= 1,
    ensures
        r.deep_view() == split_seq(s@, sep@),
    decreases s@.len(),
{
    proof {
        lemma_first_match(s@, sep@);
    }
    match find_first(s, sep) {
        None => {
            let mut v: Vec<String> = Vec::new();
            v.push(s.to_owned());
            proof {
                assert(v.deep_view() =~= split_seq(s@, sep@));
            }
            v
        },
        Some(i) => {
            let n = s.unicode_len();
            let m = sep.unicode_len();
            let head = s.substring_char(0, i);
            let tail = s.substring_char(i + m, n);
            proof {
                assert(tail@ =~= s@.skip(i + m as int));
            }
            let mut rest = split_str(tail, sep);
            let mut v: Vec<String> = Vec::new();
            v.push(head.to_owned());
            v.append(&mut rest);
            proof {
                assert(v.deep_view() =~= split_seq(s@, sep@));
            }
            v
        },
    }
}

/// The concatenation of `parts` with `sep` between consecutive parts.
pub fn join_str(parts: &Vec<String>, sep: &str) -> (r: String)
    ensures
        r@ == join_seq(parts.deep_view(), sep@),
{
    if parts.len() == 0 {
        return String::new();
    }
    let mut s: String = parts[0].clone();
    proof {
        assert(parts.deep_view().take(1) =~= seq![parts@[0]@]);
    }
    let mut k: usize = 1;
    while k < parts.len()
        invariant
            1 <= k <= parts@.len(),
            s@ == join_seq(parts.deep_view().take(k as int), sep@),
        decreases parts@.len() - k,
    {
        s.append(sep);
        s.append(parts[k].as_str());
        proof {
            lemma_join_snoc(parts.deep_view().take(k + 1), sep@);
            assert(parts.deep_view().take(k + 1).drop_last() =~= parts.deep_view().take(k as int));
            assert(parts.deep_view().take(k + 1).last() == parts@[k as int]@);
        }
        k = k + 1;
    }
    proof {
        assert(parts.deep_view().take(parts@.len() as int) =~= parts.deep_view());
    }
    s
}

/// The lines of a text: pieces between newlines, without a final empty piece.
pub fn split_lines(s: &str) -> (r: Vec<String>)
    ensures
        r.deep_view() == lines_of(s@),
{
    proof {
        reveal_strlit("\n");
        assert(("\n")@ =~= seq!['\n']);
    }
    let mut parts = split_str(s, "\n");
    let ghost whole = split_seq(s@, seq!['\n']);
    proof {
        lemma_split_nonempty(s@, seq!['\n']);
        assert(parts.deep_view().len() == parts@.len());
        assert(parts@.len() >= 1);
    }
    let last = parts.len() - 1;
    if parts[last].as_str().unicode_len() == 0 {
        proof {
            assert(parts.deep_view().last() == parts@[last as int]@);
            assert(whole.last() =~= Seq::<char>::empty());
        }
        let _ = parts.pop();
        proof {
            assert(parts.deep_view() =~= whole.drop_last());
            assert(parts.deep_view() =~= lines_of(s@));
        }
    } else {
        proof {
            assert(parts.deep_view().last() == parts@[last as int]@);
            assert(whole.last().len() != 0);
            assert(whole.last() != Seq::<char>::empty());
            assert(parts.deep_view() =~= lines_of(s@));
        }
    }
    parts
}

} // verus!
