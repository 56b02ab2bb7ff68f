//! String foundations: lexicographic ordering on character sequences,
//! prefix/suffix/containment predicates, and splitting and joining on a
//! separator character, with the executable counterparts used throughout
//! the store.

use vstd::prelude::*;
use vstd::string::StrSliceExecFns;
use vstd::string::StringExecFns;

verus! {

/// Lexicographic "less or equal" on character sequences, ordering
/// characters by their scalar value.
pub open spec fn lex_le(a: Seq<char>, b: Seq<char>) -> bool
    decreases a.len(),
{
    if a.len() == 0 {
        true
    } else if b.len() == 0 {
        false
    } else if (a[0] as u32) < (b[0] as u32) {
        true
    } else if a[0] == b[0] {
        lex_le(a.skip(1), b.skip(1))
    } else {
        false
    }
}

/// Distinct characters have distinct scalar values.
pub proof fn lemma_char_val_inj(a: char, b: char)
    ensures
        (a as u32) == (b as u32) ==> a == b,
{
}

/// Strict version of the lexicographic order.
pub open spec fn lex_lt(a: Seq<char>, b: Seq<char>) -> bool {
    lex_le(a, b) && a != b
}

pub proof fn lemma_lex_le_total(a: Seq<char>, b: Seq<char>)
    ensures
        lex_le(a, b) || lex_le(b, a),
    decreases a.len(),
{
    if a.len() == 0 || b.len() == 0 {
    } else if a[0] == b[0] {
        lemma_lex_le_total(a.skip(1), b.skip(1));
    } else {
        lemma_char_val_inj(a[0], b[0]);
    }
}

pub proof fn lemma_lex_le_refl(a: Seq<char>)
    ensures
        lex_le(a, a),
    decreases a.len(),
{
    if a.len() > 0 {
        lemma_lex_le_refl(a.skip(1));
    }
}

pub proof fn lemma_lex_le_antisym(a: Seq<char>, b: Seq<char>)
    requires
        lex_le(a, b),
        lex_le(b, a),
    ensures
        a == b,
    decreases a.len(),
{
    if a.len() == 0 {
        assert(b.len() == 0);
        assert(a =~= b);
    } else {
        assert(a[0] == b[0]);
        lemma_lex_le_antisym(a.skip(1), b.skip(1));
        assert(a =~= seq![a[0]] + a.skip(1));
        assert(b =~= seq![b[0]] + b.skip(1));
    }
}

pub proof fn lemma_lex_le_trans(a: Seq<char>, b: Seq<char>, c: Seq<char>)
    requires
        lex_le(a, b),
        lex_le(b, c),
    ensures
        lex_le(a, c),
    decreases a.len(),
{
    if a.len() == 0 || b.len() == 0 || c.len() == 0 {
    } else if a[0] == b[0] && b[0] == c[0] {
        lemma_lex_le_trans(a.skip(1), b.skip(1), c.skip(1));
    }
}

/// Compare two strings; true when `a` is lexicographically at or before `b`.
pub fn str_le(a: &str, b: &str) -> (r: bool)
    ensures
        r == lex_le(a@, b@),
{
    let alen = a.unicode_len();
    let blen = b.unicode_len();
    let mut i: usize = 0;
    proof {
        assert(a@.skip(0) =~= a@);
        assert(b@.skip(0) =~= b@);
    }
    loop
        invariant
            i <= alen,
            i <= blen,
            alen == a@.len(),
            blen == b@.len(),
            forall|j: int| 0 <= j < i ==> a@[j] == b@[j],
            lex_le(a@, b@) == lex_le(a@.skip(i as int), b@.skip(i as int)),
        decreases alen - i,
    {
        if i == alen {
            assert(a@.skip(i as int).len() == 0);
            return true;
        }
        if i == blen {
            assert(b@.skip(i as int).len() == 0);
            assert(a@.skip(i as int).len() > 0);
            return false;
        }
        let ca = a.get_char(i);
        let cb = b.get_char(i);
        assert(a@.skip(i as int)[0] == ca);
        assert(b@.skip(i as int)[0] == cb);
        if (ca as u32) < (cb as u32) {
            return true;
        }
        if ca != cb {
            return false;
        }
        proof {
            assert(a@.skip(i as int).skip(1) =~= a@.skip(i as int + 1));
            assert(b@.skip(i as int).skip(1) =~= b@.skip(i as int + 1));
        }
        i = i + 1;
    }
}

/// Equality of string contents.
pub fn str_eq(a: &str, b: &str) -> (r: bool)
    ensures
        r == (a@ == b@),
{
    let alen = a.unicode_len();
    let blen = b.unicode_len();
    if alen != blen {
        return false;
    }
    let mut i: usize = 0;
    while i < alen
        invariant
            i <= alen,
            alen == a@.len(),
            alen == b@.len(),
            forall|j: int| 0 <= j < i ==> a@[j] == b@[j],
        decreases alen - i,
    {
        if a.get_char(i) != b.get_char(i) {
            assert(a@ != b@);
            return false;
        }
        i = i + 1;
    }
    assert(a@ =~= b@);
    true
}

/// `p` is a (not necessarily strict) prefix of `s`.
pub open spec fn is_prefix(p: Seq<char>, s: Seq<char>) -> bool {
    p.len() <= s.len() && s.take(p.len() as int) == p
}

/// `x` is a (not necessarily strict) suffix of `s`.
pub open spec fn is_suffix(x: Seq<char>, s: Seq<char>) -> bool {
    x.len() <= s.len() && s.skip(s.len() - x.len()) == x
}

pub fn str_starts_with(s: &str, p: &str) -> (r: bool)
    ensures
        r == is_prefix(p@, s@),
{
    let slen = s.unicode_len();
    let plen = p.unicode_len();
    if plen > slen {
        return false;
    }
    let mut i: usize = 0;
    while i < plen
        invariant
            i <= plen,
            plen <= slen,
            slen == s@.len(),
            plen == p@.len(),
            forall|j: int| 0 <= j < i ==> s@[j] == p@[j],
        decreases plen - i,
    {
        if s.get_char(i) != p.get_char(i) {
            assert(s@.take(p@.len() as int)[i as int] != p@[i as int]);
            return false;
        }
        i = i + 1;
    }
    assert(s@.take(p@.len() as int) =~= p@);
    true
}

pub fn str_ends_with(s: &str, x: &str) -> (r: bool)
    ensures
        r == is_suffix(x@, s@),
{
    let slen = s.unicode_len();
    let xlen = x.unicode_len();
    if xlen > slen {
        return false;
    }
    let off = slen - xlen;
    let mut i: usize = 0;
    while i < xlen
        invariant
            i <= xlen,
            off == slen - xlen,
            xlen <= slen,
            slen == s@.len(),
            xlen == x@.len(),
            forall|j: int| 0 <= j < i ==> s@[off + j] == x@[j],
        decreases xlen - i,
    {
        if s.get_char(off + i) != x.get_char(i) {
            assert(s@.skip(s@.len() - x@.len())[i as int] != x@[i as int]);
            return false;
        }
        i = i + 1;
    }
    assert(s@.skip(s@.len() - x@.len()) =~= x@);
    true
}

/// `needle` occurs contiguously somewhere inside `hay`.
pub open spec fn contains_seq(hay: Seq<char>, needle: Seq<char>) -> bool {
    exists|i: int|
        0 <= i && i + needle.len() <= hay.len() && #[trigger] hay.subrange(
            i,
            i + needle.len(),
        ) == needle
}

/// Substring search by direct comparison at every offset.
pub fn str_contains(hay: &str, needle: &str) -> (r: bool)
    ensures
        r == contains_seq(hay@, needle@),
{
    let hlen = hay.unicode_len();
    let nlen = needle.unicode_len();
    if nlen > hlen {
        return false;
    }
    let mut i: usize = 0;
    while i <= hlen - nlen
        invariant
            nlen <= hlen,
            hlen == hay@.len(),
            nlen == needle@.len(),
            i <= hlen - nlen + 1,
            forall|k: int|
                0 <= k < i ==> #[trigger] hay@.subrange(k, k + needle@.len())
                    != needle@,
        decreases hlen + 1 - nlen - i,
    {
        let mut j: usize = 0;
        let mut all_match = true;
        while j < nlen
            invariant
                j <= nlen,
                i + nlen <= hlen,
                hlen == hay@.len(),
                nlen == needle@.len(),
                all_match == (forall|t: int|
                    0 <= t < j ==> hay@[i + t] == #[trigger] needle@[t]),
            decreases nlen - j,
        {
            if hay.get_char(i + j) != needle.get_char(j) {
                all_match = false;
                assert(hay@[i + j as int] != needle@[j as int]);
                j = nlen;
            } else {
                if all_match {
                    assert(forall|t: int|
                        0 <= t < j + 1 ==> hay@[i + t] == #[trigger] needle@[t]);
                }
                j = j + 1;
            }
        }
        if all_match {
            assert(hay@.subrange(i as int, i + needle@.len()) =~= needle@);
            return true;
        }
        assert(hay@.subrange(i as int, i + needle@.len()) != needle@) by {
            if hay@.subrange(i as int, i + needle@.len()) == needle@ {
                assert(forall|t: int|
                    0 <= t < needle@.len() ==> hay@[i + t] == #[trigger] needle@[t])
                    by {
                    assert(forall|t: int|
                        0 <= t < needle@.len() ==> #[trigger] needle@[t]
                            == hay@.subrange(i as int, i + needle@.len())[t]);
                }
            }
        }
        i = i + 1;
    }
    false
}

/// Index of the first occurrence of `c` in `s`, if any.
pub open spec fn first_index_of(s: Seq<char>, c: char) -> Option<int>
    decreases s.len(),
{
    if s.len() == 0 {
        Option::None
    } else if s[0] == c {
        Option::Some(0)
    } else {
        match first_index_of(s.skip(1), c) {
            Option::Some(i) => Option::Some(i + 1),
            Option::None => Option::None,
        }
    }
}

pub proof fn lemma_first_index_of(s: Seq<char>, c: char)
    ensures
        match first_index_of(s, c) {
            Option::Some(i) => 0 <= i < s.len() && s[i] == c && forall|j: int|
                0 <= j < i ==> #[trigger] s[j] != c,
            Option::None => forall|j: int| 0 <= j < s.len() ==> #[trigger] s[j] != c,
        },
    decreases s.len(),
{
    if s.len() > 0 && s[0] != c {
        lemma_first_index_of(s.skip(1), c);
        match first_index_of(s.skip(1), c) {
            Option::Some(ip) => {
                assert(s[ip + 1] == s.skip(1)[ip]);
                assert forall|j: int| 0 <= j < ip + 1 implies #[trigger] s[j]
                    != c by {
                    if j > 0 {
                        assert(s.skip(1)[j - 1] != c);
                    }
                }
            },
            Option::None => {
                assert forall|j: int| 0 <= j < s.len() implies #[trigger] s[j]
                    != c by {
                    if j > 0 {
                        assert(s.skip(1)[j - 1] != c);
                    }
                }
            },
        }
    }
}

/// The first occurrence of `c` is whatever position a direct scan finds.
pub proof fn lemma_first_index_from_scan(s: Seq<char>, c: char, i: int)
    requires
        0 <= i < s.len(),
        s[i] == c,
        forall|j: int| 0 <= j < i ==> s[j] != c,
    ensures
        first_index_of(s, c) == Option::Some(i),
    decreases i,
{
    if i > 0 {
        assert(forall|j: int| 0 <= j < i - 1 ==> s.skip(1)[j] != c);
        lemma_first_index_from_scan(s.skip(1), c, i - 1);
    }
}

pub proof fn lemma_first_index_none(s: Seq<char>, c: char)
    requires
        forall|j: int| 0 <= j < s.len() ==> s[j] != c,
    ensures
        first_index_of(s, c) == Option::None::<int>,
    decreases s.len(),
{
    if s.len() > 0 {
        lemma_first_index_none(s.skip(1), c);
    }
}

/// Split `s` at every occurrence of `c`.  Splitting the empty sequence
/// gives one empty field, and a trailing separator gives a trailing
/// empty field, so joining with `c` is an exact inverse.
pub open spec fn split_seq(s: Seq<char>, c: char) -> Seq<Seq<char>>
    decreases s.len(),
    via split_seq_decreases
{
    match first_index_of(s, c) {
        Option::None => seq![s],
        Option::Some(i) => seq![s.take(i)] + split_seq(s.skip(i + 1), c),
    }
}

#[via_fn]
proof fn split_seq_decreases(s: Seq<char>, c: char) {
    lemma_first_index_of(s, c);
}

/// Join fields with the separator `c`.
pub open spec fn join_seq(v: Seq<Seq<char>>, c: char) -> Seq<char>
    decreases v.len(),
{
    if v.len() == 0 {
        Seq::empty()
    } else if v.len() == 1 {
        v[0]
    } else {
        v[0] + seq![c] + join_seq(v.skip(1), c)
    }
}

pub proof fn lemma_split_len(s: Seq<char>, c: char)
    ensures
        split_seq(s, c).len() >= 1,
    decreases s.len(),
{
    lemma_first_index_of(s, c);
    match first_index_of(s, c) {
        Option::Some(i) => lemma_split_len(s.skip(i + 1), c),
        Option::None => {},
    }
}

/// Joining undoes splitting.
pub proof fn lemma_join_split(s: Seq<char>, c: char)
    ensures
        join_seq(split_seq(s, c), c) == s,
    decreases s.len(),
{
    lemma_first_index_of(s, c);
    match first_index_of(s, c) {
        Option::None => {},
        Option::Some(i) => {
            lemma_join_split(s.skip(i + 1), c);
            lemma_split_len(s.skip(i + 1), c);
            let rest = split_seq(s.skip(i + 1), c);
            assert(split_seq(s, c) == seq![s.take(i)] + rest);
            assert((seq![s.take(i)] + rest).skip(1) =~= rest);
            assert(s =~= s.take(i) + seq![c] + s.skip(i + 1));
        },
    }
}

/// Splitting after a separator-free field: the field comes off whole.
pub proof fn lemma_split_prepend(a: Seq<char>, rest: Seq<char>, c: char)
    requires
        forall|j: int| 0 <= j < a.len() ==> a[j] != c,
    ensures
        split_seq(a + seq![c] + rest, c) == seq![a] + split_seq(rest, c),
{
    let s = a + seq![c] + rest;
    assert(s[a.len() as int] == c);
    assert(forall|j: int| 0 <= j < a.len() ==> s[j] == a[j] && s[j] != c);
    lemma_first_index_from_scan(s, c, a.len() as int);
    assert(s.take(a.len() as int) =~= a);
    assert(s.skip(a.len() as int + 1) =~= rest);
}

/// Split a string at every occurrence of `c`.
pub fn split_on(s: &str, c: char) -> (r: Vec<String>)
    ensures
        r@.map_values(|x: String| x@) == split_seq(s@, c),
{
    let slen = s.unicode_len();
    let mut out: Vec<String> = Vec::new();
    let mut start: usize = 0;
    let mut i: usize = 0;
    proof {
        assert(s@.skip(0) =~= s@);
        assert(out@.map_values(|x: String| x@) + split_seq(s@, c) =~= split_seq(
            s@,
            c,
        ));
    }
    while i < slen
        invariant
            start <= i <= slen,
            slen == s@.len(),
            forall|j: int| start <= j < i ==> s@[j] != c,
            split_seq(s@, c) == out@.map_values(|x: String| x@) + split_seq(
                s@.skip(start as int),
                c,
            ),
        decreases slen - i,
    {
        if s.get_char(i) == c {
            let piece = s.substring_char(start, i);
            let ghost prevmap = out@.map_values(|x: String| x@);
            proof {
                let tail = s@.skip(start as int);
                assert(forall|j: int|
                    0 <= j < i - start ==> tail[j] == s@[start + j] && tail[j]
                        != c);
                assert(tail[i as int - start as int] == c);
                lemma_first_index_from_scan(tail, c, i as int - start as int);
                assert(tail.take(i as int - start as int) =~= piece@);
                assert(tail.skip(i as int - start as int + 1) =~= s@.skip(
                    i as int + 1,
                ));
            }
            out.push(piece.to_owned());
            proof {
                assert(out@.map_values(|x: String| x@) =~= prevmap.push(
                    piece@,
                ));
                assert(prevmap.push(piece@) + split_seq(s@.skip(i as int + 1), c)
                    =~= prevmap + (seq![piece@] + split_seq(
                    s@.skip(i as int + 1),
                    c,
                )));
            }
            start = i + 1;
        }
        i = i + 1;
    }
    let piece = s.substring_char(start, slen);
    let ghost prevmap = out@.map_values(|x: String| x@);
    proof {
        let tail = s@.skip(start as int);
        assert(forall|j: int|
            0 <= j < tail.len() ==> tail[j] == s@[start + j] && tail[j] != c);
        lemma_first_index_none(tail, c);
        assert(tail =~= piece@);
    }
    out.push(piece.to_owned());
    proof {
        assert(out@.map_values(|x: String| x@) =~= prevmap.push(piece@));
        assert(prevmap.push(piece@) =~= prevmap + seq![piece@]);
        assert(split_seq(s@.skip(start as int), c) == seq![piece@]);
        assert(out@.map_values(|x: String| x@) =~= split_seq(s@, c));
    }
    out
}

/// Join strings with the separator character `c`.
pub fn join_with(v: &Vec<String>, c: char, sep: &str) -> (r: String)
    requires
        sep@ == seq![c],
    ensures
        r@ == join_seq(v@.map_values(|x: String| x@), c),
{
    let mut out = String::new();
    let n = v.len();
    if n == 0 {
        return out;
    }
    let ghost mapped = v@.map_values(|x: String| x@);
    let mut i: usize = 0;
    while i < n
        invariant
            0 < n == v@.len(),
            i <= n,
            sep@ == seq![c],
            mapped == v@.map_values(|x: String| x@),
            i == 0 ==> out@ == Seq::<char>::empty(),
            i > 0 ==> out@ == join_seq(mapped.take(i as int), c) + (if i < n {
                seq![c]
            } else {
                Seq::<char>::empty()
            }),
        decreases n - i,
    {
        let ghost before = out@;
        out.append(v[i].as_str());
        proof {
            lemma_join_take_step(mapped, c, i as int);
            assert(mapped[i as int] == v@[i as int]@);
            if i == 0 {
                assert(out@ =~= join_seq(mapped.take(1), c));
            } else {
                assert(before == join_seq(mapped.take(i as int), c) + seq![c]);
                assert(out@ =~= join_seq(mapped.take(i as int), c) + seq![c]
                    + mapped[i as int]);
                assert(out@ =~= join_seq(mapped.take(i as int + 1), c));
            }
        }
        if i + 1 < n {
            out.append(sep);
        }
        i = i + 1;
    }
    proof {
        assert(mapped.take(n as int) =~= mapped);
    }
    out
}

/// Extending a partial join by one field.
pub proof fn lemma_join_take_step(v: Seq<Seq<char>>, c: char, i: int)
    requires
        0 <= i < v.len(),
    ensures
        join_seq(v.take(i + 1), c) == if i == 0 {
            v[0]
        } else {
            join_seq(v.take(i), c) + seq![c] + v[i]
        },
    decreases i,
{
    if i == 0 {
        assert(v.take(1) =~= seq![v[0]]);
    } else {
        assert(v.take(i + 1)[0] == v[0]);
        assert(v.take(i + 1).skip(1) =~= v.skip(1).take(i));
        assert(v.take(i).skip(1) =~= v.skip(1).take(i - 1));
        assert(v.take(i)[0] == v[0]);
        lemma_join_take_step(v.skip(1), c, i - 1);
        if i == 1 {
            assert(v.skip(1).take(1) =~= seq![v.skip(1)[0]]);
            assert(join_seq(v.take(2), c) == v[0] + seq![c] + join_seq(
                v.take(2).skip(1),
                c,
            ));
            assert(join_seq(v.take(1), c) == v[0]);
        } else {
            assert(join_seq(v.take(i + 1), c) == v[0] + seq![c] + join_seq(
                v.skip(1).take(i),
                c,
            ));
            assert(join_seq(v.take(i), c) == v[0] + seq![c] + join_seq(
                v.skip(1).take(i - 1),
                c,
            ));
            assert(v.skip(1)[i - 1] == v[i]);
            assert(v[0] + seq![c] + (join_seq(v.skip(1).take(i - 1), c)
                + seq![c] + v.skip(1)[i - 1]) =~= (v[0] + seq![c] + join_seq(
                v.skip(1).take(i - 1),
                c,
            )) + seq![c] + v[i]);
        }
    }
}


/// The views of a sequence of strings.
pub open spec fn str_views(s: Seq<String>) -> Seq<Seq<char>> {
    s.map_values(|x: String| x@)
}

/// Whitespace, for trimming and blankness tests: space, tab, carriage
/// return, newline.
pub open spec fn is_ws(c: char) -> bool {
    c == ' ' || c == '\t' || c == '\r' || c == '\n'
}

/// Text that holds nothing but whitespace.
pub open spec fn is_blank(s: Seq<char>) -> bool {
    forall|i: int| 0 <= i < s.len() ==> is_ws(#[trigger] s[i])
}

/// Whether a character is whitespace.
pub fn is_ws_char(c: char) -> (r: bool)
    ensures
        r == is_ws(c),
{
    c == ' ' || c == '\t' || c == '\r' || c == '\n'
}

/// Whether a string is empty or all whitespace.
pub fn str_is_blank(s: &str) -> (r: bool)
    ensures
        r == is_blank(s@),
{
    let n = s.unicode_len();
    let mut i: usize = 0;
    while i < n
        invariant
            i <= n,
            n == s@.len(),
            forall|j: int| 0 <= j < i ==> is_ws(#[trigger] s@[j]),
        decreases n - i,
    {
        if !is_ws_char(s.get_char(i)) {
            return false;
        }
        i = i + 1;
    }
    true
}

/// Length of the leading whitespace run.
pub open spec fn lead_ws(s: Seq<char>) -> int
    decreases s.len(),
{
    if s.len() == 0 || !is_ws(s[0]) {
        0
    } else {
        1 + lead_ws(s.skip(1))
    }
}

/// Length of the trailing whitespace run.
pub open spec fn trail_ws(s: Seq<char>) -> int
    decreases s.len(),
{
    if s.len() == 0 || !is_ws(s[s.len() - 1]) {
        0
    } else {
        1 + trail_ws(s.drop_last())
    }
}

pub proof fn lemma_ws_bounds(s: Seq<char>)
    ensures
        0 <= lead_ws(s) <= s.len(),
        0 <= trail_ws(s) <= s.len(),
    decreases s.len(),
{
    if s.len() > 0 {
        lemma_ws_bounds(s.skip(1));
        lemma_ws_bounds(s.drop_last());
    }
}

/// Text with its leading and trailing whitespace removed.
pub open spec fn trimmed(s: Seq<char>) -> Seq<char> {
    if lead_ws(s) + trail_ws(s) >= s.len() {
        Seq::empty()
    } else {
        s.subrange(lead_ws(s), s.len() - trail_ws(s))
    }
}

/// Trim leading and trailing whitespace.
pub fn trim_str(s: &str) -> (r: String)
    ensures
        r@ == trimmed(s@),
{
    proof {
        lemma_ws_bounds(s@);
        assert(s@.skip(0) =~= s@);
    }
    let n = s.unicode_len();
    let mut a: usize = 0;
    while a < n && is_ws_char(s.get_char(a))
        invariant
            a <= n,
            lead_ws(s@) == a + lead_ws(s@.skip(a as int)),
        decreases n - a,
    {
        proof {
            assert(s@.skip(a as int)[0] == s@[a as int]);
            assert(s@.skip(a as int).skip(1) =~= s@.skip(a as int + 1));
        }
        a = a + 1;
    }
    proof {
        assert(lead_ws(s@.skip(a as int)) == 0);
        assert(lead_ws(s@) == a);
    }
    let mut b: usize = n;
    proof {
        assert(s@.take(n as int) =~= s@);
    }
    while b > a && is_ws_char(s.get_char(b - 1))
        invariant
            a <= b <= n,
            trail_ws(s@) == (n - b) + trail_ws(s@.take(b as int)),
        decreases b,
    {
        proof {
            let t = s@.take(b as int);
            assert(t[t.len() - 1] == s@[b as int - 1]);
            assert(t.drop_last() =~= s@.take(b as int - 1));
        }
        b = b - 1;
    }
    if b == a {
        proof {
            lemma_ws_bounds(s@.take(b as int));
            assert(lead_ws(s@) + trail_ws(s@) >= n);
        }
        return String::new();
    }
    proof {
        let t = s@.take(b as int);
        assert(t[t.len() - 1] == s@[b as int - 1]);
        assert(trail_ws(t) == 0);
        assert(trail_ws(s@) == n - b);
    }
    let piece = s.substring_char(a, b);
    proof {
        assert(piece@ =~= trimmed(s@));
    }
    piece.to_owned()
}

/// Every occurrence of one character replaced by a space.
pub open spec fn swap_char(s: Seq<char>, from: char) -> Seq<char> {
    s.map_values(|c: char| if c == from { ' ' } else { c })
}

/// Splitting on a character and joining with a space is exactly that
/// replacement.
pub proof fn lemma_swap_join(s: Seq<char>, c: char)
    ensures
        join_seq(split_seq(s, c), ' ') == swap_char(s, c),
    decreases s.len(),
{
    lemma_first_index_of(s, c);
    match first_index_of(s, c) {
        Option::None => {
            assert(join_seq(split_seq(s, c), ' ') == s);
            assert(swap_char(s, c) =~= s);
        },
        Option::Some(i) => {
            let rest = split_seq(s.skip(i + 1), c);
            lemma_split_len(s.skip(i + 1), c);
            assert((seq![s.take(i)] + rest)[0] == s.take(i));
            assert((seq![s.take(i)] + rest).skip(1) =~= rest);
            assert(join_seq(split_seq(s, c), ' ') == s.take(i) + seq![' ']
                + join_seq(rest, ' '));
            lemma_swap_join(s.skip(i + 1), c);
            assert(swap_char(s.skip(i + 1), c) =~= swap_char(s, c).skip(
                i + 1,
            ));
            assert(swap_char(s, c) =~= s.take(i) + seq![' '] + swap_char(
                s.skip(i + 1),
                c,
            ));
        },
    }
}

/// Index just after the last slash; the whole text's start when it has
/// no slash.
pub open spec fn seg_start(p: Seq<char>) -> int
    decreases p.len(),
{
    if p.len() == 0 {
        0
    } else if p[p.len() - 1] == '/' {
        p.len() as int
    } else {
        seg_start(p.drop_last())
    }
}

pub proof fn lemma_seg_start_scan(p: Seq<char>, st: int)
    requires
        0 <= st <= p.len(),
        st == 0 || p[st - 1] == '/',
        forall|j: int| st <= j < p.len() ==> p[j] != '/',
    ensures
        seg_start(p) == st,
    decreases p.len(),
{
    if p.len() == 0 {
    } else if p[p.len() - 1] == '/' {
        assert(st == p.len());
    } else {
        assert(st < p.len());
        assert(forall|j: int|
            st <= j < p.drop_last().len() ==> p.drop_last()[j] != '/');
        if st > 0 {
            assert(p.drop_last()[st - 1] == p[st - 1]);
        }
        lemma_seg_start_scan(p.drop_last(), st);
    }
}


/// Index just after the last slash, by a single scan.
pub fn seg_start_of(p: &str) -> (r: usize)
    ensures
        r == seg_start(p@),
        r <= p@.len(),
{
    let n = p.unicode_len();
    let mut st: usize = 0;
    let mut i: usize = 0;
    while i < n
        invariant
            st <= i <= n,
            st == 0 || p@[st as int - 1] == '/',
            forall|j: int| st <= j < i ==> p@[j] != '/',
        decreases n - i,
    {
        if p.get_char(i) == '/' {
            st = i + 1;
        }
        i = i + 1;
    }
    proof {
        lemma_seg_start_scan(p@, st as int);
    }
    st
}


/// Join fields with an arbitrary separator.
pub open spec fn join_any(v: Seq<Seq<char>>, sep: Seq<char>) -> Seq<char>
    decreases v.len(),
{
    if v.len() == 0 {
        Seq::empty()
    } else if v.len() == 1 {
        v[0]
    } else {
        v[0] + sep + join_any(v.skip(1), sep)
    }
}

/// Extending a partial join by one field.
pub proof fn lemma_join_any_take_step(v: Seq<Seq<char>>, sep: Seq<char>, i: int)
    requires
        0 <= i < v.len(),
    ensures
        join_any(v.take(i + 1), sep) == if i == 0 {
            v[0]
        } else {
            join_any(v.take(i), sep) + sep + v[i]
        },
    decreases i,
{
    if i == 0 {
        assert(v.take(1) =~= seq![v[0]]);
    } else {
        assert(v.take(i + 1)[0] == v[0]);
        assert(v.take(i + 1).skip(1) =~= v.skip(1).take(i));
        assert(v.take(i).skip(1) =~= v.skip(1).take(i - 1));
        assert(v.take(i)[0] == v[0]);
        lemma_join_any_take_step(v.skip(1), sep, i - 1);
        if i == 1 {
            assert(v.skip(1).take(1) =~= seq![v.skip(1)[0]]);
            assert(join_any(v.take(2), sep) == v[0] + sep + join_any(
                v.take(2).skip(1),
                sep,
            ));
            assert(join_any(v.take(1), sep) == v[0]);
        } else {
            assert(join_any(v.take(i + 1), sep) == v[0] + sep + join_any(
                v.skip(1).take(i),
                sep,
            ));
            assert(join_any(v.take(i), sep) == v[0] + sep + join_any(
                v.skip(1).take(i - 1),
                sep,
            ));
            assert(v.skip(1)[i - 1] == v[i]);
            assert(v[0] + sep + (join_any(v.skip(1).take(i - 1), sep) + sep
                + v.skip(1)[i - 1]) =~= (v[0] + sep + join_any(
                v.skip(1).take(i - 1),
                sep,
            )) + sep + v[i]);
        }
    }
}

/// Join strings with an arbitrary separator.
pub fn join_strs(v: &Vec<String>, sep: &str) -> (r: String)
    ensures
        r@ == join_any(str_views(v@), sep@),
{
    let mut out = String::new();
    let n = v.len();
    if n == 0 {
        return out;
    }
    let ghost mapped = str_views(v@);
    let mut i: usize = 0;
    while i < n
        invariant
            0 < n == v@.len(),
            i <= n,
            mapped == str_views(v@),
            i == 0 ==> out@ == Seq::<char>::empty(),
            i > 0 ==> out@ == join_any(mapped.take(i as int), sep@) + (if i
                < n {
                sep@
            } else {
                Seq::<char>::empty()
            }),
        decreases n - i,
    {
        let ghost before = out@;
        out.append(v[i].as_str());
        proof {
            lemma_join_any_take_step(mapped, sep@, i as int);
            assert(mapped[i as int] == v@[i as int]@);
            if i == 0 {
                assert(out@ =~= join_any(mapped.take(1), sep@));
            } else {
                assert(before == join_any(mapped.take(i as int), sep@)
                    + sep@);
                assert(out@ =~= join_any(mapped.take(i as int), sep@) + sep@
                    + mapped[i as int]);
                assert(out@ =~= join_any(mapped.take(i as int + 1), sep@));
            }
        }
        if i + 1 < n {
            out.append(sep);
        }
        i = i + 1;
    }
    proof {
        assert(mapped.take(n as int) =~= mapped);
    }
    out
}

} // verus!
