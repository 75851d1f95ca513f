//! Character-level helpers shared by the query engine, the locale resolver
//! and the cache layer: ASCII case folding, whitespace and separator
//! splitting, substring search, and a lexicographic order on character
//! sequences.
//!
//! All executable routines work on `Vec<char>` so that every step is plain
//! indexed code; `chars_of` turns a `&str` into that form.

use vstd::prelude::*;
use vstd::string::StrSliceExecFns;

verus! {

/// ASCII case folding: uppercase ASCII letters map to lowercase, every other
/// character is unchanged. Matching is case-insensitive exactly up to this
/// folding.
pub open spec fn fold_char(c: char) -> char {
    if 'A' <= c && c <= 'Z' {
        (((c as u32) + 32) as u8) as char
    } else {
        c
    }
}

/// Folding applied to a whole character sequence.
pub open spec fn fold_chars(s: Seq<char>) -> Seq<char> {
    s.map_values(|c: char| fold_char(c))
}

/// Executable ASCII case folding; agrees with `fold_char`.
pub fn lower_char(c: char) -> (r: char)
    ensures
        r == fold_char(c),
{
    let u = c as u32;
    if 65 <= u && u <= 90 {
        assert('A' <= c && c <= 'Z');
        ((u + 32) as u8) as char
    } else {
        assert(!('A' <= c && c <= 'Z'));
        c
    }
}

/// Executable folding of a whole vector; agrees with `fold_chars`.
pub fn fold_vec(v: &Vec<char>) -> (r: Vec<char>)
    ensures
        r@ == fold_chars(v@),
{
    let mut r: Vec<char> = Vec::new();
    let mut i: usize = 0;
    while i < v.len()
        invariant
            i <= v.len(),
            r@ == fold_chars(v@.take(i as int)),
        decreases v.len() - i,
    {
        r.push(lower_char(v[i]));
        i += 1;
        proof {
            assert(r@ =~= fold_chars(v@.take(i as int)));
        }
    }
    proof {
        assert(v@.take(v@.len() as int) =~= v@);
    }
    r
}

/// The characters treated as blank when search text is split into terms
/// and when tokens are trimmed: the Unicode white-space set, by scalar
/// value — the set `str::trim` and `str::split_whitespace` go by.
pub open spec fn is_blank(c: char) -> bool {
    let u = c as u32;
    u == 0x20 || (0x09 <= u && u <= 0x0D) || u == 0x85 || u == 0xA0 || u == 0x1680 || (0x2000 <= u
        && u <= 0x200A) || u == 0x2028 || u == 0x2029 || u == 0x202F || u == 0x205F || u == 0x3000
}

/// The blank predicate as a function value, so that every mention of
/// blank-splitting names the same predicate.
pub open spec fn blank_pred() -> spec_fn(char) -> bool {
    |c: char| is_blank(c)
}

/// A single-separator predicate as a function value.
pub open spec fn sep_pred(sep: char) -> spec_fn(char) -> bool {
    |c: char| c == sep
}

/// Executable blank test; agrees with `is_blank`.
pub fn blank_char(c: char) -> (r: bool)
    ensures
        r == is_blank(c),
{
    let u = c as u32;
    u == 0x20 || (0x09 <= u && u <= 0x0D) || u == 0x85 || u == 0xA0 || u == 0x1680 || (0x2000 <= u
        && u <= 0x200A) || u == 0x2028 || u == 0x2029 || u == 0x202F || u == 0x205F || u == 0x3000
}

/// The characters of a string slice, in order.
pub fn chars_of(s: &str) -> (r: Vec<char>)
    ensures
        r@ == s@,
{
    let n = s.unicode_len();
    let mut r: Vec<char> = Vec::new();
    let mut i: usize = 0;
    while i < n
        invariant
            i <= n,
            n == s@.len(),
            r@ == s@.take(i as int),
        decreases n - i,
    {
        let c = s.get_char(i);
        r.push(c);
        i += 1;
        proof {
            assert(r@ =~= s@.take(i as int));
        }
    }
    proof {
        assert(s@.take(n as int) =~= s@);
    }
    r
}

/// Character-vector equality, decided element by element.
pub fn chars_eq(a: &Vec<char>, b: &Vec<char>) -> (r: bool)
    ensures
        r == (a@ == b@),
{
    if a.len() != b.len() {
        return false;
    }
    let mut i: usize = 0;
    while i < a.len()
        invariant
            i <= a.len(),
            a@.len() == b@.len(),
            forall|j: int| 0 <= j < i ==> a@[j] == b@[j],
        decreases a.len() - i,
    {
        if a[i] != b[i] {
            return false;
        }
        i += 1;
    }
    proof {
        assert(a@ =~= b@);
    }
    true
}

/// `needle` occurs contiguously somewhere in `hay`.
pub open spec fn has_sub(hay: Seq<char>, needle: Seq<char>) -> bool {
    exists|i: int|
        0 <= i && i + needle.len() <= hay.len() && #[trigger] hay.subrange(i, i + needle.len())
            == needle
}

/// `needle` occurs in `hay` starting exactly at `at`.
fn matches_at(hay: &Vec<char>, needle: &Vec<char>, at: usize) -> (r: bool)
    requires
        at + needle@.len() <= hay@.len(),
    ensures
        r == (hay@.subrange(at as int, at + needle@.len()) == needle@),
{
    let hlen = hay.len();
    let mut j: usize = 0;
    while j < needle.len()
        invariant
            j <= needle.len(),
            hlen == hay@.len(),
            at + needle@.len() <= hay@.len(),
            forall|k: int| 0 <= k < j ==> hay@[at + k] == needle@[k],
        decreases needle.len() - j,
    {
        proof {
            assert(at + j < hay@.len());
        }
        if hay[at + j] != needle[j] {
            assert(hay@.subrange(at as int, at + needle@.len())[j as int] != needle@[j as int]);
            return false;
        }
        j += 1;
    }
    proof {
        assert(hay@.subrange(at as int, at + needle@.len()) =~= needle@);
    }
    true
}

/// Substring search; agrees with `has_sub`.
pub fn contains_sub(hay: &Vec<char>, needle: &Vec<char>) -> (r: bool)
    ensures
        r == has_sub(hay@, needle@),
{
    if needle.len() == 0 {
        proof {
            assert(hay@.subrange(0, 0 + needle@.len() as int) =~= needle@);
        }
        return true;
    }
    if needle.len() > hay.len() {
        return false;
    }
    let hlen = hay.len();
    let last = hay.len() - needle.len();
    let mut i: usize = 0;
    while i <= last
        invariant
            i <= last + 1,
            hlen == hay@.len(),
            needle@.len() >= 1,
            last == hay@.len() - needle@.len(),
            forall|k: int|
                0 <= k < i ==> #[trigger] hay@.subrange(k, k + needle@.len()) != needle@,
        decreases last + 1 - i,
    {
        if matches_at(hay, needle, i) {
            return true;
        }
        i += 1;
    }
    false
}

/// The index of the first character satisfying `p`, or the length of `s` if
/// none does.
pub open spec fn first_when(s: Seq<char>, p: spec_fn(char) -> bool) -> int
    decreases s.len(),
{
    if s.len() == 0 {
        0
    } else if p(s[0]) {
        0
    } else {
        1 + first_when(s.drop_first(), p)
    }
}

pub proof fn lemma_first_when(s: Seq<char>, p: spec_fn(char) -> bool)
    ensures
        0 <= first_when(s, p) <= s.len(),
        forall|j: int| 0 <= j < first_when(s, p) ==> !p(s[j]),
        first_when(s, p) < s.len() ==> p(s[first_when(s, p)]),
    decreases s.len(),
{
    if s.len() == 0 {
    } else if p(s[0]) {
    } else {
        lemma_first_when(s.drop_first(), p);
        assert(forall|j: int| 1 <= j < s.len() ==> s[j] == s.drop_first()[j - 1]);
    }
}

/// `first_when` is pinned down by its characteristic properties.
pub proof fn lemma_first_when_is(s: Seq<char>, p: spec_fn(char) -> bool, k: int)
    requires
        0 <= k <= s.len(),
        forall|j: int| 0 <= j < k ==> !p(s[j]),
        k < s.len() ==> p(s[k]),
    ensures
        first_when(s, p) == k,
    decreases s.len(),
{
    if s.len() == 0 {
    } else if p(s[0]) {
    } else {
        assert(k != 0);
        assert(forall|j: int| 0 <= j < s.len() - 1 ==> s.drop_first()[j] == s[j + 1]);
        lemma_first_when_is(s.drop_first(), p, k - 1);
    }
}

/// `s` split at every character satisfying `p`; separators are dropped and
/// empty pieces are kept, so the result always has one more piece than there
/// are separators.
pub open spec fn split_when(s: Seq<char>, p: spec_fn(char) -> bool) -> Seq<Seq<char>>
    decreases s.len(),
    via split_when_decreases
{
    let k = first_when(s, p);
    if k == s.len() {
        seq![s]
    } else {
        seq![s.take(k)] + split_when(s.skip(k + 1), p)
    }
}

#[via_fn]
proof fn split_when_decreases(s: Seq<char>, p: spec_fn(char) -> bool) {
    lemma_first_when(s, p);
}

/// Splitting a sequence that has no separator yields that sequence alone.
pub proof fn lemma_split_when_whole(s: Seq<char>, p: spec_fn(char) -> bool)
    requires
        forall|j: int| 0 <= j < s.len() ==> !p(s[j]),
    ensures
        split_when(s, p) == seq![s],
{
    lemma_first_when_is(s, p, s.len() as int);
}

/// Splitting at the first separator peels off the separator-free prefix.
pub proof fn lemma_split_when_head(
    c: Seq<char>,
    sep: char,
    rest: Seq<char>,
    p: spec_fn(char) -> bool,
)
    requires
        forall|j: int| 0 <= j < c.len() ==> !p(c[j]),
        p(sep),
    ensures
        split_when(c + seq![sep] + rest, p) == seq![c] + split_when(rest, p),
{
    let s = c + seq![sep] + rest;
    assert(forall|j: int| 0 <= j < c.len() ==> s[j] == c[j]);
    assert(s[c.len() as int] == sep);
    lemma_first_when_is(s, p, c.len() as int);
    assert(s.take(c.len() as int) =~= c);
    assert(s.skip(c.len() as int + 1) =~= rest);
}

/// The pieces of `ps` that are non-empty, in order.
pub open spec fn non_empties(ps: Seq<Seq<char>>) -> Seq<Seq<char>>
    decreases ps.len(),
{
    if ps.len() == 0 {
        ps
    } else {
        non_empties(ps.drop_last()) + if ps.last().len() > 0 {
            seq![ps.last()]
        } else {
            Seq::empty()
        }
    }
}

/// `s` with every space character removed.
pub open spec fn strip_spaces(s: Seq<char>) -> Seq<char>
    decreases s.len(),
{
    if s.len() == 0 {
        s
    } else {
        strip_spaces(s.drop_last()) + if s.last() == ' ' {
            Seq::empty()
        } else {
            seq![s.last()]
        }
    }
}

/// Executable space stripping; agrees with `strip_spaces`.
pub fn strip_spaces_vec(v: &Vec<char>) -> (r: Vec<char>)
    ensures
        r@ == strip_spaces(v@),
{
    let mut r: Vec<char> = Vec::new();
    let mut i: usize = 0;
    while i < v.len()
        invariant
            i <= v.len(),
            r@ == strip_spaces(v@.take(i as int)),
        decreases v.len() - i,
    {
        proof {
            assert(v@.take(i + 1).drop_last() =~= v@.take(i as int));
            assert(v@.take(i + 1).last() == v@[i as int]);
        }
        if v[i] != ' ' {
            r.push(v[i]);
        }
        proof {
            assert(r@ =~= strip_spaces(v@.take(i + 1)));
        }
        i += 1;
    }
    proof {
        assert(v@.take(v@.len() as int) =~= v@);
    }
    r
}

/// `s` split at every occurrence of the single separator `sep`.
pub fn split_char(v: &Vec<char>, sep: char) -> (r: Vec<Vec<char>>)
    ensures
        r.deep_view() == split_when(v@, sep_pred(sep)),
{
    let ghost p = sep_pred(sep);
    let mut out: Vec<Vec<char>> = Vec::new();
    let mut cur: Vec<char> = Vec::new();
    let mut i: usize = 0;
    proof {
        assert(forall|c: char| #[trigger] p(c) == (c == sep));
        assert(cur@ + v@.skip(0) =~= v@);
        assert(out.deep_view() + split_when(v@, p) =~~= split_when(v@, p));
    }
    while i < v.len()
        invariant
            i <= v.len(),
            p == sep_pred(sep),
            forall|j: int| 0 <= j < cur@.len() ==> !p(cur@[j]),
            split_when(v@, p) == out.deep_view() + split_when(cur@ + v@.skip(i as int), p),
        decreases v.len() - i,
    {
        proof {
            assert(forall|c: char| #[trigger] p(c) == (c == sep));
        }
        let c = v[i];
        if c == sep {
            proof {
                assert(cur@ + v@.skip(i as int) =~= cur@ + seq![sep] + v@.skip(i + 1));
                lemma_split_when_head(cur@, sep, v@.skip(i + 1), p);
            }
            let ghost out0 = out.deep_view();
            let ghost done0 = cur@;
            let done = cur;
            cur = Vec::new();
            out.push(done);
            proof {
                assert(out.deep_view() =~~= out0.push(done0));
                assert(cur@ + v@.skip(i + 1) =~= v@.skip(i + 1));
                assert(out0.push(done0) =~~= out0 + seq![done0]);
            }
        } else {
            proof {
                assert(cur@.push(c) + v@.skip(i + 1) =~= cur@ + v@.skip(i as int));
            }
            cur.push(c);
        }
        i += 1;
    }
    proof {
        assert(cur@ + v@.skip(v@.len() as int) =~= cur@);
        lemma_split_when_whole(cur@, p);
    }
    let ghost out1 = out.deep_view();
    let ghost tail0 = cur@;
    out.push(cur);
    proof {
        assert(out.deep_view() =~~= out1.push(tail0));
        assert(out1.push(tail0) =~~= out1 + seq![tail0]);
        assert(out.deep_view() =~~= split_when(v@, p));
    }
    out
}

/// `s` split at every blank character.
pub fn split_blanks(v: &Vec<char>) -> (r: Vec<Vec<char>>)
    ensures
        r.deep_view() == split_when(v@, blank_pred()),
{
    let ghost p = blank_pred();
    let mut out: Vec<Vec<char>> = Vec::new();
    let mut cur: Vec<char> = Vec::new();
    let mut i: usize = 0;
    proof {
        assert(forall|c: char| #[trigger] p(c) == is_blank(c));
        assert(cur@ + v@.skip(0) =~= v@);
        assert(out.deep_view() + split_when(v@, p) =~~= split_when(v@, p));
    }
    while i < v.len()
        invariant
            i <= v.len(),
            p == blank_pred(),
            forall|j: int| 0 <= j < cur@.len() ==> !p(cur@[j]),
            split_when(v@, p) == out.deep_view() + split_when(cur@ + v@.skip(i as int), p),
        decreases v.len() - i,
    {
        proof {
            assert(forall|c: char| #[trigger] p(c) == is_blank(c));
        }
        let c = v[i];
        if blank_char(c) {
            proof {
                assert(cur@ + v@.skip(i as int) =~= cur@ + seq![c] + v@.skip(i + 1));
                lemma_split_when_head(cur@, c, v@.skip(i + 1), p);
            }
            let ghost out0 = out.deep_view();
            let ghost done0 = cur@;
            let done = cur;
            cur = Vec::new();
            out.push(done);
            proof {
                assert(out.deep_view() =~~= out0.push(done0));
                assert(cur@ + v@.skip(i + 1) =~= v@.skip(i + 1));
                assert(out0.push(done0) =~~= out0 + seq![done0]);
            }
        } else {
            proof {
                assert(cur@.push(c) + v@.skip(i + 1) =~= cur@ + v@.skip(i as int));
            }
            cur.push(c);
        }
        i += 1;
    }
    proof {
        assert(cur@ + v@.skip(v@.len() as int) =~= cur@);
        lemma_split_when_whole(cur@, p);
    }
    let ghost out1 = out.deep_view();
    let ghost tail0 = cur@;
    out.push(cur);
    proof {
        assert(out.deep_view() =~~= out1.push(tail0));
        assert(out1.push(tail0) =~~= out1 + seq![tail0]);
        assert(out.deep_view() =~~= split_when(v@, p));
    }
    out
}

/// The search terms of a raw text: case-folded, then split on blanks, with
/// empty pieces dropped. An all-blank or empty text yields no terms.
pub open spec fn terms_of(s: Seq<char>) -> Seq<Seq<char>> {
    non_empties(split_when(fold_chars(s), blank_pred()))
}

/// Executable term extraction; agrees with `terms_of`.
pub fn terms_vec(v: &Vec<char>) -> (r: Vec<Vec<char>>)
    ensures
        r.deep_view() == terms_of(v@),
{
    broadcast use vstd::std_specs::vec::vec_clone_deep_view_proof;

    let folded = fold_vec(v);
    let pieces = split_blanks(&folded);
    let mut out: Vec<Vec<char>> = Vec::new();
    let mut i: usize = 0;
    proof {
        assert(out.deep_view() =~~= non_empties(pieces.deep_view().take(0)));
    }
    while i < pieces.len()
        invariant
            i <= pieces.len(),
            pieces.deep_view() == split_when(fold_chars(v@), blank_pred()),
            out.deep_view() == non_empties(pieces.deep_view().take(i as int)),
        decreases pieces.len() - i,
    {
        let ghost prefix = pieces.deep_view().take(i as int);
        proof {
            assert(pieces.deep_view().take(i + 1).drop_last() =~~= prefix);
            assert(pieces.deep_view().take(i + 1).last() == pieces.deep_view()[i as int]);
            assert(pieces.deep_view()[i as int] == pieces@[i as int]@);
        }
        if pieces[i].len() > 0 {
            let ghost out0 = out.deep_view();
            let piece = pieces[i].clone();
            proof {
                assert(piece.deep_view() =~~= pieces@[i as int].deep_view());
                assert(piece@ =~= pieces@[i as int]@);
            }
            out.push(piece);
            proof {
                assert(out.deep_view() =~~= out0.push(pieces@[i as int]@));
                assert(out0.push(pieces@[i as int]@) =~~= out0 + seq![pieces@[i as int]@]);
                assert(out.deep_view() =~~= non_empties(pieces.deep_view().take(i + 1)));
            }
        } else {
            proof {
                assert(out.deep_view() + Seq::<Seq<char>>::empty() =~~= out.deep_view());
                assert(out.deep_view() =~~= non_empties(pieces.deep_view().take(i + 1)));
            }
        }
        i += 1;
    }
    proof {
        assert(pieces.deep_view().take(pieces.deep_view().len() as int) =~~= pieces.deep_view());
    }
    out
}

/// Lexicographic order on character sequences, by Unicode scalar value.
/// This is the order in which product names are sorted.
pub open spec fn lex_le(a: Seq<char>, b: Seq<char>) -> bool
    decreases a.len(),
{
    if a.len() == 0 {
        true
    } else if b.len() == 0 {
        false
    } else if a[0] == b[0] {
        lex_le(a.drop_first(), b.drop_first())
    } else {
        (a[0] as u32) < (b[0] as u32)
    }
}

pub proof fn lemma_lex_le_total(a: Seq<char>, b: Seq<char>)
    ensures
        lex_le(a, b) || lex_le(b, a),
    decreases a.len(),
{
    if a.len() == 0 || b.len() == 0 {
    } else if a[0] == b[0] {
        lemma_lex_le_total(a.drop_first(), b.drop_first());
    } else {
        vstd::utf8::char_u32_cast(a[0], a[0] as u32);
        vstd::utf8::char_u32_cast(b[0], b[0] as u32);
        assert((a[0] as u32) != (b[0] as u32));
    }
}

pub proof fn lemma_lex_le_antisym(a: Seq<char>, b: Seq<char>)
    requires
        lex_le(a, b),
        lex_le(b, a),
    ensures
        a == b,
    decreases a.len(),
{
    if a.len() == 0 {
        assert(b.len() == 0);
        assert(a =~= b);
    } else {
        assert(b.len() > 0);
        if a[0] != b[0] {
            vstd::utf8::char_u32_cast(a[0], a[0] as u32);
            vstd::utf8::char_u32_cast(b[0], b[0] as u32);
            assert(false);
        }
        lemma_lex_le_antisym(a.drop_first(), b.drop_first());
        assert(a.drop_first() == b.drop_first());
        assert(a.drop_first().len() == a.len() - 1);
        assert(b.drop_first().len() == b.len() - 1);
        assert(a.len() == b.len());
        assert(forall|j: int|
            1 <= j < a.len() ==> a[j] == a.drop_first()[j - 1] && b[j] == b.drop_first()[j - 1]);
        assert(a =~= b);
    }
}

pub proof fn lemma_lex_le_trans(a: Seq<char>, b: Seq<char>, c: Seq<char>)
    requires
        lex_le(a, b),
        lex_le(b, c),
    ensures
        lex_le(a, c),
    decreases a.len(),
{
    if a.len() == 0 || b.len() == 0 || c.len() == 0 {
    } else if a[0] == b[0] && b[0] == c[0] {
        lemma_lex_le_trans(a.drop_first(), b.drop_first(), c.drop_first());
    }
}

/// Executable lexicographic comparison; agrees with `lex_le`.
pub fn chars_le(a: &Vec<char>, b: &Vec<char>) -> (r: bool)
    ensures
        r == lex_le(a@, b@),
{
    let mut i: usize = 0;
    proof {
        assert(a@.skip(0) =~= a@);
        assert(b@.skip(0) =~= b@);
    }
    while i < a.len() && i < b.len()
        invariant
            i <= a.len(),
            i <= b.len(),
            forall|j: int| 0 <= j < i ==> a@[j] == b@[j],
            lex_le(a@, b@) == lex_le(a@.skip(i as int), b@.skip(i as int)),
        decreases a.len() - i,
    {
        if a[i] == b[i] {
            proof {
                assert(a@.skip(i as int).drop_first() =~= a@.skip(i + 1));
                assert(b@.skip(i as int).drop_first() =~= b@.skip(i + 1));
                assert(a@.skip(i as int)[0] == a@[i as int]);
                assert(b@.skip(i as int)[0] == b@[i as int]);
            }
            i += 1;
        } else {
            proof {
                assert(a@.skip(i as int)[0] == a@[i as int]);
                assert(b@.skip(i as int)[0] == b@[i as int]);
            }
            return (a[i] as u32) < (b[i] as u32);
        }
    }
    proof {
        if i == a.len() {
            assert(a@.skip(i as int).len() == 0);
        } else {
            assert(b@.skip(i as int).len() == 0);
            assert(a@.skip(i as int).len() > 0);
        }
    }
    i == a.len()
}

} // verus!
