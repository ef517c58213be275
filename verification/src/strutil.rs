//! Verified character-level string utilities.
//!
//! All contracts are stated over `Seq<char>` views. Ordering is by Unicode
//! code point, which coincides with the byte order of the UTF-8 encodings.

use vstd::prelude::*;

verus! {

/// Maps an ASCII lowercase letter to its uppercase form; leaves every
/// other character unchanged.
pub open spec fn upper_char(c: char) -> char {
    match c {
        'a' => 'A',
        'b' => 'B',
        'c' => 'C',
        'd' => 'D',
        'e' => 'E',
        'f' => 'F',
        'g' => 'G',
        'h' => 'H',
        'i' => 'I',
        'j' => 'J',
        'k' => 'K',
        'l' => 'L',
        'm' => 'M',
        'n' => 'N',
        'o' => 'O',
        'p' => 'P',
        'q' => 'Q',
        'r' => 'R',
        's' => 'S',
        't' => 'T',
        'u' => 'U',
        'v' => 'V',
        'w' => 'W',
        'x' => 'X',
        'y' => 'Y',
        'z' => 'Z',
        _ => c,
    }
}

pub fn to_upper(c: char) -> (r: char)
    ensures
        r == upper_char(c),
{
    match c {
        'a' => 'A',
        'b' => 'B',
        'c' => 'C',
        'd' => 'D',
        'e' => 'E',
        'f' => 'F',
        'g' => 'G',
        'h' => 'H',
        'i' => 'I',
        'j' => 'J',
        'k' => 'K',
        'l' => 'L',
        'm' => 'M',
        'n' => 'N',
        'o' => 'O',
        'p' => 'P',
        'q' => 'Q',
        'r' => 'R',
        's' => 'S',
        't' => 'T',
        'u' => 'U',
        'v' => 'V',
        'w' => 'W',
        'x' => 'X',
        'y' => 'Y',
        'z' => 'Z',
        _ => c,
    }
}

/// The string with its first character mapped through `upper_char`.
pub open spec fn cap_first(s: Seq<char>) -> Seq<char> {
    if s.len() == 0 {
        s
    } else {
        seq![upper_char(s[0])] + s.drop_first()
    }
}

/// Relies on `String::push` from std: appends one character at the end.
#[verifier::external_body]
pub fn push_char(s: &mut String, c: char)
    ensures
        final(s)@ == old(s)@.push(c),
{
    s.push(c);
}

/// Returns a copy of `s` whose first character is ASCII-uppercased.
pub fn capitalize_first(s: &str) -> (r: String)
    ensures
        r@ == cap_first(s@),
{
    let n = s.unicode_len();
    let mut out = String::new();
    if n == 0 {
        assert(out@ =~= cap_first(s@));
        return out;
    }
    let c = to_upper(s.get_char(0));
    push_char(&mut out, c);
    let rest = s.substring_char(1, n);
    out.append(rest);
    assert(out@ =~= cap_first(s@));
    out
}

/// Strict lexicographic order on character sequences, by code point.
pub open spec fn lex_lt(a: Seq<char>, b: Seq<char>) -> bool
    decreases a.len(),
{
    if b.len() == 0 {
        false
    } else if a.len() == 0 {
        true
    } else if a[0] != b[0] {
        a[0] < b[0]
    } else {
        lex_lt(a.drop_first(), b.drop_first())
    }
}

/// `lex_lt` never relates a sequence to itself.
pub proof fn lemma_lex_irrefl(a: Seq<char>)
    ensures
        !lex_lt(a, a),
    decreases a.len(),
{
    if a.len() > 0 {
        lemma_lex_irrefl(a.drop_first());
    }
}

/// `lex_lt` is asymmetric.
pub proof fn lemma_lex_asym(a: Seq<char>, b: Seq<char>)
    ensures
        lex_lt(a, b) ==> !lex_lt(b, a),
    decreases a.len(),
{
    if a.len() > 0 && b.len() > 0 && a[0] == b[0] {
        lemma_lex_asym(a.drop_first(), b.drop_first());
    }
}

/// `lex_lt` is transitive.
pub proof fn lemma_lex_trans(a: Seq<char>, b: Seq<char>, c: Seq<char>)
    ensures
        lex_lt(a, b) && lex_lt(b, c) ==> lex_lt(a, c),
    decreases a.len(),
{
    if a.len() > 0 && b.len() > 0 && c.len() > 0 && a[0] == b[0] && b[0] == c[0] {
        lemma_lex_trans(a.drop_first(), b.drop_first(), c.drop_first());
    }
}

/// Two distinct sequences are related by `lex_lt` one way or the other.
pub proof fn lemma_lex_connex(a: Seq<char>, b: Seq<char>)
    ensures
        a != b ==> lex_lt(a, b) || lex_lt(b, a),
    decreases a.len(),
{
    if a.len() == 0 && b.len() == 0 {
        assert(a =~= b);
    }
    if a.len() == 0 && b.len() > 0 {
        assert(lex_lt(a, b));
    }
    if b.len() == 0 && a.len() > 0 {
        assert(lex_lt(b, a));
    }
    if a.len() > 0 && b.len() > 0 && a[0] == b[0] {
        lemma_lex_connex(a.drop_first(), b.drop_first());
        if a.drop_first() == b.drop_first() {
            assert(a.drop_first().len() == b.drop_first().len());
            assert(a.len() == b.len());
            assert forall|i: int| 0 <= i < a.len() implies a[i] == b[i] by {
                if i >= 1 {
                    assert(a[i] == a.drop_first()[i - 1]);
                    assert(b[i] == b.drop_first()[i - 1]);
                }
            }
            assert(a =~= b);
        }
    }
}

/// Decides `lex_lt` on two string slices.
pub fn str_lt(a: &str, b: &str) -> (r: bool)
    ensures
        r == lex_lt(a@, b@),
{
    let alen = a.unicode_len();
    let blen = b.unicode_len();
    let mut i: usize = 0;
    assert(a@.skip(0) =~= a@);
    assert(b@.skip(0) =~= b@);
    while i < alen && i < blen
        invariant
            i <= alen,
            i <= blen,
            alen == a@.len(),
            blen == b@.len(),
            lex_lt(a@, b@) == lex_lt(a@.skip(i as int), b@.skip(i as int)),
        decreases alen - i,
    {
        let ca = a.get_char(i);
        let cb = b.get_char(i);
        if ca != cb {
            assert(a@.skip(i as int)[0] == ca && b@.skip(i as int)[0] == cb);
            return ca < cb;
        }
        proof {
            assert(a@.skip(i as int).drop_first() =~= a@.skip(i + 1));
            assert(b@.skip(i as int).drop_first() =~= b@.skip(i + 1));
        }
        i = i + 1;
    }
    if i >= blen {
        assert(b@.skip(i as int).len() == 0);
        false
    } else {
        assert(a@.skip(i as int).len() == 0 && b@.skip(i as int).len() > 0);
        true
    }
}

/// Decides view equality of two string slices.
pub fn str_eq(a: &str, b: &str) -> (r: bool)
    ensures
        r == (a@ == b@),
{
    let alen = a.unicode_len();
    let blen = b.unicode_len();
    if alen != blen {
        return false;
    }
    let mut i: usize = 0;
    while i < alen
        invariant
            i <= alen,
            alen == a@.len(),
            alen == b@.len(),
            forall|j: int| 0 <= j < i ==> a@[j] == b@[j],
        decreases alen - i,
    {
        if a.get_char(i) != b.get_char(i) {
            return false;
        }
        i = i + 1;
    }
    assert(a@ =~= b@);
    true
}

/// `p` is a prefix of `s`.
pub open spec fn is_prefix_of(p: Seq<char>, s: Seq<char>) -> bool {
    p.len() <= s.len() && s.subrange(0, p.len() as int) == p
}

/// Decides whether `p@` is a prefix of `s@`.
pub fn str_starts_with(s: &str, p: &str) -> (r: bool)
    ensures
        r == is_prefix_of(p@, s@),
{
    let slen = s.unicode_len();
    let plen = p.unicode_len();
    if plen > slen {
        return false;
    }
    let mut i: usize = 0;
    while i < plen
        invariant
            i <= plen,
            plen <= slen,
            slen == s@.len(),
            plen == p@.len(),
            forall|j: int| 0 <= j < i ==> s@[j] == p@[j],
        decreases plen - i,
    {
        if s.get_char(i) != p.get_char(i) {
            assert(s@.subrange(0, p@.len() as int)[i as int] != p@[i as int]);
            return false;
        }
        i = i + 1;
    }
    assert(s@.subrange(0, p@.len() as int) =~= p@);
    true
}

/// Removes the prefix `p` from `s` when present.
pub fn strip_prefix_string(s: &str, p: &str) -> (r: Option<String>)
    ensures
        is_prefix_of(p@, s@) ==> (r matches Some(t) && t@ == s@.skip(p@.len() as int)),
        !is_prefix_of(p@, s@) ==> r is None,
{
    if str_starts_with(s, p) {
        let slen = s.unicode_len();
        let plen = p.unicode_len();
        let rest = s.substring_char(plen, slen);
        assert(rest@ =~= s@.skip(p@.len() as int));
        Some(rest.to_owned())
    } else {
        None
    }
}

/// Every occurrence of the non-empty pattern `p` in `s`, scanned left to
/// right without overlap, replaced by `t`.
pub open spec fn replace_spec(s: Seq<char>, p: Seq<char>, t: Seq<char>) -> Seq<char>
    decreases s.len(),
    when p.len() > 0
{
    if s.len() < p.len() {
        s
    } else if s.subrange(0, p.len() as int) == p {
        t + replace_spec(s.skip(p.len() as int), p, t)
    } else {
        seq![s[0]] + replace_spec(s.skip(1), p, t)
    }
}

/// `p@` occurs in `s@` at position `i`.
fn matches_at(s: &str, i: usize, p: &str) -> (r: bool)
    requires
        i + p@.len() <= s@.len(),
        s@.len() <= usize::MAX,
    ensures
        r == (s@.subrange(i as int, i + p@.len()) == p@),
{
    let plen = p.unicode_len();
    let mut j: usize = 0;
    while j < plen
        invariant
            j <= plen,
            plen == p@.len(),
            i + plen <= s@.len(),
            s@.len() <= usize::MAX,
            forall|k: int| 0 <= k < j ==> s@[i + k] == p@[k],
        decreases plen - j,
    {
        if s.get_char(i + j) != p.get_char(j) {
            assert(s@.subrange(i as int, i + p@.len())[j as int] != p@[j as int]);
            return false;
        }
        j = j + 1;
    }
    assert(s@.subrange(i as int, i + p@.len()) =~= p@);
    true
}

/// Replaces every occurrence of `pat` in `s` with `to`, scanning left to
/// right without overlap.
pub fn replace_all(s: &str, pat: &str, to: &str) -> (r: String)
    requires
        pat@.len() > 0,
    ensures
        r@ == replace_spec(s@, pat@, to@),
{
    let slen = s.unicode_len();
    let plen = pat.unicode_len();
    let mut out = String::new();
    let mut i: usize = 0;
    assert(s@.skip(0) =~= s@);
    while slen - i >= plen
        invariant
            i <= slen,
            slen == s@.len(),
            plen == pat@.len(),
            plen > 0,
            out@ + replace_spec(s@.skip(i as int), pat@, to@) == replace_spec(s@, pat@, to@),
        decreases slen - i,
    {
        let ghost rem = s@.skip(i as int);
        assert(rem.subrange(0, pat@.len() as int) =~= s@.subrange(i as int, i + pat@.len()));
        if matches_at(s, i, pat) {
            out.append(to);
            proof {
                assert(rem.skip(pat@.len() as int) =~= s@.skip(i + pat@.len()));
                assert(out@ + replace_spec(s@.skip(i + plen), pat@, to@) =~= replace_spec(
                    s@,
                    pat@,
                    to@,
                ));
            }
            i = i + plen;
        } else {
            let c = s.get_char(i);
            push_char(&mut out, c);
            proof {
                assert(rem.skip(1) =~= s@.skip(i + 1));
                assert(rem[0] == s@[i as int]);
                assert(out@ + replace_spec(s@.skip(i + 1), pat@, to@) =~= replace_spec(
                    s@,
                    pat@,
                    to@,
                ));
            }
            i = i + 1;
        }
    }
    let rest = s.substring_char(i, slen);
    assert(rest@ =~= s@.skip(i as int));
    out.append(rest);
    assert(out@ =~= replace_spec(s@, pat@, to@));
    out
}

/// Index of the first newline in `s`, or -1 when there is none.
pub open spec fn find_nl(s: Seq<char>) -> int
    decreases s.len(),
{
    if s.len() == 0 {
        -1
    } else if s[0] == '\n' {
        0
    } else if find_nl(s.drop_first()) == -1 {
        -1
    } else {
        find_nl(s.drop_first()) + 1
    }
}

pub proof fn lemma_find_nl(s: Seq<char>)
    ensures
        find_nl(s) == -1 ==> (forall|j: int| 0 <= j < s.len() ==> s[j] != '\n'),
        find_nl(s) != -1 ==> 0 <= find_nl(s) < s.len() && s[find_nl(s)] == '\n' && (forall|j: int|
            0 <= j < find_nl(s) ==> s[j] != '\n'),
    decreases s.len(),
{
    if s.len() > 0 && s[0] != '\n' {
        lemma_find_nl(s.drop_first());
        assert(forall|j: int| 1 <= j < s.len() ==> #[trigger] s[j] == s.drop_first()[j - 1]);
    }
}

/// The segments of `s` between newline characters; a trailing newline
/// yields a final empty segment, and a string without newlines is one
/// segment.
pub open spec fn split_lines_spec(s: Seq<char>) -> Seq<Seq<char>>
    decreases s.len(),
    via split_lines_spec_decreases
{
    if find_nl(s) == -1 {
        seq![s]
    } else {
        seq![s.take(find_nl(s))] + split_lines_spec(s.skip(find_nl(s) + 1))
    }
}

#[via_fn]
proof fn split_lines_spec_decreases(s: Seq<char>) {
    lemma_find_nl(s);
}

/// Splits `s` at newline characters.
pub fn split_lines(s: &str) -> (r: Vec<String>)
    ensures
        r.deep_view() == split_lines_spec(s@),
{
    let n = s.unicode_len();
    let mut out: Vec<String> = Vec::new();
    let mut start: usize = 0;
    assert(s@.skip(0) =~= s@);
    loop
        invariant_except_break
            start <= n,
            n == s@.len(),
            split_lines_spec(s@) == out.deep_view() + split_lines_spec(s@.skip(start as int)),
        ensures
            out.deep_view() == split_lines_spec(s@),
        decreases n - start,
    {
        let ghost rem = s@.skip(start as int);
        let mut j: usize = start;
        while j < n && s.get_char(j) != '\n'
            invariant
                start <= j <= n,
                n == s@.len(),
                forall|k: int| start <= k < j ==> s@[k] != '\n',
            decreases n - j,
        {
            j = j + 1;
        }
        proof {
            lemma_find_nl(rem);
            assert(forall|k: int| 0 <= k < j - start ==> rem[k] == s@[start + k] && rem[k] != '\n');
            if j < n {
                assert(rem[j - start] == '\n');
                assert(find_nl(rem) == j - start);
            } else {
                assert(find_nl(rem) == -1);
            }
        }
        let ghost dv0 = out.deep_view();
        if j < n {
            let piece = s.substring_char(start, j);
            out.push(piece.to_owned());
            proof {
                assert(rem.take(j - start) =~= s@.subrange(start as int, j as int));
                assert(rem.skip(j - start + 1) =~= s@.skip(j + 1));
                assert(out.deep_view() =~= dv0.push(s@.subrange(start as int, j as int)));
            }
            start = j + 1;
            proof {
                assert(split_lines_spec(s@) =~= out.deep_view() + split_lines_spec(s@.skip(
                    start as int,
                )));
            }
        } else {
            let piece = s.substring_char(start, n);
            out.push(piece.to_owned());
            proof {
                assert(rem =~= s@.subrange(start as int, n as int));
                assert(split_lines_spec(rem) =~= seq![rem]);
                assert(out.deep_view() =~= dv0.push(rem));
                assert(out.deep_view() =~= split_lines_spec(s@));
            }
            break;
        }
    }
    out
}

} // verus!
