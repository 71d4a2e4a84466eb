//! Character-level text utilities shared by the parser and the encoders.
//!
//! Text is handled internally as vectors of `char`, whose view is the
//! `Seq<char>` that contracts speak of; `String` appears only at the
//! library's surface.

use vstd::prelude::*;
use vstd::string::StrSliceExecFns;

verus! {

/// Whitespace that is trimmed around header entries and field names.
pub open spec fn is_ws(c: char) -> bool {
    c == ' ' || c == '\t'
}

/// A token character of a media type or parameter name: letters, digits,
/// or one of the marks that HTTP allows inside a token. `*` is a token
/// character, which is how wildcard ranges parse.
pub open spec fn is_tchar(c: char) -> bool {
    ('a' <= c && c <= 'z') || ('A' <= c && c <= 'Z') || ('0' <= c && c <= '9') || c == '!' || c
        == '#' || c == '$' || c == '%' || c == '&' || c == '\'' || c == '*' || c == '+' || c == '-'
        || c == '.' || c == '^' || c == '_' || c == '`' || c == '|' || c == '~'
}

/// A decimal digit.
pub open spec fn is_digit(c: char) -> bool {
    '0' <= c && c <= '9'
}

/// Every character of `s` is a token character, and `s` is not empty.
pub open spec fn is_token(s: Seq<char>) -> bool {
    s.len() > 0 && forall|i: int| 0 <= i < s.len() ==> is_tchar(#[trigger] s[i])
}

/// An upper-case ASCII letter mapped to lower case; all else unchanged.
pub open spec fn lower_char(c: char) -> char {
    if 'A' <= c && c <= 'Z' {
        (((c as u8) + 32) as char)
    } else {
        c
    }
}

/// The sequence mapped to lower case characterwise.
pub open spec fn lower_seq(s: Seq<char>) -> Seq<char> {
    s.map_values(|c: char| lower_char(c))
}

/// Number of leading whitespace characters of `s`.
pub open spec fn ltrim_idx(s: Seq<char>) -> int
    decreases s.len(),
{
    if s.len() == 0 || !is_ws(s[0]) {
        0
    } else {
        1 + ltrim_idx(s.subrange(1, s.len() as int))
    }
}

/// End of `s` with trailing whitespace removed.
pub open spec fn rtrim_idx(s: Seq<char>) -> int
    decreases s.len(),
{
    if s.len() == 0 || !is_ws(s[s.len() - 1]) {
        s.len() as int
    } else {
        rtrim_idx(s.subrange(0, s.len() - 1))
    }
}

/// `s` with leading and trailing whitespace removed.
pub open spec fn trim_seq(s: Seq<char>) -> Seq<char> {
    if ltrim_idx(s) >= rtrim_idx(s) {
        Seq::empty()
    } else {
        s.subrange(ltrim_idx(s), rtrim_idx(s))
    }
}

/// Index of the first occurrence of `c` in `s`, or `-1` when absent.
pub open spec fn find_idx(s: Seq<char>, c: char) -> int
    decreases s.len(),
{
    if s.len() == 0 {
        -1
    } else if s[0] == c {
        0
    } else {
        let r = find_idx(s.subrange(1, s.len() as int), c);
        if r < 0 {
            -1
        } else {
            1 + r
        }
    }
}

/// `s` split at every occurrence of `sep`: the separators are dropped and
/// the pieces keep their order. An empty input gives one empty piece.
pub open spec fn split_seq(s: Seq<char>, sep: char) -> Seq<Seq<char>>
    decreases s.len(),
    via split_seq_decreases
{
    let i = find_idx(s, sep);
    if i < 0 {
        seq![s]
    } else {
        seq![s.subrange(0, i)] + split_seq(s.subrange(i + 1, s.len() as int), sep)
    }
}

#[via_fn]
proof fn split_seq_decreases(s: Seq<char>, sep: char) {
    lemma_find_bounds(s, sep);
}

/// `find_idx` stays inside the sequence when it finds anything.
pub proof fn lemma_find_bounds(s: Seq<char>, c: char)
    ensures
        find_idx(s, c) >= 0 ==> find_idx(s, c) < s.len() && s[find_idx(s, c)] == c,
        find_idx(s, c) < 0 ==> find_idx(s, c) == -1,
    decreases s.len(),
{
    if s.len() > 0 && s[0] != c {
        lemma_find_bounds(s.subrange(1, s.len() as int), c);
    }
}

/// `ltrim_idx` is the least index holding a non-whitespace character.
pub proof fn lemma_ltrim_idx(s: Seq<char>)
    ensures
        0 <= ltrim_idx(s) <= s.len(),
        forall|j: int| 0 <= j < ltrim_idx(s) ==> is_ws(#[trigger] s[j]),
        ltrim_idx(s) < s.len() ==> !is_ws(s[ltrim_idx(s)]),
    decreases s.len(),
{
    if s.len() > 0 && is_ws(s[0]) {
        let t = s.subrange(1, s.len() as int);
        lemma_ltrim_idx(t);
        assert forall|j: int| 0 <= j < ltrim_idx(s) implies is_ws(#[trigger] s[j]) by {
            if j > 0 {
                assert(is_ws(t[j - 1]));
            }
        }
        if ltrim_idx(s) < s.len() {
            assert(s[ltrim_idx(s)] == t[ltrim_idx(t)]);
        }
    }
}

/// `rtrim_idx` is one past the last non-whitespace character.
pub proof fn lemma_rtrim_idx(s: Seq<char>)
    ensures
        0 <= rtrim_idx(s) <= s.len(),
        forall|j: int| rtrim_idx(s) <= j < s.len() ==> is_ws(#[trigger] s[j]),
        rtrim_idx(s) > 0 ==> !is_ws(s[rtrim_idx(s) - 1]),
    decreases s.len(),
{
    if s.len() > 0 && is_ws(s[s.len() - 1]) {
        let t = s.subrange(0, s.len() - 1);
        lemma_rtrim_idx(t);
        assert forall|j: int| rtrim_idx(s) <= j < s.len() implies is_ws(#[trigger] s[j]) by {
            if j < s.len() - 1 {
                assert(is_ws(t[j]));
            }
        }
        if rtrim_idx(s) > 0 {
            assert(s[rtrim_idx(s) - 1] == t[rtrim_idx(t) - 1]);
        }
    }
}

/// `find_idx(s, c) == k` exactly when `k` is the least occurrence of `c`.
pub proof fn lemma_find_at(s: Seq<char>, c: char, k: int)
    requires
        0 <= k < s.len(),
        s[k] == c,
        forall|j: int| 0 <= j < k ==> s[j] != c,
    ensures
        find_idx(s, c) == k,
    decreases s.len(),
{
    if s[0] != c {
        let t = s.subrange(1, s.len() as int);
        assert forall|j: int| 0 <= j < k - 1 implies t[j] != c by {
            assert(t[j] == s[j + 1]);
        }
        assert(t[k - 1] == s[k]);
        lemma_find_at(t, c, k - 1);
    }
}

/// When `c` does not occur in `s`, `find_idx` reports `-1`.
pub proof fn lemma_find_none(s: Seq<char>, c: char)
    requires
        forall|j: int| 0 <= j < s.len() ==> s[j] != c,
    ensures
        find_idx(s, c) == -1,
    decreases s.len(),
{
    if s.len() > 0 {
        let t = s.subrange(1, s.len() as int);
        assert forall|j: int| 0 <= j < t.len() implies t[j] != c by {
            assert(t[j] == s[j + 1]);
        }
        lemma_find_none(t, c);
    }
}

/// The characters of `s`, as a vector.
pub fn str_chars(s: &str) -> (r: Vec<char>)
    ensures
        r@ == s@,
{
    let n = s.unicode_len();
    let mut r: Vec<char> = Vec::new();
    let mut i: usize = 0;
    while i < n
        invariant
            n == s@.len(),
            i <= n,
            r@ == s@.subrange(0, i as int),
        decreases n - i,
    {
        r.push(s.get_char(i));
        assert(r@ =~= s@.subrange(0, i + 1 as int));
        i = i + 1;
    }
    assert(r@ =~= s@);
    r
}

/// The characters of `v`, collected into a `String`.
///
/// Relies on `String`'s `FromIterator<char>` implementation: collecting
/// characters concatenates them in order.
#[verifier::external_body]
pub fn chars_to_string(v: &Vec<char>) -> (r: String)
    ensures
        r@ == v@,
{
    v.iter().collect()
}

/// Append the characters of `s` to `out`.
pub fn emit_str(out: &mut Vec<char>, s: &str)
    ensures
        final(out)@ == old(out)@ + s@,
{
    let n = s.unicode_len();
    let mut i: usize = 0;
    while i < n
        invariant
            n == s@.len(),
            i <= n,
            out@ == old(out)@ + s@.subrange(0, i as int),
        decreases n - i,
    {
        out.push(s.get_char(i));
        assert(out@ =~= old(out)@ + s@.subrange(0, i + 1 as int));
        i = i + 1;
    }
    assert(out@ =~= old(out)@ + s@);
}

/// The subrange `v[from..to]`, copied out.
pub fn sub_chars(v: &Vec<char>, from: usize, to: usize) -> (r: Vec<char>)
    requires
        from <= to <= v@.len(),
    ensures
        r@ == v@.subrange(from as int, to as int),
{
    let mut r: Vec<char> = Vec::new();
    let mut i: usize = from;
    while i < to
        invariant
            from <= i <= to <= v@.len(),
            r@ == v@.subrange(from as int, i as int),
        decreases to - i,
    {
        r.push(v[i]);
        assert(r@ =~= v@.subrange(from as int, i + 1 as int));
        i = i + 1;
    }
    r
}

/// Whether `c` is trimmed whitespace, decided in executable code.
fn ws_char(c: char) -> (r: bool)
    ensures
        r == is_ws(c),
{
    c == ' ' || c == '\t'
}

/// `v` with leading and trailing whitespace removed.
pub fn trim_chars(v: &Vec<char>) -> (r: Vec<char>)
    ensures
        r@ == trim_seq(v@),
{
    proof {
        lemma_ltrim_idx(v@);
        lemma_rtrim_idx(v@);
    }
    let n = v.len();
    let mut lo: usize = 0;
    while lo < n && ws_char(v[lo])
        invariant
            lo <= n == v@.len(),
            forall|j: int| 0 <= j < lo ==> is_ws(#[trigger] v@[j]),
        decreases n - lo,
    {
        lo = lo + 1;
    }
    let mut hi: usize = n;
    while hi > lo && ws_char(v[hi - 1])
        invariant
            lo <= hi <= n == v@.len(),
            forall|j: int| hi <= j < n ==> is_ws(#[trigger] v@[j]),
        decreases hi,
    {
        hi = hi - 1;
    }
    proof {
        // Both bounds agree with the specification indices.
        if lo < n {
            assert(lo == ltrim_idx(v@)) by {
                if lo < ltrim_idx(v@) {
                    assert(is_ws(v@[lo as int]));
                }
                if ltrim_idx(v@) < lo {
                    assert(is_ws(v@[ltrim_idx(v@)]));
                }
            }
            if hi > lo {
                assert(hi == rtrim_idx(v@)) by {
                    if hi < rtrim_idx(v@) {
                        assert(is_ws(v@[rtrim_idx(v@) - 1]));
                    }
                    if rtrim_idx(v@) < hi {
                        assert(is_ws(v@[hi - 1]));
                    }
                }
            } else {
                // Everything from `lo` on is whitespace, so the right trim
                // cannot pass the left one.
                assert(rtrim_idx(v@) <= lo) by {
                    if rtrim_idx(v@) > lo {
                        assert(is_ws(v@[rtrim_idx(v@) - 1]));
                    }
                }
                assert(trim_seq(v@) =~= Seq::<char>::empty());
            }
        } else {
            // All whitespace.
            assert(rtrim_idx(v@) <= lo) by {
                if rtrim_idx(v@) > 0 {
                    assert(is_ws(v@[rtrim_idx(v@) - 1]));
                }
            }
            assert(ltrim_idx(v@) >= rtrim_idx(v@));
            assert(trim_seq(v@) =~= Seq::<char>::empty());
        }
    }
    sub_chars(v, lo, hi)
}

/// Index of the first occurrence of `c` in `v` at or after `from`.
pub fn find_from(v: &Vec<char>, from: usize, c: char) -> (r: Option<usize>)
    requires
        from <= v@.len(),
    ensures
        match r {
            Some(i) => from <= i < v@.len() && find_idx(v@.subrange(from as int, v@.len() as int), c)
                == i - from,
            None => find_idx(v@.subrange(from as int, v@.len() as int), c) == -1,
        },
{
    let ghost suffix = v@.subrange(from as int, v@.len() as int);
    let n = v.len();
    let mut i: usize = from;
    while i < n
        invariant
            from <= i <= n == v@.len(),
            suffix == v@.subrange(from as int, v@.len() as int),
            forall|j: int| from <= j < i ==> v@[j] != c,
        decreases n - i,
    {
        if v[i] == c {
            proof {
                let k = i - from;
                assert forall|j: int| 0 <= j < k implies suffix[j] != c by {
                    assert(suffix[j] == v@[j + from]);
                }
                assert(suffix[k] == v@[i as int]);
                lemma_find_at(suffix, c, k);
            }
            return Some(i);
        }
        i = i + 1;
    }
    proof {
        assert forall|j: int| 0 <= j < suffix.len() implies suffix[j] != c by {
            assert(suffix[j] == v@[j + from]);
        }
        lemma_find_none(suffix, c);
    }
    None
}

/// `v` split at every occurrence of `sep`.
pub fn split_chars(v: &Vec<char>, sep: char) -> (r: Vec<Vec<char>>)
    ensures
        r@.map_values(|p: Vec<char>| p@) == split_seq(v@, sep),
{
    let mut r: Vec<Vec<char>> = Vec::new();
    let mut start: usize = 0;
    let n = v.len();
    proof {
        assert(v@.subrange(0, n as int) =~= v@);
        assert(r@.map_values(|p: Vec<char>| p@) =~= Seq::<Seq<char>>::empty());
    }
    loop
        invariant
            start <= n == v@.len(),
            r@.map_values(|p: Vec<char>| p@) + split_seq(
                v@.subrange(start as int, n as int),
                sep,
            ) =~= split_seq(v@, sep),
        decreases n - start,
    {
        let ghost suffix = v@.subrange(start as int, n as int);
        match find_from(v, start, sep) {
            Some(i) => {
                let piece = sub_chars(v, start, i);
                r.push(piece);
                proof {
                    assert(split_seq(suffix, sep) == seq![suffix.subrange(0, i - start)]
                        + split_seq(suffix.subrange(i - start + 1, suffix.len() as int), sep));
                    assert(suffix.subrange(0, i - start) =~= v@.subrange(start as int, i as int));
                    assert(suffix.subrange(i - start + 1, suffix.len() as int) =~= v@.subrange(
                        i + 1 as int,
                        n as int,
                    ));
                    assert(r@.map_values(|p: Vec<char>| p@) + split_seq(
                        v@.subrange(i + 1 as int, n as int),
                        sep,
                    ) =~= split_seq(v@, sep));
                }
                start = i + 1;
            },
            None => {
                let piece = sub_chars(v, start, n);
                r.push(piece);
                proof {
                    assert(split_seq(suffix, sep) == seq![suffix]);
                    assert(suffix =~= v@.subrange(start as int, n as int));
                    assert(r@.map_values(|p: Vec<char>| p@) =~= split_seq(v@, sep));
                }
                return r;
            },
        }
    }
}

/// `v` mapped to lower case characterwise.
pub fn lower_chars(v: &Vec<char>) -> (r: Vec<char>)
    ensures
        r@ == lower_seq(v@),
{
    let mut r: Vec<char> = Vec::new();
    let mut i: usize = 0;
    let n = v.len();
    while i < n
        invariant
            i <= n == v@.len(),
            r@ == v@.subrange(0, i as int).map_values(|c: char| lower_char(c)),
        decreases n - i,
    {
        let c = v[i];
        if 'A' <= c && c <= 'Z' {
            r.push(((c as u8) + 32) as char);
        } else {
            r.push(c);
        }
        assert(r@ =~= v@.subrange(0, i + 1 as int).map_values(|c: char| lower_char(c)));
        i = i + 1;
    }
    assert(v@.subrange(0, n as int) =~= v@);
    r
}

/// The two vectors hold the same characters.
pub fn chars_eq(a: &Vec<char>, b: &Vec<char>) -> (r: bool)
    ensures
        r == (a@ == b@),
{
    if a.len() != b.len() {
        return false;
    }
    let n = a.len();
    let mut i: usize = 0;
    while i < n
        invariant
            i <= n,
            a@.len() == b@.len() == n,
            forall|j: int| 0 <= j < i ==> a@[j] == b@[j],
        decreases n - i,
    {
        if a[i] != b[i] {
            return false;
        }
        i = i + 1;
    }
    proof {
        assert(a@ =~= b@);
    }
    true
}

} // verus!
