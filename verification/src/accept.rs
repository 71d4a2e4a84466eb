//! Parsing of the HTTP `Accept` header into an ordered list of weighted
//! media ranges.
//!
//! The header is split on commas; each entry is parsed as
//! `type/subtype` optionally followed by `;name=value` parameters, with
//! whitespace trimmed around entries and parameters. An entry that does
//! not parse is silently discarded: parsing never fails as a whole.
//! Type, subtype and parameter names are lower-cased; `*` is an ordinary
//! token character, which is how wildcard ranges parse.
//!
//! A parameter named `q` does not stay in the parameter list: the first
//! one gives the range's quality, kept in thousandths (`0.9` becomes
//! `900`), clamped to `1000`, with `1000` when the value does not parse
//! as a decimal with at most three fraction digits.

use vstd::prelude::*;

use crate::text::{
    find_idx, is_digit, is_token, is_tchar, lower_seq, split_seq, trim_seq, lemma_find_at,
    lemma_find_none, lemma_find_bounds, str_chars, split_chars, trim_chars, sub_chars,
    lower_chars, chars_to_string, find_from,
};

verus! {

/// A `name=value` parameter of a media range or media type.
pub struct Param {
    pub name: String,
    pub value: String,
}

impl View for Param {
    type V = (Seq<char>, Seq<char>);

    open spec fn view(&self) -> (Seq<char>, Seq<char>) {
        (self.name@, self.value@)
    }
}

/// The model of a media range: character sequences, and the quality in
/// thousandths.
pub struct RangeModel {
    pub mtype: Seq<char>,
    pub subtype: Seq<char>,
    pub quality: int,
    pub params: Seq<(Seq<char>, Seq<char>)>,
}

/// One entry of a parsed `Accept` header: a media type pattern, possibly
/// with wildcards, a quality weight in thousandths, and its remaining
/// parameters.
pub struct MediaRange {
    pub mtype: String,
    pub subtype: String,
    pub quality: u32,
    pub params: Vec<Param>,
}

impl View for MediaRange {
    type V = RangeModel;

    open spec fn view(&self) -> RangeModel {
        RangeModel {
            mtype: self.mtype@,
            subtype: self.subtype@,
            quality: self.quality as int,
            params: self.params@.map_values(|p: Param| p@),
        }
    }
}

/// Value of a digit sequence read left to right.
pub open spec fn digits_val(s: Seq<char>) -> int
    decreases s.len(),
{
    if s.len() == 0 {
        0
    } else {
        digits_val(s.subrange(0, s.len() - 1)) * 10 + (s[s.len() - 1] as int - '0' as int)
    }
}

/// All characters are decimal digits.
pub open spec fn all_digits(s: Seq<char>) -> bool {
    forall|i: int| 0 <= i < s.len() ==> is_digit(#[trigger] s[i])
}

/// A power of ten.
pub open spec fn pow10(n: nat) -> int
    decreases n,
{
    if n == 0 {
        1
    } else {
        10 * pow10((n - 1) as nat)
    }
}

/// The value of a `q` parameter in thousandths: `digits [ '.' digits ]`
/// with at most three fraction digits, or nothing when malformed.
pub open spec fn qvalue(s: Seq<char>) -> Option<int> {
    let dot = find_idx(s, '.');
    if dot < 0 {
        if s.len() > 0 && all_digits(s) {
            Some(digits_val(s) * 1000)
        } else {
            None
        }
    } else {
        let ipart = s.subrange(0, dot);
        let fpart = s.subrange(dot + 1, s.len() as int);
        if ipart.len() > 0 && all_digits(ipart) && fpart.len() <= 3 && all_digits(fpart) {
            Some(digits_val(ipart) * 1000 + digits_val(fpart) * pow10((3 - fpart.len()) as nat))
        } else {
            None
        }
    }
}

/// Quality taken from a `q` parameter's value: the parsed value clamped
/// to `1000`, or `1000` when it does not parse.
pub open spec fn quality_of_q(s: Seq<char>) -> int {
    match qvalue(s) {
        Some(x) => if x > 1000 {
            1000
        } else {
            x
        },
        None => 1000,
    }
}

/// A parameter piece parsed as `name=value`: the name lower-cased, both
/// sides tokens.
pub open spec fn param_of(piece: Seq<char>) -> Option<(Seq<char>, Seq<char>)> {
    let t = trim_seq(piece);
    let e = find_idx(t, '=');
    if e < 0 {
        None
    } else {
        let name = lower_seq(t.subrange(0, e));
        let value = t.subrange(e + 1, t.len() as int);
        if is_token(name) && is_token(value) {
            Some((name, value))
        } else {
            None
        }
    }
}

/// All parameter pieces parsed, or nothing when any of them is
/// malformed.
pub open spec fn params_of(pieces: Seq<Seq<char>>) -> Option<Seq<(Seq<char>, Seq<char>)>>
    decreases pieces.len(),
{
    if pieces.len() == 0 {
        Some(Seq::empty())
    } else {
        match param_of(pieces[0]) {
            None => None,
            Some(p) => match params_of(pieces.subrange(1, pieces.len() as int)) {
                None => None,
                Some(r) => Some(seq![p] + r),
            },
        }
    }
}

/// The value of the first parameter named `q`, if any.
pub open spec fn first_q(params: Seq<(Seq<char>, Seq<char>)>) -> Option<Seq<char>>
    decreases params.len(),
{
    if params.len() == 0 {
        None
    } else if params[0].0 == seq!['q'] {
        Some(params[0].1)
    } else {
        first_q(params.subrange(1, params.len() as int))
    }
}

/// The parameters with every `q` parameter removed, order kept.
pub open spec fn strip_q(params: Seq<(Seq<char>, Seq<char>)>) -> Seq<(Seq<char>, Seq<char>)>
    decreases params.len(),
{
    if params.len() == 0 {
        Seq::empty()
    } else if params[0].0 == seq!['q'] {
        strip_q(params.subrange(1, params.len() as int))
    } else {
        seq![params[0]] + strip_q(params.subrange(1, params.len() as int))
    }
}

/// The quality of a range with the given raw parameters.
pub open spec fn quality_of(params: Seq<(Seq<char>, Seq<char>)>) -> int {
    match first_q(params) {
        None => 1000,
        Some(v) => quality_of_q(v),
    }
}

/// One `Accept` entry parsed as a media range, or nothing when it is not
/// a syntactically valid media type.
pub open spec fn parse_range(entry: Seq<char>) -> Option<RangeModel> {
    let pieces = split_seq(entry, ';');
    let first = trim_seq(pieces[0]);
    let sl = find_idx(first, '/');
    if sl < 0 {
        None
    } else {
        let mtype = lower_seq(first.subrange(0, sl));
        let subtype = lower_seq(first.subrange(sl + 1, first.len() as int));
        if is_token(mtype) && is_token(subtype) {
            match params_of(pieces.subrange(1, pieces.len() as int)) {
                None => None,
                Some(ps) => Some(
                    RangeModel {
                        mtype,
                        subtype,
                        quality: quality_of(ps),
                        params: strip_q(ps),
                    },
                ),
            }
        } else {
            None
        }
    }
}

/// The valid entries of a split header, parsed in order; malformed
/// entries are dropped.
pub open spec fn parse_entries(entries: Seq<Seq<char>>) -> Seq<RangeModel>
    decreases entries.len(),
{
    if entries.len() == 0 {
        Seq::empty()
    } else {
        let rest = parse_entries(entries.subrange(1, entries.len() as int));
        match parse_range(entries[0]) {
            Some(r) => seq![r] + rest,
            None => rest,
        }
    }
}

/// The whole `Accept` header parsed: split on commas, each entry parsed,
/// malformed entries dropped.
pub open spec fn parse_accept_seq(s: Seq<char>) -> Seq<RangeModel> {
    parse_entries(split_seq(s, ','))
}

/// Models of a vector of ranges.
pub open spec fn range_models(v: Seq<MediaRange>) -> Seq<RangeModel> {
    v.map_values(|m: MediaRange| m@)
}

/// Whether `c` is a token character, decided in executable code.
pub fn tchar(c: char) -> (r: bool)
    ensures
        r == is_tchar(c),
{
    ('a' <= c && c <= 'z') || ('A' <= c && c <= 'Z') || ('0' <= c && c <= '9') || c == '!' || c
        == '#' || c == '$' || c == '%' || c == '&' || c == '\'' || c == '*' || c == '+' || c == '-'
        || c == '.' || c == '^' || c == '_' || c == '`' || c == '|' || c == '~'
}

/// Whether every character of `v` is a token character and `v` is not
/// empty.
pub fn token_chars(v: &Vec<char>) -> (r: bool)
    ensures
        r == is_token(v@),
{
    if v.len() == 0 {
        return false;
    }
    let n = v.len();
    let mut i: usize = 0;
    while i < n
        invariant
            i <= n == v@.len(),
            forall|j: int| 0 <= j < i ==> is_tchar(#[trigger] v@[j]),
        decreases n - i,
    {
        if !tchar(v[i]) {
            return false;
        }
        i = i + 1;
    }
    true
}

/// Whether every character of `v` is a decimal digit.
pub fn digit_chars(v: &Vec<char>) -> (r: bool)
    ensures
        r == all_digits(v@),
{
    let n = v.len();
    let mut i: usize = 0;
    while i < n
        invariant
            i <= n == v@.len(),
            forall|j: int| 0 <= j < i ==> is_digit(#[trigger] v@[j]),
        decreases n - i,
    {
        let c = v[i];
        if !('0' <= c && c <= '9') {
            return false;
        }
        i = i + 1;
    }
    true
}

/// Value of a digit vector, exact up to `1000` and sticky above it: the
/// result is the digits' value when that value is at most `1000`, and
/// otherwise some value above `1000`.
fn digits_capped(v: &Vec<char>) -> (r: u32)
    requires
        all_digits(v@),
    ensures
        digits_val(v@) <= 1000 ==> r == digits_val(v@),
        digits_val(v@) > 1000 ==> r > 1000,
        r <= 10009,
{
    let n = v.len();
    let mut acc: u32 = 0;
    let mut i: usize = 0;
    while i < n
        invariant
            i <= n == v@.len(),
            all_digits(v@),
            digits_val(v@.subrange(0, i as int)) <= 1000 ==> acc == digits_val(
                v@.subrange(0, i as int),
            ),
            digits_val(v@.subrange(0, i as int)) > 1000 ==> acc > 1000,
            acc <= 10009,
        decreases n - i,
    {
        let c = v[i];
        let d = (c as u32) - ('0' as u32);
        proof {
            assert(is_digit(v@[i as int]));
            assert(v@.subrange(0, i + 1 as int).subrange(0, i as int) =~= v@.subrange(
                0,
                i as int,
            ));
            assert(v@.subrange(0, i + 1 as int)[i as int] == v@[i as int]);
        }
        if acc > 1000 {
            // Sticky: the true value only grows with more digits.
            proof {
                assert(digits_val(v@.subrange(0, i + 1 as int)) == digits_val(
                    v@.subrange(0, i as int),
                ) * 10 + (v@[i as int] as int - '0' as int));
            }
        } else {
            acc = acc * 10 + d;
            proof {
                assert(digits_val(v@.subrange(0, i + 1 as int)) == digits_val(
                    v@.subrange(0, i as int),
                ) * 10 + (v@[i as int] as int - '0' as int));
            }
        }
        i = i + 1;
    }
    proof {
        assert(v@.subrange(0, n as int) =~= v@);
    }
    acc
}

/// Quality taken from a `q` parameter's value, in thousandths.
pub fn quality_from(value: &Vec<char>) -> (r: u32)
    ensures
        r == quality_of_q(value@),
        r <= 1000,
{
    let n = value.len();
    match find_from(value, 0, '.') {
        None => {
            proof {
                assert(value@.subrange(0, n as int) =~= value@);
            }
            if n == 0 || !digit_chars(value) {
                return 1000;
            }
            let ival = digits_capped(value);
            if ival >= 1 {
                1000
            } else {
                0
            }
        },
        Some(dot) => {
            proof {
                assert(value@.subrange(0, n as int) =~= value@);
                lemma_find_bounds(value@, '.');
            }
            let ipart = sub_chars(value, 0, dot);
            let fpart = sub_chars(value, dot + 1, n);
            if ipart.len() == 0 || !digit_chars(&ipart) || fpart.len() > 3 || !digit_chars(
                &fpart,
            ) {
                return 1000;
            }
            let ival = digits_capped(&ipart);
            if ival > 1 {
                proof {
                    lemma_digits_val_bound(fpart@);
                    lemma_small_pow10(((3 - fpart@.len()) as nat));
                }
                return 1000;
            }
            let fval = digits_capped(&fpart);
            proof {
                lemma_digits_val_bound(fpart@);
                lemma_small_pow10(((3 - fpart@.len()) as nat));
            }
            // Scale the fraction to thousandths.
            let scaled: u32 = if fpart.len() == 0 {
                fval * 1000
            } else if fpart.len() == 1 {
                fval * 100
            } else if fpart.len() == 2 {
                fval * 10
            } else {
                fval
            };
            let total = ival * 1000 + scaled;
            if total > 1000 {
                1000
            } else {
                total
            }
        },
    }
}

/// A digit sequence's value is bounded by the power of ten of its
/// length.
proof fn lemma_digits_val_bound(s: Seq<char>)
    requires
        all_digits(s),
    ensures
        0 <= digits_val(s) < pow10(s.len() as nat),
    decreases s.len(),
{
    if s.len() > 0 {
        let t = s.subrange(0, s.len() - 1);
        assert(all_digits(t)) by {
            assert(forall|i: int| 0 <= i < t.len() ==> t[i] == s[i]);
        }
        lemma_digits_val_bound(t);
        assert(is_digit(s[s.len() - 1]));
    }
}

/// The first powers of ten, written out.
proof fn lemma_small_pow10(n: nat)
    requires
        n <= 3,
    ensures
        pow10(n) == if n == 0 {
            1int
        } else if n == 1 {
            10int
        } else if n == 2 {
            100int
        } else {
            1000int
        },
{
    assert(pow10(0) == 1);
    assert(pow10(1) == 10);
    assert(pow10(2) == 100);
    assert(pow10(3) == 1000);
}

/// A split never yields an empty list of pieces.
pub proof fn lemma_split_nonempty(s: Seq<char>, sep: char)
    ensures
        split_seq(s, sep).len() >= 1,
    decreases s.len(),
{
    lemma_find_bounds(s, sep);
}

/// `first_q` finds the first parameter named `q`.
proof fn lemma_first_q_at(ps: Seq<(Seq<char>, Seq<char>)>, k: int)
    requires
        0 <= k < ps.len(),
        ps[k].0 == seq!['q'],
        forall|j: int| 0 <= j < k ==> (#[trigger] ps[j]).0 != seq!['q'],
    ensures
        first_q(ps) == Some(ps[k].1),
    decreases ps.len(),
{
    if ps[0].0 != seq!['q'] {
        let t = ps.subrange(1, ps.len() as int);
        assert forall|j: int| 0 <= j < k - 1 implies (#[trigger] t[j]).0 != seq!['q'] by {
            assert(t[j] == ps[j + 1]);
        }
        assert(t[k - 1] == ps[k]);
        lemma_first_q_at(t, k - 1);
    }
}

/// When no parameter is named `q`, `first_q` finds nothing.
proof fn lemma_first_q_none(ps: Seq<(Seq<char>, Seq<char>)>)
    requires
        forall|j: int| 0 <= j < ps.len() ==> (#[trigger] ps[j]).0 != seq!['q'],
    ensures
        first_q(ps) is None,
    decreases ps.len(),
{
    if ps.len() > 0 {
        let t = ps.subrange(1, ps.len() as int);
        assert forall|j: int| 0 <= j < t.len() implies (#[trigger] t[j]).0 != seq!['q'] by {
            assert(t[j] == ps[j + 1]);
        }
        lemma_first_q_none(t);
    }
}

/// Whether a raw parameter name is exactly `q`.
fn is_q_name(name: &Vec<char>) -> (r: bool)
    ensures
        r == (name@ == seq!['q']),
{
    if name.len() == 1 && name[0] == 'q' {
        proof {
            assert(name@ =~= seq!['q']);
        }
        true
    } else {
        proof {
            if name@ == seq!['q'] {
                assert(name@.len() == 1);
                assert(name@[0] == 'q');
            }
        }
        false
    }
}

/// One parameter piece parsed as `name=value`.
fn parse_param_chars(piece: &Vec<char>) -> (r: Option<(Vec<char>, Vec<char>)>)
    ensures
        match r {
            Some(p) => param_of(piece@) == Some((p.0@, p.1@)),
            None => param_of(piece@) is None,
        },
{
    let t = trim_chars(piece);
    proof {
        assert(t@.subrange(0, t@.len() as int) =~= t@);
    }
    match find_from(&t, 0, '=') {
        None => None,
        Some(e) => {
            let tn = t.len();
            let name_raw = sub_chars(&t, 0, e);
            let name = lower_chars(&name_raw);
            let value = sub_chars(&t, e + 1, tn);
            if token_chars(&name) && token_chars(&value) {
                Some((name, value))
            } else {
                None
            }
        },
    }
}

/// The parameter pieces from `from` on, all parsed, or nothing when any
/// of them is malformed.
fn parse_params_chars(pieces: &Vec<Vec<char>>, from: usize) -> (r: Option<
    Vec<(Vec<char>, Vec<char>)>,
>)
    requires
        from <= pieces@.len(),
    ensures
        match r {
            Some(ps) => params_of(
                pieces@.map_values(|p: Vec<char>| p@).subrange(
                    from as int,
                    pieces@.len() as int,
                ),
            ) == Some(ps@.map_values(|p: (Vec<char>, Vec<char>)| (p.0@, p.1@))),
            None => params_of(
                pieces@.map_values(|p: Vec<char>| p@).subrange(
                    from as int,
                    pieces@.len() as int,
                ),
            ) is None,
        },
{
    let ghost pviews = pieces@.map_values(|p: Vec<char>| p@);
    let ghost target = params_of(pviews.subrange(from as int, pieces@.len() as int));
    let n = pieces.len();
    let mut acc: Vec<(Vec<char>, Vec<char>)> = Vec::new();
    let mut i: usize = from;
    proof {
        assert(acc@.map_values(|p: (Vec<char>, Vec<char>)| (p.0@, p.1@))
            =~= Seq::<(Seq<char>, Seq<char>)>::empty());
        if params_of(pviews.subrange(from as int, n as int)) is Some {
            let rest = params_of(pviews.subrange(from as int, n as int))->Some_0;
            assert(Seq::<(Seq<char>, Seq<char>)>::empty() + rest =~= rest);
        }
    }
    while i < n
        invariant
            from <= i <= n == pieces@.len(),
            pviews == pieces@.map_values(|p: Vec<char>| p@),
            target == params_of(pviews.subrange(from as int, n as int)),
            target == match params_of(pviews.subrange(i as int, n as int)) {
                None => None,
                Some(rest) => Some(
                    acc@.map_values(|p: (Vec<char>, Vec<char>)| (p.0@, p.1@)) + rest,
                ),
            },
        decreases n - i,
    {
        let ghost accv = acc@.map_values(|p: (Vec<char>, Vec<char>)| (p.0@, p.1@));
        proof {
            assert(pviews.subrange(i as int, n as int)[0] == pviews[i as int]);
            assert(pviews.subrange(i as int, n as int).subrange(
                1,
                pviews.subrange(i as int, n as int).len() as int,
            ) =~= pviews.subrange(i + 1 as int, n as int));
        }
        match parse_param_chars(&pieces[i]) {
            None => {
                return None;
            },
            Some(p) => {
                let ghost pv = (p.0@, p.1@);
                acc.push(p);
                proof {
                    assert(acc@.map_values(|p: (Vec<char>, Vec<char>)| (p.0@, p.1@)) =~= accv
                        + seq![pv]);
                    if params_of(pviews.subrange(i + 1 as int, n as int)) is Some {
                        let rest = params_of(pviews.subrange(i + 1 as int, n as int))->Some_0;
                        assert(accv + (seq![pv] + rest) =~= (accv + seq![pv]) + rest);
                    }
                }
            },
        }
        i = i + 1;
    }
    proof {
        assert(pviews.subrange(n as int, n as int) =~= Seq::<Seq<char>>::empty());
        let accv = acc@.map_values(|p: (Vec<char>, Vec<char>)| (p.0@, p.1@));
        assert(accv + Seq::<(Seq<char>, Seq<char>)>::empty() =~= accv);
    }
    Some(acc)
}

/// The quality of a range with the given raw parameters: from the first
/// parameter named `q`, with `1000` when there is none.
fn extract_quality(params: &Vec<(Vec<char>, Vec<char>)>) -> (r: u32)
    ensures
        r == quality_of(params@.map_values(|p: (Vec<char>, Vec<char>)| (p.0@, p.1@))),
        r <= 1000,
{
    let ghost pviews = params@.map_values(|p: (Vec<char>, Vec<char>)| (p.0@, p.1@));
    let n = params.len();
    let mut i: usize = 0;
    while i < n
        invariant
            i <= n == params@.len(),
            pviews == params@.map_values(|p: (Vec<char>, Vec<char>)| (p.0@, p.1@)),
            forall|j: int| 0 <= j < i ==> (#[trigger] pviews[j]).0 != seq!['q'],
        decreases n - i,
    {
        if is_q_name(&params[i].0) {
            proof {
                lemma_first_q_at(pviews, i as int);
            }
            return quality_from(&params[i].1);
        }
        i = i + 1;
    }
    proof {
        lemma_first_q_none(pviews);
    }
    1000
}

/// The parameters with every `q` parameter removed, as library values.
fn strip_q_params(params: &Vec<(Vec<char>, Vec<char>)>) -> (r: Vec<Param>)
    ensures
        r@.map_values(|p: Param| p@) == strip_q(
            params@.map_values(|p: (Vec<char>, Vec<char>)| (p.0@, p.1@)),
        ),
{
    let ghost pviews = params@.map_values(|p: (Vec<char>, Vec<char>)| (p.0@, p.1@));
    let n = params.len();
    let mut acc: Vec<Param> = Vec::new();
    let mut i: usize = 0;
    proof {
        assert(acc@.map_values(|p: Param| p@) =~= Seq::<(Seq<char>, Seq<char>)>::empty());
        assert(pviews.subrange(0, n as int) =~= pviews);
        assert(Seq::<(Seq<char>, Seq<char>)>::empty() + strip_q(pviews) =~= strip_q(pviews));
    }
    while i < n
        invariant
            i <= n == params@.len(),
            pviews == params@.map_values(|p: (Vec<char>, Vec<char>)| (p.0@, p.1@)),
            strip_q(pviews) == acc@.map_values(|p: Param| p@) + strip_q(
                pviews.subrange(i as int, n as int),
            ),
        decreases n - i,
    {
        let ghost accv = acc@.map_values(|p: Param| p@);
        proof {
            assert(pviews.subrange(i as int, n as int)[0] == pviews[i as int]);
            assert(pviews.subrange(i as int, n as int).subrange(
                1,
                pviews.subrange(i as int, n as int).len() as int,
            ) =~= pviews.subrange(i + 1 as int, n as int));
        }
        if is_q_name(&params[i].0) {
            // Dropped: its value was already folded into the quality.
        } else {
            let name = chars_to_string(&params[i].0);
            let value = chars_to_string(&params[i].1);
            let ghost pv = (name@, value@);
            acc.push(Param { name, value });
            proof {
                assert(acc@.map_values(|p: Param| p@) =~= accv + seq![pv]);
                assert(accv + (seq![pv] + strip_q(pviews.subrange(i + 1 as int, n as int))) =~= (
                accv + seq![pv]) + strip_q(pviews.subrange(i + 1 as int, n as int)));
            }
        }
        i = i + 1;
    }
    proof {
        assert(pviews.subrange(n as int, n as int) =~= Seq::<(Seq<char>, Seq<char>)>::empty());
        let accv = acc@.map_values(|p: Param| p@);
        assert(accv + Seq::<(Seq<char>, Seq<char>)>::empty() =~= accv);
    }
    acc
}

/// One `Accept` entry parsed as a media range, or nothing when it is
/// not a syntactically valid media type.
pub fn parse_media_range(entry: &Vec<char>) -> (r: Option<MediaRange>)
    ensures
        match r {
            Some(m) => parse_range(entry@) == Some(m@),
            None => parse_range(entry@) is None,
        },
{
    let pieces = split_chars(entry, ';');
    let ghost pviews = pieces@.map_values(|p: Vec<char>| p@);
    proof {
        lemma_split_nonempty(entry@, ';');
        assert(pviews[0] == pieces@[0]@);
    }
    let first = trim_chars(&pieces[0]);
    proof {
        assert(first@.subrange(0, first@.len() as int) =~= first@);
    }
    match find_from(&first, 0, '/') {
        None => None,
        Some(sl) => {
            let fn_len = first.len();
            let mtype_raw = sub_chars(&first, 0, sl);
            let mtype_chars = lower_chars(&mtype_raw);
            let subtype_raw = sub_chars(&first, sl + 1, fn_len);
            let subtype_chars = lower_chars(&subtype_raw);
            if !token_chars(&mtype_chars) || !token_chars(&subtype_chars) {
                return None;
            }
            match parse_params_chars(&pieces, 1) {
                None => None,
                Some(ps) => {
                    let quality = extract_quality(&ps);
                    let params = strip_q_params(&ps);
                    let mtype = chars_to_string(&mtype_chars);
                    let subtype = chars_to_string(&subtype_chars);
                    let m = MediaRange { mtype, subtype, quality, params };
                    proof {
                        assert(parse_range(entry@) == Some(m@));
                    }
                    Some(m)
                },
            }
        },
    }
}

/// The `Accept` header parsed into its ordered list of media ranges;
/// entries that are not valid media types are silently dropped.
pub fn parse_accept(header: &str) -> (r: Vec<MediaRange>)
    ensures
        range_models(r@) == parse_accept_seq(header@),
{
    let chars = str_chars(header);
    let entries = split_chars(&chars, ',');
    let ghost eviews = entries@.map_values(|p: Vec<char>| p@);
    let n = entries.len();
    let mut acc: Vec<MediaRange> = Vec::new();
    let mut i: usize = 0;
    proof {
        assert(acc@.map_values(|m: MediaRange| m@) =~= Seq::<RangeModel>::empty());
        assert(Seq::<RangeModel>::empty() + parse_entries(eviews) =~= parse_entries(eviews));
        assert(eviews.subrange(0, n as int) =~= eviews);
    }
    while i < n
        invariant
            i <= n == entries@.len(),
            eviews == entries@.map_values(|p: Vec<char>| p@),
            parse_entries(eviews) == acc@.map_values(|m: MediaRange| m@) + parse_entries(
                eviews.subrange(i as int, n as int),
            ),
        decreases n - i,
    {
        let ghost accv = acc@.map_values(|m: MediaRange| m@);
        proof {
            assert(eviews.subrange(i as int, n as int)[0] == eviews[i as int]);
            assert(eviews.subrange(i as int, n as int).subrange(
                1,
                eviews.subrange(i as int, n as int).len() as int,
            ) =~= eviews.subrange(i + 1 as int, n as int));
        }
        match parse_media_range(&entries[i]) {
            Some(m) => {
                let ghost mv = m@;
                acc.push(m);
                proof {
                    assert(acc@.map_values(|m: MediaRange| m@) =~= accv + seq![mv]);
                    assert(accv + (seq![mv] + parse_entries(eviews.subrange(i + 1 as int, n as int)))
                        =~= (accv + seq![mv]) + parse_entries(
                        eviews.subrange(i + 1 as int, n as int),
                    ));
                }
            },
            None => {
            },
        }
        i = i + 1;
    }
    proof {
        assert(eviews.subrange(n as int, n as int) =~= Seq::<Seq<char>>::empty());
        let accv = acc@.map_values(|m: MediaRange| m@);
        assert(accv + Seq::<RangeModel>::empty() =~= accv);
    }
    acc
}

} // verus!
