//! Matching parsed `Accept` ranges against the server's supported media
//! types.
//!
//! Ranges are tried by strictly descending quality, with ties keeping
//! header order; for one range the server list is scanned in its declared
//! order. The chosen type is the first supported type the best
//! satisfiable range matches, carrying that range's parameters forward.
//! When nothing matches, negotiation falls back rather than failing.

use vstd::prelude::*;

use crate::accept::{MediaRange, Param, RangeModel};
use crate::text::str_chars;
use crate::text::chars_to_string;
use vstd::string::StrSliceExecFns;

verus! {

/// The model of a concrete media type: type, subtype and parameters as
/// character sequences.
pub struct TypeModel {
    pub mtype: Seq<char>,
    pub subtype: Seq<char>,
    pub params: Seq<(Seq<char>, Seq<char>)>,
}

/// A concrete (wildcard-free) media type, as the server advertises it
/// and as negotiation returns it.
pub struct MediaType {
    pub mtype: String,
    pub subtype: String,
    pub params: Vec<Param>,
}

impl View for MediaType {
    type V = TypeModel;

    open spec fn view(&self) -> TypeModel {
        TypeModel {
            mtype: self.mtype@,
            subtype: self.subtype@,
            params: self.params@.map_values(|p: Param| p@),
        }
    }
}

/// The model of a negotiation outcome.
pub enum NegotiatedModel {
    Matched(TypeModel),
    Fallback,
}

/// The outcome of negotiation: a supported media type that some client
/// range matched, or the explicit fallback when none did.
pub enum Negotiated {
    Matched(MediaType),
    Fallback,
}

impl View for Negotiated {
    type V = NegotiatedModel;

    open spec fn view(&self) -> NegotiatedModel {
        match self {
            Negotiated::Matched(t) => NegotiatedModel::Matched(t@),
            Negotiated::Fallback => NegotiatedModel::Fallback,
        }
    }
}

/// Models of a vector of media types.
pub open spec fn type_models(v: Seq<MediaType>) -> Seq<TypeModel> {
    v.map_values(|t: MediaType| t@)
}

/// A client range matches a concrete type when each side is the
/// wildcard or equal.
pub open spec fn range_matches(r: RangeModel, t: TypeModel) -> bool {
    (r.mtype == seq!['*'] || r.mtype == t.mtype) && (r.subtype == seq!['*'] || r.subtype
        == t.subtype)
}

/// The range matches some supported type.
pub open spec fn matches_any(r: RangeModel, supported: Seq<TypeModel>) -> bool {
    exists|j: int| 0 <= j < supported.len() && range_matches(r, #[trigger] supported[j])
}

/// Index of the first supported type the range matches, in server
/// order, or `-1` when it matches none.
pub open spec fn first_match_idx(r: RangeModel, supported: Seq<TypeModel>) -> int
    decreases supported.len(),
{
    if supported.len() == 0 {
        -1
    } else if range_matches(r, supported[0]) {
        0
    } else {
        let k = first_match_idx(r, supported.subrange(1, supported.len() as int));
        if k < 0 {
            -1
        } else {
            1 + k
        }
    }
}

/// `first_match_idx(r, supported) == k` exactly when `k` is the first
/// match.
pub proof fn lemma_first_match_at(r: RangeModel, supported: Seq<TypeModel>, k: int)
    requires
        0 <= k < supported.len(),
        range_matches(r, supported[k]),
        forall|j: int| 0 <= j < k ==> !range_matches(r, #[trigger] supported[j]),
    ensures
        first_match_idx(r, supported) == k,
    decreases supported.len(),
{
    if !range_matches(r, supported[0]) {
        let t = supported.subrange(1, supported.len() as int);
        assert forall|j: int| 0 <= j < k - 1 implies !range_matches(r, #[trigger] t[j]) by {
            assert(t[j] == supported[j + 1]);
        }
        assert(t[k - 1] == supported[k]);
        lemma_first_match_at(r, t, k - 1);
    }
}

/// When the range matches no supported type, there is no first match.
pub proof fn lemma_first_match_none(r: RangeModel, supported: Seq<TypeModel>)
    requires
        forall|j: int| 0 <= j < supported.len() ==> !range_matches(r, #[trigger] supported[j]),
    ensures
        first_match_idx(r, supported) == -1,
    decreases supported.len(),
{
    if supported.len() > 0 {
        let t = supported.subrange(1, supported.len() as int);
        assert forall|j: int| 0 <= j < t.len() implies !range_matches(r, #[trigger] t[j]) by {
            assert(t[j] == supported[j + 1]);
        }
        lemma_first_match_none(r, t);
    }
}

/// The range at `i` is satisfiable and of best quality: every other
/// satisfiable range either has strictly lower quality, or the same
/// quality and a later place in the header.
pub open spec fn is_winner(ranges: Seq<RangeModel>, supported: Seq<TypeModel>, i: int) -> bool {
    &&& 0 <= i < ranges.len()
    &&& matches_any(ranges[i], supported)
    &&& forall|j: int|
        0 <= j < ranges.len() && matches_any(#[trigger] ranges[j], supported) ==> ranges[j].quality
            < ranges[i].quality || (ranges[j].quality == ranges[i].quality && i <= j)
}

/// Some range is satisfiable.
pub open spec fn winner_exists(ranges: Seq<RangeModel>, supported: Seq<TypeModel>) -> bool {
    exists|i: int| is_winner(ranges, supported, i)
}

/// The type negotiation yields for the winning range: the first
/// supported type it matches, carrying the range's parameters forward.
pub open spec fn match_result(r: RangeModel, supported: Seq<TypeModel>) -> TypeModel {
    TypeModel {
        mtype: supported[first_match_idx(r, supported)].mtype,
        subtype: supported[first_match_idx(r, supported)].subtype,
        params: r.params,
    }
}

/// The outcome of negotiation as a function of the parsed ranges and
/// the supported list.
pub open spec fn negotiated_of(ranges: Seq<RangeModel>, supported: Seq<TypeModel>)
    -> NegotiatedModel {
    if winner_exists(ranges, supported) {
        let i = choose|i: int| is_winner(ranges, supported, i);
        NegotiatedModel::Matched(match_result(ranges[i], supported))
    } else {
        NegotiatedModel::Fallback
    }
}

/// At most one range wins: quality strictly orders the candidates, and
/// header order breaks ties.
pub proof fn lemma_winner_unique(
    ranges: Seq<RangeModel>,
    supported: Seq<TypeModel>,
    i1: int,
    i2: int,
)
    requires
        is_winner(ranges, supported, i1),
        is_winner(ranges, supported, i2),
    ensures
        i1 == i2,
{
}

/// The string is exactly the wildcard token.
fn is_star(s: &String) -> (r: bool)
    ensures
        r == (s@ == seq!['*']),
{
    let st = s.as_str();
    if st.unicode_len() == 1 && st.get_char(0) == '*' {
        proof {
            assert(s@ =~= seq!['*']);
        }
        true
    } else {
        proof {
            if s@ == seq!['*'] {
                assert(s@.len() == 1);
                assert(s@[0] == '*');
            }
        }
        false
    }
}

/// Whether the client range matches the concrete type, decided in
/// executable code.
pub fn matches_type(m: &MediaRange, t: &MediaType) -> (r: bool)
    ensures
        r == range_matches(m@, t@),
{
    (is_star(&m.mtype) || m.mtype == t.mtype) && (is_star(&m.subtype) || m.subtype == t.subtype)
}

/// The first supported type the range matches, scanned in server order.
fn match_in_supported(m: &MediaRange, supported: &Vec<MediaType>) -> (r: Option<usize>)
    ensures
        match r {
            Some(j) => j < supported@.len() && first_match_idx(m@, type_models(supported@))
                == j as int && range_matches(m@, type_models(supported@)[j as int]) && matches_any(
                m@,
                type_models(supported@),
            ),
            None => !matches_any(m@, type_models(supported@)),
        },
{
    let ghost sviews = type_models(supported@);
    let n = supported.len();
    let mut j: usize = 0;
    while j < n
        invariant
            j <= n == supported@.len(),
            sviews == type_models(supported@),
            forall|k: int| 0 <= k < j ==> !range_matches(m@, #[trigger] sviews[k]),
        decreases n - j,
    {
        if matches_type(m, &supported[j]) {
            proof {
                lemma_first_match_at(m@, sviews, j as int);
                assert(matches_any(m@, sviews)) by {
                    assert(range_matches(m@, sviews[j as int]));
                }
            }
            return Some(j);
        }
        j = j + 1;
    }
    None
}

/// Each parameter cloned.
fn clone_params(ps: &Vec<Param>) -> (r: Vec<Param>)
    ensures
        r@.map_values(|p: Param| p@) == ps@.map_values(|p: Param| p@),
{
    let n = ps.len();
    let mut r: Vec<Param> = Vec::new();
    let mut i: usize = 0;
    while i < n
        invariant
            i <= n == ps@.len(),
            r@.len() == i,
            forall|k: int| 0 <= k < i ==> r@[k]@ == ps@[k]@,
        decreases n - i,
    {
        let name = ps[i].name.clone();
        let value = ps[i].value.clone();
        r.push(Param { name, value });
        i = i + 1;
    }
    proof {
        assert(r@.map_values(|p: Param| p@) =~= ps@.map_values(|p: Param| p@));
    }
    r
}

/// Negotiate: try the parsed ranges by strictly descending quality,
/// header order breaking ties, and return the first supported type the
/// best satisfiable range matches, carrying that range's parameters
/// forward; fall back when no range is satisfiable — never an error.
///
/// An empty range list (an absent or wholly malformed header) and an
/// empty supported list both fall back.
pub fn negotiate(ranges: &Vec<MediaRange>, supported: &Vec<MediaType>) -> (r: Negotiated)
    ensures
        r@ == negotiated_of(crate::accept::range_models(ranges@), type_models(supported@)),
        (r is Matched) == winner_exists(
            crate::accept::range_models(ranges@),
            type_models(supported@),
        ),
        forall|i: int|
            is_winner(crate::accept::range_models(ranges@), type_models(supported@), i) ==> r@
                == NegotiatedModel::Matched(
                match_result(
                    crate::accept::range_models(ranges@)[i],
                    type_models(supported@),
                ),
            ),
{
    let ghost rviews = crate::accept::range_models(ranges@);
    let ghost sviews = type_models(supported@);
    let n = ranges.len();
    let mut best: Option<(usize, usize)> = None;
    let mut best_q: u32 = 0;
    let mut i: usize = 0;
    while i < n
        invariant
            i <= n == ranges@.len(),
            rviews == crate::accept::range_models(ranges@),
            sviews == type_models(supported@),
            match best {
                None => forall|k: int| 0 <= k < i ==> !matches_any(#[trigger] rviews[k], sviews),
                Some((bi, bj)) => {
                    &&& (bi as int) < i
                    &&& matches_any(rviews[bi as int], sviews)
                    &&& (bj as int) < sviews.len()
                    &&& first_match_idx(rviews[bi as int], sviews) == bj as int
                    &&& best_q == rviews[bi as int].quality
                    &&& forall|k: int|
                        0 <= k < i && matches_any(#[trigger] rviews[k], sviews) ==> rviews[
                            k
                        ].quality < best_q || (rviews[k].quality == best_q && bi as int <= k)
                },
            },
        decreases n - i,
    {
        match match_in_supported(&ranges[i], supported) {
            Some(j) => {
                match best {
                    None => {
                        best = Some((i, j));
                        best_q = ranges[i].quality;
                    },
                    Some(_) => {
                        if ranges[i].quality > best_q {
                            best = Some((i, j));
                            best_q = ranges[i].quality;
                        }
                    },
                }
            },
            None => {},
        }
        i = i + 1;
    }
    match best {
        None => {
            proof {
                assert(!winner_exists(rviews, sviews));
            }
            Negotiated::Fallback
        },
        Some((bi, bj)) => {
            let mtype = supported[bj].mtype.clone();
            let subtype = supported[bj].subtype.clone();
            let params = clone_params(&ranges[bi].params);
            let t = MediaType { mtype, subtype, params };
            proof {
                assert(is_winner(rviews, sviews, bi as int));
                let w = choose|i: int| is_winner(rviews, sviews, i);
                lemma_winner_unique(rviews, sviews, w, bi as int);
                assert(t@.params =~= rviews[bi as int].params);
                assert(t@ == match_result(rviews[bi as int], sviews));
            }
            Negotiated::Matched(t)
        },
    }
}

/// The first parameter with the given name, if any.
pub open spec fn first_param(params: Seq<(Seq<char>, Seq<char>)>, name: Seq<char>) -> Option<
    Seq<char>,
>
    decreases params.len(),
{
    if params.len() == 0 {
        None
    } else if params[0].0 == name {
        Some(params[0].1)
    } else {
        first_param(params.subrange(1, params.len() as int), name)
    }
}

/// `first_param` finds the first parameter with the name.
pub proof fn lemma_first_param_at(
    params: Seq<(Seq<char>, Seq<char>)>,
    name: Seq<char>,
    k: int,
)
    requires
        0 <= k < params.len(),
        params[k].0 == name,
        forall|j: int| 0 <= j < k ==> (#[trigger] params[j]).0 != name,
    ensures
        first_param(params, name) == Some(params[k].1),
    decreases params.len(),
{
    if params[0].0 != name {
        let t = params.subrange(1, params.len() as int);
        assert forall|j: int| 0 <= j < k - 1 implies (#[trigger] t[j]).0 != name by {
            assert(t[j] == params[j + 1]);
        }
        assert(t[k - 1] == params[k]);
        lemma_first_param_at(t, name, k - 1);
    }
}

/// When no parameter has the name, `first_param` finds nothing.
pub proof fn lemma_first_param_none(params: Seq<(Seq<char>, Seq<char>)>, name: Seq<char>)
    requires
        forall|j: int| 0 <= j < params.len() ==> (#[trigger] params[j]).0 != name,
    ensures
        first_param(params, name) is None,
    decreases params.len(),
{
    if params.len() > 0 {
        let t = params.subrange(1, params.len() as int);
        assert forall|j: int| 0 <= j < t.len() implies (#[trigger] t[j]).0 != name by {
            assert(t[j] == params[j + 1]);
        }
        lemma_first_param_none(t, name);
    }
}

impl MediaType {
    /// A parameterless media type from its two tokens.
    pub fn new(mtype: &str, subtype: &str) -> (r: MediaType)
        ensures
            r@.mtype == mtype@,
            r@.subtype == subtype@,
            r@.params == Seq::<(Seq<char>, Seq<char>)>::empty(),
    {
        let r = MediaType { mtype: mtype.to_owned(), subtype: subtype.to_owned(), params: Vec::new() };
        proof {
            assert(r@.params =~= Seq::<(Seq<char>, Seq<char>)>::empty());
        }
        r
    }

    /// The `type/subtype` essence of this media type, without
    /// parameters.
    pub fn essence(&self) -> (r: String)
        ensures
            r@ == self@.mtype + seq!['/'] + self@.subtype,
    {
        let mut chars = str_chars(self.mtype.as_str());
        chars.push('/');
        let sub = str_chars(self.subtype.as_str());
        let mut i: usize = 0;
        let n = sub.len();
        while i < n
            invariant
                i <= n == sub@.len(),
                chars@ == self.mtype@ + seq!['/'] + sub@.subrange(0, i as int),
            decreases n - i,
        {
            chars.push(sub[i]);
            assert(chars@ =~= self.mtype@ + seq!['/'] + sub@.subrange(0, i + 1 as int));
            i = i + 1;
        }
        proof {
            assert(sub@.subrange(0, n as int) =~= sub@);
        }
        chars_to_string(&chars)
    }

    /// The value of the first parameter with the given name, if any.
    pub fn get_param(&self, name: &str) -> (r: Option<String>)
        ensures
            match r {
                Some(v) => first_param(self@.params, name@) == Some(v@),
                None => first_param(self@.params, name@) is None,
            },
    {
        let ghost pviews = self@.params;
        let name_chars = str_chars(name);
        let n = self.params.len();
        let mut i: usize = 0;
        while i < n
            invariant
                i <= n == self.params@.len(),
                pviews == self@.params,
                name_chars@ == name@,
                forall|j: int| 0 <= j < i ==> (#[trigger] pviews[j]).0 != name@,
            decreases n - i,
        {
            let p_chars = str_chars(self.params[i].name.as_str());
            if crate::text::chars_eq(&p_chars, &name_chars) {
                proof {
                    lemma_first_param_at(pviews, name@, i as int);
                }
                return Some(self.params[i].value.clone());
            }
            i = i + 1;
        }
        proof {
            lemma_first_param_none(pviews, name@);
        }
        None
    }
}

} // verus!
