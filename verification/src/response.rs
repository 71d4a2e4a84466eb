//! The whole negotiation-and-render pass: from the raw `Accept` header,
//! the optional `fields` selection and the records to the response
//! body and its content type.
//!
//! The server supports `application/json`, `application/x-yaml` and
//! `text/csv`, in that order of preference, and answers
//! `application/json` when the header is absent, wholly malformed or
//! unsatisfiable — never an error. A negotiated `text/csv` type may
//! carry `header=absent` to suppress the CSV header row.

use vstd::prelude::*;

use crate::accept::{parse_accept, parse_accept_seq, parse_entries, parse_range, RangeModel};
use crate::csv::{csv_of_records, csv_text, infer_columns, inferred_columns};
use crate::json::{json_of_records, json_text};
use crate::negotiate::{
    first_param, negotiate, negotiated_of, MediaType, Negotiated, NegotiatedModel, TypeModel,
    type_models, winner_exists,
};
use crate::project::{
    name_set, parse_fields, parse_fields_seq, project_elems, project_records, string_views,
};
use crate::text::{chars_eq, find_idx, split_seq, str_chars, trim_seq};
use crate::value::{models_of, StructuredValue, ValModel};
use crate::yaml::{yaml_doc, yaml_of_records};

verus! {

/// The media types this server supports, in its order of preference.
pub open spec fn supported_models() -> Seq<TypeModel> {
    seq![
        TypeModel { mtype: "application"@, subtype: "json"@, params: Seq::empty() },
        TypeModel { mtype: "application"@, subtype: "x-yaml"@, params: Seq::empty() },
        TypeModel { mtype: "text"@, subtype: "csv"@, params: Seq::empty() },
    ]
}

/// The supported media types, as values.
pub fn supported_types() -> (r: Vec<MediaType>)
    ensures
        type_models(r@) == supported_models(),
{
    let mut r: Vec<MediaType> = Vec::new();
    r.push(MediaType::new("application", "json"));
    r.push(MediaType::new("application", "x-yaml"));
    r.push(MediaType::new("text", "csv"));
    proof {
        assert(r@[0]@ =~= supported_models()[0]);
        assert(r@[1]@ =~= supported_models()[1]);
        assert(r@[2]@ =~= supported_models()[2]);
        assert(type_models(r@) =~= supported_models());
    }
    r
}

/// The CSV header row is emitted unless the negotiated parameters say
/// `header=absent`.
pub open spec fn header_wanted(params: Seq<(Seq<char>, Seq<char>)>) -> bool {
    first_param(params, "header"@) != Some("absent"@)
}

/// What the whole pass returns for the given header, field selection
/// and records: the content type and the body.
pub open spec fn response_spec(
    accept: Option<Seq<char>>,
    fields: Option<Seq<char>>,
    records: Seq<ValModel>,
) -> (Seq<char>, Seq<char>) {
    let ranges = parse_accept_seq(
        match accept {
            None => Seq::empty(),
            Some(a) => a,
        },
    );
    let names = match fields {
        None => Seq::<Seq<char>>::empty(),
        Some(f) => parse_fields_seq(f),
    };
    let projected = if names.len() == 0 {
        records
    } else {
        project_elems(records, name_set(names))
    };
    match negotiated_of(ranges, supported_models()) {
        NegotiatedModel::Matched(t) => {
            if t.mtype == "application"@ && t.subtype == "x-yaml"@ {
                ("application/yaml"@, yaml_doc(ValModel::Array(projected)))
            } else if t.mtype == "text"@ && t.subtype == "csv"@ {
                let cols = if names.len() == 0 {
                    inferred_columns(projected)
                } else {
                    names
                };
                ("text/csv"@, csv_text(projected, cols, header_wanted(t.params)))
            } else {
                ("application/json"@, json_text(ValModel::Array(projected)))
            }
        },
        NegotiatedModel::Fallback => (
            "application/json"@,
            json_text(ValModel::Array(projected)),
        ),
    }
}

/// An empty header parses to no ranges at all.
pub proof fn lemma_empty_header_parses_empty()
    ensures
        parse_accept_seq(Seq::empty()) == Seq::<RangeModel>::empty(),
{
    let s = Seq::<char>::empty();
    assert(find_idx(s, ',') == -1);
    assert(split_seq(s, ',') == seq![s]);
    assert(find_idx(s, ';') == -1);
    assert(split_seq(s, ';') == seq![s]);
    assert(trim_seq(s) =~= s);
    assert(find_idx(s, '/') == -1);
    assert(parse_range(s) is None);
    assert(seq![s].subrange(1, 1) =~= Seq::<Seq<char>>::empty());
    assert(parse_entries(Seq::<Seq<char>>::empty()) == Seq::<RangeModel>::empty());
    assert(parse_entries(seq![s]) =~= Seq::<RangeModel>::empty());
}

/// With no ranges there is nothing to satisfy: negotiation falls back.
pub proof fn lemma_no_ranges_falls_back(supported: Seq<TypeModel>)
    ensures
        !winner_exists(Seq::<RangeModel>::empty(), supported),
        negotiated_of(Seq::<RangeModel>::empty(), supported) is Fallback,
{
    if winner_exists(Seq::<RangeModel>::empty(), supported) {
        let i = choose|i: int|
            crate::negotiate::is_winner(Seq::<RangeModel>::empty(), supported, i);
        assert(false);
    }
}

/// The type has the given essence.
fn type_is(t: &MediaType, mtype: &str, subtype: &str) -> (r: bool)
    ensures
        r == (t@.mtype == mtype@ && t@.subtype == subtype@),
{
    let tm = str_chars(t.mtype.as_str());
    let am = str_chars(mtype);
    let ts = str_chars(t.subtype.as_str());
    let bs = str_chars(subtype);
    chars_eq(&tm, &am) && chars_eq(&ts, &bs)
}

/// Negotiate a format, project the records to the selected fields, and
/// render them: the content type and body of the response.
///
/// An absent `Accept` header, one with no valid entry, and one no
/// entry of which matches a supported type all fall back to
/// `application/json`; an absent or empty `fields` parameter leaves
/// the records unfiltered.
pub fn negotiate_response(
    accept: Option<&str>,
    fields: Option<&str>,
    records: &Vec<StructuredValue>,
) -> (r: (String, String))
    ensures
        (r.0@, r.1@) == response_spec(
            match accept {
                None => None,
                Some(a) => Some(a@),
            },
            match fields {
                None => None,
                Some(f) => Some(f@),
            },
            models_of(records@),
        ),
        accept is None ==> r.0@ == "application/json"@,
{
    let ranges = match accept {
        Some(a) => parse_accept(a),
        None => {
            let empty_ranges = parse_accept("");
            proof {
                reveal_strlit("");
                assert(""@ =~= Seq::<char>::empty());
            }
            empty_ranges
        },
    };
    let supported = supported_types();
    let chosen = negotiate(&ranges, &supported);
    let names: Vec<String> = match fields {
        Some(f) => parse_fields(f),
        None => {
            let no_names: Vec<String> = Vec::new();
            proof {
                assert(string_views(no_names@) =~= Seq::<Seq<char>>::empty());
            }
            no_names
        },
    };
    let do_project = names.len() > 0;
    let projected_records: Vec<StructuredValue> = if do_project {
        project_records(records, &names)
    } else {
        Vec::new()
    };
    let body_records: &Vec<StructuredValue> = if do_project {
        &projected_records
    } else {
        records
    };
    let ghost names_spec = match fields {
        None => Seq::<Seq<char>>::empty(),
        Some(f) => parse_fields_seq(f@),
    };
    let ghost projected_spec = if names_spec.len() == 0 {
        models_of(records@)
    } else {
        project_elems(models_of(records@), name_set(names_spec))
    };
    proof {
        assert(string_views(names@) == names_spec);
        assert(models_of(body_records@) == projected_spec);
        if accept is None {
            lemma_empty_header_parses_empty();
            lemma_no_ranges_falls_back(supported_models());
        }
    }
    match chosen {
        Negotiated::Matched(t) => {
            if type_is(&t, "application", "x-yaml") {
                ("application/yaml".to_owned(), yaml_of_records(body_records))
            } else if type_is(&t, "text", "csv") {
                let header = match t.get_param("header") {
                    Some(v) => {
                        let vc = str_chars(v.as_str());
                        let absent = str_chars("absent");
                        !chars_eq(&vc, &absent)
                    },
                    None => true,
                };
                let cols: Vec<String> = if do_project {
                    names
                } else {
                    infer_columns(body_records)
                };
                ("text/csv".to_owned(), csv_of_records(body_records, &cols, header))
            } else {
                ("application/json".to_owned(), json_of_records(body_records))
            }
        },
        Negotiated::Fallback => {
            ("application/json".to_owned(), json_of_records(body_records))
        },
    }
}

} // verus!
