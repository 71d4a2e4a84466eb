//! Field projection: restricting a structured value to an allowed set
//! of field names.
//!
//! The same flat name set is applied at every nesting depth: an object
//! keeps exactly the entries whose key is selected, each kept value
//! projected again; an array projects every element; scalars pass
//! through. An absent selection means no filtering, not empty output —
//! the caller skips projection entirely in that case.

use vstd::prelude::*;

use crate::text::{split_seq, trim_seq, split_chars, trim_chars, chars_to_string, str_chars};
use crate::value::{
    Entry, StructuredValue, ValModel, model, models_of, entry_models_of, lemma_models_of,
    lemma_entry_models_of,
};

verus! {

/// A structured value restricted to the selected field names.
pub open spec fn project_model(v: ValModel, sel: Set<Seq<char>>) -> ValModel
    decreases v,
{
    match v {
        ValModel::Array(elems) => ValModel::Array(project_elems(elems, sel)),
        ValModel::Object(entries) => ValModel::Object(project_entry_seq(entries, sel)),
        _ => v,
    }
}

/// Every element projected, order kept.
pub open spec fn project_elems(s: Seq<ValModel>, sel: Set<Seq<char>>) -> Seq<ValModel>
    decreases s,
{
    if s.len() == 0 {
        Seq::empty()
    } else {
        seq![project_model(s[0], sel)] + project_elems(s.subrange(1, s.len() as int), sel)
    }
}

/// Only entries with selected keys kept, their values projected, order
/// kept.
pub open spec fn project_entry_seq(
    s: Seq<(Seq<char>, ValModel)>,
    sel: Set<Seq<char>>,
) -> Seq<(Seq<char>, ValModel)>
    decreases s,
{
    if s.len() == 0 {
        Seq::empty()
    } else {
        let rest = project_entry_seq(s.subrange(1, s.len() as int), sel);
        if sel.contains(s[0].0) {
            seq![(s[0].0, project_model(s[0].1, sel))] + rest
        } else {
            rest
        }
    }
}

/// `project_elems` maps the sequence elementwise.
pub proof fn lemma_project_elems(s: Seq<ValModel>, sel: Set<Seq<char>>)
    ensures
        project_elems(s, sel).len() == s.len(),
        forall|i: int| 0 <= i < s.len() ==> project_elems(s, sel)[i] == project_model(
            s[i],
            sel,
        ),
    decreases s.len(),
{
    if s.len() > 0 {
        lemma_project_elems(s.subrange(1, s.len() as int), sel);
    }
}

/// Projection changes nothing the second time: for every tree and every
/// selection, re-projecting an already-projected tree yields the
/// identical tree.
pub proof fn lemma_project_idempotent(v: ValModel, sel: Set<Seq<char>>)
    ensures
        project_model(project_model(v, sel), sel) == project_model(v, sel),
    decreases v,
{
    match v {
        ValModel::Array(elems) => {
            lemma_project_elems_idempotent(elems, sel);
        },
        ValModel::Object(entries) => {
            lemma_project_entries_idempotent(entries, sel);
        },
        _ => {},
    }
}

/// Idempotence, lifted to element sequences.
proof fn lemma_project_elems_idempotent(s: Seq<ValModel>, sel: Set<Seq<char>>)
    ensures
        project_elems(project_elems(s, sel), sel) == project_elems(s, sel),
    decreases s,
{
    lemma_project_elems(s, sel);
    lemma_project_elems(project_elems(s, sel), sel);
    assert forall|i: int| 0 <= i < s.len() implies project_elems(project_elems(s, sel), sel)[i]
        == project_elems(s, sel)[i] by {
        lemma_project_idempotent(s[i], sel);
    }
    assert(project_elems(project_elems(s, sel), sel) =~= project_elems(s, sel));
}

/// Idempotence, lifted to entry sequences: the kept keys are already
/// selected, so a second pass keeps them all and changes no value.
proof fn lemma_project_entries_idempotent(s: Seq<(Seq<char>, ValModel)>, sel: Set<Seq<char>>)
    ensures
        project_entry_seq(project_entry_seq(s, sel), sel) == project_entry_seq(s, sel),
    decreases s,
{
    if s.len() > 0 {
        let rest = s.subrange(1, s.len() as int);
        lemma_project_entries_idempotent(rest, sel);
        if sel.contains(s[0].0) {
            let head = (s[0].0, project_model(s[0].1, sel));
            let once = seq![head] + project_entry_seq(rest, sel);
            assert(once[0] == head);
            assert(once.subrange(1, once.len() as int) =~= project_entry_seq(rest, sel));
            lemma_project_idempotent(s[0].1, sel);
            assert(project_entry_seq(once, sel) =~= project_entry_seq(s, sel));
        }
    }
}

/// The selected names as a set.
pub open spec fn name_set(names: Seq<Seq<char>>) -> Set<Seq<char>> {
    Set::new(|n: Seq<char>| names.contains(n))
}

/// Views of a vector of strings.
pub open spec fn string_views(names: Seq<String>) -> Seq<Seq<char>> {
    names.map_values(|s: String| s@)
}

/// The field names of a comma-separated selection: each piece trimmed,
/// empty pieces dropped.
pub open spec fn field_names(pieces: Seq<Seq<char>>) -> Seq<Seq<char>>
    decreases pieces.len(),
{
    if pieces.len() == 0 {
        Seq::empty()
    } else {
        let rest = field_names(pieces.subrange(1, pieces.len() as int));
        if trim_seq(pieces[0]).len() > 0 {
            seq![trim_seq(pieces[0])] + rest
        } else {
            rest
        }
    }
}

/// The parsed field selection of a `fields` query parameter.
pub open spec fn parse_fields_seq(s: Seq<char>) -> Seq<Seq<char>> {
    field_names(split_seq(s, ','))
}

/// Parse a comma-separated field selection: names are trimmed and empty
/// names dropped, so an empty or all-whitespace parameter selects
/// nothing.
pub fn parse_fields(s: &str) -> (r: Vec<String>)
    ensures
        string_views(r@) == parse_fields_seq(s@),
{
    let chars = str_chars(s);
    let pieces = split_chars(&chars, ',');
    let ghost pviews = pieces@.map_values(|p: Vec<char>| p@);
    let n = pieces.len();
    let mut acc: Vec<String> = Vec::new();
    let mut i: usize = 0;
    proof {
        assert(string_views(acc@) =~= Seq::<Seq<char>>::empty());
        assert(Seq::<Seq<char>>::empty() + field_names(pviews) =~= field_names(pviews));
        assert(pviews.subrange(0, n as int) =~= pviews);
    }
    while i < n
        invariant
            i <= n == pieces@.len(),
            pviews == pieces@.map_values(|p: Vec<char>| p@),
            field_names(pviews) == string_views(acc@) + field_names(
                pviews.subrange(i as int, n as int),
            ),
        decreases n - i,
    {
        let ghost accv = string_views(acc@);
        proof {
            assert(pviews.subrange(i as int, n as int)[0] == pviews[i as int]);
            assert(pviews.subrange(i as int, n as int).subrange(
                1,
                pviews.subrange(i as int, n as int).len() as int,
            ) =~= pviews.subrange(i + 1 as int, n as int));
        }
        let t = trim_chars(&pieces[i]);
        if t.len() > 0 {
            let name = chars_to_string(&t);
            let ghost nv = name@;
            acc.push(name);
            proof {
                assert(string_views(acc@) =~= accv + seq![nv]);
                assert(accv + (seq![nv] + field_names(pviews.subrange(i + 1 as int, n as int)))
                    =~= (accv + seq![nv]) + field_names(pviews.subrange(i + 1 as int, n as int)));
            }
        }
        i = i + 1;
    }
    proof {
        assert(pviews.subrange(n as int, n as int) =~= Seq::<Seq<char>>::empty());
        assert(string_views(acc@) + Seq::<Seq<char>>::empty() =~= string_views(acc@));
    }
    acc
}

/// Whether `key` is one of the selected names.
pub fn contains_name(names: &Vec<String>, key: &String) -> (r: bool)
    ensures
        r == name_set(string_views(names@)).contains(key@),
{
    let n = names.len();
    let mut i: usize = 0;
    while i < n
        invariant
            i <= n == names@.len(),
            forall|j: int| 0 <= j < i ==> string_views(names@)[j] != key@,
        decreases n - i,
    {
        proof {
            assert(string_views(names@)[i as int] == names@[i as int]@);
        }
        if names[i].eq(key) {
            proof {
                assert(string_views(names@)[i as int] == key@);
            }
            return true;
        }
        i = i + 1;
    }
    proof {
        if string_views(names@).contains(key@) {
            let j = choose|j: int|
                0 <= j < string_views(names@).len() && string_views(names@)[j] == key@;
            assert(string_views(names@)[j] != key@);
        }
    }
    false
}

/// Every record restricted to the selected names.
pub fn project_records(records: &Vec<StructuredValue>, names: &Vec<String>) -> (r: Vec<
    StructuredValue,
>)
    ensures
        models_of(r@) == project_elems(
            models_of(records@),
            name_set(string_views(names@)),
        ),
{
    let ghost sel = name_set(string_views(names@));
    proof {
        lemma_models_of(records@);
        lemma_project_elems(models_of(records@), sel);
    }
    let n = records.len();
    let mut out: Vec<StructuredValue> = Vec::new();
    let mut i: usize = 0;
    while i < n
        invariant
            i <= n == records@.len(),
            sel == name_set(string_views(names@)),
            models_of(out@).len() == i,
            forall|k: int| 0 <= k < i ==> models_of(out@)[k] == project_model(
                models_of(records@)[k],
                sel,
            ),
            forall|k: int| 0 <= k < n ==> models_of(records@)[k] == model(
                #[trigger] records@[k],
            ),
            models_of(records@).len() == n,
        decreases n - i,
    {
        let p = project_value(&records[i], names);
        let ghost old_out = out@;
        out.push(p);
        proof {
            lemma_models_of(out@);
            lemma_models_of(old_out);
            assert(out@.subrange(0, old_out.len() as int) =~= old_out);
            assert forall|k: int| 0 <= k < i + 1 implies models_of(out@)[k] == project_model(
                models_of(records@)[k],
                sel,
            ) by {
                assert(models_of(out@)[k] == model(out@[k]));
                if k < i {
                    assert(out@[k] == old_out[k]);
                    assert(models_of(old_out)[k] == model(old_out[k]));
                }
            }
        }
        i = i + 1;
    }
    proof {
        assert(models_of(out@) =~= project_elems(models_of(records@), sel));
    }
    out
}

/// The structured value restricted to the selected names, at every
/// nesting depth.
#[verifier::loop_isolation(false)]
pub fn project_value(v: &StructuredValue, names: &Vec<String>) -> (r: StructuredValue)
    ensures
        model(r) == project_model(model(*v), name_set(string_views(names@))),
    decreases v,
{
    let ghost sel = name_set(string_views(names@));
    match v {
        StructuredValue::Null => StructuredValue::Null,
        StructuredValue::Bool(b) => StructuredValue::Bool(*b),
        StructuredValue::Number(n) => StructuredValue::Number(*n),
        StructuredValue::Text(s) => StructuredValue::Text(s.clone()),
        StructuredValue::Array(elems) => {
            let n = elems.len();
            let mut out: Vec<StructuredValue> = Vec::new();
            let mut i: usize = 0;
            proof {
                lemma_models_of(elems@);
                lemma_project_elems(models_of(elems@), sel);
            }
            while i < n
                invariant
                    i <= n == elems@.len(),
                    sel == name_set(string_views(names@)),
                    models_of(out@).len() == i,
                    forall|k: int| 0 <= k < i ==> models_of(out@)[k] == project_model(
                        models_of(elems@)[k],
                        sel,
                    ),
                    forall|k: int|
                        0 <= k < elems@.len() ==> models_of(elems@)[k] == model(
                            #[trigger] elems@[k],
                        ),
                    models_of(elems@).len() == elems@.len(),
                decreases n - i,
            {
                proof {
                    assert(*elems == v->Array_0);
                    assert(decreases_to!(*v => v->Array_0));
                    assert(decreases_to!(*elems => elems@));
                    assert(decreases_to!(elems@ => elems@[i as int]));
                }
                let p = project_value(&elems[i], names);
                let ghost old_out = out@;
                out.push(p);
                proof {
                    lemma_models_of(out@);
                    lemma_models_of(old_out);
                    assert(out@.subrange(0, old_out.len() as int) =~= old_out);
                    assert forall|k: int| 0 <= k < i + 1 implies models_of(out@)[k]
                        == project_model(models_of(elems@)[k], sel) by {
                        assert(models_of(out@)[k] == model(out@[k]));
                        if k < i {
                            assert(out@[k] == old_out[k]);
                            assert(models_of(old_out)[k] == model(old_out[k]));
                        }
                    }
                }
                i = i + 1;
            }
            proof {
                assert(models_of(out@) =~= project_elems(models_of(elems@), sel));
            }
            StructuredValue::Array(out)
        },
        StructuredValue::Object(entries) => {
            let n = entries.len();
            let ghost ms = entry_models_of(entries@);
            let mut out: Vec<Entry> = Vec::new();
            let mut i: usize = 0;
            proof {
                lemma_entry_models_of(entries@);
                assert(entry_models_of(out@) =~= Seq::<(Seq<char>, ValModel)>::empty());
                assert(Seq::<(Seq<char>, ValModel)>::empty() + project_entry_seq(ms, sel)
                    =~= project_entry_seq(ms, sel));
                assert(ms.subrange(0, n as int) =~= ms);
            }
            while i < n
                invariant
                    i <= n == entries@.len(),
                    sel == name_set(string_views(names@)),
                    ms == entry_models_of(entries@),
                    ms.len() == n,
                    forall|k: int|
                        0 <= k < n ==> ms[k] == (
                        (#[trigger] entries@[k]).key@,
                        model(entries@[k].value),
                        ),
                    project_entry_seq(ms, sel) == entry_models_of(out@) + project_entry_seq(
                        ms.subrange(i as int, n as int),
                        sel,
                    ),
                decreases n - i,
            {
                let ghost accv = entry_models_of(out@);
                proof {
                    assert(ms.subrange(i as int, n as int)[0] == ms[i as int]);
                    assert(ms.subrange(i as int, n as int).subrange(
                        1,
                        ms.subrange(i as int, n as int).len() as int,
                    ) =~= ms.subrange(i + 1 as int, n as int));
                }
                if contains_name(names, &entries[i].key) {
                    proof {
                        assert(*entries == v->Object_0);
                        assert(decreases_to!(*v => v->Object_0));
                        assert(decreases_to!(*entries => entries@));
                        assert(decreases_to!(entries@ => entries@[i as int]));
                        assert(decreases_to!(entries@[i as int] => entries@[i as int].value));
                    }
                    let pv = project_value(&entries[i].value, names);
                    let key = entries[i].key.clone();
                    let ghost ev = (key@, model(pv));
                    let ghost old_out = out@;
                    out.push(Entry { key, value: pv });
                    proof {
                        lemma_entry_models_of(out@);
                        lemma_entry_models_of(old_out);
                        assert(out@.subrange(0, old_out.len() as int) =~= old_out);
                        assert(entry_models_of(out@) =~= accv + seq![ev]);
                        assert(accv + (seq![ev] + project_entry_seq(
                            ms.subrange(i + 1 as int, n as int),
                            sel,
                        )) =~= (accv + seq![ev]) + project_entry_seq(
                            ms.subrange(i + 1 as int, n as int),
                            sel,
                        ));
                    }
                }
                i = i + 1;
            }
            proof {
                assert(ms.subrange(n as int, n as int) =~= Seq::<(Seq<char>, ValModel)>::empty());
                assert(entry_models_of(out@) + Seq::<(Seq<char>, ValModel)>::empty()
                    =~= entry_models_of(out@));
            }
            StructuredValue::Object(out)
        },
    }
}

} // verus!
