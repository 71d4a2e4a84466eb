//! The CSV encoder: a sequence of records rendered as delimited text.
//!
//! Columns come from an explicit ordered field list when the caller
//! supplies one, else from the first record's keys with array-valued
//! fields excluded (a variable-length list does not fit one cell); an
//! empty dataset has no columns. A cell holds the field's text: strings
//! verbatim, other values in their canonical text form, a missing key
//! an empty cell. Cells holding a comma, quote or line break are quoted
//! with doubled quotes; rows end in a line feed.

use vstd::prelude::*;

use crate::json::{json_text, dec_int};
use crate::project::string_views;
use crate::text::chars_to_string;
use crate::value::{
    StructuredValue, ValModel, model, models_of, entry_models_of, lemma_models_of,
    lemma_entry_models_of,
};

verus! {

/// The first entry with the given key, if any.
pub open spec fn lookup_key(entries: Seq<(Seq<char>, ValModel)>, key: Seq<char>) -> Option<
    ValModel,
>
    decreases entries.len(),
{
    if entries.len() == 0 {
        None
    } else if entries[0].0 == key {
        Some(entries[0].1)
    } else {
        lookup_key(entries.subrange(1, entries.len() as int), key)
    }
}

/// The field a record holds under the key: only objects have fields.
pub open spec fn record_field(m: ValModel, key: Seq<char>) -> Option<ValModel> {
    match m {
        ValModel::Object(entries) => lookup_key(entries, key),
        _ => None,
    }
}

/// The raw text of one cell: strings verbatim, scalars and nested
/// values in their canonical text form, a missing field empty.
pub open spec fn cell_text(f: Option<ValModel>) -> Seq<char> {
    match f {
        None => Seq::empty(),
        Some(m) => match m {
            ValModel::Null => Seq::empty(),
            ValModel::Bool(b) => if b {
                "true"@
            } else {
                "false"@
            },
            ValModel::Number(n) => dec_int(n),
            ValModel::Text(s) => s,
            ValModel::Array(_) => json_text(m),
            ValModel::Object(_) => json_text(m),
        },
    }
}

/// The cell must be quoted: it holds a comma, a quote or a line break.
pub open spec fn needs_quoting(s: Seq<char>) -> bool {
    exists|i: int|
        0 <= i < s.len() && ((#[trigger] s[i]) == ',' || s[i] == '"' || s[i] == '\n' || s[i]
            == '\r')
}

/// The cell's characters with every quote doubled.
pub open spec fn doubled(s: Seq<char>) -> Seq<char>
    decreases s.len(),
{
    if s.len() == 0 {
        Seq::empty()
    } else {
        doubled(s.subrange(0, s.len() - 1)) + (if s[s.len() - 1] == '"' {
            seq!['"', '"']
        } else {
            seq![s[s.len() - 1]]
        })
    }
}

/// A cell as it stands in the output: quoted with doubled quotes when
/// it needs quoting, verbatim otherwise.
pub open spec fn csv_cell(s: Seq<char>) -> Seq<char> {
    if needs_quoting(s) {
        seq!['"'] + doubled(s) + seq!['"']
    } else {
        s
    }
}

/// One record's row: its cell under each column, comma-separated.
pub open spec fn csv_row(m: ValModel, cols: Seq<Seq<char>>) -> Seq<char>
    decreases cols.len(),
{
    if cols.len() == 0 {
        Seq::empty()
    } else if cols.len() == 1 {
        csv_cell(cell_text(record_field(m, cols[0])))
    } else {
        csv_row(m, cols.subrange(0, cols.len() - 1)) + seq![','] + csv_cell(
            cell_text(record_field(m, cols[cols.len() - 1])),
        )
    }
}

/// The header row: the column names themselves, comma-separated.
pub open spec fn csv_name_row(cols: Seq<Seq<char>>) -> Seq<char>
    decreases cols.len(),
{
    if cols.len() == 0 {
        Seq::empty()
    } else if cols.len() == 1 {
        csv_cell(cols[0])
    } else {
        csv_name_row(cols.subrange(0, cols.len() - 1)) + seq![','] + csv_cell(
            cols[cols.len() - 1],
        )
    }
}

/// Every record's row, each ended by a line feed.
pub open spec fn csv_rows(records: Seq<ValModel>, cols: Seq<Seq<char>>) -> Seq<char>
    decreases records.len(),
{
    if records.len() == 0 {
        Seq::empty()
    } else {
        csv_rows(records.subrange(0, records.len() - 1), cols) + csv_row(
            records[records.len() - 1],
            cols,
        ) + seq!['\n']
    }
}

/// The whole CSV text: the header row unless suppressed or there are
/// no columns, then one row per record.
pub open spec fn csv_text(records: Seq<ValModel>, cols: Seq<Seq<char>>, header: bool) -> Seq<
    char,
> {
    (if header && cols.len() > 0 {
        csv_name_row(cols) + seq!['\n']
    } else {
        Seq::empty()
    }) + csv_rows(records, cols)
}

/// The keys of the entries whose values are not arrays, in order.
pub open spec fn keys_without_arrays(entries: Seq<(Seq<char>, ValModel)>) -> Seq<Seq<char>>
    decreases entries.len(),
{
    if entries.len() == 0 {
        Seq::empty()
    } else {
        let rest = keys_without_arrays(entries.subrange(1, entries.len() as int));
        if entries[0].1 is Array {
            rest
        } else {
            seq![entries[0].0] + rest
        }
    }
}

/// The inferred column order: the first record's keys with
/// array-valued fields excluded; empty when the dataset is empty or
/// its first record is not an object.
pub open spec fn inferred_columns(records: Seq<ValModel>) -> Seq<Seq<char>> {
    if records.len() == 0 {
        Seq::empty()
    } else {
        match records[0] {
            ValModel::Object(entries) => keys_without_arrays(entries),
            _ => Seq::empty(),
        }
    }
}

/// Column inference excludes exactly the array-valued fields: an
/// inferred column is always a key of the record whose value is not an
/// array, and every key with a non-array value is inferred.
pub proof fn lemma_inference_excludes_arrays(entries: Seq<(Seq<char>, ValModel)>)
    ensures
        forall|c: Seq<char>|
            keys_without_arrays(entries).contains(c) ==> exists|j: int|
                0 <= j < entries.len() && (#[trigger] entries[j]).0 == c && !(entries[j].1
                    is Array),
        forall|j: int|
            0 <= j < entries.len() && !((#[trigger] entries[j]).1 is Array)
                ==> keys_without_arrays(entries).contains(entries[j].0),
    decreases entries.len(),
{
    if entries.len() > 0 {
        let t = entries.subrange(1, entries.len() as int);
        lemma_inference_excludes_arrays(t);
        let rest = keys_without_arrays(t);
        assert forall|c: Seq<char>| keys_without_arrays(entries).contains(c) implies exists|
            j: int,
        | 0 <= j < entries.len() && (#[trigger] entries[j]).0 == c && !(entries[j].1 is Array) by {
            if entries[0].1 is Array || c != entries[0].0 {
                if rest.contains(c) {
                    let j0 = choose|j0: int|
                        0 <= j0 < t.len() && (#[trigger] t[j0]).0 == c && !(t[j0].1 is Array);
                    assert(entries[j0 + 1] == t[j0]);
                } else {
                    // The head contributes only its own key.
                    if !(entries[0].1 is Array) {
                        let ks = keys_without_arrays(entries);
                        let i0 = choose|i0: int| 0 <= i0 < ks.len() && ks[i0] == c;
                        if i0 > 0 {
                            assert(rest[i0 - 1] == c);
                            assert(rest.contains(c));
                        }
                    }
                }
            }
        }
        assert forall|j: int|
            0 <= j < entries.len() && !((#[trigger] entries[j]).1 is Array) implies
            keys_without_arrays(entries).contains(entries[j].0) by {
            if j == 0 {
                assert(keys_without_arrays(entries)[0] == entries[0].0);
            } else {
                assert(t[j - 1] == entries[j]);
                assert(rest.contains(t[j - 1].0));
                let i0 = choose|i0: int| 0 <= i0 < rest.len() && rest[i0] == t[j - 1].0;
                if entries[0].1 is Array {
                    assert(keys_without_arrays(entries)[i0] == entries[j].0);
                } else {
                    assert(keys_without_arrays(entries)[i0 + 1] == entries[j].0);
                }
            }
        }
    }
}

/// A record without the column's key fills that column with an empty
/// cell.
pub proof fn lemma_missing_field_gives_empty_cell(m: ValModel, key: Seq<char>)
    requires
        record_field(m, key) is None,
    ensures
        csv_cell(cell_text(record_field(m, key))) == Seq::<char>::empty(),
{
    assert(!needs_quoting(Seq::<char>::empty()));
}

/// `lookup_key` finds the first entry with the key.
proof fn lemma_lookup_at(entries: Seq<(Seq<char>, ValModel)>, key: Seq<char>, k: int)
    requires
        0 <= k < entries.len(),
        entries[k].0 == key,
        forall|j: int| 0 <= j < k ==> (#[trigger] entries[j]).0 != key,
    ensures
        lookup_key(entries, key) == Some(entries[k].1),
    decreases entries.len(),
{
    if entries[0].0 != key {
        let t = entries.subrange(1, entries.len() as int);
        assert forall|j: int| 0 <= j < k - 1 implies (#[trigger] t[j]).0 != key by {
            assert(t[j] == entries[j + 1]);
        }
        assert(t[k - 1] == entries[k]);
        lemma_lookup_at(t, key, k - 1);
    }
}

/// When no entry has the key, `lookup_key` finds nothing.
proof fn lemma_lookup_none(entries: Seq<(Seq<char>, ValModel)>, key: Seq<char>)
    requires
        forall|j: int| 0 <= j < entries.len() ==> (#[trigger] entries[j]).0 != key,
    ensures
        lookup_key(entries, key) is None,
    decreases entries.len(),
{
    if entries.len() > 0 {
        let t = entries.subrange(1, entries.len() as int);
        assert forall|j: int| 0 <= j < t.len() implies (#[trigger] t[j]).0 != key by {
            assert(t[j] == entries[j + 1]);
        }
        lemma_lookup_none(t, key);
    }
}

/// Whether a structured value is an array.
fn is_array(v: &StructuredValue) -> (r: bool)
    ensures
        r == (model(*v) is Array),
{
    match v {
        StructuredValue::Array(_) => true,
        _ => false,
    }
}

/// The raw text of the record's cell under the column key.
#[verifier::loop_isolation(false)]
fn record_cell_chars(rec: &StructuredValue, col: &String) -> (r: Vec<char>)
    ensures
        r@ == cell_text(record_field(model(*rec), col@)),
{
    match rec {
        StructuredValue::Object(entries) => {
            let ghost ms = entry_models_of(entries@);
            proof {
                lemma_entry_models_of(entries@);
            }
            let n = entries.len();
            let mut i: usize = 0;
            while i < n
                invariant
                    i <= n,
                    forall|j: int| 0 <= j < i ==> (#[trigger] ms[j]).0 != col@,
                decreases n - i,
            {
                if entries[i].key.eq(col) {
                    proof {
                        lemma_lookup_at(ms, col@, i as int);
                    }
                    return value_cell_chars(&entries[i].value);
                }
                i = i + 1;
            }
            proof {
                lemma_lookup_none(ms, col@);
            }
            Vec::new()
        },
        _ => {
            let r: Vec<char> = Vec::new();
            proof {
                assert(r@ =~= cell_text(record_field(model(*rec), col@)));
            }
            r
        },
    }
}

/// The raw text of one present field.
fn value_cell_chars(v: &StructuredValue) -> (r: Vec<char>)
    ensures
        r@ == cell_text(Some(model(*v))),
{
    let mut out: Vec<char> = Vec::new();
    match v {
        StructuredValue::Null => {},
        StructuredValue::Bool(b) => {
            if *b {
                crate::text::emit_str(&mut out, "true");
            } else {
                crate::text::emit_str(&mut out, "false");
            }
        },
        StructuredValue::Number(n) => {
            crate::json::emit_dec_i64(&mut out, *n);
        },
        StructuredValue::Text(s) => {
            let chars = crate::text::str_chars(s.as_str());
            return chars;
        },
        StructuredValue::Array(_) => {
            crate::json::emit_json(v, &mut out);
        },
        StructuredValue::Object(_) => {
            crate::json::emit_json(v, &mut out);
        },
    }
    proof {
        assert(out@ =~= cell_text(Some(model(*v))));
    }
    out
}

/// Append the cell, quoted if it needs quoting.
fn emit_csv_cell(out: &mut Vec<char>, cell: &Vec<char>)
    ensures
        final(out)@ == old(out)@ + csv_cell(cell@),
{
    let n = cell.len();
    let mut quote = false;
    let mut i: usize = 0;
    while i < n
        invariant
            i <= n == cell@.len(),
            !quote ==> forall|j: int|
                0 <= j < i ==> !((#[trigger] cell@[j]) == ',' || cell@[j] == '"' || cell@[j]
                    == '\n' || cell@[j] == '\r'),
            quote ==> needs_quoting(cell@),
        decreases n - i,
    {
        let c = cell[i];
        if c == ',' || c == '"' || c == '\n' || c == '\r' {
            quote = true;
        }
        i = i + 1;
    }
    if !quote {
        proof {
            if needs_quoting(cell@) {
                let j = choose|j: int|
                    0 <= j < cell@.len() && (cell@[j] == ',' || cell@[j] == '"' || cell@[j]
                        == '\n' || cell@[j] == '\r');
                assert(!(cell@[j] == ',' || cell@[j] == '"' || cell@[j] == '\n' || cell@[j]
                    == '\r'));
            }
        }
        let mut k: usize = 0;
        while k < n
            invariant
                k <= n == cell@.len(),
                !needs_quoting(cell@),
                out@ == old(out)@ + cell@.subrange(0, k as int),
            decreases n - k,
        {
            out.push(cell[k]);
            assert(out@ =~= old(out)@ + cell@.subrange(0, k + 1 as int));
            k = k + 1;
        }
        proof {
            assert(cell@.subrange(0, n as int) =~= cell@);
        }
    } else {
        out.push('"');
        let mut k: usize = 0;
        proof {
            assert(out@ =~= old(out)@ + seq!['"'] + doubled(cell@.subrange(0, 0)));
        }
        while k < n
            invariant
                k <= n == cell@.len(),
                needs_quoting(cell@),
                out@ == old(out)@ + seq!['"'] + doubled(cell@.subrange(0, k as int)),
            decreases n - k,
        {
            let c = cell[k];
            if c == '"' {
                out.push('"');
                out.push('"');
            } else {
                out.push(c);
            }
            proof {
                let pre = cell@.subrange(0, k as int);
                let post = cell@.subrange(0, k + 1 as int);
                assert(post.subrange(0, post.len() - 1) =~= pre);
                assert(post[post.len() - 1] == cell@[k as int]);
                assert(out@ =~= old(out)@ + seq!['"'] + doubled(post));
            }
            k = k + 1;
        }
        out.push('"');
        proof {
            assert(cell@.subrange(0, n as int) =~= cell@);
            assert(out@ =~= old(out)@ + csv_cell(cell@));
        }
    }
}

/// Append one record's row, without the line ending.
fn emit_csv_row(rec: &StructuredValue, cols: &Vec<String>, out: &mut Vec<char>)
    ensures
        final(out)@ == old(out)@ + csv_row(model(*rec), string_views(cols@)),
{
    let ghost cviews = string_views(cols@);
    let n = cols.len();
    let mut i: usize = 0;
    proof {
        assert(out@ =~= old(out)@ + csv_row(model(*rec), cviews.subrange(0, 0)));
    }
    while i < n
        invariant
            i <= n == cols@.len(),
            cviews == string_views(cols@),
            out@ == old(out)@ + csv_row(model(*rec), cviews.subrange(0, i as int)),
        decreases n - i,
    {
        if i > 0 {
            out.push(',');
        }
        let cell = record_cell_chars(rec, &cols[i]);
        emit_csv_cell(out, &cell);
        proof {
            let pre = cviews.subrange(0, i as int);
            let post = cviews.subrange(0, i + 1 as int);
            assert(post.subrange(0, post.len() - 1) =~= pre);
            assert(post[post.len() - 1] == cviews[i as int]);
            assert(cviews[i as int] == cols@[i as int]@);
            assert(out@ =~= old(out)@ + csv_row(model(*rec), post));
        }
        i = i + 1;
    }
    proof {
        assert(cviews.subrange(0, n as int) =~= cviews);
    }
}

/// Append the header row, without the line ending.
fn emit_csv_name_row(cols: &Vec<String>, out: &mut Vec<char>)
    ensures
        final(out)@ == old(out)@ + csv_name_row(string_views(cols@)),
{
    let ghost cviews = string_views(cols@);
    let n = cols.len();
    let mut i: usize = 0;
    proof {
        assert(out@ =~= old(out)@ + csv_name_row(cviews.subrange(0, 0)));
    }
    while i < n
        invariant
            i <= n == cols@.len(),
            cviews == string_views(cols@),
            out@ == old(out)@ + csv_name_row(cviews.subrange(0, i as int)),
        decreases n - i,
    {
        if i > 0 {
            out.push(',');
        }
        let cell = crate::text::str_chars(cols[i].as_str());
        emit_csv_cell(out, &cell);
        proof {
            let pre = cviews.subrange(0, i as int);
            let post = cviews.subrange(0, i + 1 as int);
            assert(post.subrange(0, post.len() - 1) =~= pre);
            assert(post[post.len() - 1] == cviews[i as int]);
            assert(cviews[i as int] == cols@[i as int]@);
            assert(out@ =~= old(out)@ + csv_name_row(post));
        }
        i = i + 1;
    }
    proof {
        assert(cviews.subrange(0, n as int) =~= cviews);
    }
}

/// The inferred column order of a dataset: the first record's keys,
/// array-valued fields excluded; empty for an empty dataset.
pub fn infer_columns(records: &Vec<StructuredValue>) -> (r: Vec<String>)
    ensures
        string_views(r@) == inferred_columns(models_of(records@)),
{
    proof {
        lemma_models_of(records@);
    }
    if records.len() == 0 {
        let r: Vec<String> = Vec::new();
        proof {
            assert(string_views(r@) =~= inferred_columns(models_of(records@)));
        }
        return r;
    }
    match &records[0] {
        StructuredValue::Object(entries) => {
            let ghost ms = entry_models_of(entries@);
            proof {
                lemma_entry_models_of(entries@);
            }
            let n = entries.len();
            let mut acc: Vec<String> = Vec::new();
            let mut i: usize = 0;
            proof {
                assert(string_views(acc@) =~= Seq::<Seq<char>>::empty());
                assert(Seq::<Seq<char>>::empty() + keys_without_arrays(ms)
                    =~= keys_without_arrays(ms));
                assert(ms.subrange(0, n as int) =~= ms);
            }
            while i < n
                invariant
                    i <= n == entries@.len(),
                    ms == entry_models_of(entries@),
                    ms.len() == n,
                    forall|k: int|
                        0 <= k < n ==> ms[k] == (
                        (#[trigger] entries@[k]).key@,
                        crate::value::model(entries@[k].value),
                        ),
                    keys_without_arrays(ms) == string_views(acc@) + keys_without_arrays(
                        ms.subrange(i as int, n as int),
                    ),
                decreases n - i,
            {
                let ghost accv = string_views(acc@);
                proof {
                    assert(ms.subrange(i as int, n as int)[0] == ms[i as int]);
                    assert(ms.subrange(i as int, n as int).subrange(
                        1,
                        ms.subrange(i as int, n as int).len() as int,
                    ) =~= ms.subrange(i + 1 as int, n as int));
                }
                if !is_array(&entries[i].value) {
                    let key = entries[i].key.clone();
                    let ghost kv = key@;
                    acc.push(key);
                    proof {
                        assert(string_views(acc@) =~= accv + seq![kv]);
                        assert(accv + (seq![kv] + keys_without_arrays(
                            ms.subrange(i + 1 as int, n as int),
                        )) =~= (accv + seq![kv]) + keys_without_arrays(
                            ms.subrange(i + 1 as int, n as int),
                        ));
                    }
                }
                i = i + 1;
            }
            proof {
                assert(ms.subrange(n as int, n as int) =~= Seq::<(Seq<char>, ValModel)>::empty());
                assert(string_views(acc@) + Seq::<Seq<char>>::empty() =~= string_views(acc@));
                assert(models_of(records@)[0] == model(records@[0]));
            }
            acc
        },
        _ => {
            let r: Vec<String> = Vec::new();
            proof {
                assert(models_of(records@)[0] == model(records@[0]));
                assert(string_views(r@) =~= inferred_columns(models_of(records@)));
            }
            r
        },
    }
}

/// The CSV text of the records under the given columns: the header row
/// unless suppressed or there are no columns, then one row per record,
/// each ended by a line feed.
pub fn csv_of_records(records: &Vec<StructuredValue>, cols: &Vec<String>, header: bool) -> (r:
    String)
    ensures
        r@ == csv_text(models_of(records@), string_views(cols@), header),
{
    let ghost ms = models_of(records@);
    let ghost cviews = string_views(cols@);
    proof {
        lemma_models_of(records@);
    }
    let mut out: Vec<char> = Vec::new();
    let ghost head = if header && cviews.len() > 0 {
        csv_name_row(cviews) + seq!['\n']
    } else {
        Seq::<char>::empty()
    };
    if header && cols.len() > 0 {
        emit_csv_name_row(cols, &mut out);
        out.push('\n');
    }
    proof {
        assert(out@ =~= head);
        assert(out@ =~= head + csv_rows(ms.subrange(0, 0), cviews));
    }
    let n = records.len();
    let mut i: usize = 0;
    while i < n
        invariant
            i <= n == records@.len(),
            ms == models_of(records@),
            cviews == string_views(cols@),
            ms.len() == n,
            forall|k: int| 0 <= k < n ==> ms[k] == model(#[trigger] records@[k]),
            head == if header && cviews.len() > 0 {
                csv_name_row(cviews) + seq!['\n']
            } else {
                Seq::<char>::empty()
            },
            out@ == head + csv_rows(ms.subrange(0, i as int), cviews),
        decreases n - i,
    {
        let ghost before = out@;
        emit_csv_row(&records[i], cols, &mut out);
        out.push('\n');
        proof {
            let pre = ms.subrange(0, i as int);
            let post = ms.subrange(0, i + 1 as int);
            assert(post.subrange(0, post.len() - 1) =~= pre);
            assert(post[post.len() - 1] == ms[i as int]);
            assert(out@ =~= head + csv_rows(post, cviews));
        }
        i = i + 1;
    }
    proof {
        assert(ms.subrange(0, n as int) =~= ms);
        assert(out@ =~= csv_text(ms, cviews, header));
    }
    chars_to_string(&out)
}

} // verus!
