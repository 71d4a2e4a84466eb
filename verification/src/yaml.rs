//! The YAML encoder: a structured value rendered as block-style YAML
//! text, structurally equivalent to the JSON rendering of the same
//! tree.
//!
//! Arrays render as `- ` items and objects as `key: value` lines; a
//! nested block is indented two columns further, carried through the
//! rendering as a pad of spaces. The first entry of an object inside
//! an array shares the dash's line. Empty arrays and objects render
//! inline as `[]` and `{}`. Strings are always double-quoted with the
//! same escapes as JSON, so a string can never be mistaken for a
//! number, boolean or null; keys stay plain when they are simple
//! names.

use vstd::prelude::*;

use crate::json::{dec_int, quoted, emit_dec_i64, emit_quoted};
use crate::text::chars_to_string;
use crate::value::{
    Entry, StructuredValue, ValModel, model, models_of, entry_models_of, lemma_models_of,
    lemma_entry_models_of,
};

verus! {

/// The value renders on one line.
pub open spec fn is_scalar(m: ValModel) -> bool {
    !(m is Array) && !(m is Object)
}

/// The one-line text of a scalar value.
pub open spec fn yaml_scalar(m: ValModel) -> Seq<char> {
    match m {
        ValModel::Null => "null"@,
        ValModel::Bool(b) => if b {
            "true"@
        } else {
            "false"@
        },
        ValModel::Number(n) => dec_int(n),
        ValModel::Text(s) => quoted(s),
        _ => Seq::empty(),
    }
}

/// The key may stand unquoted: a simple name of letters, digits,
/// underscores and hyphens.
pub open spec fn plain_key_ok(s: Seq<char>) -> bool {
    s.len() > 0 && forall|i: int|
        0 <= i < s.len() ==> (('a' <= #[trigger] s[i] && s[i] <= 'z') || ('A' <= s[i] && s[i]
            <= 'Z') || ('0' <= s[i] && s[i] <= '9') || s[i] == '_' || s[i] == '-')
}

/// A key as rendered: plain when simple, double-quoted otherwise.
pub open spec fn yaml_key(s: Seq<char>) -> Seq<char> {
    if plain_key_ok(s) {
        s
    } else {
        quoted(s)
    }
}

/// The text of a whole document, ending in a line feed.
pub open spec fn yaml_doc(m: ValModel) -> Seq<char> {
    match m {
        ValModel::Array(elems) => if elems.len() == 0 {
            seq!['[', ']', '\n']
        } else {
            yaml_items(elems, Seq::empty(), false)
        },
        ValModel::Object(entries) => if entries.len() == 0 {
            seq!['{', '}', '\n']
        } else {
            yaml_entries(entries, Seq::empty(), false)
        },
        _ => yaml_scalar(m) + seq!['\n'],
    }
}

/// Array items as `- ` lines behind the pad; when `inline_first` the
/// first item continues an enclosing line and carries no pad of its
/// own.
pub open spec fn yaml_items(elems: Seq<ValModel>, pad: Seq<char>, inline_first: bool) -> Seq<
    char,
>
    decreases elems, 1int,
{
    if elems.len() == 0 {
        Seq::empty()
    } else {
        yaml_items(elems.subrange(0, elems.len() - 1), pad, inline_first) + (if inline_first
            && elems.len() == 1 {
            Seq::<char>::empty()
        } else {
            pad
        }) + seq!['-', ' '] + yaml_after_dash(elems[elems.len() - 1], pad + seq![' ', ' '])
    }
}

/// What follows a `- `: a scalar on the same line, an empty collection
/// inline, or a nested block whose first line continues the dash's
/// line.
pub open spec fn yaml_after_dash(m: ValModel, pad: Seq<char>) -> Seq<char>
    decreases m, 2int,
{
    match m {
        ValModel::Array(elems) => if elems.len() == 0 {
            seq!['[', ']', '\n']
        } else {
            yaml_items(elems, pad, true)
        },
        ValModel::Object(entries) => if entries.len() == 0 {
            seq!['{', '}', '\n']
        } else {
            yaml_entries(entries, pad, true)
        },
        _ => yaml_scalar(m) + seq!['\n'],
    }
}

/// Object entries as `key:` lines behind the pad; when `inline_first`
/// the first entry continues an enclosing line.
pub open spec fn yaml_entries(
    entries: Seq<(Seq<char>, ValModel)>,
    pad: Seq<char>,
    inline_first: bool,
) -> Seq<char>
    decreases entries, 1int,
{
    if entries.len() == 0 {
        Seq::empty()
    } else {
        yaml_entries(entries.subrange(0, entries.len() - 1), pad, inline_first) + (if inline_first
            && entries.len() == 1 {
            Seq::<char>::empty()
        } else {
            pad
        }) + yaml_key(entries[entries.len() - 1].0) + seq![':'] + yaml_after_key(
            entries[entries.len() - 1].1,
            pad,
        )
    }
}

/// What follows a key's colon: a scalar after one space, an empty
/// collection inline, or a nested block on the following lines,
/// indented two columns further.
pub open spec fn yaml_after_key(m: ValModel, pad: Seq<char>) -> Seq<char>
    decreases m, 2int,
{
    match m {
        ValModel::Array(elems) => if elems.len() == 0 {
            seq![' ', '[', ']', '\n']
        } else {
            seq!['\n'] + yaml_items(elems, pad + seq![' ', ' '], false)
        },
        ValModel::Object(entries) => if entries.len() == 0 {
            seq![' ', '{', '}', '\n']
        } else {
            seq!['\n'] + yaml_entries(entries, pad + seq![' ', ' '], false)
        },
        _ => seq![' '] + yaml_scalar(m) + seq!['\n'],
    }
}

/// The pad extended by one nesting level of two spaces.
fn extend_pad(pad: &Vec<char>) -> (r: Vec<char>)
    ensures
        r@ == pad@ + seq![' ', ' '],
{
    let mut r: Vec<char> = Vec::new();
    let n = pad.len();
    let mut i: usize = 0;
    while i < n
        invariant
            i <= n == pad@.len(),
            r@ == pad@.subrange(0, i as int),
        decreases n - i,
    {
        r.push(pad[i]);
        assert(r@ =~= pad@.subrange(0, i + 1 as int));
        i = i + 1;
    }
    proof {
        assert(pad@.subrange(0, n as int) =~= pad@);
    }
    r.push(' ');
    r.push(' ');
    proof {
        assert(r@ =~= pad@ + seq![' ', ' ']);
    }
    r
}

/// Append the pad to `out`.
fn emit_pad(out: &mut Vec<char>, pad: &Vec<char>)
    ensures
        final(out)@ == old(out)@ + pad@,
{
    let n = pad.len();
    let mut i: usize = 0;
    proof {
        assert(out@ =~= old(out)@ + pad@.subrange(0, 0));
    }
    while i < n
        invariant
            i <= n == pad@.len(),
            out@ == old(out)@ + pad@.subrange(0, i as int),
        decreases n - i,
    {
        out.push(pad[i]);
        assert(out@ =~= old(out)@ + pad@.subrange(0, i + 1 as int));
        i = i + 1;
    }
    proof {
        assert(pad@.subrange(0, n as int) =~= pad@);
    }
}

/// Append the one-line text of a scalar value to `out`.
fn emit_yaml_scalar(out: &mut Vec<char>, v: &StructuredValue)
    requires
        is_scalar(model(*v)),
    ensures
        final(out)@ == old(out)@ + yaml_scalar(model(*v)),
{
    match v {
        StructuredValue::Null => {
            crate::text::emit_str(out, "null");
        },
        StructuredValue::Bool(b) => {
            if *b {
                crate::text::emit_str(out, "true");
            } else {
                crate::text::emit_str(out, "false");
            }
        },
        StructuredValue::Number(n) => {
            emit_dec_i64(out, *n);
        },
        StructuredValue::Text(s) => {
            emit_quoted(out, s);
        },
        StructuredValue::Array(_) => {
            proof {
                assert(false);
            }
        },
        StructuredValue::Object(_) => {
            proof {
                assert(false);
            }
        },
    }
}

/// Append a key, plain when it is a simple name.
fn emit_yaml_key(out: &mut Vec<char>, key: &String)
    ensures
        final(out)@ == old(out)@ + yaml_key(key@),
{
    let chars = crate::text::str_chars(key.as_str());
    let n = chars.len();
    let mut plain = n > 0;
    let mut i: usize = 0;
    while i < n
        invariant
            i <= n == chars@.len(),
            chars@ == key@,
            plain ==> n > 0 && forall|j: int|
                0 <= j < i ==> (('a' <= #[trigger] key@[j] && key@[j] <= 'z') || ('A' <= key@[j]
                    && key@[j] <= 'Z') || ('0' <= key@[j] && key@[j] <= '9') || key@[j] == '_'
                    || key@[j] == '-'),
            !plain ==> !plain_key_ok(key@),
        decreases n - i,
    {
        let c = chars[i];
        let ok = ('a' <= c && c <= 'z') || ('A' <= c && c <= 'Z') || ('0' <= c && c <= '9') || c
            == '_' || c == '-';
        if !ok {
            proof {
                assert(!plain_key_ok(key@)) by {
                    if plain_key_ok(key@) {
                        assert(('a' <= key@[i as int] && key@[i as int] <= 'z') || ('A'
                            <= key@[i as int] && key@[i as int] <= 'Z') || ('0' <= key@[i as int]
                            && key@[i as int] <= '9') || key@[i as int] == '_' || key@[i as int]
                            == '-');
                    }
                }
            }
            plain = false;
        }
        i = i + 1;
    }
    if plain {
        proof {
            assert(plain_key_ok(key@));
        }
        let mut k: usize = 0;
        proof {
            assert(out@ =~= old(out)@ + key@.subrange(0, 0));
        }
        while k < n
            invariant
                k <= n == chars@.len(),
                chars@ == key@,
                plain_key_ok(key@),
                out@ == old(out)@ + key@.subrange(0, k as int),
            decreases n - k,
        {
            out.push(chars[k]);
            assert(out@ =~= old(out)@ + key@.subrange(0, k + 1 as int));
            k = k + 1;
        }
        proof {
            assert(key@.subrange(0, n as int) =~= key@);
        }
    } else {
        emit_quoted(out, key);
    }
}

/// Append what follows a `- ` to `out`.
#[verifier::loop_isolation(false)]
fn emit_after_dash(v: &StructuredValue, pad: &Vec<char>, out: &mut Vec<char>)
    ensures
        final(out)@ == old(out)@ + yaml_after_dash(model(*v), pad@),
    decreases v, 2int,
{
    match v {
        StructuredValue::Array(elems) => {
            if elems.len() == 0 {
                out.push('[');
                out.push(']');
                out.push('\n');
                proof {
                    assert(out@ =~= old(out)@ + yaml_after_dash(model(*v), pad@));
                }
            } else {
                proof {
                    assert(decreases_to!(*v => v->Array_0));
                }
                emit_yaml_items(elems, pad, true, out);
            }
        },
        StructuredValue::Object(entries) => {
            if entries.len() == 0 {
                out.push('{');
                out.push('}');
                out.push('\n');
                proof {
                    assert(out@ =~= old(out)@ + yaml_after_dash(model(*v), pad@));
                }
            } else {
                proof {
                    assert(decreases_to!(*v => v->Object_0));
                }
                emit_yaml_entries(entries, pad, true, out);
            }
        },
        _ => {
            emit_yaml_scalar(out, v);
            out.push('\n');
            proof {
                assert(out@ =~= old(out)@ + yaml_after_dash(model(*v), pad@));
            }
        },
    }
}

/// Append what follows a key's colon to `out`.
#[verifier::loop_isolation(false)]
fn emit_after_key(v: &StructuredValue, pad: &Vec<char>, out: &mut Vec<char>)
    ensures
        final(out)@ == old(out)@ + yaml_after_key(model(*v), pad@),
    decreases v, 2int,
{
    match v {
        StructuredValue::Array(elems) => {
            if elems.len() == 0 {
                out.push(' ');
                out.push('[');
                out.push(']');
                out.push('\n');
                proof {
                    assert(out@ =~= old(out)@ + yaml_after_key(model(*v), pad@));
                }
            } else {
                out.push('\n');
                let deeper = extend_pad(pad);
                proof {
                    assert(decreases_to!(*v => v->Array_0));
                }
                emit_yaml_items(elems, &deeper, false, out);
                proof {
                    assert(out@ =~= old(out)@ + yaml_after_key(model(*v), pad@));
                }
            }
        },
        StructuredValue::Object(entries) => {
            if entries.len() == 0 {
                out.push(' ');
                out.push('{');
                out.push('}');
                out.push('\n');
                proof {
                    assert(out@ =~= old(out)@ + yaml_after_key(model(*v), pad@));
                }
            } else {
                out.push('\n');
                let deeper = extend_pad(pad);
                proof {
                    assert(decreases_to!(*v => v->Object_0));
                }
                emit_yaml_entries(entries, &deeper, false, out);
                proof {
                    assert(out@ =~= old(out)@ + yaml_after_key(model(*v), pad@));
                }
            }
        },
        _ => {
            out.push(' ');
            emit_yaml_scalar(out, v);
            out.push('\n');
            proof {
                assert(out@ =~= old(out)@ + yaml_after_key(model(*v), pad@));
            }
        },
    }
}

/// Append the items of a non-empty array block to `out`.
#[verifier::loop_isolation(false)]
fn emit_yaml_items(
    elems: &Vec<StructuredValue>,
    pad: &Vec<char>,
    inline_first: bool,
    out: &mut Vec<char>,
)
    ensures
        final(out)@ == old(out)@ + yaml_items(models_of(elems@), pad@, inline_first),
    decreases elems, 1int,
{
    let ghost ms = models_of(elems@);
    proof {
        lemma_models_of(elems@);
        assert(out@ =~= old(out)@ + yaml_items(ms.subrange(0, 0), pad@, inline_first));
    }
    let deeper = extend_pad(pad);
    let n = elems.len();
    let mut i: usize = 0;
    while i < n
        invariant
            i <= n,
            out@ == old(out)@ + yaml_items(ms.subrange(0, i as int), pad@, inline_first),
        decreases n - i,
    {
        if i > 0 || !inline_first {
            emit_pad(out, pad);
        }
        out.push('-');
        out.push(' ');
        proof {
            assert(decreases_to!(*elems => elems@));
            assert(decreases_to!(elems@ => elems@[i as int]));
        }
        emit_after_dash(&elems[i], &deeper, out);
        proof {
            let pre = ms.subrange(0, i as int);
            let post = ms.subrange(0, i + 1 as int);
            assert(post.subrange(0, post.len() - 1) =~= pre);
            assert(post[post.len() - 1] == ms[i as int]);
            assert(out@ =~= old(out)@ + yaml_items(post, pad@, inline_first));
        }
        i = i + 1;
    }
    proof {
        assert(ms.subrange(0, n as int) =~= ms);
    }
}

/// Append the entries of a non-empty object block to `out`.
#[verifier::loop_isolation(false)]
fn emit_yaml_entries(entries: &Vec<Entry>, pad: &Vec<char>, inline_first: bool, out: &mut Vec<
    char,
>)
    ensures
        final(out)@ == old(out)@ + yaml_entries(entry_models_of(entries@), pad@, inline_first),
    decreases entries, 1int,
{
    let ghost ms = entry_models_of(entries@);
    proof {
        lemma_entry_models_of(entries@);
        assert(out@ =~= old(out)@ + yaml_entries(ms.subrange(0, 0), pad@, inline_first));
    }
    let n = entries.len();
    let mut i: usize = 0;
    while i < n
        invariant
            i <= n,
            out@ == old(out)@ + yaml_entries(ms.subrange(0, i as int), pad@, inline_first),
        decreases n - i,
    {
        if i > 0 || !inline_first {
            emit_pad(out, pad);
        }
        emit_yaml_key(out, &entries[i].key);
        out.push(':');
        proof {
            assert(decreases_to!(*entries => entries@));
            assert(decreases_to!(entries@ => entries@[i as int]));
            assert(decreases_to!(entries@[i as int] => entries@[i as int].value));
        }
        emit_after_key(&entries[i].value, pad, out);
        proof {
            let pre = ms.subrange(0, i as int);
            let post = ms.subrange(0, i + 1 as int);
            assert(post.subrange(0, post.len() - 1) =~= pre);
            assert(post[post.len() - 1] == ms[i as int]);
            assert(ms[i as int] == (entries@[i as int].key@, model(entries@[i as int].value)));
            assert(out@ =~= old(out)@ + yaml_entries(post, pad@, inline_first));
        }
        i = i + 1;
    }
    proof {
        assert(ms.subrange(0, n as int) =~= ms);
    }
}

/// The YAML text of a sequence of records, as one block-style document.
pub fn yaml_of_records(records: &Vec<StructuredValue>) -> (r: String)
    ensures
        r@ == yaml_doc(ValModel::Array(models_of(records@))),
{
    let mut out: Vec<char> = Vec::new();
    proof {
        lemma_models_of(records@);
    }
    if records.len() == 0 {
        out.push('[');
        out.push(']');
        out.push('\n');
        proof {
            assert(out@ =~= yaml_doc(ValModel::Array(models_of(records@))));
        }
        return chars_to_string(&out);
    }
    let pad: Vec<char> = Vec::new();
    emit_yaml_items(records, &pad, false, &mut out);
    proof {
        assert(pad@ =~= Seq::<char>::empty());
        assert(out@ =~= yaml_doc(ValModel::Array(models_of(records@))));
    }
    chars_to_string(&out)
}

} // verus!
