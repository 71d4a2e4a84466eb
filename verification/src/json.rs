//! The JSON encoder: a structured value rendered as compact JSON text.
//!
//! Objects keep their entry order; strings are escaped with the usual
//! backslash escapes and `\u00XX` for other control characters; numbers
//! are decimal integers.

use vstd::prelude::*;

use crate::text::emit_str;
use crate::text::chars_to_string;
use crate::value::{
    StructuredValue, ValModel, model, models_of, entry_models_of, lemma_models_of,
    lemma_entry_models_of,
};

verus! {

/// The decimal digit character for `n`.
pub open spec fn dec_digit(n: int) -> char {
    if n == 0 {
        '0'
    } else if n == 1 {
        '1'
    } else if n == 2 {
        '2'
    } else if n == 3 {
        '3'
    } else if n == 4 {
        '4'
    } else if n == 5 {
        '5'
    } else if n == 6 {
        '6'
    } else if n == 7 {
        '7'
    } else if n == 8 {
        '8'
    } else {
        '9'
    }
}

/// The decimal text of a natural number.
pub open spec fn dec_nat(n: nat) -> Seq<char>
    decreases n,
{
    if n < 10 {
        seq![dec_digit(n as int)]
    } else {
        dec_nat(n / 10) + seq![dec_digit((n % 10) as int)]
    }
}

/// The decimal text of an integer, with a leading minus sign when
/// negative.
pub open spec fn dec_int(n: int) -> Seq<char> {
    if n < 0 {
        seq!['-'] + dec_nat((-n) as nat)
    } else {
        dec_nat(n as nat)
    }
}

/// The hexadecimal digit character for `n`.
pub open spec fn hex_digit(n: int) -> char {
    if n < 10 {
        dec_digit(n)
    } else if n == 10 {
        'a'
    } else if n == 11 {
        'b'
    } else if n == 12 {
        'c'
    } else if n == 13 {
        'd'
    } else if n == 14 {
        'e'
    } else {
        'f'
    }
}

/// The escape of one string character.
pub open spec fn escape_char(c: char) -> Seq<char> {
    if c == '"' {
        seq!['\\', '"']
    } else if c == '\\' {
        seq!['\\', '\\']
    } else if c == '\n' {
        seq!['\\', 'n']
    } else if c == '\r' {
        seq!['\\', 'r']
    } else if c == '\t' {
        seq!['\\', 't']
    } else if (c as u32) < 32 {
        seq!['\\', 'u', '0', '0', hex_digit(c as u32 as int / 16), hex_digit(c as u32 as int % 16)]
    } else {
        seq![c]
    }
}

/// A string's characters, each escaped.
pub open spec fn escape_seq(s: Seq<char>) -> Seq<char>
    decreases s.len(),
{
    if s.len() == 0 {
        Seq::empty()
    } else {
        escape_seq(s.subrange(0, s.len() - 1)) + escape_char(s[s.len() - 1])
    }
}

/// A quoted, escaped JSON string.
pub open spec fn quoted(s: Seq<char>) -> Seq<char> {
    seq!['"'] + escape_seq(s) + seq!['"']
}

/// The JSON text of a structured value.
pub open spec fn json_text(v: ValModel) -> Seq<char>
    decreases v,
{
    match v {
        ValModel::Null => "null"@,
        ValModel::Bool(b) => if b {
            "true"@
        } else {
            "false"@
        },
        ValModel::Number(n) => dec_int(n),
        ValModel::Text(s) => quoted(s),
        ValModel::Array(elems) => seq!['['] + json_items(elems) + seq![']'],
        ValModel::Object(entries) => seq!['{'] + json_members(entries) + seq!['}'],
    }
}

/// Array elements, comma-separated.
pub open spec fn json_items(s: Seq<ValModel>) -> Seq<char>
    decreases s,
{
    if s.len() == 0 {
        Seq::empty()
    } else if s.len() == 1 {
        json_text(s[0])
    } else {
        json_items(s.subrange(0, s.len() - 1)) + seq![','] + json_text(s[s.len() - 1])
    }
}

/// Object members, comma-separated `"key":value` pairs.
pub open spec fn json_members(s: Seq<(Seq<char>, ValModel)>) -> Seq<char>
    decreases s,
{
    if s.len() == 0 {
        Seq::empty()
    } else if s.len() == 1 {
        quoted(s[0].0) + seq![':'] + json_text(s[0].1)
    } else {
        json_members(s.subrange(0, s.len() - 1)) + seq![','] + quoted(s[s.len() - 1].0)
            + seq![':'] + json_text(s[s.len() - 1].1)
    }
}

/// Append the decimal text of a natural number to `out`.
fn emit_dec_u64(out: &mut Vec<char>, n: u64)
    ensures
        final(out)@ == old(out)@ + dec_nat(n as nat),
{
    if n == 0 {
        out.push('0');
        proof {
            assert(out@ =~= old(out)@ + dec_nat(0));
        }
        return ;
    }
    let mut temp: Vec<char> = Vec::new();
    let mut m: u64 = n;
    proof {
        assert(dec_nat(n as nat) + Seq::new(0, |j: int| temp@[temp@.len() - 1 - j]) =~= dec_nat(
            n as nat,
        ));
    }
    while m > 0
        invariant
            m > 0 ==> dec_nat(n as nat) == dec_nat(m as nat) + Seq::new(
                temp@.len(),
                |j: int| temp@[temp@.len() - 1 - j],
            ),
            m == 0 ==> dec_nat(n as nat) == Seq::new(
                temp@.len(),
                |j: int| temp@[temp@.len() - 1 - j],
            ),
        decreases m,
    {
        let ghost old_temp = temp@;
        let ghost old_m = m as nat;
        let d = m % 10;
        let c: char = if d == 0 {
            '0'
        } else if d == 1 {
            '1'
        } else if d == 2 {
            '2'
        } else if d == 3 {
            '3'
        } else if d == 4 {
            '4'
        } else if d == 5 {
            '5'
        } else if d == 6 {
            '6'
        } else if d == 7 {
            '7'
        } else if d == 8 {
            '8'
        } else {
            '9'
        };
        assert(c == dec_digit(d as int));
        temp.push(c);
        m = m / 10;
        proof {
            let rev_old = Seq::new(old_temp.len(), |j: int| old_temp[old_temp.len() - 1 - j]);
            let rev_new = Seq::new(temp@.len(), |j: int| temp@[temp@.len() - 1 - j]);
            assert(rev_new =~= seq![c] + rev_old);
            if old_m < 10 {
                assert(dec_nat(old_m) == seq![c]);
                assert(dec_nat(old_m) + rev_old =~= seq![c] + rev_old);
            } else {
                assert(dec_nat(old_m) == dec_nat(old_m / 10) + seq![c]);
                assert((dec_nat(old_m / 10) + seq![c]) + rev_old =~= dec_nat(old_m / 10) + (
                seq![c] + rev_old));
            }
        }
    }
    // Emit the collected digits, most significant first.
    let ghost digits = dec_nat(n as nat);
    let mut k: usize = temp.len();
    proof {
        assert(digits.len() == temp@.len());
        assert(out@ =~= old(out)@ + digits.subrange(0, 0));
    }
    while k > 0
        invariant
            k <= temp@.len(),
            digits == Seq::new(temp@.len(), |j: int| temp@[temp@.len() - 1 - j]),
            out@ == old(out)@ + digits.subrange(0, temp@.len() - k),
        decreases k,
    {
        out.push(temp[k - 1]);
        proof {
            assert(digits[temp@.len() - k] == temp@[k - 1]);
            assert(out@ =~= old(out)@ + digits.subrange(0, temp@.len() - (k - 1)));
        }
        k = k - 1;
    }
    proof {
        assert(digits.subrange(0, temp@.len() as int) =~= digits);
    }
}

/// Append the decimal text of an integer to `out`.
pub fn emit_dec_i64(out: &mut Vec<char>, n: i64)
    ensures
        final(out)@ == old(out)@ + dec_int(n as int),
{
    if n >= 0 {
        emit_dec_u64(out, n as u64);
    } else {
        out.push('-');
        let ghost mid = out@;
        // The magnitude, computed without overflowing `i64::MIN`.
        let mag: u64 = ((-(n + 1)) as u64) + 1;
        proof {
            assert(mag as int == -(n as int));
        }
        emit_dec_u64(out, mag);
        proof {
            assert(mid =~= old(out)@ + seq!['-']);
            assert(out@ =~= old(out)@ + (seq!['-'] + dec_nat((-(n as int)) as nat)));
        }
    }
}

/// Append the escape of one character to `out`.
fn emit_escaped_char(out: &mut Vec<char>, c: char)
    ensures
        final(out)@ == old(out)@ + escape_char(c),
{
    if c == '"' {
        out.push('\\');
        out.push('"');
        assert(out@ =~= old(out)@ + escape_char(c));
    } else if c == '\\' {
        out.push('\\');
        out.push('\\');
        assert(out@ =~= old(out)@ + escape_char(c));
    } else if c == '\n' {
        out.push('\\');
        out.push('n');
        assert(out@ =~= old(out)@ + escape_char(c));
    } else if c == '\r' {
        out.push('\\');
        out.push('r');
        assert(out@ =~= old(out)@ + escape_char(c));
    } else if c == '\t' {
        out.push('\\');
        out.push('t');
        assert(out@ =~= old(out)@ + escape_char(c));
    } else if (c as u32) < 32 {
        out.push('\\');
        out.push('u');
        out.push('0');
        out.push('0');
        let hi = (c as u32) / 16;
        let lo = (c as u32) % 16;
        let hc: char = if hi == 0 {
            '0'
        } else {
            '1'
        };
        out.push(hc);
        let lc: char = if lo == 0 {
            '0'
        } else if lo == 1 {
            '1'
        } else if lo == 2 {
            '2'
        } else if lo == 3 {
            '3'
        } else if lo == 4 {
            '4'
        } else if lo == 5 {
            '5'
        } else if lo == 6 {
            '6'
        } else if lo == 7 {
            '7'
        } else if lo == 8 {
            '8'
        } else if lo == 9 {
            '9'
        } else if lo == 10 {
            'a'
        } else if lo == 11 {
            'b'
        } else if lo == 12 {
            'c'
        } else if lo == 13 {
            'd'
        } else if lo == 14 {
            'e'
        } else {
            'f'
        };
        out.push(lc);
        proof {
            assert(hc == hex_digit(c as u32 as int / 16));
            assert(lc == hex_digit(c as u32 as int % 16));
            assert(out@ =~= old(out)@ + escape_char(c));
        }
    } else {
        out.push(c);
        assert(out@ =~= old(out)@ + escape_char(c));
    }
}

/// Append a quoted, escaped string to `out`.
pub fn emit_quoted(out: &mut Vec<char>, s: &String)
    ensures
        final(out)@ == old(out)@ + quoted(s@),
{
    out.push('"');
    let chars = crate::text::str_chars(s.as_str());
    let n = chars.len();
    let mut i: usize = 0;
    proof {
        assert(out@ =~= old(out)@ + seq!['"'] + escape_seq(s@.subrange(0, 0)));
    }
    while i < n
        invariant
            i <= n == chars@.len(),
            chars@ == s@,
            out@ == old(out)@ + seq!['"'] + escape_seq(s@.subrange(0, i as int)),
        decreases n - i,
    {
        emit_escaped_char(out, chars[i]);
        proof {
            assert(s@.subrange(0, i + 1 as int).subrange(0, i as int) =~= s@.subrange(
                0,
                i as int,
            ));
            assert(s@.subrange(0, i + 1 as int)[i as int] == s@[i as int]);
            assert(out@ =~= old(out)@ + seq!['"'] + escape_seq(s@.subrange(0, i + 1 as int)));
        }
        i = i + 1;
    }
    out.push('"');
    proof {
        assert(s@.subrange(0, n as int) =~= s@);
        assert(out@ =~= old(out)@ + quoted(s@));
    }
}

/// Append the JSON text of a structured value to `out`.
#[verifier::loop_isolation(false)]
pub fn emit_json(v: &StructuredValue, out: &mut Vec<char>)
    ensures
        final(out)@ == old(out)@ + json_text(model(*v)),
    decreases v,
{
    match v {
        StructuredValue::Null => {
            emit_str(out, "null");
        },
        StructuredValue::Bool(b) => {
            if *b {
                emit_str(out, "true");
            } else {
                emit_str(out, "false");
            }
        },
        StructuredValue::Number(n) => {
            emit_dec_i64(out, *n);
        },
        StructuredValue::Text(s) => {
            emit_quoted(out, s);
        },
        StructuredValue::Array(elems) => {
            let ghost ms = models_of(elems@);
            proof {
                lemma_models_of(elems@);
            }
            out.push('[');
            let n = elems.len();
            let mut i: usize = 0;
            proof {
                assert(out@ =~= old(out)@ + seq!['['] + json_items(ms.subrange(0, 0)));
            }
            while i < n
                invariant
                    i <= n,
                    out@ == old(out)@ + seq!['['] + json_items(ms.subrange(0, i as int)),
                decreases n - i,
            {
                if i > 0 {
                    out.push(',');
                }
                proof {
                    assert(decreases_to!(*v => v->Array_0));
                    assert(decreases_to!(*elems => elems@));
                    assert(decreases_to!(elems@ => elems@[i as int]));
                }
                emit_json(&elems[i], out);
                proof {
                    let pre = ms.subrange(0, i as int);
                    let post = ms.subrange(0, i + 1 as int);
                    assert(post.subrange(0, post.len() - 1) =~= pre);
                    assert(post[post.len() - 1] == model(elems@[i as int]));
                    if i == 0 {
                        assert(json_items(post) == json_text(ms[0]));
                        assert(out@ =~= old(out)@ + seq!['['] + json_items(post));
                    } else {
                        assert(json_items(post) == json_items(pre) + seq![','] + json_text(
                            ms[i as int],
                        ));
                        assert(out@ =~= old(out)@ + seq!['['] + json_items(post));
                    }
                }
                i = i + 1;
            }
            out.push(']');
            proof {
                assert(ms.subrange(0, n as int) =~= ms);
                assert(out@ =~= old(out)@ + json_text(model(*v)));
            }
        },
        StructuredValue::Object(entries) => {
            let ghost ms = entry_models_of(entries@);
            proof {
                lemma_entry_models_of(entries@);
            }
            out.push('{');
            let n = entries.len();
            let mut i: usize = 0;
            proof {
                assert(out@ =~= old(out)@ + seq!['{'] + json_members(ms.subrange(0, 0)));
            }
            while i < n
                invariant
                    i <= n,
                    out@ == old(out)@ + seq!['{'] + json_members(ms.subrange(0, i as int)),
                decreases n - i,
            {
                if i > 0 {
                    out.push(',');
                }
                emit_quoted(out, &entries[i].key);
                out.push(':');
                proof {
                    assert(decreases_to!(*v => v->Object_0));
                    assert(decreases_to!(*entries => entries@));
                    assert(decreases_to!(entries@ => entries@[i as int]));
                    assert(decreases_to!(entries@[i as int] => entries@[i as int].value));
                }
                emit_json(&entries[i].value, out);
                proof {
                    let pre = ms.subrange(0, i as int);
                    let post = ms.subrange(0, i + 1 as int);
                    assert(post.subrange(0, post.len() - 1) =~= pre);
                    assert(post[post.len() - 1] == ms[i as int]);
                    assert(ms[i as int] == (entries@[i as int].key@, model(
                        entries@[i as int].value,
                    )));
                    if i == 0 {
                        assert(json_members(post) == quoted(ms[0].0) + seq![':'] + json_text(
                            ms[0].1,
                        ));
                        assert(out@ =~= old(out)@ + seq!['{'] + json_members(post));
                    } else {
                        assert(json_members(post) == json_members(pre) + seq![','] + quoted(
                            ms[i as int].0,
                        ) + seq![':'] + json_text(ms[i as int].1));
                        assert(out@ =~= old(out)@ + seq!['{'] + json_members(post));
                    }
                }
                i = i + 1;
            }
            out.push('}');
            proof {
                assert(ms.subrange(0, n as int) =~= ms);
                assert(out@ =~= old(out)@ + json_text(model(*v)));
            }
        },
    }
}

/// The JSON text of a sequence of records, as one JSON array.
pub fn json_of_records(records: &Vec<StructuredValue>) -> (r: String)
    ensures
        r@ == json_text(ValModel::Array(models_of(records@))),
{
    let mut out: Vec<char> = Vec::new();
    let ghost ms = models_of(records@);
    proof {
        lemma_models_of(records@);
    }
    out.push('[');
    let n = records.len();
    let mut i: usize = 0;
    proof {
        assert(out@ =~= seq!['['] + json_items(ms.subrange(0, 0)));
    }
    while i < n
        invariant
            i <= n == records@.len(),
            ms == models_of(records@),
            ms.len() == n,
            forall|k: int| 0 <= k < n ==> ms[k] == model(#[trigger] records@[k]),
            out@ == seq!['['] + json_items(ms.subrange(0, i as int)),
        decreases n - i,
    {
        if i > 0 {
            out.push(',');
        }
        let ghost before = out@;
        emit_json(&records[i], &mut out);
        proof {
            let pre = ms.subrange(0, i as int);
            let post = ms.subrange(0, i + 1 as int);
            assert(post.subrange(0, post.len() - 1) =~= pre);
            assert(post[post.len() - 1] == ms[i as int]);
            if i == 0 {
                assert(json_items(post) == json_text(ms[0]));
            } else {
                assert(json_items(post) == json_items(pre) + seq![','] + json_text(ms[i as int]));
            }
            assert(out@ =~= seq!['['] + json_items(post));
        }
        i = i + 1;
    }
    out.push(']');
    proof {
        assert(ms.subrange(0, n as int) =~= ms);
        assert(out@ =~= json_text(ValModel::Array(ms)));
    }
    chars_to_string(&out)
}

} // verus!
