use vstd::prelude::*;

use crate::text::{
    chars_of,
    decimal,
    digit_char,
    digits_value,
    is_digit,
    lemma_decimal_writes_n,
    find_in,
    find_or_zero,
    find_pattern_in,
    find_pattern_or_zero,
    lemma_index_of_first,
    lemma_index_of_pattern,
    push_decimal,
    replace_all,
    replace_chars,
    string_of,
};

verus! {

/// The error type of `serde_json`, carried through opaque.
#[verifier::external_type_specification]
#[verifier::external_body]
pub struct ExJsonError(serde_json::Error);

/// The lowercase hexadecimal digit `d` (below 16).
pub open spec fn hex_digit(d: nat) -> char {
    if d < 10 {
        digit_char(d)
    } else if d == 10 {
        'a'
    } else if d == 11 {
        'b'
    } else if d == 12 {
        'c'
    } else if d == 13 {
        'd'
    } else if d == 14 {
        'e'
    } else {
        'f'
    }
}

/// How a character stands inside a JSON string: `"` and `\` behind a
/// backslash, backspace, tab, line feed, form feed and carriage return as
/// `\b \t \n \f \r`, the other characters below 0x20 as `\u00` and two
/// lowercase hexadecimal digits, and every other character as itself.
pub open spec fn json_escape(c: char) -> Seq<char> {
    let n = c as u32;
    if c == '"' {
        seq!['\\', '"']
    } else if c == '\\' {
        seq!['\\', '\\']
    } else if n == 0x08 {
        seq!['\\', 'b']
    } else if n == 0x09 {
        seq!['\\', 't']
    } else if n == 0x0a {
        seq!['\\', 'n']
    } else if n == 0x0c {
        seq!['\\', 'f']
    } else if n == 0x0d {
        seq!['\\', 'r']
    } else if n < 0x20 {
        seq!['\\', 'u', '0', '0', hex_digit((n / 16) as nat), hex_digit((n % 16) as nat)]
    } else {
        seq![c]
    }
}

/// The characters of `s`, each as it stands inside a JSON string.
pub open spec fn json_escaped(s: Seq<char>) -> Seq<char>
    decreases s.len(),
{
    if s.len() == 0 {
        Seq::empty()
    } else {
        json_escaped(s.drop_last()) + json_escape(s.last())
    }
}

/// The JSON text of a string value: a quote, the escaped characters, a quote.
pub open spec fn json_string_text(s: Seq<char>) -> Seq<char> {
    seq!['"'] + json_escaped(s) + seq!['"']
}

/// Writes `s` as a JSON string value.
///
/// Trusted: calls `serde_json::to_string_pretty` on the string. A string is
/// serialised by `format_escaped_str` into a `Vec` writer, which cannot fail,
/// so the call always succeeds; its text is a quote, the characters with
/// serde_json's escapes (its `ESCAPE` table and `write_char_escape`), and a
/// quote, which is what `json_string_text` states.
#[verifier::external_body]
fn json_string_pretty(s: &String) -> (r: Result<String, serde_json::Error>)
    ensures
        r is Ok,
        r matches Ok(t) ==> t@ == json_string_text(s@),
{
    serde_json::to_string_pretty(s)
}

/// Why the canister's answer could not be read.
#[derive(Debug, PartialEq, Eq, Structural)]
pub enum CanisterError {
    /// The answer could not be written as a JSON string.
    JsonEncoding,
}

/// The number of a record as the answer writes it: its decimal writing, with
/// an underscore after the first digit from 1000 on.
pub open spec fn record_label(p: nat) -> Seq<char> {
    let d = decimal(p);
    if p < 1000 {
        d
    } else {
        d.take(1) + seq!['_'] + d.skip(1)
    }
}

/// `s` without any `c`.
pub open spec fn remove_char(s: Seq<char>, c: char) -> Seq<char>
    decreases s.len(),
{
    if s.len() == 0 {
        s
    } else if s.last() == c {
        remove_char(s.drop_last(), c)
    } else {
        remove_char(s.drop_last(), c).push(s.last())
    }
}

/// How many times `c` stands in `s`.
pub open spec fn count_char(s: Seq<char>, c: char) -> nat
    decreases s.len(),
{
    if s.len() == 0 {
        0
    } else {
        count_char(s.drop_last(), c) + if s.last() == c {
            1nat
        } else {
            0nat
        }
    }
}

proof fn lemma_remove_count_concat(a: Seq<char>, b: Seq<char>, c: char)
    ensures
        remove_char(a + b, c) == remove_char(a, c) + remove_char(b, c),
        count_char(a + b, c) == count_char(a, c) + count_char(b, c),
    decreases b.len(),
{
    if b.len() == 0 {
        assert(a + b =~= a);
        assert(remove_char(a, c) + remove_char(b, c) =~= remove_char(a, c));
    } else {
        lemma_remove_count_concat(a, b.drop_last(), c);
        assert((a + b).drop_last() =~= a + b.drop_last());
        assert((a + b).last() == b.last());
        if b.last() != c {
            assert(remove_char(a, c) + remove_char(b.drop_last(), c).push(b.last()) =~= (remove_char(a, c)
                + remove_char(b.drop_last(), c)).push(b.last()));
        }
    }
}

proof fn lemma_remove_count_absent(s: Seq<char>, c: char)
    requires
        forall|i: int| 0 <= i < s.len() ==> s[i] != c,
    ensures
        remove_char(s, c) == s,
        count_char(s, c) == 0,
    decreases s.len(),
{
    if s.len() > 0 {
        lemma_remove_count_absent(s.drop_last(), c);
        assert(s.drop_last().push(s.last()) =~= s);
    }
}

/// A record's label is the decimal writing of its number, with a single `_`
/// right after the first digit from 1000 on: dropping the `_` gives the
/// decimal writing back, which writes the number itself.
pub proof fn lemma_record_label(p: nat)
    ensures
        remove_char(record_label(p), '_') == decimal(p),
        digits_value(remove_char(record_label(p), '_')) == p,
        record_label(p).len() == decimal(p).len() + if p >= 1000 {
            1int
        } else {
            0int
        },
        p < 1000 ==> record_label(p) == decimal(p),
        p >= 1000 ==> record_label(p)[1] == '_' && count_char(record_label(p), '_') == 1,
{
    lemma_decimal_writes_n(p);
    let d = decimal(p);
    assert forall|i: int| 0 <= i < d.len() implies d[i] != '_' by {
        assert(is_digit(d[i]));
    }
    lemma_remove_count_absent(d, '_');
    if p >= 1000 {
        let a = d.take(1);
        let b = d.skip(1);
        assert forall|i: int| 0 <= i < a.len() implies a[i] != '_' by {
            assert(a[i] == d[i]);
        }
        assert forall|i: int| 0 <= i < b.len() implies b[i] != '_' by {
            assert(b[i] == d[i + 1]);
        }
        lemma_remove_count_absent(a, '_');
        lemma_remove_count_absent(b, '_');
        lemma_remove_count_concat(a + seq!['_'], b, '_');
        lemma_remove_count_concat(a, seq!['_'], '_');
        assert(remove_char(seq!['_'], '_') =~= Seq::<char>::empty()) by {
            assert(seq!['_'].drop_last() =~= Seq::<char>::empty());
            assert(seq!['_'].last() == '_');
            reveal_with_fuel(remove_char, 2);
        }
        assert(count_char(seq!['_'], '_') == 1) by {
            assert(seq!['_'].drop_last() =~= Seq::<char>::empty());
            assert(seq!['_'].last() == '_');
            reveal_with_fuel(count_char, 2);
        }
        assert(a + Seq::<char>::empty() + b =~= d);
        assert((a + seq!['_'] + b)[1] == '_');
    }
}

/// The text that opens record `p`: `record { p :`.
pub open spec fn record_marker(p: nat) -> Seq<char> {
    seq!['r', 'e', 'c', 'o', 'r', 'd', ' ', '{', ' '] + record_label(p) + seq![' ', ':']
}

/// The escaped quote of the answer once written as JSON: two backslashes
/// followed by `22`.
pub open spec fn escaped_quote() -> Seq<char> {
    seq!['\\', '\\', '2', '2']
}

/// The trait arrays of the records of `data`, which starts with the record
/// before record `pointer`: the text up to the opening of record `pointer`
/// (or all of it, where that record is absent) is searched for the first `[` and the first `]` after
/// it, and the text between them, both included, is kept, unless the `[` is
/// absent or first, or the `]` comes right after it.
pub open spec fn scan_records(data: Seq<char>, pointer: nat) -> Seq<Seq<char>>
    decreases data.len(),
{
    let index = find_pattern_or_zero(data, record_marker(pointer));
    let record = if index == 0 {
        data
    } else {
        data.take(index)
    };
    let start = find_or_zero(record, '[');
    let tail = record.skip(start);
    let end = find_or_zero(tail, ']');
    let found = if start == 0 || end == 1 {
        Seq::empty()
    } else {
        seq![tail.take(end + 1)]
    };
    if index == 0 {
        found
    } else {
        proof {
            lemma_index_of_pattern(data, record_marker(pointer));
        }
        found + scan_records(data.skip(index), pointer + 1)
    }
}

/// The trait arrays of the canister's answer, written as JSON: escaped
/// quotes are turned back into quotes, the text before `record { 0 :` is
/// dropped, and the records are scanned from record 0 on, each up to the
/// opening of the next one.
pub open spec fn trait_array_texts(pretty: Seq<char>) -> Seq<Seq<char>> {
    let text = replace_all(pretty, escaped_quote(), seq!['"']);
    let index = find_pattern_or_zero(text, record_marker(0));
    scan_records(text.skip(index), 1)
}

fn push_str_chars(out: &mut Vec<char>, s: &str)
    ensures
        final(out)@ == old(out)@ + s@,
{
    let cs = chars_of(s);
    let mut i: usize = 0;
    while i < cs.len()
        invariant
            i <= cs.len(),
            cs@ == s@,
            out@ == old(out)@ + cs@.take(i as int),
        decreases cs.len() - i,
    {
        out.push(cs[i]);
        assert(out@ =~= old(out)@ + cs@.take(i + 1));
        i = i + 1;
    }
    assert(cs@.take(cs.len() as int) =~= cs@);
}

/// The text that opens record `p`.
fn marker(p: u64) -> (m: Vec<char>)
    ensures
        m@ == record_marker(p as nat),
{
    let mut m: Vec<char> = Vec::new();
    m.push('r');
    m.push('e');
    m.push('c');
    m.push('o');
    m.push('r');
    m.push('d');
    m.push(' ');
    m.push('{');
    m.push(' ');
    let ghost head = m@;
    assert(head =~= seq!['r', 'e', 'c', 'o', 'r', 'd', ' ', '{', ' ']);
    let mut digits: Vec<char> = Vec::new();
    push_decimal(&mut digits, p);
    assert(digits@ =~= decimal(p as nat));
    if p >= 1000 {
        proof {
            lemma_decimal_nonempty(p as nat);
        }
        digits.insert(1, '_');
        assert(digits@ =~= decimal(p as nat).take(1) + seq!['_'] + decimal(p as nat).skip(1));
    }
    let mut i: usize = 0;
    while i < digits.len()
        invariant
            i <= digits.len(),
            m@ == head + digits@.take(i as int),
        decreases digits.len() - i,
    {
        m.push(digits[i]);
        assert(m@ =~= head + digits@.take(i + 1));
        i = i + 1;
    }
    assert(digits@.take(digits.len() as int) =~= digits@);
    m.push(' ');
    m.push(':');
    assert(m@ =~= record_marker(p as nat));
    m
}

proof fn lemma_decimal_nonempty(n: nat)
    ensures
        decimal(n).len() >= 1,
    decreases n,
{
    if n >= 10 {
        lemma_decimal_nonempty(n / 10);
    }
}

/// Reads the trait arrays out of the canister's answer once written as JSON.
pub fn extract_trait_arrays(pretty: &str) -> (arrays: Vec<String>)
    ensures
        arrays.deep_view() == trait_array_texts(pretty@),
{
    let chars = chars_of(pretty);
    let mut pat: Vec<char> = Vec::new();
    pat.push('\\');
    pat.push('\\');
    pat.push('2');
    pat.push('2');
    let mut rep: Vec<char> = Vec::new();
    rep.push('"');
    assert(pat@ =~= escaped_quote());
    assert(rep@ =~= seq!['"']);
    let text = replace_chars(&chars, &pat, &rep);
    let n = text.len();
    let ghost whole = text@;
    assert(text@.subrange(0, n as int) =~= text@);
    let first = marker(0);
    let idx0 = find_pattern_in(&text, 0, n, &first);
    let mut pos = idx0;
    let mut pointer: u64 = 1;
    let mut arrays: Vec<String> = Vec::new();
    assert(whole.skip(idx0 as int) =~= text@.subrange(pos as int, n as int));
    assert(arrays.deep_view() + scan_records(text@.subrange(pos as int, n as int), 1) =~= trait_array_texts(
        pretty@,
    ));
    loop
        invariant
            n == text.len(),
            whole == text@,
            pos <= n,
            1 <= pointer <= pos + 1,
            arrays.deep_view() + scan_records(text@.subrange(pos as int, n as int), pointer as nat)
                == trait_array_texts(pretty@),
        decreases n - pos,
    {
        let ghost data = text@.subrange(pos as int, n as int);
        let mk = marker(pointer);
        let index = find_pattern_in(&text, pos, n, &mk);
        proof {
            lemma_index_of_pattern(data, mk@);
            lemma_decimal_nonempty(pointer as nat);
        }
        let rec_hi = if index == 0 {
            n
        } else {
            pos + index
        };
        let ghost record = text@.subrange(pos as int, rec_hi as int);
        assert(index != 0 ==> record =~= data.take(index as int));
        assert(index == 0 ==> record =~= data);
        let start = find_in(&text, pos, rec_hi, '[');
        let t_lo = pos + start;
        let ghost tail = text@.subrange(t_lo as int, rec_hi as int);
        assert(record.skip(start as int) =~= tail);
        let end = find_in(&text, t_lo, rec_hi, ']');
        proof {
            lemma_index_of_first(record, '[');
            lemma_index_of_first(tail, ']');
        }
        let ghost before = arrays.deep_view();
        let ghost found: Seq<Seq<char>> = if start == 0 || end == 1 {
            Seq::empty()
        } else {
            seq![tail.take(end + 1)]
        };
        if !(start == 0 || end == 1) {
            let item = string_of(&text, t_lo, t_lo + end + 1);
            assert(item@ =~= tail.take(end + 1));
            arrays.push(item);
            assert(arrays.deep_view() =~= before + found);
        } else {
            assert(arrays.deep_view() =~= before + found);
        }
        if index == 0 {
            proof {
                assert(scan_records(data, pointer as nat) == found);
                assert(arrays.deep_view() + Seq::<Seq<char>>::empty() =~= arrays.deep_view());
                assert(scan_records(data, pointer as nat) =~= found);
                assert(before + found + Seq::<Seq<char>>::empty() =~= before + found);
            }
            return arrays;
        }
        let next = pos + index;
        proof {
            assert(data.skip(index as int) =~= text@.subrange(next as int, n as int));
            let rest = scan_records(text@.subrange(next as int, n as int), pointer as nat + 1);
            assert(scan_records(data, pointer as nat) == found + rest);
            assert(before + (found + rest) =~= arrays.deep_view() + rest);
        }
        pos = next;
        pointer = pointer + 1;
    }
}

/// Reads the trait arrays out of the canister's answer: writes the answer as
/// a JSON string, then reads the arrays out of that text. Writing a string as
/// JSON always succeeds, so this never fails.
pub fn canister_trait_arrays(stdout: &String) -> (r: Result<Vec<String>, CanisterError>)
    ensures
        r is Ok,
        r matches Ok(arrays) ==> arrays.deep_view() == trait_array_texts(json_string_text(stdout@)),
{
    match json_string_pretty(stdout) {
        Ok(pretty) => Ok(extract_trait_arrays(pretty.as_str())),
        Err(_) => Err(CanisterError::JsonEncoding),
    }
}

} // verus!
