use vstd::prelude::*;

use crate::records::{build_trait_objects, trait_names};
use crate::text::{
    chars_of,
    find_in,
    find_or_zero,
    index_of_first,
    lemma_index_of_first,
    remove_quotes,
    string_of,
    without_quotes,
};
use crate::trait_object::{TextPair, TraitObject, pairs_to_map, pairs_view, records_view};

verus! {

/// Splits `name:value` at its first colon. Where there is no colon the name
/// is empty and the value is all but the first character; that first
/// character must then be ASCII, and the text not empty, or the text cannot
/// be split (`None`).
pub open spec fn split_key_value(kv: Seq<char>) -> Option<TextPair> {
    let m = find_or_zero(kv, ':');
    if kv.len() >= 1 && (kv[m] as u32) < 128 {
        Some((kv.take(m), kv.skip(m + 1)))
    } else {
        None
    }
}

/// `Some` of `acc` followed by what `rest` holds, or `None` where `rest` is `None`.
pub open spec fn prepend<T>(acc: Seq<T>, rest: Option<Seq<T>>) -> Option<Seq<T>> {
    match rest {
        Some(r) => Some(acc + r),
        None => None,
    }
}

/// The `name:value` fields of the inside of one record, separated by commas.
/// A comma at the very start ends the fields with the whole text as the last
/// one. `None` where a field cannot be split.
pub open spec fn parse_fields(res: Seq<char>) -> Option<Seq<TextPair>>
    decreases res.len(),
{
    let spos = find_or_zero(res, ',');
    if spos == 0 {
        match split_key_value(res) {
            Some(p) => Some(seq![p]),
            None => None,
        }
    } else {
        proof {
            lemma_index_of_first(res, ',');
        }
        match split_key_value(res.take(spos)) {
            Some(p) => prepend(seq![p], parse_fields(res.skip(spos + 1))),
            None => None,
        }
    }
}

/// The records of the test data: the text from each `{` up to the next `}`
/// (or nothing, where no `}` follows), read as fields. The scan stops where
/// no `{` is left, or where the first `{` is the first character. `None`
/// where some record cannot be read.
pub open spec fn parse_records(data: Seq<char>) -> Option<Seq<Seq<TextPair>>>
    decreases data.len(),
{
    let start = find_or_zero(data, '{');
    if start == 0 {
        Some(Seq::empty())
    } else {
        proof {
            lemma_index_of_first(data, '{');
        }
        let rest = data.skip(start + 1);
        let end = find_or_zero(rest, '}');
        proof {
            lemma_index_of_first(rest, '}');
        }
        match parse_fields(rest.take(end)) {
            Some(fields) => prepend(seq![fields], parse_records(rest.skip(end))),
            None => None,
        }
    }
}

/// The records of the test data text, with its double quotes dropped first.
pub open spec fn test_data_records(text: Seq<char>) -> Option<Seq<Seq<TextPair>>> {
    parse_records(without_quotes(text))
}

/// A field is split at its first colon: where the field has a colon, the
/// name holds no colon and name, colon and value make up the field again;
/// where it has none, the name is empty and the value is the field without
/// its first character, which must be ASCII.
pub proof fn lemma_split_at_first_colon(kv: Seq<char>)
    ensures
        kv.contains(':') ==> (split_key_value(kv) matches Some((k, v)) && k + seq![':'] + v == kv
            && !k.contains(':')),
        !kv.contains(':') ==> split_key_value(kv) == if kv.len() >= 1 && (kv[0] as u32) < 128 {
            Some((Seq::<char>::empty(), kv.drop_first()))
        } else {
            None
        },
{
    lemma_index_of_first(kv, ':');
    let m = find_or_zero(kv, ':');
    if kv.contains(':') {
        let j = choose|j: int| 0 <= j < kv.len() && kv[j] == ':';
        assert(index_of_first(kv, ':') >= 0);
        assert(kv[m] == ':');
        assert(kv.take(m) + seq![':'] + kv.skip(m + 1) =~= kv);
        if kv.take(m).contains(':') {
            let i = choose|i: int| 0 <= i < kv.take(m).len() && kv.take(m)[i] == ':';
            assert(kv[i] == ':');
        }
    } else {
        if index_of_first(kv, ':') >= 0 {
            assert(kv.contains(kv[index_of_first(kv, ':')]));
        }
        assert(kv.take(0) =~= Seq::<char>::empty());
        assert(kv.skip(1) =~= kv.drop_first());
    }
}

/// The fields joined by commas: `f1,f2,...,fn`.
pub open spec fn join_fields(fs: Seq<Seq<char>>) -> Seq<char>
    decreases fs.len(),
{
    if fs.len() == 0 {
        Seq::empty()
    } else if fs.len() == 1 {
        fs[0]
    } else {
        fs[0] + seq![','] + join_fields(fs.drop_first())
    }
}

/// Each field split at its first colon, or `None` where one cannot be.
pub open spec fn split_each(fs: Seq<Seq<char>>) -> Option<Seq<TextPair>>
    decreases fs.len(),
{
    if fs.len() == 0 {
        Some(Seq::empty())
    } else {
        match split_key_value(fs[0]) {
            Some(p) => prepend(seq![p], split_each(fs.drop_first())),
            None => None,
        }
    }
}

proof fn lemma_first_char_after(a: Seq<char>, b: Seq<char>, c: char)
    requires
        forall|i: int| 0 <= i < a.len() ==> a[i] != c,
    ensures
        index_of_first(a + seq![c] + b, c) == a.len(),
        index_of_first(a, c) == -1,
{
    let s = a + seq![c] + b;
    lemma_index_of_first(s, c);
    lemma_index_of_first(a, c);
    let r = index_of_first(s, c);
    assert(s[a.len() as int] == c);
    if r >= 0 && r < a.len() {
        assert(s[r] == a[r]);
    }
    let q = index_of_first(a, c);
    if q >= 0 {
        assert(a[q] == c);
    }
}

/// Every comma-separated field of a record becomes its own pair, in order:
/// for fields that are not empty and hold no comma, reading them joined by
/// commas splits each one at its first colon, one pair per field, and no
/// name or value of a pair holds a comma.
pub proof fn lemma_fields_split_at_commas(fs: Seq<Seq<char>>)
    requires
        fs.len() >= 1,
        forall|i: int| 0 <= i < fs.len() ==> #[trigger] fs[i].len() >= 1 && !fs[i].contains(','),
    ensures
        parse_fields(join_fields(fs)) == split_each(fs),
        parse_fields(join_fields(fs)) matches Some(ps) ==> {
            &&& ps.len() == fs.len()
            &&& forall|i: int| 0 <= i < fs.len() ==> split_key_value(#[trigger] fs[i]) == Some(ps[i])
            &&& forall|i: int| 0 <= i < fs.len() ==> !(#[trigger] ps[i]).0.contains(',') && !ps[i].1.contains(',')
        },
    decreases fs.len(),
{
    let f0 = fs[0];
    assert(fs[0].len() >= 1 && !fs[0].contains(','));
    assert forall|i: int| 0 <= i < f0.len() implies f0[i] != ',' by {
        if f0[i] == ',' {
            assert(f0.contains(','));
        }
    }
    lemma_index_of_first(f0, ':');
    let m0 = find_or_zero(f0, ':');
    let k0 = f0.take(m0);
    let v0 = f0.skip(m0 + 1);
    if split_key_value(f0) is Some {
        assert forall|i: int| 0 <= i < k0.len() implies k0[i] != ',' by {
            assert(k0[i] == f0[i]);
        }
        assert forall|i: int| 0 <= i < v0.len() implies v0[i] != ',' by {
            assert(v0[i] == f0[i + m0 + 1]);
        }
    }
    if fs.len() == 1 {
        lemma_first_char_after(f0, Seq::empty(), ',');
        assert(join_fields(fs) == f0);
        assert(fs.drop_first() =~= Seq::<Seq<char>>::empty());
        assert(split_each(fs.drop_first()) == Some(Seq::<TextPair>::empty()));
        if split_key_value(f0) is Some {
            let p = split_key_value(f0)->0;
            assert(seq![p] + Seq::<TextPair>::empty() =~= seq![p]);
        }
    } else {
        let rest = fs.drop_first();
        assert forall|i: int| 0 <= i < rest.len() implies #[trigger] rest[i].len() >= 1 && !rest[i].contains(',') by {
            assert(rest[i] == fs[i + 1]);
        }
        lemma_fields_split_at_commas(rest);
        let j = join_fields(rest);
        let s = join_fields(fs);
        assert(s == f0 + seq![','] + j);
        lemma_first_char_after(f0, j, ',');
        assert(find_or_zero(s, ',') == f0.len());
        assert(s.take(f0.len() as int) =~= f0);
        assert(s.skip(f0.len() as int + 1) =~= j);
        if split_key_value(f0) is Some && split_each(rest) is Some {
            let p = split_key_value(f0)->0;
            let tail = split_each(rest)->0;
            let ps = seq![p] + tail;
            assert forall|i: int| 0 <= i < fs.len() implies split_key_value(#[trigger] fs[i]) == Some(ps[i]) by {
                if i > 0 {
                    assert(fs[i] == rest[i - 1]);
                    assert(ps[i] == tail[i - 1]);
                }
            }
            assert forall|i: int| 0 <= i < fs.len() implies !(#[trigger] ps[i]).0.contains(',') && !ps[i].1.contains(',') by {
                if i > 0 {
                    assert(ps[i] == tail[i - 1]);
                } else {
                    if ps[0].0.contains(',') {
                        let k = choose|k: int| 0 <= k < ps[0].0.len() && ps[0].0[k] == ',';
                        assert(k0[k] == ',');
                    }
                    if ps[0].1.contains(',') {
                        let k = choose|k: int| 0 <= k < ps[0].1.len() && ps[0].1[k] == ',';
                        assert(v0[k] == ',');
                    }
                }
            }
        }
    }
}

/// Each record body wrapped in braces, one after the other: `{b1}{b2}...`.
pub open spec fn braced(bs: Seq<Seq<char>>) -> Seq<char>
    decreases bs.len(),
{
    if bs.len() == 0 {
        Seq::empty()
    } else {
        seq!['{'] + bs[0] + seq!['}'] + braced(bs.drop_first())
    }
}

/// Each record body read as fields, or `None` where one cannot be.
pub open spec fn fields_each(bs: Seq<Seq<char>>) -> Option<Seq<Seq<TextPair>>>
    decreases bs.len(),
{
    if bs.len() == 0 {
        Some(Seq::empty())
    } else {
        match parse_fields(bs[0]) {
            Some(f) => prepend(seq![f], fields_each(bs.drop_first())),
            None => None,
        }
    }
}

/// Every braced record becomes its own record, in order: after a lead that
/// is not empty and holds no `{`, records `{b1}{b2}...{bn}` whose bodies hold
/// no brace are read body by body, one record per body.
pub proof fn lemma_records_split_at_braces(lead: Seq<char>, bs: Seq<Seq<char>>)
    requires
        lead.len() >= 1,
        !lead.contains('{'),
        forall|i: int| 0 <= i < bs.len() ==> !(#[trigger] bs[i]).contains('{') && !bs[i].contains('}'),
    ensures
        parse_records(lead + braced(bs)) == fields_each(bs),
    decreases bs.len(),
{
    let data = lead + braced(bs);
    assert forall|i: int| 0 <= i < lead.len() implies lead[i] != '{' by {
        if lead[i] == '{' {
            assert(lead.contains('{'));
        }
    }
    if bs.len() == 0 {
        assert(data =~= lead);
        lemma_first_char_after(lead, Seq::empty(), '{');
    } else {
        let b0 = bs[0];
        let rest = bs.drop_first();
        assert(!b0.contains('{') && !b0.contains('}'));
        assert forall|i: int| 0 <= i < b0.len() implies b0[i] != '}' by {
            if b0[i] == '}' {
                assert(b0.contains('}'));
            }
        }
        let tail = seq!['}'] + braced(rest);
        assert(data =~= lead + seq!['{'] + (b0 + tail));
        lemma_first_char_after(lead, b0 + tail, '{');
        let start = find_or_zero(data, '{');
        assert(start == lead.len());
        let after = data.skip(start + 1);
        assert(after =~= b0 + seq!['}'] + braced(rest));
        lemma_first_char_after(b0, braced(rest), '}');
        let end = find_or_zero(after, '}');
        assert(end == b0.len());
        assert(after.take(end) =~= b0);
        assert(after.skip(end) =~= seq!['}'] + braced(rest));
        assert forall|i: int| 0 <= i < rest.len() implies !(#[trigger] rest[i]).contains('{') && !rest[i].contains('}') by {
            assert(rest[i] == bs[i + 1]);
        }
        assert(!seq!['}'].contains('{')) by {
            if seq!['}'].contains('{') {
                let k = choose|k: int| 0 <= k < 1 && seq!['}'][k] == '{';
            }
        }
        lemma_records_split_at_braces(seq!['}'], rest);
    }
}

/// Reads the fields of `chars[lo..hi]`.
fn parse_fields_in(d: &Vec<char>, lo: usize, hi: usize) -> (r: Option<Vec<(String, String)>>)
    requires
        lo <= hi <= d.len(),
    ensures
        match r {
            Some(v) => parse_fields(d@.subrange(lo as int, hi as int)) == Some(pairs_view(v@)),
            None => parse_fields(d@.subrange(lo as int, hi as int)) is None,
        },
{
    let ghost whole = d@.subrange(lo as int, hi as int);
    let mut acc: Vec<(String, String)> = Vec::new();
    let mut cur = lo;
    assert(pairs_view(acc@) =~= Seq::<TextPair>::empty());
    assert(prepend(Seq::<TextPair>::empty(), parse_fields(whole)) =~= parse_fields(whole)) by {
        if parse_fields(whole) is Some {
            assert(Seq::<TextPair>::empty() + parse_fields(whole)->0 =~= parse_fields(whole)->0);
        }
    }
    loop
        invariant
            lo <= cur <= hi <= d.len(),
            whole == d@.subrange(lo as int, hi as int),
            parse_fields(whole) == prepend(pairs_view(acc@), parse_fields(d@.subrange(cur as int, hi as int))),
        decreases hi - cur,
    {
        let ghost res = d@.subrange(cur as int, hi as int);
        let spos = find_in(d, cur, hi, ',');
        proof {
            lemma_index_of_first(res, ',');
        }
        let kv_hi = if spos == 0 {
            hi
        } else {
            cur + spos
        };
        let ghost kv = d@.subrange(cur as int, kv_hi as int);
        assert(spos != 0 ==> kv =~= res.take(spos as int));
        assert(spos == 0 ==> kv =~= res);
        let m = find_in(d, cur, kv_hi, ':');
        proof {
            lemma_index_of_first(kv, ':');
        }
        if kv_hi == cur || (d[cur + m] as u32) >= 128 {
            assert(split_key_value(kv) is None);
            return None;
        }
        assert(kv[m as int] == d@[cur + m]);
        let key = string_of(d, cur, cur + m);
        let value = string_of(d, cur + m + 1, kv_hi);
        assert(key@ =~= kv.take(m as int));
        assert(value@ =~= kv.skip(m + 1));
        assert(split_key_value(kv) == Some((key@, value@)));
        let ghost before = pairs_view(acc@);
        acc.push((key, value));
        assert(pairs_view(acc@) =~= before.push((key@, value@)));
        if spos == 0 {
            proof {
                assert(parse_fields(res) == Some(seq![(key@, value@)]));
                assert(before + seq![(key@, value@)] =~= pairs_view(acc@));
            }
            return Some(acc);
        }
        let next = cur + spos + 1;
        proof {
            assert(res.skip(spos + 1) =~= d@.subrange(next as int, hi as int));
            let tail = parse_fields(d@.subrange(next as int, hi as int));
            assert(parse_fields(res) == prepend(seq![(key@, value@)], tail));
            if tail is Some {
                assert(before + (seq![(key@, value@)] + tail->0) =~= pairs_view(acc@) + tail->0);
            }
        }
        cur = next;
    }
}

/// Reads the records of `d`.
fn parse_records_in(d: &Vec<char>) -> (r: Option<Vec<Vec<(String, String)>>>)
    ensures
        match r {
            Some(v) => parse_records(d@) == Some(records_view(v@)),
            None => parse_records(d@) is None,
        },
{
    let n = d.len();
    let mut acc: Vec<Vec<(String, String)>> = Vec::new();
    let mut pos: usize = 0;
    assert(d@.subrange(0, n as int) =~= d@);
    assert(records_view(acc@) =~= Seq::<Seq<TextPair>>::empty());
    assert(prepend(Seq::<Seq<TextPair>>::empty(), parse_records(d@)) =~= parse_records(d@)) by {
        if parse_records(d@) is Some {
            assert(Seq::<Seq<TextPair>>::empty() + parse_records(d@)->0 =~= parse_records(d@)->0);
        }
    }
    loop
        invariant
            pos <= n,
            n == d.len(),
            parse_records(d@) == prepend(records_view(acc@), parse_records(d@.subrange(pos as int, n as int))),
        decreases n - pos,
    {
        let ghost data = d@.subrange(pos as int, n as int);
        let start = find_in(d, pos, n, '{');
        proof {
            lemma_index_of_first(data, '{');
        }
        if start == 0 {
            proof {
                assert(parse_records(data) == Some(Seq::<Seq<TextPair>>::empty()));
                assert(records_view(acc@) + Seq::<Seq<TextPair>>::empty() =~= records_view(acc@));
            }
            return Some(acc);
        }
        let rest_lo = pos + start + 1;
        let ghost rest = d@.subrange(rest_lo as int, n as int);
        assert(data.skip(start + 1) =~= rest);
        let end = find_in(d, rest_lo, n, '}');
        let fields = parse_fields_in(d, rest_lo, rest_lo + end);
        assert(rest.take(end as int) =~= d@.subrange(rest_lo as int, rest_lo + end));
        assert(rest.skip(end as int) =~= d@.subrange(rest_lo + end, n as int));
        match fields {
            None => {
                return None;
            },
            Some(f) => {
                let ghost fv = pairs_view(f@);
                let ghost before = records_view(acc@);
                acc.push(f);
                assert(records_view(acc@) =~= before.push(fv));
                let next = rest_lo + end;
                proof {
                    let tail = parse_records(d@.subrange(next as int, n as int));
                    assert(parse_records(data) == prepend(seq![fv], tail));
                    if tail is Some {
                        assert(before + (seq![fv] + tail->0) =~= records_view(acc@) + tail->0);
                    }
                }
                pos = next;
            },
        }
    }
}

/// Whether the test data text can be read: no field of its records is
/// empty, and none without a colon starts with a non-ASCII character.
pub fn test_data_is_readable(text: &str) -> (ok: bool)
    ensures
        ok == (test_data_records(text@) is Some),
{
    let chars = chars_of(text);
    let data = remove_quotes(&chars);
    parse_records_in(&data).is_some()
}

/// Reads the test data text: drops its double quotes, then reads each record
/// `{name:value,...}` into a trait object and lists the trait names of all
/// records, each once, in the order in which they first come. The text must
/// be readable (see `test_data_is_readable`).
pub fn parse_test_data(text: &str) -> (result: (Vec<TraitObject>, Vec<String>))
    requires
        test_data_records(text@) is Some,
    ensures
        ({
            let recs = test_data_records(text@)->0;
            &&& result.0.len() == recs.len()
            &&& forall|i: int| 0 <= i < recs.len() ==> #[trigger] result.0[i]@ == pairs_to_map(recs[i])
            &&& result.1.deep_view() == trait_names(recs)
        }),
{
    let chars = chars_of(text);
    let data = remove_quotes(&chars);
    let records = parse_records_in(&data).unwrap();
    build_trait_objects(records)
}

} // verus!
