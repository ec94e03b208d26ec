use vstd::prelude::*;

verus! {

/// Appends `c` to `s`.
///
/// Trusted: calls `String::push`, which the standard library documents as
/// appending the given char to the end of the string.
#[verifier::external_body]
fn push_char(s: &mut String, c: char)
    ensures
        final(s)@ == old(s)@.push(c),
{
    s.push(c);
}

/// The characters of `s`, in order.
pub fn chars_of(s: &str) -> (v: Vec<char>)
    ensures
        v@ == s@,
{
    broadcast use vstd::string::axiom_spec_iter;

    let mut v: Vec<char> = Vec::new();
    for c in it: s.chars()
        invariant
            it.seq() == s@,
            v@ == it.seq().take(it.index() as int),
    {
        assert(it.seq().take(it.index() + 1) =~= v@.push(c));
        v.push(c);
    }
    assert(s@.take(s@.len() as int) =~= s@);
    v
}

/// The text made of `chars[lo..hi]`.
pub fn string_of(chars: &Vec<char>, lo: usize, hi: usize) -> (s: String)
    requires
        lo <= hi <= chars.len(),
    ensures
        s@ == chars@.subrange(lo as int, hi as int),
{
    let mut s = String::new();
    let mut i = lo;
    while i < hi
        invariant
            lo <= i <= hi <= chars.len(),
            s@ == chars@.subrange(lo as int, i as int),
        decreases hi - i,
    {
        push_char(&mut s, chars[i]);
        assert(s@ =~= chars@.subrange(lo as int, i + 1));
        i = i + 1;
    }
    s
}

/// Where `c` first stands in `s`, or -1 where it does not stand there.
pub open spec fn index_of_first(s: Seq<char>, c: char) -> int
    decreases s.len(),
{
    if s.len() == 0 {
        -1
    } else if s[0] == c {
        0
    } else {
        let r = index_of_first(s.drop_first(), c);
        if r < 0 {
            -1
        } else {
            r + 1
        }
    }
}

/// Where `c` first stands in `s`, or 0 where it does not stand there (what
/// `s.find(c).unwrap_or(0)` gives, counted in characters).
pub open spec fn find_or_zero(s: Seq<char>, c: char) -> int {
    let r = index_of_first(s, c);
    if r < 0 {
        0
    } else {
        r
    }
}

/// `index_of_first` is the first place of `c`, or -1 when `c` is absent.
pub proof fn lemma_index_of_first(s: Seq<char>, c: char)
    ensures
        -1 <= index_of_first(s, c) < s.len(),
        index_of_first(s, c) >= 0 ==> s[index_of_first(s, c)] == c,
        forall|j: int| 0 <= j < index_of_first(s, c) ==> s[j] != c,
        index_of_first(s, c) < 0 ==> forall|j: int| 0 <= j < s.len() ==> s[j] != c,
        0 <= find_or_zero(s, c) <= s.len(),
        s.len() > 0 ==> find_or_zero(s, c) < s.len(),
    decreases s.len(),
{
    if s.len() > 0 && s[0] != c {
        lemma_index_of_first(s.drop_first(), c);
        assert forall|j: int| 0 < j < s.len() implies s[j] == s.drop_first()[j - 1] by {}
    }
}

/// The offset from `lo` of the first `c` in `chars[lo..hi]`, or 0.
pub fn find_in(chars: &Vec<char>, lo: usize, hi: usize, c: char) -> (r: usize)
    requires
        lo <= hi <= chars.len(),
    ensures
        r as int == find_or_zero(chars@.subrange(lo as int, hi as int), c),
        r <= hi - lo,
{
    let ghost s = chars@.subrange(lo as int, hi as int);
    proof {
        lemma_index_of_first(s, c);
    }
    let mut k = lo;
    while k < hi
        invariant
            lo <= k <= hi <= chars.len(),
            s == chars@.subrange(lo as int, hi as int),
            forall|j: int| 0 <= j < k - lo ==> s[j] != c,
        decreases hi - k,
    {
        if chars[k] == c {
            proof {
                assert(s[k - lo] == c);
                lemma_index_of_first(s, c);
                let r = index_of_first(s, c);
                let j = k - lo;
                if r < 0 {
                    assert(s[j] != c);
                } else if r > j {
                    assert(s[j] != c);
                } else if r < j {
                    assert(s[r] != c);
                }
                assert(r == j);
            }
            return k - lo;
        }
        k = k + 1;
    }
    proof {
        let r = index_of_first(s, c);
        if r >= 0 {
            assert(s[r] == c);
        }
    }
    0
}

/// `pat` stands in `s` from place `i` on.
pub open spec fn matches_at(s: Seq<char>, pat: Seq<char>, i: int) -> bool {
    0 <= i && i + pat.len() <= s.len() && s.subrange(i, i + pat.len()) == pat
}

/// Where `pat` first stands in `s`, or -1 where it does not stand there.
pub open spec fn index_of_pattern(s: Seq<char>, pat: Seq<char>) -> int
    decreases s.len(),
{
    if matches_at(s, pat, 0) {
        0
    } else if s.len() == 0 {
        -1
    } else {
        let r = index_of_pattern(s.drop_first(), pat);
        if r < 0 {
            -1
        } else {
            r + 1
        }
    }
}

/// Where `pat` first stands in `s`, or 0 where it does not (what
/// `s.find(pat).unwrap_or(0)` gives, counted in characters).
pub open spec fn find_pattern_or_zero(s: Seq<char>, pat: Seq<char>) -> int {
    let r = index_of_pattern(s, pat);
    if r < 0 {
        0
    } else {
        r
    }
}

proof fn lemma_matches_at_shift(s: Seq<char>, pat: Seq<char>, j: int)
    requires
        s.len() > 0,
        0 <= j,
    ensures
        matches_at(s.drop_first(), pat, j) == matches_at(s, pat, j + 1),
{
    if j + pat.len() <= s.len() - 1 {
        assert(s.drop_first().subrange(j, j + pat.len()) =~= s.subrange(j + 1, j + 1 + pat.len()));
    }
}

/// `index_of_pattern` is the first place where `pat` stands, or -1.
pub proof fn lemma_index_of_pattern(s: Seq<char>, pat: Seq<char>)
    ensures
        -1 <= index_of_pattern(s, pat) <= s.len(),
        index_of_pattern(s, pat) >= 0 ==> matches_at(s, pat, index_of_pattern(s, pat)),
        forall|j: int| 0 <= j < index_of_pattern(s, pat) ==> !matches_at(s, pat, j),
        index_of_pattern(s, pat) < 0 ==> forall|j: int| 0 <= j ==> !matches_at(s, pat, j),
        0 <= find_pattern_or_zero(s, pat) <= s.len(),
        pat.len() > 0 && find_pattern_or_zero(s, pat) > 0 ==> find_pattern_or_zero(s, pat) < s.len(),
    decreases s.len(),
{
    if !matches_at(s, pat, 0) && s.len() > 0 {
        lemma_index_of_pattern(s.drop_first(), pat);
        assert forall|j: int| 0 <= j implies matches_at(s.drop_first(), pat, j) == matches_at(s, pat, j + 1) by {
            lemma_matches_at_shift(s, pat, j);
        }
        let r = index_of_pattern(s, pat);
        assert forall|j: int| 0 <= j < r implies !matches_at(s, pat, j) by {
            if j > 0 {
                assert(matches_at(s.drop_first(), pat, j - 1) == matches_at(s, pat, j));
            }
        }
        if r < 0 {
            assert forall|j: int| 0 <= j implies !matches_at(s, pat, j) by {
                if j > 0 {
                    assert(matches_at(s.drop_first(), pat, j - 1) == matches_at(s, pat, j));
                }
            }
        }
    }
    if s.len() == 0 && !matches_at(s, pat, 0) {
        assert forall|j: int| 0 <= j implies !matches_at(s, pat, j) by {
            if j > 0 && matches_at(s, pat, j) {
                assert(j + pat.len() <= 0);
            }
        }
    }
}

/// Whether `pat` stands in `chars` from place `i` on, within `hi`.
fn matches_in(chars: &Vec<char>, i: usize, hi: usize, pat: &Vec<char>) -> (b: bool)
    requires
        i <= hi <= chars.len(),
    ensures
        b == matches_at(chars@.subrange(0, hi as int), pat@, i as int),
{
    let ghost s = chars@.subrange(0, hi as int);
    if pat.len() > hi - i {
        return false;
    }
    let mut k: usize = 0;
    while k < pat.len()
        invariant
            i + pat.len() <= hi <= chars.len(),
            s == chars@.subrange(0, hi as int),
            k <= pat.len(),
            forall|j: int| 0 <= j < k ==> chars@[i + j] == pat@[j],
        decreases pat.len() - k,
    {
        if chars[i + k] != pat[k] {
            assert(s.subrange(i as int, i + pat.len())[k as int] != pat@[k as int]);
            return false;
        }
        k = k + 1;
    }
    assert(s.subrange(i as int, i + pat.len()) =~= pat@);
    true
}

/// The offset from `lo` of the first place in `chars[lo..hi]` where `pat`
/// stands, or 0.
pub fn find_pattern_in(chars: &Vec<char>, lo: usize, hi: usize, pat: &Vec<char>) -> (r: usize)
    requires
        lo <= hi <= chars.len(),
    ensures
        r as int == find_pattern_or_zero(chars@.subrange(lo as int, hi as int), pat@),
        r <= hi - lo,
{
    let ghost s = chars@.subrange(lo as int, hi as int);
    let ghost whole = chars@.subrange(0, hi as int);
    proof {
        lemma_index_of_pattern(s, pat@);
    }
    let mut k = lo;
    loop
        invariant
            lo <= k <= hi,
            hi <= chars.len(),
            s == chars@.subrange(lo as int, hi as int),
            whole == chars@.subrange(0, hi as int),
            forall|j: int| 0 <= j < k - lo ==> !matches_at(s, pat@, j),
        decreases hi - k,
    {
        let m = matches_in(chars, k, hi, pat);
        proof {
            if k + pat@.len() <= hi {
                assert(whole.subrange(k as int, k + pat@.len()) =~= s.subrange(k - lo, k - lo + pat@.len()));
            }
        }
        if m {
            proof {
                lemma_index_of_pattern(s, pat@);
                let r = index_of_pattern(s, pat@);
                let j = k - lo;
                assert(matches_at(s, pat@, j));
                if r < 0 {
                    assert(!matches_at(s, pat@, j));
                } else if r > j {
                    assert(!matches_at(s, pat@, j));
                } else if r < j {
                    assert(!matches_at(s, pat@, r));
                }
                assert(r == j);
            }
            return k - lo;
        }
        if k == hi {
            proof {
                lemma_index_of_pattern(s, pat@);
                let r = index_of_pattern(s, pat@);
                if r >= 0 {
                    assert(matches_at(s, pat@, r));
                    assert(r <= hi - lo);
                    assert(!matches_at(s, pat@, r));
                }
            }
            return 0;
        }
        k = k + 1;
    }
}

/// `s` with every non-overlapping occurrence of `pat`, found from left to
/// right, replaced by `rep` (what `str::replace` gives).
pub open spec fn replace_all(s: Seq<char>, pat: Seq<char>, rep: Seq<char>) -> Seq<char>
    decreases s.len(),
{
    if s.len() == 0 {
        s
    } else if pat.len() > 0 && matches_at(s, pat, 0) {
        rep + replace_all(s.skip(pat.len() as int), pat, rep)
    } else {
        seq![s[0]] + replace_all(s.drop_first(), pat, rep)
    }
}

/// `chars` with every occurrence of `pat` replaced by `rep`.
pub fn replace_chars(chars: &Vec<char>, pat: &Vec<char>, rep: &Vec<char>) -> (out: Vec<char>)
    requires
        pat.len() > 0,
    ensures
        out@ == replace_all(chars@, pat@, rep@),
{
    let mut out: Vec<char> = Vec::new();
    let mut i: usize = 0;
    assert(chars@.skip(0) =~= chars@);
    assert(out@ + replace_all(chars@, pat@, rep@) =~= replace_all(chars@, pat@, rep@));
    while i < chars.len()
        invariant
            i <= chars.len(),
            pat.len() > 0,
            replace_all(chars@, pat@, rep@) == out@ + replace_all(chars@.skip(i as int), pat@, rep@),
        decreases chars.len() - i,
    {
        let ghost rest = chars@.skip(i as int);
        let m = matches_in(chars, i, chars.len(), pat);
        proof {
            assert(chars@.subrange(0, chars.len() as int) =~= chars@);
            if i + pat@.len() <= chars.len() {
                assert(rest.subrange(0, pat@.len() as int) =~= chars@.subrange(i as int, i + pat@.len()));
            }
            assert(matches_at(rest, pat@, 0) == m);
        }
        if m {
            let ghost before = out@;
            let mut k: usize = 0;
            while k < rep.len()
                invariant
                    k <= rep.len(),
                    out@ == before + rep@.take(k as int),
                decreases rep.len() - k,
            {
                out.push(rep[k]);
                assert(out@ =~= before + rep@.take(k + 1));
                k = k + 1;
            }
            assert(rep@.take(rep.len() as int) =~= rep@);
            assert(rest.skip(pat@.len() as int) =~= chars@.skip(i + pat.len()));
            assert(out@ + replace_all(chars@.skip(i + pat.len()), pat@, rep@) =~= before + replace_all(
                rest,
                pat@,
                rep@,
            ));
            i = i + pat.len();
        } else {
            let ghost before = out@;
            out.push(chars[i]);
            assert(rest.drop_first() =~= chars@.skip(i + 1));
            assert(out@ + replace_all(chars@.skip(i + 1), pat@, rep@) =~= before + replace_all(
                rest,
                pat@,
                rep@,
            ));
            i = i + 1;
        }
    }
    assert(chars@.skip(chars.len() as int) =~= Seq::<char>::empty());
    assert(out@ + Seq::<char>::empty() =~= out@);
    out
}

/// `s` without its double quotes.
pub open spec fn without_quotes(s: Seq<char>) -> Seq<char>
    decreases s.len(),
{
    if s.len() == 0 {
        s
    } else if s.last() == '"' {
        without_quotes(s.drop_last())
    } else {
        without_quotes(s.drop_last()).push(s.last())
    }
}

/// Dropping quotes leaves no quote, keeps every other character, in order,
/// and works piece by piece: the quotes of a joined text are dropped from
/// each part.
pub proof fn lemma_without_quotes(a: Seq<char>, b: Seq<char>)
    ensures
        !without_quotes(a).contains('"'),
        without_quotes(a + b) == without_quotes(a) + without_quotes(b),
        (forall|i: int| 0 <= i < a.len() ==> a[i] != '"') ==> without_quotes(a) == a,
    decreases a.len() + b.len(),
{
    if b.len() > 0 {
        lemma_without_quotes(a, b.drop_last());
        assert((a + b).drop_last() =~= a + b.drop_last());
        assert((a + b).last() == b.last());
        if b.last() != '"' {
            assert(without_quotes(a) + without_quotes(b.drop_last()).push(b.last()) =~= (without_quotes(a)
                + without_quotes(b.drop_last())).push(b.last()));
        }
    } else {
        assert(a + b =~= a);
        assert(without_quotes(a) + without_quotes(b) =~= without_quotes(a));
        if a.len() > 0 {
            lemma_without_quotes(a.drop_last(), b);
            if without_quotes(a).contains('"') {
                let k = choose|k: int| 0 <= k < without_quotes(a).len() && without_quotes(a)[k] == '"';
                if a.last() != '"' && k == without_quotes(a).len() - 1 {
                } else {
                    assert(without_quotes(a.drop_last())[k] == '"');
                }
            }
            if forall|i: int| 0 <= i < a.len() ==> a[i] != '"' {
                assert(forall|i: int| 0 <= i < a.drop_last().len() ==> a.drop_last()[i] != '"') by {
                    assert forall|i: int| 0 <= i < a.drop_last().len() implies a.drop_last()[i] != '"' by {
                        assert(a.drop_last()[i] == a[i]);
                    }
                }
                assert(a[a.len() - 1] != '"');
                assert(a.drop_last().push(a.last()) =~= a);
            }
        }
    }
}

/// Where `pat` stands nowhere in `s`, replacing it leaves `s` as it is.
pub proof fn lemma_replace_absent(s: Seq<char>, pat: Seq<char>, rep: Seq<char>)
    requires
        pat.len() > 0,
        forall|j: int| 0 <= j ==> !matches_at(s, pat, j),
    ensures
        replace_all(s, pat, rep) == s,
    decreases s.len(),
{
    if s.len() > 0 {
        assert forall|j: int| 0 <= j implies !matches_at(s.drop_first(), pat, j) by {
            lemma_matches_at_shift(s, pat, j);
            assert(!matches_at(s, pat, j + 1));
        }
        lemma_replace_absent(s.drop_first(), pat, rep);
        assert(seq![s[0]] + s.drop_first() =~= s);
    }
}

/// `chars` without its double quotes.
pub fn remove_quotes(chars: &Vec<char>) -> (out: Vec<char>)
    ensures
        out@ == without_quotes(chars@),
{
    let mut out: Vec<char> = Vec::new();
    let mut i: usize = 0;
    while i < chars.len()
        invariant
            i <= chars.len(),
            out@ == without_quotes(chars@.take(i as int)),
        decreases chars.len() - i,
    {
        assert(chars@.take(i + 1).drop_last() =~= chars@.take(i as int));
        if chars[i] != '"' {
            out.push(chars[i]);
        }
        i = i + 1;
    }
    assert(chars@.take(chars.len() as int) =~= chars@);
    out
}

/// The decimal digit `d`.
pub open spec fn digit_char(d: nat) -> char {
    if d == 0 {
        '0'
    } else if d == 1 {
        '1'
    } else if d == 2 {
        '2'
    } else if d == 3 {
        '3'
    } else if d == 4 {
        '4'
    } else if d == 5 {
        '5'
    } else if d == 6 {
        '6'
    } else if d == 7 {
        '7'
    } else if d == 8 {
        '8'
    } else {
        '9'
    }
}

/// The decimal writing of `n`, without leading zeros.
pub open spec fn decimal(n: nat) -> Seq<char>
    decreases n,
{
    if n < 10 {
        seq![digit_char(n)]
    } else {
        decimal(n / 10).push(digit_char(n % 10))
    }
}

/// The value of a decimal digit character.
pub open spec fn digit_value(c: char) -> int {
    (c as u32) as int - 48
}

/// `c` is one of `0` to `9`.
pub open spec fn is_digit(c: char) -> bool {
    48 <= (c as u32) && (c as u32) <= 57
}

/// The number that a string of digits writes in base ten.
pub open spec fn digits_value(s: Seq<char>) -> int
    decreases s.len(),
{
    if s.len() == 0 {
        0
    } else {
        digits_value(s.drop_last()) * 10 + digit_value(s.last())
    }
}

proof fn lemma_digit_char(d: nat)
    requires
        d < 10,
    ensures
        is_digit(digit_char(d)),
        digit_value(digit_char(d)) == d,
{
}

/// The decimal writing of `n` is made of digits only, has no leading zero,
/// and writes the number `n`.
pub proof fn lemma_decimal_writes_n(n: nat)
    ensures
        decimal(n).len() >= 1,
        forall|i: int| 0 <= i < decimal(n).len() ==> is_digit(#[trigger] decimal(n)[i]),
        digits_value(decimal(n)) == n,
        decimal(n).len() > 1 ==> decimal(n)[0] != '0',
    decreases n,
{
    lemma_digit_char(n % 10);
    if n >= 10 {
        lemma_decimal_writes_n(n / 10);
        let d = decimal(n);
        let h = decimal(n / 10);
        assert(d.drop_last() =~= h);
        assert forall|i: int| 0 <= i < d.len() implies is_digit(#[trigger] d[i]) by {
            if i < h.len() {
                assert(d[i] == h[i]);
            }
        }
        if h.len() == 1 {
            assert(digits_value(h) == digit_value(h[0])) by {
                assert(h.drop_last() =~= Seq::<char>::empty());
                reveal_with_fuel(digits_value, 2);
            }
            assert(n / 10 >= 1);
            assert(h[0] != '0');
        }
        assert(d[0] == h[0]);
        assert(d.last() == digit_char(n % 10));
        assert(digits_value(d) == digits_value(h) * 10 + digit_value(digit_char(n % 10)));
        assert((n / 10) * 10 + n % 10 == n);
    } else {
        lemma_digit_char(n);
        assert(decimal(n).drop_last() =~= Seq::<char>::empty());
        assert(digits_value(decimal(n)) == digit_value(digit_char(n))) by {
            reveal_with_fuel(digits_value, 2);
        }
    }
}

fn digit(d: u64) -> (c: char)
    requires
        d < 10,
    ensures
        c == digit_char(d as nat),
{
    if d == 0 {
        '0'
    } else if d == 1 {
        '1'
    } else if d == 2 {
        '2'
    } else if d == 3 {
        '3'
    } else if d == 4 {
        '4'
    } else if d == 5 {
        '5'
    } else if d == 6 {
        '6'
    } else if d == 7 {
        '7'
    } else if d == 8 {
        '8'
    } else {
        '9'
    }
}

/// Appends the decimal writing of `n` to `out`.
pub fn push_decimal(out: &mut Vec<char>, n: u64)
    ensures
        final(out)@ == old(out)@ + decimal(n as nat),
    decreases n,
{
    if n < 10 {
        out.push(digit(n));
        assert(out@ =~= old(out)@ + decimal(n as nat));
    } else {
        push_decimal(out, n / 10);
        out.push(digit(n % 10));
        assert(out@ =~= old(out)@ + decimal(n as nat));
    }
}

} // verus!
