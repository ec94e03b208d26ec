use vstd::prelude::*;

verus! {

/// How many times `v` occurs in `s`.
pub open spec fn count_of<T>(s: Seq<T>, v: T) -> nat
    decreases s.len(),
{
    if s.len() == 0 {
        0
    } else {
        count_of(s.drop_last(), v) + if s.last() == v {
            1nat
        } else {
            0nat
        }
    }
}

/// A value occurs at most as many times as the sequence is long, and at
/// least once where it stands in it.
pub proof fn lemma_count_of_bounds<T>(s: Seq<T>, v: T)
    ensures
        count_of(s, v) <= s.len(),
        s.contains(v) ==> count_of(s, v) >= 1,
    decreases s.len(),
{
    if s.len() > 0 {
        lemma_count_of_bounds(s.drop_last(), v);
        if s.contains(v) && s.last() != v {
            let i = choose|i: int| 0 <= i < s.len() && s[i] == v;
            assert(s.drop_last()[i] == v);
        }
    }
}

/// Counts, for every cell of every column, how many cells of its column hold
/// the same value; also gives the number of tokens, the length of the first
/// column, by which the counts are divided into frequencies.
pub fn get_traits_count_freq_number(input: Vec<Vec<String>>) -> (result: (Vec<Vec<usize>>, usize))
    requires
        input.len() > 0,
    ensures
        result.1 == input[0].len(),
        result.0.len() == input.len(),
        forall|c: int| 0 <= c < input.len() ==> #[trigger] result.0[c].len() == input[c].len(),
        forall|c: int, i: int|
            0 <= c < input.len() && 0 <= i < input[c].len() ==> #[trigger] result.0[c][i] as nat
                == count_of(input.deep_view()[c], input.deep_view()[c][i]),
        forall|c: int, i: int|
            0 <= c < input.len() && 0 <= i < input[c].len() ==> 1 <= #[trigger] result.0[c][i]
                <= input[c].len(),
{
    let ghost cols = input.deep_view();
    let no_tokens = input[0].len();
    let mut traits_count: Vec<Vec<usize>> = Vec::new();
    let mut c: usize = 0;
    while c < input.len()
        invariant
            cols == input.deep_view(),
            c <= input.len(),
            traits_count.len() == c,
            forall|k: int| 0 <= k < c ==> #[trigger] traits_count[k].len() == input[k].len(),
            forall|k: int, i: int|
                0 <= k < c && 0 <= i < input[k].len() ==> #[trigger] traits_count[k][i] as nat
                    == count_of(cols[k], cols[k][i]),
        decreases input.len() - c,
    {
        let col = &input[c];
        let ghost s = cols[c as int];
        assert(s == col.deep_view());
        let mut count_col: Vec<usize> = Vec::new();
        let mut i: usize = 0;
        while i < col.len()
            invariant
                s == col.deep_view(),
                i <= col.len(),
                count_col.len() == i,
                forall|k: int| 0 <= k < i ==> #[trigger] count_col[k] as nat == count_of(s, s[k]),
            decreases col.len() - i,
        {
            let value = &col[i];
            let mut count: usize = 0;
            let mut j: usize = 0;
            while j < col.len()
                invariant
                    s == col.deep_view(),
                    j <= col.len(),
                    i < col.len(),
                    value@ == s[i as int],
                    count as nat == count_of(s.take(j as int), s[i as int]),
                    count <= j,
                decreases col.len() - j,
            {
                assert(s.take(j + 1).drop_last() =~= s.take(j as int));
                assert(s[j as int] == col@[j as int]@ && s[i as int] == col@[i as int]@);
                assert(s.take(j + 1).last() == s[j as int]);
                assert(count_of(s.take(j + 1), s[i as int]) == count_of(s.take(j as int), s[i as int]) + if s[j as int] == s[i as int] { 1nat } else { 0nat });
                if col[j] == *value {
                    count = count + 1;
                }
                j = j + 1;
            }
            assert(s.take(col.len() as int) =~= s);
            count_col.push(count);
            i = i + 1;
        }
        traits_count.push(count_col);
        c = c + 1;
    }
    proof {
        assert forall|k: int, i: int|
            0 <= k < input.len() && 0 <= i < input[k].len() implies 1 <= #[trigger] traits_count[k][i]
            <= input[k].len() by {
            assert(cols[k].len() == input[k].len());
            assert(cols[k].contains(cols[k][i]));
            lemma_count_of_bounds(cols[k], cols[k][i]);
        }
    }
    (traits_count, no_tokens)
}

/// For every column, the number of different values it holds.
pub fn distinct_value_counts(traits_value: &Vec<Vec<String>>) -> (w: Vec<usize>)
    ensures
        w.len() == traits_value.len(),
        forall|c: int| 0 <= c < traits_value.len() ==> #[trigger] w[c] as nat
            == traits_value.deep_view()[c].to_set().len(),
        forall|c: int| 0 <= c < traits_value.len() ==> #[trigger] w[c] <= traits_value[c].len(),
        forall|c: int| 0 <= c < traits_value.len() && traits_value[c].len() > 0 ==> #[trigger] w[c] >= 1,
{
    let ghost cols = traits_value.deep_view();
    let mut w: Vec<usize> = Vec::new();
    let mut c: usize = 0;
    while c < traits_value.len()
        invariant
            cols == traits_value.deep_view(),
            c <= traits_value.len(),
            w.len() == c,
            forall|k: int| 0 <= k < c ==> #[trigger] w[k] as nat == cols[k].to_set().len(),
            forall|k: int| 0 <= k < c ==> #[trigger] w[k] <= traits_value[k].len(),
            forall|k: int| 0 <= k < c && traits_value[k].len() > 0 ==> #[trigger] w[k] >= 1,
        decreases traits_value.len() - c,
    {
        let col = &traits_value[c];
        let ghost s = cols[c as int];
        assert(s == col.deep_view());
        let mut value_list: Vec<String> = Vec::new();
        let mut i: usize = 0;
        while i < col.len()
            invariant
                s == col.deep_view(),
                i <= col.len(),
                value_list.deep_view().no_duplicates(),
                value_list.deep_view().to_set() == s.take(i as int).to_set(),
                value_list.len() <= i,
            decreases col.len() - i,
        {
            let val = &col[i];
            let mut seen = false;
            let mut j: usize = 0;
            while j < value_list.len()
                invariant
                    j <= value_list.len(),
                    seen == exists|k: int| 0 <= k < j && value_list.deep_view()[k] == val@,
                decreases value_list.len() - j,
            {
                assert(value_list.deep_view()[j as int] == value_list@[j as int]@);
                if value_list[j] == *val {
                    seen = true;
                }
                j = j + 1;
            }
            let ghost before = value_list.deep_view();
            assert(s[i as int] == val@);
            let ghost next = s.take(i + 1);
            let ghost prev = s.take(i as int);
            assert(next =~= prev.push(val@));
            if !seen {
                value_list.push(val.clone());
                assert(value_list.deep_view() =~= before.push(val@));
                assert(!before.contains(val@));
                assert(value_list.deep_view().no_duplicates());
                assert forall|x: Seq<char>| #[trigger] value_list.deep_view().to_set().contains(x) <==> next.to_set().contains(x) by {
                    if x == val@ {
                        assert(value_list.deep_view()[before.len() as int] == x);
                        assert(next[i as int] == x);
                    } else {
                        if value_list.deep_view().contains(x) {
                            let k = choose|k: int| 0 <= k < value_list.deep_view().len() && value_list.deep_view()[k] == x;
                            assert(before[k] == x);
                            assert(before.to_set().contains(x));
                            let m = choose|m: int| 0 <= m < i && prev[m] == x;
                            assert(next[m] == x);
                        }
                        if next.contains(x) {
                            let m = choose|m: int| 0 <= m < i + 1 && next[m] == x;
                            assert(prev[m] == x);
                            assert(prev.to_set().contains(x));
                            let k = choose|k: int| 0 <= k < before.len() && before[k] == x;
                            assert(value_list.deep_view()[k] == x);
                        }
                    }
                }
                assert(value_list.deep_view().to_set() =~= next.to_set());
            } else {
                proof {
                    let k = choose|k: int| 0 <= k < before.len() && before[k] == val@;
                    assert(before.to_set().contains(val@));
                }
                assert forall|x: Seq<char>| #[trigger] before.to_set().contains(x) <==> next.to_set().contains(x) by {
                    if next.contains(x) && x != val@ {
                        let m = choose|m: int| 0 <= m < i + 1 && next[m] == x;
                        assert(prev[m] == x);
                        assert(prev.to_set().contains(x));
                    }
                    if before.to_set().contains(x) {
                        assert(prev.to_set().contains(x));
                        let m = choose|m: int| 0 <= m < i && prev[m] == x;
                        assert(next[m] == x);
                    }
                }
                assert(value_list.deep_view().to_set() =~= next.to_set());
            }
            i = i + 1;
        }
        assert(s.take(col.len() as int) =~= s);
        proof {
            value_list.deep_view().unique_seq_to_set();
        }
        assert(value_list.deep_view().len() == value_list.len());
        let ghost before_w = w@;
        w.push(value_list.len());
        proof {
            s.lemma_cardinality_of_set();
            if col.len() > 0 {
                assert(s.take(1).to_set().contains(s[0]));
                assert(value_list.deep_view().to_set().contains(s[0]));
                assert(value_list.deep_view().contains(s[0]));
            }
        }
        assert forall|k: int| 0 <= k < c + 1 implies #[trigger] w[k] as nat == cols[k].to_set().len()
            && w[k] <= traits_value[k].len() && (traits_value[k].len() > 0 ==> w[k] >= 1) by {
            if k < c {
                assert(w[k] == before_w[k]);
            }
        }
        c = c + 1;
    }
    w
}

} // verus!
