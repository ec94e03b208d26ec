use vstd::prelude::*;

verus! {

/// How many entries of `s` are smaller than `v`.
pub open spec fn count_less(s: Seq<u64>, v: u64) -> nat
    decreases s.len(),
{
    if s.len() == 0 {
        0
    } else {
        count_less(s.drop_last(), v) + if s.last() < v {
            1nat
        } else {
            0nat
        }
    }
}

/// Entries never decrease.
pub open spec fn is_sorted(s: Seq<u64>) -> bool {
    forall|i: int, j: int| 0 <= i <= j < s.len() ==> s[i] <= s[j]
}

/// Entries strictly increase.
pub open spec fn strictly_increasing(s: Seq<u64>) -> bool {
    forall|i: int, j: int| 0 <= i < j < s.len() ==> s[i] < s[j]
}

/// `count_less` adds up over a concatenation.
proof fn lemma_count_less_concat(a: Seq<u64>, b: Seq<u64>, v: u64)
    ensures
        count_less(a + b, v) == count_less(a, v) + count_less(b, v),
    decreases b.len(),
{
    if b.len() == 0 {
        assert(a + b =~= a);
    } else {
        lemma_count_less_concat(a, b.drop_last(), v);
        assert((a + b).drop_last() =~= a + b.drop_last());
    }
}

/// Where every entry is below `v`, all are counted; where none is, none is.
proof fn lemma_count_less_all_or_none(s: Seq<u64>, v: u64)
    ensures
        (forall|i: int| 0 <= i < s.len() ==> s[i] < v) ==> count_less(s, v) == s.len(),
        (forall|i: int| 0 <= i < s.len() ==> s[i] >= v) ==> count_less(s, v) == 0,
    decreases s.len(),
{
    if s.len() > 0 {
        lemma_count_less_all_or_none(s.drop_last(), v);
        assert(forall|i: int| 0 <= i < s.len() - 1 ==> s.drop_last()[i] == s[i]);
    }
}

/// In a sorted sequence the first place where `v` stands is the number of
/// entries smaller than `v`.
proof fn lemma_first_index_is_count_less(s: Seq<u64>, p: int)
    requires
        is_sorted(s),
        0 <= p < s.len(),
        forall|k: int| 0 <= k < p ==> s[k] != s[p],
    ensures
        count_less(s, s[p]) == p,
{
    let v = s[p];
    assert(s =~= s.take(p) + s.skip(p));
    lemma_count_less_concat(s.take(p), s.skip(p), v);
    assert forall|i: int| 0 <= i < s.take(p).len() implies s.take(p)[i] < v by {
        assert(s[i] <= s[p]);
    }
    assert forall|i: int| 0 <= i < s.skip(p).len() implies s.skip(p)[i] >= v by {
        assert(s[p] <= s[p + i]);
    }
    lemma_count_less_all_or_none(s.take(p), v);
    lemma_count_less_all_or_none(s.skip(p), v);
}

/// Sorts `v` ascending by insertion; it keeps how many entries lie below any
/// value and which values occur.
fn sort_ascending(v: &Vec<u64>) -> (sorted: Vec<u64>)
    ensures
        sorted.len() == v.len(),
        is_sorted(sorted@),
        forall|x: u64| #[trigger] count_less(sorted@, x) == count_less(v@, x),
        forall|x: u64| #[trigger] sorted@.contains(x) <==> v@.contains(x),
{
    let mut sorted: Vec<u64> = Vec::new();
    let mut i: usize = 0;
    while i < v.len()
        invariant
            i <= v.len(),
            sorted.len() == i,
            is_sorted(sorted@),
            forall|x: u64| #[trigger] count_less(sorted@, x) == count_less(v@.take(i as int), x),
            forall|x: u64| #[trigger] sorted@.contains(x) <==> v@.take(i as int).contains(x),
        decreases v.len() - i,
    {
        let x = v[i];
        let mut p: usize = 0;
        while p < sorted.len() && sorted[p] <= x
            invariant
                p <= sorted.len(),
                forall|k: int| 0 <= k < p ==> sorted@[k] <= x,
            decreases sorted.len() - p,
        {
            p = p + 1;
        }
        let ghost old_sorted = sorted@;
        sorted.insert(p, x);
        proof {
            let prefix = v@.take(i as int);
            let next = v@.take(i + 1);
            assert(next =~= prefix.push(x));
            assert(sorted@ =~= old_sorted.take(p as int) + seq![x] + old_sorted.skip(p as int));
            assert(old_sorted =~= old_sorted.take(p as int) + old_sorted.skip(p as int));
            assert forall|a: int, b: int| 0 <= a <= b < sorted@.len() implies sorted@[a] <= sorted@[b] by {
                if a < p && b > p {
                    assert(old_sorted[a] <= old_sorted[b - 1]);
                } else if a > p {
                    assert(old_sorted[a - 1] <= old_sorted[b - 1]);
                } else if a < p && b < p {
                    assert(old_sorted[a] <= old_sorted[b]);
                } else if a == p && b > p {
                    assert(p < old_sorted.len());
                    assert(old_sorted[p as int] > x);
                    assert(old_sorted[p as int] <= old_sorted[b - 1]);
                }
            }
            assert forall|y: u64| #[trigger] count_less(sorted@, y) == count_less(next, y) by {
                lemma_count_less_concat(old_sorted.take(p as int) + seq![x], old_sorted.skip(p as int), y);
                lemma_count_less_concat(old_sorted.take(p as int), seq![x], y);
                lemma_count_less_concat(old_sorted.take(p as int), old_sorted.skip(p as int), y);
                assert(seq![x].drop_last() =~= Seq::<u64>::empty());
                assert(count_less(seq![x], y) == if x < y { 1nat } else { 0nat }) by {
                    reveal_with_fuel(count_less, 2);
                }
                assert(next.drop_last() =~= prefix);
                assert(next.last() == x);
                assert(count_less(old_sorted, y) == count_less(prefix, y));
            }
            assert forall|y: u64| #[trigger] sorted@.contains(y) <==> next.contains(y) by {
                if sorted@.contains(y) && y != x {
                    let k = choose|k: int| 0 <= k < sorted@.len() && sorted@[k] == y;
                    let j = if k < p { k } else { k - 1 };
                    assert(old_sorted[j] == y);
                    assert(old_sorted.contains(y));
                    assert(prefix.contains(y));
                    let m = choose|m: int| 0 <= m < prefix.len() && prefix[m] == y;
                    assert(next[m] == y);
                }
                if sorted@.contains(y) && y == x {
                    assert(next[i as int] == y);
                }
                if next.contains(y) {
                    if y == x {
                        assert(sorted@[p as int] == y);
                    } else {
                        let m = choose|m: int| 0 <= m < next.len() && next[m] == y;
                        assert(prefix[m] == y);
                        assert(old_sorted.contains(y));
                        let k = choose|k: int| 0 <= k < old_sorted.len() && old_sorted[k] == y;
                        if k < p {
                            assert(sorted@[k] == y);
                        } else {
                            assert(sorted@[k + 1] == y);
                        }
                    }
                }
            }
        }
        i = i + 1;
    }
    assert(v@.take(v.len() as int) =~= v@);
    sorted
}

/// The first place where `x` stands in `s`, given that it stands there.
fn position_of(s: &Vec<u64>, x: u64) -> (p: usize)
    requires
        s@.contains(x),
    ensures
        p < s.len(),
        s@[p as int] == x,
        forall|k: int| 0 <= k < p ==> s@[k] != x,
{
    let mut p: usize = 0;
    while p < s.len()
        invariant
            p <= s.len(),
            s@.contains(x),
            forall|k: int| 0 <= k < p ==> s@[k] != x,
        decreases s.len() - p,
    {
        if s[p] == x {
            return p;
        }
        p = p + 1;
    }
    proof {
        let k = choose|k: int| 0 <= k < s@.len() && s@[k] == x;
    }
    p
}

/// Ranks keep the order of the values they rank: smaller values get
/// smaller ranks, equal values equal ranks, and every rank is below the
/// length of its column.
pub proof fn lemma_rank_order(s: Seq<u64>, x: u64, y: u64)
    requires
        s.contains(x),
    ensures
        x < y ==> count_less(s, x) < count_less(s, y),
        count_less(s, x) < s.len(),
    decreases s.len(),
{
    let init = s.drop_last();
    if s.last() == x {
        if x < y {
            lemma_count_less_le(init, x, y);
        }
        lemma_count_less_len(init, x);
    } else {
        let i = choose|i: int| 0 <= i < s.len() && s[i] == x;
        assert(init[i] == x);
        lemma_rank_order(init, x, y);
        if x < y && s.last() < x {
            assert(s.last() < y);
        }
    }
}

proof fn lemma_count_less_le(s: Seq<u64>, x: u64, y: u64)
    requires
        x <= y,
    ensures
        count_less(s, x) <= count_less(s, y),
    decreases s.len(),
{
    if s.len() > 0 {
        lemma_count_less_le(s.drop_last(), x, y);
    }
}

proof fn lemma_count_less_len(s: Seq<u64>, x: u64)
    ensures
        count_less(s, x) <= s.len(),
    decreases s.len(),
{
    if s.len() > 0 {
        lemma_count_less_len(s.drop_last(), x);
    }
}

/// Ranks every entry of every column: an entry's rank is its place in its
/// column sorted ascending, the first place where equal entries stand, which
/// is the number of entries of the column below it.
pub fn rare_rank(input: Vec<Vec<u64>>) -> (output: Vec<Vec<usize>>)
    ensures
        output.len() == input.len(),
        forall|c: int| 0 <= c < input.len() ==> #[trigger] output[c].len() == input[c].len(),
        forall|c: int, i: int|
            0 <= c < input.len() && 0 <= i < input[c].len() ==> #[trigger] output[c][i] as nat
                == count_less(input[c]@, input[c][i]),
{
    let mut output: Vec<Vec<usize>> = Vec::new();
    let mut c: usize = 0;
    while c < input.len()
        invariant
            c <= input.len(),
            output.len() == c,
            forall|k: int| 0 <= k < c ==> #[trigger] output[k].len() == input[k].len(),
            forall|k: int, i: int|
                0 <= k < c && 0 <= i < input[k].len() ==> #[trigger] output[k][i] as nat
                    == count_less(input[k]@, input[k][i]),
        decreases input.len() - c,
    {
        let col = &input[c];
        let ranks = sort_ascending(col);
        let mut rank_values: Vec<usize> = Vec::new();
        let mut i: usize = 0;
        while i < col.len()
            invariant
                i <= col.len(),
                ranks.len() == col.len(),
                is_sorted(ranks@),
                forall|x: u64| #[trigger] count_less(ranks@, x) == count_less(col@, x),
                forall|x: u64| #[trigger] ranks@.contains(x) <==> col@.contains(x),
                rank_values.len() == i,
                forall|k: int| 0 <= k < i ==> #[trigger] rank_values[k] as nat == count_less(col@, col@[k]),
            decreases col.len() - i,
        {
            let value = col[i];
            assert(col@.contains(value));
            assert(ranks@.contains(value));
            let rank = position_of(&ranks, value);
            proof {
                lemma_first_index_is_count_less(ranks@, rank as int);
                assert(count_less(ranks@, value) == count_less(col@, value));
            }
            rank_values.push(rank);
            i = i + 1;
        }
        output.push(rank_values);
        c = c + 1;
    }
    output
}

/// `a` and `b` hold the same values, each as often as it likes.
pub open spec fn same_values(a: Seq<u64>, b: Seq<u64>) -> bool {
    forall|x: u64| #![trigger a.contains(x)] #![trigger b.contains(x)] a.contains(x) <==> b.contains(x)
}

/// `u` lists each value of `s` once, in increasing order.
pub open spec fn is_sorted_distinct_of(u: Seq<u64>, s: Seq<u64>) -> bool {
    strictly_increasing(u) && same_values(u, s)
}

/// The values of `s`, each once, in increasing order.
pub open spec fn sorted_distinct(s: Seq<u64>) -> Seq<u64> {
    choose|u: Seq<u64>| is_sorted_distinct_of(u, s)
}

/// Two increasing lists of the same values are the same list.
pub proof fn lemma_sorted_distinct_unique(a: Seq<u64>, b: Seq<u64>)
    requires
        strictly_increasing(a),
        strictly_increasing(b),
        same_values(a, b),
    ensures
        a == b,
    decreases a.len(),
{
    if a.len() == 0 {
        if b.len() > 0 {
            assert(b.contains(b[0]));
        }
        assert(a =~= b);
    } else {
        assert(a.contains(a[0]));
        assert(b.len() > 0);
        assert(b.contains(b[0]));
        let i = choose|i: int| 0 <= i < b.len() && b[i] == a[0];
        let j = choose|j: int| 0 <= j < a.len() && a[j] == b[0];
        if i > 0 {
            assert(b[0] < b[i]);
        }
        if j > 0 {
            assert(a[0] < a[j]);
        }
        assert(a[0] == b[0]);
        let ta = a.drop_first();
        let tb = b.drop_first();
        assert forall|x: u64| #[trigger] ta.contains(x) <==> #[trigger] tb.contains(x) by {
            if ta.contains(x) {
                let k = choose|k: int| 0 <= k < ta.len() && ta[k] == x;
                assert(a[k + 1] == x && a[0] < a[k + 1]);
                assert(a.contains(x));
                let m = choose|m: int| 0 <= m < b.len() && b[m] == x;
                assert(m != 0);
                assert(tb[m - 1] == x);
            }
            if tb.contains(x) {
                let k = choose|k: int| 0 <= k < tb.len() && tb[k] == x;
                assert(b[k + 1] == x && b[0] < b[k + 1]);
                assert(b.contains(x));
                let m = choose|m: int| 0 <= m < a.len() && a[m] == x;
                assert(m != 0);
                assert(ta[m - 1] == x);
            }
        }
        lemma_sorted_distinct_unique(ta, tb);
        assert(a.len() == b.len());
        assert forall|k: int| 0 <= k < a.len() implies a[k] == b[k] by {
            if k > 0 {
                assert(a[k] == ta[k - 1] && b[k] == tb[k - 1]);
            }
        }
        assert(a =~= b);
    }
}

/// A list that is its own increasing list of distinct values: taking the
/// distinct values of what `get_unique_array` returns gives it back.
pub proof fn lemma_sorted_distinct_idempotent(u: Seq<u64>)
    requires
        strictly_increasing(u),
    ensures
        sorted_distinct(u) == u,
{
    assert(is_sorted_distinct_of(u, u));
    let w = sorted_distinct(u);
    lemma_sorted_distinct_unique(w, u);
}

/// The distinct values of `input`, in increasing order.
pub fn get_unique_array(input: Vec<u64>) -> (output: Vec<u64>)
    ensures
        is_sorted_distinct_of(output@, input@),
        output@ == sorted_distinct(input@),
{
    let mut output: Vec<u64> = Vec::new();
    let mut i: usize = 0;
    while i < input.len()
        invariant
            i <= input.len(),
            output@.no_duplicates(),
            same_values(output@, input@.take(i as int)),
        decreases input.len() - i,
    {
        let val = input[i];
        let mut seen = false;
        let mut j: usize = 0;
        while j < output.len()
            invariant
                j <= output.len(),
                seen == exists|k: int| 0 <= k < j && output@[k] == val,
            decreases output.len() - j,
        {
            if output[j] == val {
                seen = true;
            }
            j = j + 1;
        }
        let ghost before = output@;
        let ghost prefix = input@.take(i as int);
        let ghost next = input@.take(i + 1);
        assert(next =~= prefix.push(val));
        if !seen {
            output.push(val);
        }
        proof {
            assert forall|x: u64| #[trigger] output@.contains(x) <==> #[trigger] next.contains(x) by {
                if x == val {
                    assert(next[i as int] == x);
                    if !seen {
                        assert(output@[before.len() as int] == x);
                    }
                } else {
                    if output@.contains(x) {
                        let k = choose|k: int| 0 <= k < output@.len() && output@[k] == x;
                        assert(before[k] == x);
                        assert(before.contains(x));
                        let m = choose|m: int| 0 <= m < prefix.len() && prefix[m] == x;
                        assert(next[m] == x);
                    }
                    if next.contains(x) {
                        let m = choose|m: int| 0 <= m < next.len() && next[m] == x;
                        assert(prefix[m] == x);
                        assert(prefix.contains(x));
                        let k = choose|k: int| 0 <= k < before.len() && before[k] == x;
                        assert(output@[k] == x);
                    }
                }
            }
        }
        i = i + 1;
    }
    assert(input@.take(input.len() as int) =~= input@);
    let sorted = sort_ascending(&output);
    proof {
        output@.unique_seq_to_set();
        assert(sorted@.to_set() =~= output@.to_set());
        sorted@.lemma_no_dup_set_cardinality();
        assert forall|a: int, b: int| 0 <= a < b < sorted@.len() implies sorted@[a] < sorted@[b] by {
            assert(sorted@[a] <= sorted@[b]);
        }
        assert(is_sorted_distinct_of(sorted@, input@));
        assert(is_sorted_distinct_of(sorted_distinct(input@), input@));
        lemma_sorted_distinct_unique(sorted_distinct(input@), sorted@);
    }
    sorted
}

/// How many of the first `n` places hold `x` in `second` and `y` in `first`.
pub open spec fn pair_count(first: Seq<u64>, second: Seq<u64>, n: int, x: u64, y: u64) -> nat
    decreases n,
{
    if n <= 0 {
        0
    } else {
        pair_count(first, second, n - 1, x, y) + if second[n - 1] == x && first[n - 1] == y {
            1nat
        } else {
            0nat
        }
    }
}

/// No more pairs are counted than places are looked at.
proof fn lemma_pair_count_bound(first: Seq<u64>, second: Seq<u64>, n: int, x: u64, y: u64)
    requires
        n >= 0,
    ensures
        pair_count(first, second, n, x, y) <= n,
    decreases n,
{
    if n > 0 {
        lemma_pair_count_bound(first, second, n - 1, x, y);
    }
}

/// The sum of a row.
pub open spec fn row_sum(s: Seq<usize>) -> int
    decreases s.len(),
{
    if s.len() == 0 {
        0
    } else {
        row_sum(s.drop_last()) + s.last()
    }
}

/// The sum of all cells of a table.
pub open spec fn table_sum(t: Seq<Vec<usize>>) -> int
    decreases t.len(),
{
    if t.len() == 0 {
        0
    } else {
        table_sum(t.drop_last()) + row_sum(t.last()@)
    }
}

proof fn lemma_row_sum_update(s: Seq<usize>, i: int, v: usize)
    requires
        0 <= i < s.len(),
    ensures
        row_sum(s.update(i, v)) == row_sum(s) - s[i] + v,
    decreases s.len(),
{
    if i == s.len() - 1 {
        assert(s.update(i, v).drop_last() =~= s.drop_last());
    } else {
        lemma_row_sum_update(s.drop_last(), i, v);
        assert(s.update(i, v).drop_last() =~= s.drop_last().update(i, v));
    }
}

proof fn lemma_table_sum_update(t: Seq<Vec<usize>>, i: int, row: Vec<usize>)
    requires
        0 <= i < t.len(),
    ensures
        table_sum(t.update(i, row)) == table_sum(t) - row_sum(t[i]@) + row_sum(row@),
    decreases t.len(),
{
    if i == t.len() - 1 {
        assert(t.update(i, row).drop_last() =~= t.drop_last());
    } else {
        lemma_table_sum_update(t.drop_last(), i, row);
        assert(t.update(i, row).drop_last() =~= t.drop_last().update(i, row));
    }
}

proof fn lemma_row_sum_zero(s: Seq<usize>)
    requires
        forall|k: int| 0 <= k < s.len() ==> s[k] == 0,
    ensures
        row_sum(s) == 0,
    decreases s.len(),
{
    if s.len() > 0 {
        lemma_row_sum_zero(s.drop_last());
    }
}

proof fn lemma_table_sum_zero(t: Seq<Vec<usize>>)
    requires
        forall|k: int| 0 <= k < t.len() ==> row_sum(#[trigger] t[k]@) == 0,
    ensures
        table_sum(t) == 0,
    decreases t.len(),
{
    if t.len() > 0 {
        assert forall|k: int| 0 <= k < t.len() - 1 implies row_sum(#[trigger] t.drop_last()[k]@) == 0 by {
            assert(t.drop_last()[k] == t[k]);
        }
        lemma_table_sum_zero(t.drop_last());
    }
}

/// The contingency table of two columns of values: row `c` stands for the
/// `c`-th smallest value of `second`, column `r` for the `r`-th smallest value
/// of `first`, and the cell counts the places `k` below `first.len()` where
/// `second[k]` and `first[k]` are these two values. Every place is counted
/// once, so the cells add up to `first.len()`.
pub fn independent_test(first: Vec<u64>, second: Vec<u64>) -> (key_set: Vec<Vec<usize>>)
    requires
        first.len() <= second.len(),
    ensures
        key_set.len() == sorted_distinct(second@).len(),
        forall|c: int| 0 <= c < key_set.len() ==> #[trigger] key_set[c].len() == sorted_distinct(first@).len(),
        forall|c: int, r: int|
            0 <= c < key_set.len() && 0 <= r < sorted_distinct(first@).len() ==> #[trigger] key_set[c][r] as nat
                == pair_count(
                first@,
                second@,
                first.len() as int,
                sorted_distinct(second@)[c],
                sorted_distinct(first@)[r],
            ),
        table_sum(key_set@) == first.len(),
{
    let first_copy = first.clone();
    assert(first_copy@ =~= first@);
    let second_copy = second.clone();
    assert(second_copy@ =~= second@);
    let first_unique_array = get_unique_array(first_copy);
    let second_unique_array = get_unique_array(second_copy);
    let ghost fu = first_unique_array@;
    let ghost su = second_unique_array@;
    let mut zero_row: Vec<usize> = Vec::new();
    while zero_row.len() < first_unique_array.len()
        invariant
            zero_row.len() <= fu.len(),
            fu == first_unique_array@,
            forall|k: int| 0 <= k < zero_row.len() ==> zero_row[k] == 0,
        decreases fu.len() - zero_row.len(),
    {
        zero_row.push(0);
    }
    let mut key_set: Vec<Vec<usize>> = Vec::new();
    while key_set.len() < second_unique_array.len()
        invariant
            key_set.len() <= su.len(),
            su == second_unique_array@,
            zero_row.len() == fu.len(),
            forall|k: int| 0 <= k < zero_row.len() ==> zero_row[k] == 0,
            forall|c: int| 0 <= c < key_set.len() ==> #[trigger] key_set[c]@ == zero_row@,
        decreases su.len() - key_set.len(),
    {
        let row = zero_row.clone();
        assert(row@ =~= zero_row@);
        key_set.push(row);
    }
    proof {
        lemma_row_sum_zero(zero_row@);
        lemma_table_sum_zero(key_set@);
    }
    let mut index: usize = 0;
    while index < first.len()
        invariant
            first.len() <= second.len(),
            index <= first.len(),
            fu == first_unique_array@,
            su == second_unique_array@,
            is_sorted_distinct_of(fu, first@),
            is_sorted_distinct_of(su, second@),
            key_set.len() == su.len(),
            forall|c: int| 0 <= c < key_set.len() ==> #[trigger] key_set[c].len() == fu.len(),
            forall|c: int, r: int|
                0 <= c < key_set.len() && 0 <= r < fu.len() ==> #[trigger] key_set[c][r] as nat
                    == pair_count(first@, second@, index as int, su[c], fu[r]),
            table_sum(key_set@) == index,
        decreases first.len() - index,
    {
        assert(second@.contains(second@[index as int]));
        assert(first@.contains(first@[index as int]));
        let col = position_of(&second_unique_array, second[index]);
        let row = position_of(&first_unique_array, first[index]);
        let mut cells = key_set[col].clone();
        assert(cells@ =~= key_set[col as int]@);
        let v = cells[row];
        proof {
            lemma_pair_count_bound(first@, second@, index as int, su[col as int], fu[row as int]);
        }
        cells.set(row, v + 1);
        let ghost old_table = key_set@;
        let ghost new_row = cells;
        proof {
            lemma_row_sum_update(old_table[col as int]@, row as int, (v + 1) as usize);
            assert(cells@ == old_table[col as int]@.update(row as int, (v + 1) as usize));
            lemma_table_sum_update(old_table, col as int, new_row);
        }
        key_set.set(col, cells);
        proof {
            assert(key_set@ == old_table.update(col as int, new_row));
            assert forall|c: int, r: int|
                0 <= c < key_set.len() && 0 <= r < fu.len() implies #[trigger] key_set[c][r] as nat
                == pair_count(first@, second@, index + 1, su[c], fu[r]) by {
                assert(pair_count(first@, second@, index + 1, su[c], fu[r]) == pair_count(
                    first@,
                    second@,
                    index as int,
                    su[c],
                    fu[r],
                ) + if second@[index as int] == su[c] && first@[index as int] == fu[r] {
                    1nat
                } else {
                    0nat
                });
                if c != col {
                    if c < col {
                        assert(su[c] < su[col as int]);
                    } else {
                        assert(su[col as int] < su[c]);
                    }
                    assert(key_set[c] == old_table[c]);
                } else if r != row {
                    if r < row {
                        assert(fu[r] < fu[row as int]);
                    } else {
                        assert(fu[row as int] < fu[r]);
                    }
                }
            }
        }
        index = index + 1;
    }
    key_set
}

} // verus!
