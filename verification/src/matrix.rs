use vstd::prelude::*;

use crate::trait_object::TraitObject;

verus! {

/// The `j`-th column of a table whose rows may differ in length: the entries
/// `rows[i][j]` of every row `i` long enough to have one, in row order.
pub open spec fn column_of(rows: Seq<Seq<Seq<char>>>, j: int) -> Seq<Seq<char>>
    decreases rows.len(),
{
    if rows.len() == 0 {
        Seq::empty()
    } else {
        let init = column_of(rows.drop_last(), j);
        if 0 <= j < rows.last().len() {
            init.push(rows.last()[j])
        } else {
            init
        }
    }
}

/// The transpose of a table, with as many columns as its first row has cells.
pub open spec fn transpose(rows: Seq<Seq<Seq<char>>>) -> Seq<Seq<Seq<char>>>
    recommends
        rows.len() > 0,
{
    Seq::new(rows[0].len(), |j: int| column_of(rows, j))
}

/// Every row is at most as long as the first one.
pub open spec fn rows_fit_first(rows: Seq<Seq<Seq<char>>>) -> bool {
    &&& rows.len() > 0
    &&& forall|i: int| 0 <= i < rows.len() ==> #[trigger] rows[i].len() <= rows[0].len()
}

/// Every row has the same number of cells as the first, and there is at
/// least one row and one column.
pub open spec fn is_rectangular(rows: Seq<Seq<Seq<char>>>) -> bool {
    &&& rows.len() > 0
    &&& rows[0].len() > 0
    &&& forall|i: int| 0 <= i < rows.len() ==> #[trigger] rows[i].len() == rows[0].len()
}

/// Where every row has a cell `j`, column `j` takes one cell from each row.
proof fn lemma_full_column(rows: Seq<Seq<Seq<char>>>, j: int)
    requires
        0 <= j,
        forall|i: int| 0 <= i < rows.len() ==> j < #[trigger] rows[i].len(),
    ensures
        column_of(rows, j) == Seq::new(rows.len(), |i: int| rows[i][j]),
    decreases rows.len(),
{
    if rows.len() > 0 {
        let init = rows.drop_last();
        assert forall|i: int| 0 <= i < init.len() implies j < #[trigger] init[i].len() by {
            assert(init[i] == rows[i]);
        }
        lemma_full_column(init, j);
        assert(column_of(rows, j) =~= Seq::new(rows.len(), |i: int| rows[i][j]));
    }
}

/// Transposing a rectangular table twice gives it back: the transpose is
/// rectangular again, so `reverse_mat` applies to it, and its transpose is
/// the table itself.
pub proof fn lemma_transpose_twice(rows: Seq<Seq<Seq<char>>>)
    requires
        is_rectangular(rows),
    ensures
        is_rectangular(transpose(rows)),
        rows_fit_first(transpose(rows)),
        transpose(transpose(rows)) == rows,
{
    let t = transpose(rows);
    assert forall|j: int| 0 <= j < t.len() implies #[trigger] t[j] == Seq::new(rows.len(), |i: int| rows[i][j]) by {
        lemma_full_column(rows, j);
    }
    assert(t[0].len() == rows.len());
    assert forall|i: int| 0 <= i < t.len() implies #[trigger] t[i].len() == t[0].len() by {}
    let tt = transpose(t);
    assert forall|i: int| 0 <= i < tt.len() implies #[trigger] tt[i] == rows[i] by {
        lemma_full_column(t, i);
        assert(tt[i] =~= rows[i]);
    }
    assert(tt =~= rows);
}

/// Turns a table of rows into its table of columns: column `j` of the result
/// holds, in row order, the `j`-th cell of every row that has one.
pub fn reverse_mat(input: Vec<Vec<String>>) -> (output: Vec<Vec<String>>)
    requires
        rows_fit_first(input.deep_view()),
    ensures
        output.deep_view() == transpose(input.deep_view()),
{
    let ghost rows = input.deep_view();
    let row_len = input[0].len();
    let mut output: Vec<Vec<String>> = Vec::new();
    let mut j: usize = 0;
    while j < row_len
        invariant
            rows == input.deep_view(),
            row_len == rows[0].len(),
            j <= row_len,
            output.len() == j,
            forall|k: int| 0 <= k < j ==> #[trigger] output.deep_view()[k] == column_of(rows, k),
        decreases row_len - j,
    {
        let mut col: Vec<String> = Vec::new();
        let mut i: usize = 0;
        while i < input.len()
            invariant
                rows == input.deep_view(),
                i <= input.len(),
                col.deep_view() == column_of(rows.take(i as int), j as int),
            decreases input.len() - i,
        {
            assert(rows.take(i + 1).drop_last() =~= rows.take(i as int));
            if j < input[i].len() {
                col.push(input[i][j].clone());
            }
            proof {
                assert(col.deep_view() =~= column_of(rows.take(i + 1), j as int));
            }
            i = i + 1;
        }
        assert(rows.take(input.len() as int) =~= rows);
        let ghost before = output.deep_view();
        output.push(col);
        assert forall|k: int| 0 <= k < j + 1 implies #[trigger] output.deep_view()[k] == column_of(rows, k) by {
            if k < j {
                assert(output.deep_view()[k] == before[k]);
            }
        }
        j = j + 1;
    }
    assert(output.deep_view() =~= transpose(rows));
    output
}

/// The value that stands in a cell whose token lacks the trait: `NA`.
pub open spec fn missing_value() -> Seq<char> {
    seq!['N', 'A']
}

/// The cell of a token's row under a trait: the token's value for it, or
/// `NA` where the token lacks it.
pub open spec fn trait_cell(obj: Map<Seq<char>, Seq<char>>, name: Seq<char>) -> Seq<char> {
    if obj.dom().contains(name) {
        obj[name]
    } else {
        missing_value()
    }
}

/// The token-by-trait table: one row per token, one cell per trait name.
pub open spec fn traits_table(objs: Seq<TraitObject>, names: Seq<Seq<char>>) -> Seq<Seq<Seq<char>>> {
    Seq::new(objs.len(), |r: int| Seq::new(names.len(), |t: int| trait_cell(objs[r]@, names[t])))
}

/// Lays out the tokens' traits as a table: row `r` holds, for each name of
/// `trait_list` in order, token `r`'s value for it, or `NA` where it has none.
pub fn canister_data_to_traits_value(canister_data: Vec<TraitObject>, trait_list: Vec<String>) -> (result: Vec<
    Vec<String>,
>)
    ensures
        result.deep_view() == traits_table(canister_data@, trait_list.deep_view()),
{
    let ghost names = trait_list.deep_view();
    let mut result: Vec<Vec<String>> = Vec::new();
    let mut r: usize = 0;
    while r < canister_data.len()
        invariant
            names == trait_list.deep_view(),
            r <= canister_data.len(),
            result.deep_view() =~= traits_table(canister_data@.take(r as int), names),
        decreases canister_data.len() - r,
    {
        let json = &canister_data[r];
        let mut sub_result: Vec<String> = Vec::new();
        let mut t: usize = 0;
        while t < trait_list.len()
            invariant
                names == trait_list.deep_view(),
                t <= trait_list.len(),
                sub_result.deep_view() =~= Seq::new(t as nat, |k: int| trait_cell(json@, names[k])),
            decreases trait_list.len() - t,
        {
            let nft_trait = &trait_list[t];
            let ghost prev = sub_result.deep_view();
            match json.get(nft_trait) {
                Some(value) => {
                    sub_result.push(value.clone());
                },
                None => {
                    let na = "NA".to_string();
                    proof {
                        reveal_strlit("NA");
                        broadcast use vstd::string::to_string_from_display_ensures_for_str;
                        assert(na@ =~= missing_value());
                    }
                    sub_result.push(na);
                },
            }
            assert(sub_result.deep_view() =~= prev.push(trait_cell(json@, names[t as int])));
            t = t + 1;
        }
        let ghost before = result.deep_view();
        let ghost row = sub_result.deep_view();
        result.push(sub_result);
        assert(result.deep_view() =~= before.push(row));
        proof {
            let tbl = traits_table(canister_data@.take(r + 1), names);
            assert forall|k: int| 0 <= k < r + 1 implies #[trigger] result.deep_view()[k] == tbl[k] by {
                if k < r {
                    assert(result.deep_view()[k] == before[k]);
                    assert(canister_data@.take(r + 1)[k] == canister_data@.take(r as int)[k]);
                }
            }
            assert(result.deep_view() =~= tbl);
        }
        r = r + 1;
    }
    assert(canister_data@.take(canister_data.len() as int) =~= canister_data@);
    result
}

} // verus!
