use vstd::prelude::*;

use crate::trait_object::{
    TextPair,
    TraitObject,
    pairs_to_map,
    pairs_view,
    records_view,
    lemma_pairs_to_map_dom,
};

verus! {

/// `names` followed by the keys of `pairs` it lacks, each once, in the order
/// in which they first come.
pub open spec fn add_new_keys(names: Seq<Seq<char>>, pairs: Seq<TextPair>) -> Seq<Seq<char>>
    decreases pairs.len(),
{
    if pairs.len() == 0 {
        names
    } else {
        let n = add_new_keys(names, pairs.drop_last());
        if n.contains(pairs.last().0) {
            n
        } else {
            n.push(pairs.last().0)
        }
    }
}

/// The trait names of all records, each once, in the order in which they
/// first come.
pub open spec fn trait_names(records: Seq<Seq<TextPair>>) -> Seq<Seq<char>>
    decreases records.len(),
{
    if records.len() == 0 {
        Seq::empty()
    } else {
        add_new_keys(trait_names(records.drop_last()), records.last())
    }
}

/// Some record has a pair with key `k`.
pub open spec fn some_record_has(records: Seq<Seq<TextPair>>, k: Seq<char>) -> bool {
    exists|i: int, j: int| 0 <= i < records.len() && 0 <= j < records[i].len() && #[trigger] records[i][j].0 == k
}

proof fn lemma_add_new_keys(names: Seq<Seq<char>>, pairs: Seq<TextPair>)
    requires
        names.no_duplicates(),
    ensures
        add_new_keys(names, pairs).no_duplicates(),
        forall|k: Seq<char>| #[trigger] add_new_keys(names, pairs).contains(k) <==> (names.contains(k)
            || exists|j: int| 0 <= j < pairs.len() && pairs[j].0 == k),
    decreases pairs.len(),
{
    if pairs.len() > 0 {
        let init = pairs.drop_last();
        lemma_add_new_keys(names, init);
        let n = add_new_keys(names, init);
        let last = pairs.last().0;
        if !n.contains(last) {
            assert forall|a: int, b: int| 0 <= a < b < n.push(last).len() implies n.push(last)[a] != n.push(last)[b] by {
                if b == n.len() {
                    assert(n[a] == n.push(last)[a]);
                    assert(n.contains(n[a]));
                }
            }
        }
        assert forall|k: Seq<char>| #[trigger] add_new_keys(names, pairs).contains(k) <==> (names.contains(k)
            || exists|j: int| 0 <= j < pairs.len() && pairs[j].0 == k) by {
            if add_new_keys(names, pairs).contains(k) {
                if k == last {
                    assert(pairs[pairs.len() - 1].0 == k);
                } else {
                    if !n.contains(last) {
                        let m = choose|m: int| 0 <= m < n.push(last).len() && n.push(last)[m] == k;
                        assert(n[m] == k);
                    }
                    assert(n.contains(k));
                    if !names.contains(k) {
                        let j = choose|j: int| 0 <= j < init.len() && init[j].0 == k;
                        assert(pairs[j] == init[j]);
                    }
                }
            }
            if names.contains(k) || exists|j: int| 0 <= j < pairs.len() && pairs[j].0 == k {
                if k == last {
                    if !n.contains(last) {
                        assert(n.push(last)[n.len() as int] == k);
                    }
                } else {
                    if !names.contains(k) {
                        let j = choose|j: int| 0 <= j < pairs.len() && pairs[j].0 == k;
                        assert(j < pairs.len() - 1);
                        assert(init[j] == pairs[j]);
                    }
                    assert(n.contains(k));
                    let m = choose|m: int| 0 <= m < n.len() && n[m] == k;
                    if !n.contains(last) {
                        assert(n.push(last)[m] == k);
                    }
                }
            }
        }
    }
}

/// The trait names hold no name twice, and hold exactly the keys of the records.
pub proof fn lemma_trait_names(records: Seq<Seq<TextPair>>)
    ensures
        trait_names(records).no_duplicates(),
        forall|k: Seq<char>| #[trigger] trait_names(records).contains(k) <==> some_record_has(records, k),
    decreases records.len(),
{
    if records.len() > 0 {
        let init = records.drop_last();
        lemma_trait_names(init);
        lemma_add_new_keys(trait_names(init), records.last());
        assert forall|k: Seq<char>| #[trigger] trait_names(records).contains(k) <==> some_record_has(records, k) by {
            if trait_names(init).contains(k) {
                let (i, j) = choose|i: int, j: int| 0 <= i < init.len() && 0 <= j < init[i].len() && #[trigger] init[i][j].0 == k;
                assert(records[i] == init[i]);
                assert(records[i][j].0 == k);
            }
            if exists|j: int| 0 <= j < records.last().len() && records.last()[j].0 == k {
                let j = choose|j: int| 0 <= j < records.last().len() && records.last()[j].0 == k;
                assert(records[records.len() - 1][j].0 == k);
            }
            if some_record_has(records, k) {
                let (i, j) = choose|i: int, j: int| 0 <= i < records.len() && 0 <= j < records[i].len() && #[trigger] records[i][j].0 == k;
                if i < records.len() - 1 {
                    assert(init[i] == records[i]);
                    assert(init[i][j].0 == k);
                    assert(some_record_has(init, k));
                } else {
                    assert(records.last()[j].0 == k);
                }
            }
        }
    }
}

/// Whether `name` is among `names`.
pub fn contains_string(names: &Vec<String>, name: &String) -> (found: bool)
    ensures
        found == names.deep_view().contains(name@),
{
    let mut i: usize = 0;
    while i < names.len()
        invariant
            i <= names.len(),
            forall|j: int| 0 <= j < i ==> names.deep_view()[j] != name@,
        decreases names.len() - i,
    {
        assert(names.deep_view()[i as int] == names@[i as int]@);
        if names[i] == *name {
            assert(names.deep_view()[i as int] == name@);
            return true;
        }
        i = i + 1;
    }
    false
}

/// Builds one trait object per record, inserting its pairs in order (a later
/// pair with the same name replaces an earlier one), and lists the trait
/// names of all records, each once, in the order in which they first come.
#[verifier::spinoff_prover]
pub fn build_trait_objects(records: Vec<Vec<(String, String)>>) -> (result: (Vec<TraitObject>, Vec<String>))
    ensures
        result.0.len() == records.len(),
        forall|i: int| 0 <= i < records.len() ==> #[trigger] result.0[i]@ == pairs_to_map(records_view(records@)[i]),
        result.1.deep_view() == trait_names(records_view(records@)),
        result.1.deep_view().no_duplicates(),
        forall|i: int, k: Seq<char>| 0 <= i < records.len() && #[trigger] result.0[i]@.dom().contains(k)
            ==> result.1.deep_view().contains(k),
        forall|k: Seq<char>| #[trigger] result.1.deep_view().contains(k) ==> exists|i: int|
            0 <= i < records.len() && #[trigger] result.0[i]@.dom().contains(k),
{
    let ghost rv = records_view(records@);
    let mut objects: Vec<TraitObject> = Vec::new();
    let mut names: Vec<String> = Vec::new();
    let mut i: usize = 0;
    while i < records.len()
        invariant
            rv == records_view(records@),
            rv.len() == records.len(),
            i <= records.len(),
            objects.len() == i,
            forall|k: int| 0 <= k < i ==> #[trigger] objects[k]@ == pairs_to_map(rv[k]),
            names.deep_view() == trait_names(rv.take(i as int)),
        decreases records.len() - i,
    {
        let record = &records[i];
        let ghost pv = pairs_view(record@);
        assert(pv == rv[i as int]);
        let mut obj = TraitObject::new();
        let ghost base = names.deep_view();
        let mut j: usize = 0;
        while j < record.len()
            invariant
                pv == pairs_view(record@),
                pv.len() == record.len(),
                j <= record.len(),
                obj@ == pairs_to_map(pv.take(j as int)),
                names.deep_view() == add_new_keys(base, pv.take(j as int)),
            decreases record.len() - j,
        {
            let key = &record[j].0;
            let value = &record[j].1;
            assert(pv[j as int] == (key@, value@));
            assert(pv.take(j + 1).drop_last() =~= pv.take(j as int));
            obj.insert(key.clone(), value.clone());
            let ghost before = names.deep_view();
            if !contains_string(&names, key) {
                names.push(key.clone());
                assert(names.deep_view() =~= before.push(key@));
            }
            j = j + 1;
        }
        assert(pv.take(record.len() as int) =~= pv);
        assert(rv.take(i + 1).drop_last() =~= rv.take(i as int));
        let ghost before_objs = objects@;
        objects.push(obj);
        assert forall|k: int| 0 <= k < i + 1 implies #[trigger] objects[k]@ == pairs_to_map(rv[k]) by {
            if k < i {
                assert(objects[k] == before_objs[k]);
            }
        }
        i = i + 1;
    }
    assert(rv.take(records.len() as int) =~= rv);
    proof {
        lemma_trait_names(rv);
        assert forall|i: int, k: Seq<char>| 0 <= i < records.len() && #[trigger] objects[i]@.dom().contains(k)
            implies names.deep_view().contains(k) by {
            lemma_pairs_to_map_dom(rv[i]);
            let j = choose|j: int| 0 <= j < rv[i].len() && rv[i][j].0 == k;
            assert(some_record_has(rv, k));
        }
        assert forall|k: Seq<char>| #[trigger] names.deep_view().contains(k) implies exists|i: int|
            0 <= i < records.len() && #[trigger] objects[i]@.dom().contains(k) by {
            assert(some_record_has(rv, k));
            let (i, j) = choose|i: int, j: int| 0 <= i < rv.len() && 0 <= j < rv[i].len() && #[trigger] rv[i][j].0 == k;
            lemma_pairs_to_map_dom(rv[i]);
            assert(objects[i]@.dom().contains(k));
        }
    }
    (objects, names)
}

} // verus!
