use vstd::prelude::*;

verus! {

/// A pair of texts, taken by their characters.
pub type TextPair = (Seq<char>, Seq<char>);

/// The map that inserting the pairs one after the other, left to right, builds:
/// a later pair with the same key replaces an earlier one.
pub open spec fn pairs_to_map(pairs: Seq<TextPair>) -> Map<Seq<char>, Seq<char>>
    decreases pairs.len(),
{
    if pairs.len() == 0 {
        Map::empty()
    } else {
        pairs_to_map(pairs.drop_last()).insert(pairs.last().0, pairs.last().1)
    }
}

/// No key occurs in two pairs.
pub open spec fn keys_distinct(pairs: Seq<TextPair>) -> bool {
    forall|i: int, j: int|
        0 <= i < pairs.len() && 0 <= j < pairs.len() && i != j ==> #[trigger] pairs[i].0
            != #[trigger] pairs[j].0
}

/// With distinct keys, the map holds exactly the pairs.
pub proof fn lemma_pairs_to_map_distinct(pairs: Seq<TextPair>)
    requires
        keys_distinct(pairs),
    ensures
        forall|i: int| 0 <= i < pairs.len() ==> #[trigger] pairs_to_map(pairs).dom().contains(pairs[i].0)
            && pairs_to_map(pairs)[pairs[i].0] == pairs[i].1,
        forall|k: Seq<char>| #[trigger] pairs_to_map(pairs).dom().contains(k) ==> exists|i: int|
            0 <= i < pairs.len() && pairs[i].0 == k,
    decreases pairs.len(),
{
    if pairs.len() > 0 {
        let init = pairs.drop_last();
        assert(keys_distinct(init)) by {
            assert forall|i: int, j: int|
                0 <= i < init.len() && 0 <= j < init.len() && i != j implies #[trigger] init[i].0
                != #[trigger] init[j].0 by {
                assert(init[i] == pairs[i] && init[j] == pairs[j]);
            }
        }
        lemma_pairs_to_map_distinct(init);
        assert forall|i: int| 0 <= i < pairs.len() implies #[trigger] pairs_to_map(pairs).dom().contains(
            pairs[i].0,
        ) && pairs_to_map(pairs)[pairs[i].0] == pairs[i].1 by {
            if i < pairs.len() - 1 {
                assert(init[i] == pairs[i]);
                assert(pairs_to_map(init).dom().contains(init[i].0));
                assert(pairs[i].0 != pairs[pairs.len() - 1].0);
            }
        }
        assert forall|k: Seq<char>| #[trigger] pairs_to_map(pairs).dom().contains(k) implies exists|i: int|
            0 <= i < pairs.len() && pairs[i].0 == k by {
            if k != pairs.last().0 {
                assert(pairs_to_map(init).dom().contains(k));
                let i = choose|i: int| 0 <= i < init.len() && init[i].0 == k;
                assert(pairs[i] == init[i]);
            } else {
                assert(pairs[pairs.len() - 1].0 == k);
            }
        }
    }
}

/// Each pair of texts taken by its characters.
pub open spec fn pairs_view(v: Seq<(String, String)>) -> Seq<TextPair> {
    v.map_values(|p: (String, String)| (p.0@, p.1@))
}

/// Each list of pairs of texts taken by its characters.
pub open spec fn records_view(r: Seq<Vec<(String, String)>>) -> Seq<Seq<TextPair>> {
    r.map_values(|v: Vec<(String, String)>| pairs_view(v@))
}

/// Whatever the keys, a key is in the map exactly when some pair has it.
pub proof fn lemma_pairs_to_map_dom(pairs: Seq<TextPair>)
    ensures
        forall|k: Seq<char>| #[trigger] pairs_to_map(pairs).dom().contains(k) <==> exists|i: int|
            0 <= i < pairs.len() && pairs[i].0 == k,
    decreases pairs.len(),
{
    if pairs.len() > 0 {
        let init = pairs.drop_last();
        lemma_pairs_to_map_dom(init);
        assert forall|k: Seq<char>| #[trigger] pairs_to_map(pairs).dom().contains(k) <==> exists|i: int|
            0 <= i < pairs.len() && pairs[i].0 == k by {
            if pairs_to_map(pairs).dom().contains(k) {
                if k == pairs.last().0 {
                    assert(pairs[pairs.len() - 1].0 == k);
                } else {
                    assert(pairs_to_map(init).dom().contains(k));
                    let i = choose|i: int| 0 <= i < init.len() && init[i].0 == k;
                    assert(pairs[i] == init[i]);
                }
            }
            if exists|i: int| 0 <= i < pairs.len() && pairs[i].0 == k {
                let i = choose|i: int| 0 <= i < pairs.len() && pairs[i].0 == k;
                if i < pairs.len() - 1 {
                    assert(init[i] == pairs[i]);
                    assert(pairs_to_map(init).dom().contains(k));
                }
            }
        }
    }
}

/// The traits of one token: each trait name with its value, no name twice.
/// It stands for a hash map from trait names to values.
pub struct TraitObject {
    entries: Vec<(String, String)>,
}

impl TraitObject {
    /// The entries, each text taken by its characters.
    pub closed spec fn pairs(&self) -> Seq<TextPair> {
        pairs_view(self.entries@)
    }

    #[verifier::type_invariant]
    closed spec fn well_formed(&self) -> bool {
        keys_distinct(self.pairs())
    }
}

impl View for TraitObject {
    type V = Map<Seq<char>, Seq<char>>;

    closed spec fn view(&self) -> Map<Seq<char>, Seq<char>> {
        pairs_to_map(self.pairs())
    }
}

impl TraitObject {
    /// An object without traits.
    pub fn new() -> (obj: TraitObject)
        ensures
            obj@ == Map::<Seq<char>, Seq<char>>::empty(),
    {
        let obj = TraitObject { entries: Vec::new() };
        assert(obj.pairs() =~= Seq::<TextPair>::empty());
        obj
    }

    /// Where `key` stands among the entries, if it does.
    fn position(&self, key: &String) -> (pos: Option<usize>)
        ensures
            match pos {
                Some(i) => i < self.pairs().len() && self.pairs()[i as int].0 == key@,
                None => forall|i: int| 0 <= i < self.pairs().len() ==> self.pairs()[i].0 != key@,
            },
    {
        let mut i: usize = 0;
        while i < self.entries.len()
            invariant
                i <= self.entries.len(),
                self.pairs().len() == self.entries.len(),
                forall|j: int| 0 <= j < i ==> self.pairs()[j].0 != key@,
            decreases self.entries.len() - i,
        {
            if self.entries[i].0 == *key {
                return Some(i);
            }
            i = i + 1;
        }
        None
    }

    /// The value of trait `key`, if the object has that trait.
    pub fn get(&self, key: &String) -> (value: Option<&String>)
        ensures
            match value {
                Some(v) => self@.dom().contains(key@) && v@ == self@[key@],
                None => !self@.dom().contains(key@),
            },
    {
        proof {
            use_type_invariant(self);
            lemma_pairs_to_map_distinct(self.pairs());
        }
        match self.position(key) {
            Some(i) => {
                assert(self.pairs()[i as int] == (self.entries@[i as int].0@, self.entries@[i as int].1@));
                assert(pairs_to_map(self.pairs()).dom().contains(self.pairs()[i as int].0));
                Some(&self.entries[i].1)
            },
            None => None,
        }
    }

    /// Whether the object has trait `key`.
    pub fn contains_key(&self, key: &String) -> (found: bool)
        ensures
            found == self@.dom().contains(key@),
    {
        proof {
            use_type_invariant(self);
            lemma_pairs_to_map_distinct(self.pairs());
        }
        self.position(key).is_some()
    }

    /// Sets trait `key` to `value`, replacing any value it had.
    pub fn insert(&mut self, key: String, value: String)
        ensures
            final(self)@ == old(self)@.insert(key@, value@),
    {
        proof {
            use_type_invariant(&*self);
        }
        let ghost old_pairs = self.pairs();
        match self.position(&key) {
            Some(i) => {
                let ghost k = key@;
                let ghost v = value@;
                let mut entries = Vec::new();
                std::mem::swap(&mut entries, &mut self.entries);
                entries.set(i, (key, value));
                let ghost new_pairs = entries@.map_values(|p: (String, String)| (p.0@, p.1@));
                assert(new_pairs =~= old_pairs.update(i as int, (k, v)));
                proof {
                    assert(keys_distinct(new_pairs)) by {
                        assert forall|a: int, b: int|
                            0 <= a < new_pairs.len() && 0 <= b < new_pairs.len() && a != b implies #[trigger] new_pairs[a].0
                            != #[trigger] new_pairs[b].0 by {
                            assert(old_pairs[a].0 != old_pairs[b].0);
                        }
                    }
                    lemma_pairs_to_map_distinct(old_pairs);
                    lemma_pairs_to_map_distinct(new_pairs);
                    lemma_pairs_to_map_finite(old_pairs);
                    lemma_pairs_to_map_finite(new_pairs);
                    let m1 = pairs_to_map(new_pairs);
                    let m2 = pairs_to_map(old_pairs).insert(k, v);
                    assert forall|x: Seq<char>| #[trigger] m1.dom().contains(x) <==> m2.dom().contains(x) by {
                        if m1.dom().contains(x) {
                            let j = choose|j: int| 0 <= j < new_pairs.len() && new_pairs[j].0 == x;
                            if j != i {
                                assert(old_pairs[j] == new_pairs[j]);
                                assert(pairs_to_map(old_pairs).dom().contains(old_pairs[j].0));
                            }
                        }
                        if x == k {
                            assert(new_pairs[i as int].0 == k);
                            assert(m1.dom().contains(new_pairs[i as int].0));
                        }
                        if m2.dom().contains(x) && x != k {
                            assert(pairs_to_map(old_pairs).dom().contains(x));
                            let j = choose|j: int| 0 <= j < old_pairs.len() && old_pairs[j].0 == x;
                            assert(new_pairs[j] == old_pairs[j]);
                        }
                    }
                    assert forall|x: Seq<char>| #[trigger] m1.dom().contains(x) implies m1[x] == m2[x] by {
                        let j = choose|j: int| 0 <= j < new_pairs.len() && new_pairs[j].0 == x;
                        if j != i {
                            assert(old_pairs[j] == new_pairs[j]);
                        }
                    }
                    assert(m1 =~= m2);
                }
                self.entries = entries;
            },
            None => {
                let ghost k = key@;
                let ghost v = value@;
                let mut entries = Vec::new();
                std::mem::swap(&mut entries, &mut self.entries);
                entries.push((key, value));
                let ghost new_pairs = entries@.map_values(|p: (String, String)| (p.0@, p.1@));
                assert(new_pairs =~= old_pairs.push((k, v)));
                assert(new_pairs.drop_last() =~= old_pairs);
                proof {
                    assert(keys_distinct(new_pairs)) by {
                        assert forall|a: int, b: int|
                            0 <= a < new_pairs.len() && 0 <= b < new_pairs.len() && a != b implies #[trigger] new_pairs[a].0
                            != #[trigger] new_pairs[b].0 by {
                            if a < old_pairs.len() && b < old_pairs.len() {
                                assert(old_pairs[a].0 != old_pairs[b].0);
                            } else if a < old_pairs.len() {
                                assert(old_pairs[a].0 != k);
                            } else {
                                assert(old_pairs[b].0 != k);
                            }
                        }
                    }
                }
                self.entries = entries;
            },
        }
    }
}

/// The map of finitely many pairs is finite.
pub proof fn lemma_pairs_to_map_finite(pairs: Seq<TextPair>)
    ensures
        pairs_to_map(pairs).dom().finite(),
    decreases pairs.len(),
{
    if pairs.len() > 0 {
        lemma_pairs_to_map_finite(pairs.drop_last());
    }
}

} // verus!
