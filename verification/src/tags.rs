//! The tags of an entity: text keys with text values, each key at most once,
//! in no order.

use vstd::prelude::*;

use crate::text::same_text;

verus! {

/// A key with its value, as characters.
pub type TextPair = (Seq<char>, Seq<char>);

/// The map that results from entering `pairs` one after the other: where a key
/// comes twice, its later value stands.
pub open spec fn pairs_map(pairs: Seq<TextPair>) -> Map<Seq<char>, Seq<char>>
    decreases pairs.len(),
{
    if pairs.len() == 0 {
        Map::empty()
    } else {
        pairs_map(pairs.drop_last()).insert(pairs.last().0, pairs.last().1)
    }
}

/// The characters of each key and value of `pairs`.
pub open spec fn text_pairs(pairs: Seq<(String, String)>) -> Seq<TextPair> {
    pairs.map_values(|p: (String, String)| (p.0@, p.1@))
}

/// Whether no key comes twice in `pairs`.
pub open spec fn distinct_keys(pairs: Seq<TextPair>) -> bool {
    forall|i: int, j: int|
        0 <= i < pairs.len() && 0 <= j < pairs.len() && i != j ==> pairs[i].0 != pairs[j].0
}

/// Where no key comes twice, none comes twice before the last pair.
pub proof fn lemma_front_distinct(pairs: Seq<TextPair>)
    requires
        distinct_keys(pairs),
        pairs.len() > 0,
    ensures
        distinct_keys(pairs.drop_last()),
{
    let front = pairs.drop_last();
    assert forall|i: int, j: int|
        0 <= i < front.len() && 0 <= j < front.len() && i != j implies front[i].0
        != front[j].0 by {
        assert(pairs[i].0 != pairs[j].0);
    }
}

/// A key is in the map of `pairs` exactly if one of the pairs has it.
pub proof fn lemma_pairs_map_keys(pairs: Seq<TextPair>, key: Seq<char>)
    ensures
        pairs_map(pairs).contains_key(key) <==> exists|i: int|
            0 <= i < pairs.len() && #[trigger] pairs[i].0 == key,
    decreases pairs.len(),
{
    if pairs.len() > 0 {
        let front = pairs.drop_last();
        lemma_pairs_map_keys(front, key);
        if pairs_map(pairs).contains_key(key) {
            if pairs.last().0 == key {
                assert(pairs[pairs.len() - 1].0 == key);
            } else {
                let i = choose|i: int| 0 <= i < front.len() && #[trigger] front[i].0 == key;
                assert(pairs[i].0 == key);
            }
        }
        if exists|i: int| 0 <= i < pairs.len() && #[trigger] pairs[i].0 == key {
            let i = choose|i: int| 0 <= i < pairs.len() && #[trigger] pairs[i].0 == key;
            if i < pairs.len() - 1 {
                assert(front[i].0 == key);
            }
        }
    }
}

/// Where no key comes twice, each pair's value is its key's value in the map.
pub proof fn lemma_pairs_map_value(pairs: Seq<TextPair>, at: int)
    requires
        distinct_keys(pairs),
        0 <= at < pairs.len(),
    ensures
        pairs_map(pairs).contains_key(pairs[at].0),
        pairs_map(pairs)[pairs[at].0] == pairs[at].1,
    decreases pairs.len(),
{
    if at < pairs.len() - 1 {
        let front = pairs.drop_last();
        lemma_front_distinct(pairs);
        lemma_pairs_map_value(front, at);
        assert(pairs[at].0 != pairs[pairs.len() - 1].0);
    }
}

/// Where no key comes twice, a new value for a key that is there takes the
/// place of the old one.
pub proof fn lemma_pairs_map_update(pairs: Seq<TextPair>, at: int, value: Seq<char>)
    requires
        distinct_keys(pairs),
        0 <= at < pairs.len(),
    ensures
        pairs_map(pairs.update(at, (pairs[at].0, value))) == pairs_map(pairs).insert(
            pairs[at].0,
            value,
        ),
        distinct_keys(pairs.update(at, (pairs[at].0, value))),
    decreases pairs.len(),
{
    let key = pairs[at].0;
    let after = pairs.update(at, (key, value));
    let front = pairs.drop_last();
    assert(distinct_keys(after)) by {
        assert forall|i: int, j: int|
            0 <= i < after.len() && 0 <= j < after.len() && i != j implies after[i].0
            != after[j].0 by {
            assert(pairs[i].0 != pairs[j].0);
        }
    }
    if at == pairs.len() - 1 {
        assert(after.drop_last() =~= front);
        assert(pairs_map(after) =~= pairs_map(pairs).insert(key, value));
    } else {
        lemma_front_distinct(pairs);
        lemma_pairs_map_update(front, at, value);
        assert(after.drop_last() =~= front.update(at, (key, value)));
        assert(after.last() == pairs.last());
        assert(pairs[at].0 != pairs[pairs.len() - 1].0);
        assert(pairs_map(after) =~= pairs_map(pairs).insert(key, value));
    }
}

/// Where no key comes twice, the map has as many keys as there are pairs.
pub proof fn lemma_pairs_map_len(pairs: Seq<TextPair>)
    requires
        distinct_keys(pairs),
    ensures
        pairs_map(pairs).dom().finite(),
        pairs_map(pairs).dom().len() == pairs.len(),
    decreases pairs.len(),
{
    if pairs.len() > 0 {
        let front = pairs.drop_last();
        lemma_front_distinct(pairs);
        lemma_pairs_map_len(front);
        lemma_pairs_map_keys(front, pairs.last().0);
        if pairs_map(front).contains_key(pairs.last().0) {
            let i = choose|i: int| 0 <= i < front.len() && #[trigger] front[i].0 == pairs.last().0;
            assert(pairs[i].0 == pairs[pairs.len() - 1].0);
        }
        assert(pairs_map(pairs).dom() =~= pairs_map(front).dom().insert(pairs.last().0));
    }
}

/// The tags of one entity.
#[derive(Debug)]
pub struct Tags {
    entries: Vec<(String, String)>,
}

impl View for Tags {
    type V = Map<Seq<char>, Seq<char>>;

    closed spec fn view(&self) -> Map<Seq<char>, Seq<char>> {
        pairs_map(text_pairs(self.entries@))
    }
}

impl Tags {
    /// No key stands twice among the entries.
    #[verifier::type_invariant]
    spec fn no_key_twice(&self) -> bool {
        distinct_keys(text_pairs(self.entries@))
    }

    /// No tags.
    pub fn new() -> (r: Tags)
        ensures
            r@ == Map::<Seq<char>, Seq<char>>::empty(),
    {
        Tags { entries: Vec::new() }
    }

    /// The tags that result from entering `pairs` one after the other: where a
    /// key comes twice, its later value stands.
    pub fn from_pairs(pairs: Vec<(String, String)>) -> (r: Tags)
        ensures
            r@ == pairs_map(text_pairs(pairs@)),
    {
        let ghost all = text_pairs(pairs@);
        let mut tags = Tags::new();
        assert(all.take(0) =~= Seq::<TextPair>::empty());
        for pair in it: pairs
            invariant
                all == text_pairs(pairs@),
                it.seq() == pairs@,
                tags@ == pairs_map(all.take(it.index() as int)),
        {
            assert(all[it.index() as int] == (pair.0@, pair.1@));
            assert(all.take(it.index() + 1).drop_last() =~= all.take(it.index() as int));
            let (key, value) = pair;
            tags.insert(key, value);
        }
        assert(all.take(pairs@.len() as int) =~= all);
        tags
    }

    /// The place of `key` among the entries, if it is there.
    fn position(&self, key: &str) -> (r: Option<usize>)
        ensures
            match r {
                Some(at) => at < self.entries.len() && self.entries[at as int].0@ == key@,
                None => forall|i: int|
                    0 <= i < self.entries.len() ==> (#[trigger] self.entries[i]).0@ != key@,
            },
    {
        let mut i: usize = 0;
        while i < self.entries.len()
            invariant
                i <= self.entries.len(),
                forall|k: int| 0 <= k < i ==> (#[trigger] self.entries[k]).0@ != key@,
            decreases self.entries.len() - i,
        {
            if same_text(self.entries[i].0.as_str(), key) {
                return Some(i);
            }
            i = i + 1;
        }
        None
    }

    /// How many tags there are.
    pub fn len(&self) -> (r: usize)
        ensures
            self@.dom().finite(),
            r == self@.dom().len(),
    {
        proof {
            use_type_invariant(self);
            lemma_pairs_map_len(text_pairs(self.entries@));
        }
        self.entries.len()
    }

    /// The value of `key`, where there is one.
    pub fn get(&self, key: &str) -> (r: Option<&String>)
        ensures
            match r {
                Some(value) => self@.contains_key(key@) && self@[key@] == value@,
                None => !self@.contains_key(key@),
            },
    {
        let ghost pairs = text_pairs(self.entries@);
        proof {
            use_type_invariant(self);
            lemma_pairs_map_keys(pairs, key@);
        }
        match self.position(key) {
            Some(at) => {
                proof {
                    lemma_pairs_map_value(pairs, at as int);
                }
                Some(&self.entries[at].1)
            },
            None => {
                proof {
                    if pairs_map(pairs).contains_key(key@) {
                        let i = choose|i: int| 0 <= i < pairs.len() && #[trigger] pairs[i].0 == key@;
                        assert(self.entries[i].0@ == key@);
                    }
                }
                None
            },
        }
    }

    /// Gives `key` the value `value`, whether or not it had one.
    pub fn insert(&mut self, key: String, value: String)
        ensures
            final(self)@ == old(self)@.insert(key@, value@),
    {
        let ghost pairs = text_pairs(self.entries@);
        proof {
            use_type_invariant(&*self);
        }
        let found = self.position(key.as_str());
        let mut taken = Tags::new();
        core::mem::swap(self, &mut taken);
        let mut entries = taken.entries;
        match found {
            Some(at) => {
                proof {
                    lemma_pairs_map_update(pairs, at as int, value@);
                }
                let ghost after = pairs.update(at as int, (key@, value@));
                entries.set(at, (key, value));
                assert(text_pairs(entries@) =~= after);
            },
            None => {
                let ghost after = pairs.push((key@, value@));
                proof {
                    assert forall|i: int, j: int|
                        0 <= i < after.len() && 0 <= j < after.len() && i != j implies after[i].0
                        != after[j].0 by {
                        if i < pairs.len() && j < pairs.len() {
                            assert(pairs[i].0 != pairs[j].0);
                        } else if i < pairs.len() {
                            assert(entries[i].0@ != key@);
                        } else {
                            assert(entries[j].0@ != key@);
                        }
                    }
                    assert(after.drop_last() =~= pairs);
                }
                entries.push((key, value));
                assert(text_pairs(entries@) =~= after);
            },
        }
        *self = Tags { entries };
    }

    /// The tags as pairs of key and value, each key once, in no order.
    pub fn into_pairs(self) -> (r: Vec<(String, String)>)
        ensures
            distinct_keys(text_pairs(r@)),
            pairs_map(text_pairs(r@)) == self@,
    {
        proof {
            use_type_invariant(&self);
        }
        self.entries
    }
}

} // verus!
