//! A map from text to values, kept in the order of the keys' UTF-8 bytes.
use vstd::prelude::*;
use crate::text;
use crate::text::Text;

verus! {

/// The keys of `pairs` come in strictly ascending order, so none occurs twice.
pub open spec fn ascending<W>(pairs: Seq<(Text, W)>) -> bool {
    forall|i: int, j: int|
        0 <= i < j < pairs.len() ==> text::text_less(#[trigger] pairs[i].0, #[trigger] pairs[j].0)
}

/// `key` is the key of some pair.
pub open spec fn has_key<W>(pairs: Seq<(Text, W)>, key: Text) -> bool {
    exists|i: int| 0 <= i < pairs.len() && (#[trigger] pairs[i]).0 == key
}

pub open spec fn position<W>(pairs: Seq<(Text, W)>, key: Text) -> int {
    choose|i: int| 0 <= i < pairs.len() && (#[trigger] pairs[i]).0 == key
}

/// The finite map that the pairs spell.
pub open spec fn map_of<W>(pairs: Seq<(Text, W)>) -> Map<Text, W> {
    Map::new(|key: Text| has_key(pairs, key), |key: Text| pairs[position(pairs, key)].1)
}

/// The pairs of a finite map, in the order of the keys.
pub open spec fn pairs_of<W>(map: Map<Text, W>) -> Seq<(Text, W)> {
    choose|pairs: Seq<(Text, W)>| ascending(pairs) && #[trigger] map_of(pairs) == map
}

/// Ascending pairs are the pairs of their map.
pub proof fn lemma_pairs_of<W>(pairs: Seq<(Text, W)>)
    requires
        ascending(pairs),
    ensures
        pairs_of(map_of(pairs)) == pairs,
{
    assert(ascending(pairs) && map_of(pairs) == map_of(pairs));
    lemma_ascending_unique(pairs_of(map_of(pairs)), pairs);
}

/// The keys of the pairs.
pub open spec fn keys<W>(pairs: Seq<(Text, W)>) -> Seq<Text> {
    Seq::new(pairs.len(), |i: int| pairs[i].0)
}

/// The texts ascend strictly.
pub open spec fn ascending_keys(items: Seq<Text>) -> bool {
    forall|i: int, j: int|
        0 <= i < j < items.len() ==> text::text_less(#[trigger] items[i], #[trigger] items[j])
}

/// The members of a finite set, in order.
pub open spec fn sorted_keys(members: Set<Text>) -> Seq<Text> {
    choose|items: Seq<Text>|
        ascending_keys(items) && forall|key: Text| #[trigger]
            items.contains(key) <==> members.contains(key)
}

/// Ascending texts with the same members are the same.
pub proof fn lemma_sorted_keys_unique(a: Seq<Text>, b: Seq<Text>)
    requires
        ascending_keys(a),
        ascending_keys(b),
        forall|key: Text| #[trigger] a.contains(key) <==> b.contains(key),
    ensures
        a == b,
{
    let pa = Seq::new(a.len(), |i: int| (a[i], ()));
    let pb = Seq::new(b.len(), |i: int| (b[i], ()));
    assert(ascending(pa));
    assert(ascending(pb));
    assert(map_of(pa) =~= map_of(pb)) by {
        assert forall|key: Text| #[trigger] map_of(pa).contains_key(key) <==> map_of(
            pb,
        ).contains_key(key) by {
            if has_key(pa, key) {
                assert(a[position(pa, key)] == key);
                assert(a.contains(key));
                let i = choose|i: int| 0 <= i < b.len() && b[i] == key;
                assert(pb[i].0 == key);
            }
            if has_key(pb, key) {
                assert(b[position(pb, key)] == key);
                assert(b.contains(key));
                assert(a.contains(key) <==> b.contains(key));
                let i = choose|i: int| 0 <= i < a.len() && a[i] == key;
                assert(pa[i].0 == key);
            }
        }
    }
    lemma_ascending_unique(pa, pb);
    assert(forall|i: int| 0 <= i < a.len() ==> pa[i].0 == a[i]);
    assert(forall|i: int| 0 <= i < b.len() ==> pb[i].0 == b[i]);
    assert(a =~= b);
}

/// The keys of ascending pairs are the sorted members of their map's domain.
pub proof fn lemma_keys<W>(pairs: Seq<(Text, W)>, members: Set<Text>)
    requires
        ascending(pairs),
        forall|key: Text| #[trigger] members.contains(key) <==> map_of(pairs).contains_key(key),
    ensures
        ascending_keys(keys(pairs)),
        forall|key: Text| #[trigger] keys(pairs).contains(key) <==> members.contains(key),
        sorted_keys(members) == keys(pairs),
{
    let items = keys(pairs);
    assert forall|key: Text| #[trigger] items.contains(key) <==> members.contains(key) by {
        if items.contains(key) {
            let i = choose|i: int| 0 <= i < items.len() && items[i] == key;
            assert(pairs[i].0 == key);
            lemma_position(pairs, i);
        }
        if members.contains(key) {
            let i = position(pairs, key);
            assert(items[i] == key);
        }
    }
    assert(ascending_keys(items));
    lemma_sorted_keys_unique(sorted_keys(members), items);
}

/// A map from text to `V`, in the order of its keys.
#[derive(Debug)]
pub struct PathMap<V> {
    entries: Vec<(String, V)>,
}

impl<V: DeepView> PathMap<V> {
    /// The pairs of the map, in order.
    pub closed spec fn pairs(self) -> Seq<(Text, V::V)> {
        self.entries.deep_view()
    }

    /// The keys ascend strictly.
    pub open spec fn wf(self) -> bool {
        ascending(self.pairs())
    }
}

impl<V: DeepView> View for PathMap<V> {
    type V = Map<Text, V::V>;

    open spec fn view(&self) -> Map<Text, V::V> {
        map_of(self.pairs())
    }
}

/// In ascending pairs a key occurs at one place.
pub proof fn lemma_position<W>(pairs: Seq<(Text, W)>, i: int)
    requires
        ascending(pairs),
        0 <= i < pairs.len(),
    ensures
        has_key(pairs, pairs[i].0),
        position(pairs, pairs[i].0) == i,
        map_of(pairs).contains_key(pairs[i].0),
        map_of(pairs)[pairs[i].0] == pairs[i].1,
{
    let key = pairs[i].0;
    let p = position(pairs, key);
    assert(pairs[i].0 == key);
    assert(has_key(pairs, key));
    assert(0 <= p < pairs.len() && pairs[p].0 == key);
    text::lemma_text_less_irreflexive(key);
    if p < i {
        assert(text::text_less(pairs[p].0, pairs[i].0));
    } else if i < p {
        assert(text::text_less(pairs[i].0, pairs[p].0));
    }
}

pub proof fn lemma_position_all<W>(pairs: Seq<(Text, W)>)
    requires
        ascending(pairs),
    ensures
        forall|i: int| 0 <= i < pairs.len() ==> {
            &&& map_of(pairs).contains_key((#[trigger] pairs[i]).0)
            &&& map_of(pairs)[pairs[i].0] == pairs[i].1
        },
{
    assert forall|i: int| 0 <= i < pairs.len() implies {
        &&& map_of(pairs).contains_key((#[trigger] pairs[i]).0)
        &&& map_of(pairs)[pairs[i].0] == pairs[i].1
    } by {
        lemma_position(pairs, i);
    }
}

/// Two ascending sequences of pairs that spell the same map are the same.
pub proof fn lemma_ascending_unique<W>(a: Seq<(Text, W)>, b: Seq<(Text, W)>)
    requires
        ascending(a),
        ascending(b),
        map_of(a) == map_of(b),
    ensures
        a == b,
    decreases a.len(),
{
    lemma_position_all(a);
    lemma_position_all(b);
    if a.len() == 0 {
        if b.len() > 0 {
            assert(map_of(b).contains_key(b[0].0));
            assert(has_key(a, b[0].0));
        }
        assert(a =~= b);
    } else {
        assert(map_of(b).contains_key(a.last().0)) by {
            assert(a[a.len() - 1] == a.last());
        }
        assert(has_key(b, a.last().0));
        let n = position(b, a.last().0);
        assert(b.len() > 0);
        assert(has_key(a, b.last().0)) by {
            assert(b[b.len() - 1] == b.last());
        }
        let m = position(a, b.last().0);
        if a.last().0 != b.last().0 {
            assert(n < b.len() - 1);
            assert(text::text_less(b[n].0, b[b.len() - 1].0));
            assert(m < a.len() - 1);
            assert(text::text_less(a[m].0, a[a.len() - 1].0));
            text::lemma_text_less_asymmetric(a.last().0, b.last().0);
        }
        lemma_position(a, a.len() - 1);
        lemma_position(b, b.len() - 1);
        assert(a.last() == b.last());
        let a1 = a.drop_last();
        let b1 = b.drop_last();
        assert(ascending(a1)) by {
            assert(forall|i: int| 0 <= i < a1.len() ==> a1[i] == a[i]);
        }
        assert(ascending(b1)) by {
            assert(forall|i: int| 0 <= i < b1.len() ==> b1[i] == b[i]);
        }
        lemma_map_of_drop_last(a);
        lemma_map_of_drop_last(b);
        lemma_ascending_unique(a1, b1);
        assert(a =~= a1.push(a.last()));
        assert(b =~= b1.push(b.last()));
    }
}

/// Dropping the last pair removes its key.
pub proof fn lemma_map_of_drop_last<W>(a: Seq<(Text, W)>)
    requires
        ascending(a),
        a.len() > 0,
    ensures
        ascending(a.drop_last()),
        map_of(a.drop_last()) == map_of(a).remove(a.last().0),
{
    let b = a.drop_last();
    assert(forall|i: int| 0 <= i < b.len() ==> b[i] == a[i]);
    lemma_position_all(a);
    lemma_position_all(b);
    assert(map_of(b) =~= map_of(a).remove(a.last().0)) by {
        assert forall|key: Text| #[trigger] map_of(b).contains_key(key) <==> map_of(a).remove(
            a.last().0,
        ).contains_key(key) by {
            if has_key(b, key) {
                let i = position(b, key);
                assert(a[i].0 == key);
                lemma_position(a, i);
                lemma_position(a, a.len() - 1);
            }
            if has_key(a, key) && key != a.last().0 {
                let i = position(a, key);
                assert(i < b.len());
                assert(b[i].0 == key);
            }
        }
        assert forall|key: Text| #[trigger] map_of(b).contains_key(key) implies map_of(b)[key]
            == map_of(a).remove(a.last().0)[key] by {
            let i = position(b, key);
            lemma_position(b, i);
            lemma_position(a, i);
        }
    }
}

impl<V: DeepView> PathMap<V> {
    /// The map without keys.
    pub fn new() -> (r: Self)
        ensures
            r.wf(),
            r@ == Map::<Text, V::V>::empty(),
            r.pairs() == Seq::<(Text, V::V)>::empty(),
    {
        let r = PathMap { entries: Vec::new() };
        assert(r.pairs() =~= Seq::<(Text, V::V)>::empty());
        assert(r@ =~= Map::<Text, V::V>::empty());
        r
    }

    /// The number of keys.
    pub fn len(&self) -> (r: usize)
        ensures
            r == self.pairs().len(),
    {
        self.entries.len()
    }

    /// The key at a place of the order.
    pub fn key_at(&self, i: usize) -> (r: &String)
        requires
            i < self.pairs().len(),
        ensures
            r@ == self.pairs()[i as int].0,
    {
        &self.entries[i].0
    }

    /// The value at a place of the order.
    pub fn value_at(&self, i: usize) -> (r: &V)
        requires
            i < self.pairs().len(),
        ensures
            r.deep_view() == self.pairs()[i as int].1,
    {
        &self.entries[i].1
    }

    /// The first place whose key is not before `key`.
    fn lower_bound(&self, key: &str) -> (r: usize)
        requires
            self.wf(),
        ensures
            r <= self.pairs().len(),
            forall|i: int| 0 <= i < r ==> text::text_less((#[trigger] self.pairs()[i]).0, key@),
            forall|i: int|
                r <= i < self.pairs().len() ==> !text::text_less(
                    (#[trigger] self.pairs()[i]).0,
                    key@,
                ),
    {
        let mut low: usize = 0;
        let mut high: usize = self.entries.len();
        while low < high
            invariant
                self.wf(),
                low <= high <= self.pairs().len(),
                self.pairs().len() == self.entries@.len(),
                forall|i: int|
                    0 <= i < low ==> text::text_less((#[trigger] self.pairs()[i]).0, key@),
                forall|i: int|
                    high <= i < self.pairs().len() ==> !text::text_less(
                        (#[trigger] self.pairs()[i]).0,
                        key@,
                    ),
            decreases high - low,
        {
            let mid: usize = low + (high - low) / 2;
            assert(self.pairs()[mid as int].0 == self.entries@[mid as int].0@);
            if text::less(self.entries[mid].0.as_str(), key) {
                assert forall|i: int| 0 <= i < mid + 1 implies text::text_less(
                    (#[trigger] self.pairs()[i]).0,
                    key@,
                ) by {
                    if i < mid {
                        text::lemma_text_less_transitive(
                            self.pairs()[i].0,
                            self.pairs()[mid as int].0,
                            key@,
                        );
                    }
                }
                low = mid + 1;
            } else {
                assert forall|i: int| mid <= i < self.pairs().len() implies !text::text_less(
                    (#[trigger] self.pairs()[i]).0,
                    key@,
                ) by {
                    if i > mid && text::text_less(self.pairs()[i].0, key@) {
                        text::lemma_text_less_transitive(
                            self.pairs()[mid as int].0,
                            self.pairs()[i].0,
                            key@,
                        );
                    }
                }
                high = mid;
            }
        }
        low
    }

    /// The place of a key, if the map has it.
    fn find(&self, key: &str) -> (r: Option<usize>)
        requires
            self.wf(),
        ensures
            match r {
                Some(i) => i < self.pairs().len() && self.pairs()[i as int].0 == key@,
                None => !has_key(self.pairs(), key@),
            },
    {
        let i: usize = self.lower_bound(key);
        if i < self.entries.len() && text::same(self.entries[i].0.as_str(), key) {
            Some(i)
        } else {
            proof {
                if has_key(self.pairs(), key@) {
                    let p = position(self.pairs(), key@);
                    text::lemma_text_less_irreflexive(key@);
                    assert(p >= i);
                    if p > i {
                        assert(text::text_less(self.pairs()[i as int].0, self.pairs()[p].0));
                    }
                }
            }
            None
        }
    }

    /// The value of a key.
    pub fn get(&self, key: &str) -> (r: Option<&V>)
        requires
            self.wf(),
        ensures
            match r {
                Some(v) => self@.contains_key(key@) && v.deep_view() == self@[key@],
                None => !self@.contains_key(key@),
            },
    {
        match self.find(key) {
            Some(i) => {
                proof {
                    lemma_position(self.pairs(), i as int);
                }
                Some(&self.entries[i].1)
            },
            None => None,
        }
    }

    pub fn contains(&self, key: &str) -> (r: bool)
        requires
            self.wf(),
        ensures
            r == self@.contains_key(key@),
    {
        self.get(key).is_some()
    }

    /// Gives a key a value, in place of the one it had.
    pub fn insert(&mut self, key: String, value: V)
        requires
            old(self).wf(),
        ensures
            final(self).wf(),
            final(self)@ == old(self)@.insert(key@, value.deep_view()),
    {
        let i: usize = self.lower_bound(key.as_str());
        let ghost before = self.pairs();
        let ghost value_view = value.deep_view();
        let ghost key_view = key@;
        if i < self.entries.len() && text::same(self.entries[i].0.as_str(), key.as_str()) {
            self.entries[i] = (key, value);
            proof {
                let after = self.pairs();
                assert(after =~= before.update(i as int, (key_view, value_view)));
                lemma_update(before, i as int, value_view);
            }
        } else {
            proof {
                if has_key(before, key_view) {
                    let p = position(before, key_view);
                    text::lemma_text_less_irreflexive(key_view);
                    assert(p >= i);
                    if p > i {
                        assert(text::text_less(before[i as int].0, before[p].0));
                    }
                }
            }
            self.entries.insert(i, (key, value));
            proof {
                let after = self.pairs();
                assert(after =~= before.insert(i as int, (key_view, value_view)));
                lemma_insert(before, i as int, key_view, value_view);
            }
        }
    }

    /// Takes a key away, if the map has it.
    pub fn remove(&mut self, key: &str)
        requires
            old(self).wf(),
        ensures
            final(self).wf(),
            final(self)@ == old(self)@.remove(key@),
    {
        let ghost before = self.pairs();
        match self.find(key) {
            Some(i) => {
                self.entries.remove(i);
                proof {
                    let after = self.pairs();
                    assert(after =~= before.remove(i as int));
                    lemma_remove(before, i as int);
                }
            },
            None => {
                assert(self@ =~= self@.remove(key@));
            },
        }
    }
}

proof fn lemma_update<W>(before: Seq<(Text, W)>, i: int, value: W)
    requires
        ascending(before),
        0 <= i < before.len(),
    ensures
        ascending(before.update(i, (before[i].0, value))),
        map_of(before.update(i, (before[i].0, value))) == map_of(before).insert(before[i].0, value),
{
    let key = before[i].0;
    let after = before.update(i, (key, value));
    assert(forall|j: int| 0 <= j < after.len() ==> after[j].0 == before[j].0);
    assert(ascending(after));
    assert(map_of(after) =~= map_of(before).insert(key, value)) by {
        assert forall|k: Text| #[trigger] map_of(after).contains_key(k) <==> map_of(before).insert(
            key,
            value,
        ).contains_key(k) by {
            if has_key(after, k) {
                let p = position(after, k);
                assert(before[p].0 == k);
            }
            if has_key(before, k) {
                let p = position(before, k);
                assert(after[p].0 == k);
            }
            assert(after[i].0 == key);
        }
        assert forall|k: Text| #[trigger] map_of(after).contains_key(k) implies map_of(after)[k]
            == map_of(before).insert(key, value)[k] by {
            let p = position(after, k);
            lemma_position(after, p);
            lemma_position(before, p);
            lemma_position(after, i);
        }
    }
}

proof fn lemma_insert<W>(before: Seq<(Text, W)>, i: int, key: Text, value: W)
    requires
        ascending(before),
        0 <= i <= before.len(),
        !has_key(before, key),
        forall|j: int| 0 <= j < i ==> text::text_less((#[trigger] before[j]).0, key),
        forall|j: int| i <= j < before.len() ==> !text::text_less((#[trigger] before[j]).0, key),
    ensures
        ascending(before.insert(i, (key, value))),
        map_of(before.insert(i, (key, value))) == map_of(before).insert(key, value),
{
    let after = before.insert(i, (key, value));
    assert(after.len() == before.len() + 1);
    assert(forall|j: int| 0 <= j < i ==> after[j] == before[j]);
    assert(after[i] == (key, value));
    assert(forall|j: int| i < j < after.len() ==> after[j] == before[j - 1]);
    assert forall|a: int, b: int| 0 <= a < b < after.len() implies text::text_less(
        #[trigger] after[a].0,
        #[trigger] after[b].0,
    ) by {
        if b == i {
            assert(text::text_less(before[a].0, key));
        } else if a == i {
            assert(!text::text_less(before[b - 1].0, key));
            assert(before[b - 1].0 != key);
            text::lemma_text_less_total(before[b - 1].0, key);
        } else {
            let x = if a < i { a } else { a - 1 };
            let y = if b < i { b } else { b - 1 };
            assert(text::text_less(before[x].0, before[y].0));
        }
    }
    assert(map_of(after) =~= map_of(before).insert(key, value)) by {
        assert forall|k: Text| #[trigger] map_of(after).contains_key(k) <==> map_of(before).insert(
            key,
            value,
        ).contains_key(k) by {
            if has_key(after, k) && k != key {
                let p = position(after, k);
                let q = if p < i { p } else { p - 1 };
                assert(before[q].0 == k);
            }
            if has_key(before, k) {
                let q = position(before, k);
                let p = if q < i { q } else { q + 1 };
                assert(after[p].0 == k);
            }
            assert(after[i].0 == key);
        }
        assert forall|k: Text| #[trigger] map_of(after).contains_key(k) implies map_of(after)[k]
            == map_of(before).insert(key, value)[k] by {
            lemma_position(after, i);
            if k != key {
                let p = position(after, k);
                let q = if p < i { p } else { p - 1 };
                assert(before[q] == after[p]);
                lemma_position(after, p);
                lemma_position(before, q);
            }
        }
    }
}

proof fn lemma_remove<W>(before: Seq<(Text, W)>, i: int)
    requires
        ascending(before),
        0 <= i < before.len(),
    ensures
        ascending(before.remove(i)),
        map_of(before.remove(i)) == map_of(before).remove(before[i].0),
{
    let key = before[i].0;
    let after = before.remove(i);
    assert(forall|j: int| 0 <= j < i ==> after[j] == before[j]);
    assert(forall|j: int| i <= j < after.len() ==> after[j] == before[j + 1]);
    assert forall|a: int, b: int| 0 <= a < b < after.len() implies text::text_less(
        #[trigger] after[a].0,
        #[trigger] after[b].0,
    ) by {
        let x = if a < i { a } else { a + 1 };
        let y = if b < i { b } else { b + 1 };
        assert(text::text_less(before[x].0, before[y].0));
    }
    assert(map_of(after) =~= map_of(before).remove(key)) by {
        assert forall|k: Text| #[trigger] map_of(after).contains_key(k) <==> map_of(before).remove(
            key,
        ).contains_key(k) by {
            if has_key(after, k) {
                let p = position(after, k);
                let q = if p < i { p } else { p + 1 };
                assert(before[q].0 == k);
                lemma_position(before, q);
                lemma_position(before, i);
            }
            if has_key(before, k) && k != key {
                let q = position(before, k);
                let p = if q < i { q } else { q - 1 };
                assert(q != i);
                assert(after[p].0 == k);
            }
        }
        assert forall|k: Text| #[trigger] map_of(after).contains_key(k) implies map_of(after)[k]
            == map_of(before).remove(key)[k] by {
            let p = position(after, k);
            let q = if p < i { p } else { p + 1 };
            assert(before[q] == after[p]);
            lemma_position(after, p);
            lemma_position(before, q);
        }
    }
}

/// The place at which a key stands, or would stand.
spec fn place<W>(pairs: Seq<(Text, W)>, key: Text) -> int
    decreases pairs.len(),
{
    if pairs.len() == 0 {
        0
    } else if text::text_less(pairs.last().0, key) {
        pairs.len() as int
    } else {
        place(pairs.drop_last(), key)
    }
}

proof fn lemma_place<W>(pairs: Seq<(Text, W)>, key: Text)
    requires
        ascending(pairs),
    ensures
        0 <= place(pairs, key) <= pairs.len(),
        forall|j: int|
            0 <= j < place(pairs, key) ==> text::text_less((#[trigger] pairs[j]).0, key),
        forall|j: int|
            place(pairs, key) <= j < pairs.len() ==> !text::text_less((#[trigger] pairs[j]).0, key),
    decreases pairs.len(),
{
    if pairs.len() > 0 {
        let n = pairs.len() - 1;
        if text::text_less(pairs.last().0, key) {
            assert forall|j: int| 0 <= j < pairs.len() implies text::text_less(
                (#[trigger] pairs[j]).0,
                key,
            ) by {
                if j < n {
                    text::lemma_text_less_transitive(pairs[j].0, pairs[n].0, key);
                }
            }
        } else {
            let rest = pairs.drop_last();
            assert(forall|j: int| 0 <= j < n ==> rest[j] == pairs[j]);
            lemma_place(rest, key);
            assert forall|j: int| 0 <= j < place(pairs, key) implies text::text_less(
                (#[trigger] pairs[j]).0,
                key,
            ) by {
                assert(rest[j] == pairs[j]);
            }
            assert forall|j: int| place(pairs, key) <= j < pairs.len() implies !text::text_less(
                (#[trigger] pairs[j]).0,
                key,
            ) by {
                if j < n {
                    assert(rest[j] == pairs[j]);
                }
            }
        }
    }
}

proof fn lemma_pairs_exist(members: Set<Text>) -> (pairs: Seq<(Text, ())>)
    requires
        members.finite(),
    ensures
        ascending(pairs),
        map_of(pairs).dom() == members,
    decreases members.len(),
{
    if members.len() == 0 {
        let pairs = Seq::<(Text, ())>::empty();
        assert(map_of(pairs).dom() =~= members);
        pairs
    } else {
        let key = members.choose();
        let before = lemma_pairs_exist(members.remove(key));
        let i = place(before, key);
        lemma_place(before, key);
        assert(!has_key(before, key)) by {
            if has_key(before, key) {
                assert(map_of(before).dom().contains(key));
            }
        }
        lemma_insert(before, i, key, ());
        let pairs = before.insert(i, (key, ()));
        assert(map_of(pairs).dom() =~= members);
        pairs
    }
}

/// The sorted members of a finite set ascend and are its members.
pub proof fn lemma_sorted_keys(members: Set<Text>)
    requires
        members.finite(),
    ensures
        ascending_keys(sorted_keys(members)),
        forall|key: Text| #[trigger]
            sorted_keys(members).contains(key) <==> members.contains(key),
{
    let pairs = lemma_pairs_exist(members);
    assert forall|key: Text| #[trigger] members.contains(key) <==> map_of(pairs).contains_key(
        key,
    ) by {
        assert(map_of(pairs).dom().contains(key) <==> members.contains(key));
    }
    lemma_keys(pairs, members);
}

/// Every finite map has pairs, which ascend and spell it.
pub proof fn lemma_pairs<W>(map: Map<Text, W>)
    requires
        map.dom().finite(),
    ensures
        ascending(pairs_of(map)),
        map_of(pairs_of(map)) == map,
{
    lemma_sorted_keys(map.dom());
    let items = sorted_keys(map.dom());
    let pairs = Seq::new(items.len(), |i: int| (items[i], map[items[i]]));
    assert forall|i: int, j: int| 0 <= i < j < pairs.len() implies text::text_less(
        #[trigger] pairs[i].0,
        #[trigger] pairs[j].0,
    ) by {
        assert(text::text_less(items[i], items[j]));
    }
    assert forall|key: Text| #[trigger] has_key(pairs, key) <==> map.contains_key(key) by {
        if has_key(pairs, key) {
            let i = position(pairs, key);
            assert(items.contains(items[i]));
        }
        if map.contains_key(key) {
            assert(items.contains(key));
            let i = choose|i: int| 0 <= i < items.len() && items[i] == key;
            assert(pairs[i].0 == key);
        }
    }
    assert forall|key: Text| has_key(pairs, key) implies #[trigger] map_of(pairs)[key]
        == map[key] by {
        let i = position(pairs, key);
        assert(0 <= i < pairs.len() && pairs[i].0 == key);
    }
    assert(map_of(pairs) =~= map);
}

/// Ascending pairs have as many keys as there are pairs.
pub proof fn lemma_key_count<W>(pairs: Seq<(Text, W)>)
    requires
        ascending(pairs),
    ensures
        map_of(pairs).dom().finite(),
        map_of(pairs).dom().len() == pairs.len(),
    decreases pairs.len(),
{
    if pairs.len() == 0 {
        assert(map_of(pairs).dom() =~= Set::empty());
    } else {
        lemma_map_of_drop_last(pairs);
        lemma_key_count(pairs.drop_last());
        lemma_position(pairs, pairs.len() - 1);
        assert(map_of(pairs).dom() =~= map_of(pairs.drop_last()).dom().insert(pairs.last().0));
    }
}

} // verus!
