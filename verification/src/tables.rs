//! Looking up, changing and removing rows of a table, and putting rows in
//! order.
use vstd::prelude::*;
use crate::error::Failure;
use crate::text;
use crate::text::Text;

verus! {

/// The place of the first row with a property.
pub open spec fn first<A>(rows: Seq<A>, wanted: spec_fn(A) -> bool) -> Option<int>
    decreases rows.len(),
{
    if rows.len() == 0 {
        None
    } else {
        match first(rows.drop_last(), wanted) {
            Some(i) => Some(i),
            None => if wanted(rows.last()) {
                Some(rows.len() - 1)
            } else {
                None
            },
        }
    }
}

/// The first row with a property.
pub open spec fn find<A>(rows: Seq<A>, wanted: spec_fn(A) -> bool) -> Option<A> {
    match first(rows, wanted) {
        Some(i) => Some(rows[i]),
        None => None,
    }
}

/// Some row has the property.
pub open spec fn any<A>(rows: Seq<A>, wanted: spec_fn(A) -> bool) -> bool {
    first(rows, wanted) is Some
}

pub proof fn lemma_first<A>(rows: Seq<A>, wanted: spec_fn(A) -> bool)
    ensures
        match first(rows, wanted) {
            Some(i) => 0 <= i < rows.len() && wanted(rows[i]) && forall|j: int|
                0 <= j < i ==> !wanted(#[trigger] rows[j]),
            None => forall|j: int| 0 <= j < rows.len() ==> !wanted(#[trigger] rows[j]),
        },
    decreases rows.len(),
{
    if rows.len() > 0 {
        let shorter = rows.drop_last();
        lemma_first(shorter, wanted);
        assert(forall|j: int| 0 <= j < shorter.len() ==> shorter[j] == rows[j]);
        match first(rows, wanted) {
            Some(i) => {
                assert forall|j: int| 0 <= j < i implies !wanted(#[trigger] rows[j]) by {
                    assert(shorter[j] == rows[j]);
                }
            },
            None => {
                assert forall|j: int| 0 <= j < rows.len() implies !wanted(#[trigger] rows[j]) by {
                    if j < shorter.len() {
                        assert(shorter[j] == rows[j]);
                    }
                }
            },
        }
    }
}

/// The place is that of the first row with the property.
pub proof fn lemma_first_at<A>(rows: Seq<A>, wanted: spec_fn(A) -> bool, i: int)
    requires
        0 <= i < rows.len(),
        wanted(rows[i]),
        forall|j: int| 0 <= j < i ==> !wanted(#[trigger] rows[j]),
    ensures
        first(rows, wanted) == Some(i),
{
    lemma_first(rows, wanted);
    match first(rows, wanted) {
        Some(k) => {
            if i < k {
                assert(!wanted(rows[i]));
            } else if k < i {
                assert(!wanted(rows[k]));
            }
        },
        None => {
            assert(!wanted(rows[i]));
        },
    }
}

/// No row has the property.
pub proof fn lemma_first_none<A>(rows: Seq<A>, wanted: spec_fn(A) -> bool)
    requires
        forall|j: int| 0 <= j < rows.len() ==> !wanted(#[trigger] rows[j]),
    ensures
        first(rows, wanted) is None,
{
    lemma_first(rows, wanted);
    if let Some(i) = first(rows, wanted) {
        assert(!wanted(rows[i]));
    }
}

/// A row with the property is found.
pub proof fn lemma_any<A>(rows: Seq<A>, wanted: spec_fn(A) -> bool, i: int)
    requires
        0 <= i < rows.len(),
        wanted(rows[i]),
    ensures
        any(rows, wanted),
{
    lemma_first(rows, wanted);
}

/// One more row is found last.
pub proof fn lemma_first_push<A>(rows: Seq<A>, row: A, wanted: spec_fn(A) -> bool)
    ensures
        first(rows.push(row), wanted) == match first(rows, wanted) {
            Some(i) => Some(i),
            None => if wanted(row) {
                Some(rows.len() as int)
            } else {
                None
            },
        },
{
    assert(rows.push(row).drop_last() =~= rows);
}

/// Every row changed.
pub open spec fn changed<A>(rows: Seq<A>, change: spec_fn(A) -> A) -> Seq<A> {
    Seq::new(rows.len(), |i: int| change(rows[i]))
}

/// The rows with a property.
pub open spec fn kept<A>(rows: Seq<A>, wanted: spec_fn(A) -> bool) -> Seq<A>
    decreases rows.len(),
{
    if rows.len() == 0 {
        Seq::empty()
    } else {
        let before = kept(rows.drop_last(), wanted);
        if wanted(rows.last()) {
            before.push(rows.last())
        } else {
            before
        }
    }
}

/// What is found among all rows is found among those that are kept, if it is
/// one of them; what is not found stays unfound.
pub proof fn lemma_find_kept<A>(
    rows: Seq<A>,
    keeps: spec_fn(A) -> bool,
    wanted: spec_fn(A) -> bool,
)
    ensures
        match find(rows, wanted) {
            Some(row) => keeps(row) ==> find(kept(rows, keeps), wanted) == Some(row),
            None => find(kept(rows, keeps), wanted) is None,
        },
    decreases rows.len(),
{
    if rows.len() > 0 {
        let before = rows.drop_last();
        let last = rows.last();
        lemma_find_kept(before, keeps, wanted);
        lemma_first(before, wanted);
        lemma_first(kept(before, keeps), wanted);
        assert(rows =~= before.push(last));
        lemma_first_push(before, last, wanted);
        lemma_first_push(kept(before, keeps), last, wanted);
    }
}

/// The failure of the first item that fails its check.
pub open spec fn first_failure<A>(
    items: Seq<A>,
    check: spec_fn(A) -> Option<Failure>,
) -> Option<Failure>
    decreases items.len(),
{
    if items.len() == 0 {
        None
    } else {
        match first_failure(items.drop_last(), check) {
            Some(failure) => Some(failure),
            None => check(items.last()),
        }
    }
}

pub proof fn lemma_first_failure<A>(
    items: Seq<A>,
    check: spec_fn(A) -> Option<Failure>,
    i: int,
)
    requires
        0 <= i <= items.len(),
        first_failure(items.take(i), check) is Some,
    ensures
        first_failure(items, check) == first_failure(items.take(i), check),
    decreases items.len() - i,
{
    if i < items.len() {
        assert(items.take(i + 1).drop_last() =~= items.take(i));
        lemma_first_failure(items, check, i + 1);
    } else {
        assert(items.take(i) =~= items);
    }
}


/// How many rows have the property.
pub open spec fn count<A>(rows: Seq<A>, wanted: spec_fn(A) -> bool) -> nat {
    kept(rows, wanted).len()
}

/// A key by which rows are ordered: two texts, the first before the second.
pub open spec fn key_less(a: (Text, Text), b: (Text, Text)) -> bool {
    text::text_less(a.0, b.0) || (a.0 == b.0 && text::text_less(a.1, b.1))
}

/// The places of rows with the keys, in the order of the keys; rows with the
/// same key stay in the order of the table.
pub open spec fn is_order(keys: Seq<(Text, Text)>, places: Seq<int>) -> bool {
    &&& places.len() == keys.len()
    &&& forall|i: int| 0 <= i < places.len() ==> 0 <= #[trigger] places[i] < keys.len()
    &&& forall|i: int, j: int|
        0 <= i < j < places.len() ==> comes_before(
            keys,
            #[trigger] places[i],
            #[trigger] places[j],
        )
}

pub open spec fn comes_before(keys: Seq<(Text, Text)>, a: int, b: int) -> bool {
    key_less(keys[a], keys[b]) || (keys[a] == keys[b] && a < b)
}

/// The order of rows by their keys.
pub open spec fn order(keys: Seq<(Text, Text)>) -> Seq<int> {
    choose|places: Seq<int>| is_order(keys, places)
}

proof fn lemma_comes_before_transitive(keys: Seq<(Text, Text)>, a: int, b: int, c: int)
    requires
        comes_before(keys, a, b),
        comes_before(keys, b, c),
    ensures
        comes_before(keys, a, c),
{
    let (x, y, z) = (keys[a], keys[b], keys[c]);
    if text::text_less(x.0, y.0) {
        if text::text_less(y.0, z.0) {
            text::lemma_text_less_transitive(x.0, y.0, z.0);
        }
    } else {
        if !text::text_less(y.0, z.0) && text::text_less(x.1, y.1) && text::text_less(y.1, z.1) {
            text::lemma_text_less_transitive(x.1, y.1, z.1);
        }
    }
}

proof fn lemma_comes_before_irreflexive(keys: Seq<(Text, Text)>, a: int)
    ensures
        !comes_before(keys, a, a),
{
    text::lemma_text_less_irreflexive(keys[a].0);
    text::lemma_text_less_irreflexive(keys[a].1);
}

proof fn lemma_comes_before_total(keys: Seq<(Text, Text)>, a: int, b: int)
    requires
        a != b,
    ensures
        comes_before(keys, a, b) || comes_before(keys, b, a),
{
    text::lemma_text_less_total(keys[a].0, keys[b].0);
    text::lemma_text_less_total(keys[a].1, keys[b].1);
}

/// An order holds every place.
proof fn lemma_order_complete(keys: Seq<(Text, Text)>, places: Seq<int>, k: int)
    requires
        is_order(keys, places),
        0 <= k < keys.len(),
    ensures
        places.contains(k),
{
    assert(places.no_duplicates()) by {
        assert forall|i: int, j: int| 0 <= i < places.len() && 0 <= j < places.len() && i
            != j implies places[i] != places[j] by {
            if i < j {
                lemma_comes_before_irreflexive(keys, places[i]);
            } else {
                lemma_comes_before_irreflexive(keys, places[j]);
            }
        }
    }
    if !places.contains(k) {
        lemma_pigeonhole(places, keys.len() as int, k);
    }
}

/// Distinct places below a bound that leave one out are fewer than the bound.
proof fn lemma_pigeonhole(places: Seq<int>, bound: int, missing: int)
    requires
        places.no_duplicates(),
        forall|i: int| 0 <= i < places.len() ==> 0 <= #[trigger] places[i] < bound,
        0 <= missing < bound,
        !places.contains(missing),
    ensures
        places.len() < bound,
{
    let all = Set::new(|i: int| 0 <= i < bound);
    vstd::set_lib::lemma_int_range(0, bound);
    assert(all =~= vstd::set_lib::set_int_range(0, bound));
    places.unique_seq_to_set();
    let used = places.to_set();
    assert(used.subset_of(all.remove(missing)));
    vstd::set_lib::lemma_len_subset(used, all.remove(missing));
}

/// There is one order.
pub proof fn lemma_order_unique(keys: Seq<(Text, Text)>, a: Seq<int>, b: Seq<int>)
    requires
        is_order(keys, a),
        is_order(keys, b),
    ensures
        a == b,
{
    assert forall|i: int| 0 <= i < a.len() implies a[i] == b[i] by {
        lemma_order_agrees(keys, a, b, i);
    }
    assert(a =~= b);
}

proof fn lemma_order_agrees(keys: Seq<(Text, Text)>, a: Seq<int>, b: Seq<int>, i: int)
    requires
        is_order(keys, a),
        is_order(keys, b),
        0 <= i < a.len(),
    ensures
        a[i] == b[i],
    decreases i,
{
    assert forall|j: int| 0 <= j < i implies a[j] == b[j] by {
        lemma_order_agrees(keys, a, b, j);
    }
    if a[i] != b[i] {
        lemma_comes_before_total(keys, a[i], b[i]);
        if comes_before(keys, a[i], b[i]) {
            lemma_order_complete(keys, b, a[i]);
            let k = choose|k: int| 0 <= k < b.len() && b[k] == a[i];
            lemma_comes_before_irreflexive(keys, a[i]);
            if k < i {
                assert(a[k] == b[k]);
                assert(comes_before(keys, a[k], a[i]));
            } else if k > i {
                assert(comes_before(keys, b[i], b[k]));
                lemma_comes_before_transitive(keys, a[i], b[i], a[i]);
            }
        } else {
            lemma_order_complete(keys, a, b[i]);
            let k = choose|k: int| 0 <= k < a.len() && a[k] == b[i];
            lemma_comes_before_irreflexive(keys, b[i]);
            if k < i {
                assert(a[k] == b[k]);
                assert(comes_before(keys, b[k], b[i]));
            } else if k > i {
                assert(comes_before(keys, a[i], a[k]));
                lemma_comes_before_transitive(keys, b[i], a[i], b[i]);
            }
        }
    }
}

fn less_pair(a: &(String, String), b: &(String, String)) -> (r: bool)
    ensures
        r == key_less((a.0@, a.1@), (b.0@, b.1@)),
{
    text::less(a.0.as_str(), b.0.as_str()) || (text::same(a.0.as_str(), b.0.as_str())
        && text::less(a.1.as_str(), b.1.as_str()))
}

/// The places of rows, given their keys, in the order of the keys.
pub fn sorted_places(keys: &Vec<(String, String)>) -> (r: Vec<usize>)
    ensures
        r@.len() == keys@.len(),
        forall|i: int| 0 <= i < r@.len() ==> (#[trigger] r@[i]) == order(keys.deep_view())[i],
        is_order(keys.deep_view(), order(keys.deep_view())),
{
    let ghost all = keys.deep_view();
    let mut out: Vec<usize> = Vec::new();
    let mut i: usize = 0;
    while i < keys.len()
        invariant
            i <= keys@.len(),
            all == keys.deep_view(),
            out@.len() == i,
            forall|a: int| 0 <= a < out@.len() ==> (#[trigger] out@[a]) < i,
            forall|a: int, b: int|
                0 <= a < b < out@.len() ==> comes_before(
                    all,
                    (#[trigger] out@[a]) as int,
                    (#[trigger] out@[b]) as int,
                ),
        decreases keys@.len() - i,
    {
        let mut at: usize = out.len();
        while at > 0 && less_pair(&keys[i], &keys[out[at - 1]])
            invariant
                at <= out@.len(),
                i < keys@.len(),
                all == keys.deep_view(),
                out@.len() == i,
                forall|a: int| 0 <= a < out@.len() ==> (#[trigger] out@[a]) < i,
                forall|a: int|
                    at <= a < out@.len() ==> comes_before(
                        all,
                        i as int,
                        (#[trigger] out@[a]) as int,
                    ),
            decreases at,
        {
            proof {
                let place = out@[at - 1] as int;
                assert(all[i as int] == (keys@[i as int].0@, keys@[i as int].1@));
                assert(all[place] == (keys@[place].0@, keys@[place].1@));
            }
            at = at - 1;
        }
        let ghost before = out@;
        proof {
            assert forall|a: int| 0 <= a < at implies comes_before(
                all,
                (#[trigger] before[a]) as int,
                i as int,
            ) by {
                let last = before[at - 1] as int;
                assert(all[i as int] == (keys@[i as int].0@, keys@[i as int].1@));
                assert(all[last] == (keys@[last].0@, keys@[last].1@));
                assert(!key_less(all[i as int], all[last]));
                lemma_comes_before_total(all, last, i as int);
                assert(comes_before(all, last, i as int)) by {
                    if comes_before(all, i as int, last) {
                        assert(all[i as int] == all[last] && i < last);
                    }
                }
                if a < at - 1 {
                    lemma_comes_before_transitive(all, before[a] as int, last, i as int);
                }
            }
        }
        out.insert(at, i);
        proof {
            assert(out@ =~= before.insert(at as int, i));
            assert forall|a: int, b: int| 0 <= a < b < out@.len() implies comes_before(
                all,
                (#[trigger] out@[a]) as int,
                (#[trigger] out@[b]) as int,
            ) by {
                if b < at {
                    assert(out@[a] == before[a] && out@[b] == before[b]);
                } else if b == at {
                    assert(out@[a] == before[a]);
                } else if a < at {
                    assert(out@[a] == before[a] && out@[b] == before[b - 1]);
                } else if a == at {
                    assert(out@[b] == before[b - 1]);
                } else {
                    assert(out@[a] == before[a - 1] && out@[b] == before[b - 1]);
                }
            }
            assert forall|a: int| 0 <= a < out@.len() implies (#[trigger] out@[a]) < i + 1 by {
                if a < at {
                    assert(out@[a] == before[a]);
                } else if a > at {
                    assert(out@[a] == before[a - 1]);
                }
            }
        }
        i = i + 1;
    }
    proof {
        let places = out@.map_values(|p: usize| p as int);
        assert(is_order(all, places)) by {
            assert forall|a: int, b: int| 0 <= a < b < places.len() implies comes_before(
                all,
                #[trigger] places[a],
                #[trigger] places[b],
            ) by {
                assert(places[a] == out@[a] as int && places[b] == out@[b] as int);
            }
        }
        lemma_order_unique(all, order(all), places);
        assert forall|a: int| 0 <= a < out@.len() implies (#[trigger] out@[a]) == order(all)[a] by {
            assert(places[a] == out@[a] as int);
        }
    }
    out
}

/// A place to put a row at the end of the table into the order of those before.
proof fn lemma_insertion(keys: Seq<(Text, Text)>, places: Seq<int>, i: int) -> (p: int)
    requires
        keys.len() > 0,
        is_order(keys.drop_last(), places),
        0 <= i <= places.len(),
        forall|k: int|
            0 <= k < i ==> comes_before(keys, #[trigger] places[k], keys.len() - 1),
    ensures
        i <= p <= places.len(),
        forall|k: int|
            0 <= k < p ==> comes_before(keys, #[trigger] places[k], keys.len() - 1),
        forall|k: int|
            p <= k < places.len() ==> comes_before(keys, keys.len() - 1, #[trigger] places[k]),
    decreases places.len() - i,
{
    let n = keys.len() - 1;
    if i == places.len() {
        i
    } else {
        lemma_comes_before_total(keys, places[i], n);
        if comes_before(keys, places[i], n) {
            lemma_insertion(keys, places, i + 1)
        } else {
            assert forall|k: int| i <= k < places.len() implies comes_before(
                keys,
                n,
                #[trigger] places[k],
            ) by {
                if i < k {
                    assert(comes_before(keys.drop_last(), places[i], places[k]));
                    assert(comes_before(keys, places[i], places[k]));
                    lemma_comes_before_transitive(keys, n, places[i], places[k]);
                }
            }
            i
        }
    }
}

/// Rows have an order, whatever their keys.
pub proof fn lemma_order(keys: Seq<(Text, Text)>)
    ensures
        is_order(keys, order(keys)),
    decreases keys.len(),
{
    if keys.len() == 0 {
        assert(is_order(keys, Seq::<int>::empty()));
    } else {
        let n = keys.len() - 1;
        let shorter = keys.drop_last();
        lemma_order(shorter);
        let before = order(shorter);
        let p = lemma_insertion(keys, before, 0);
        let places = before.insert(p, n);
        assert forall|i: int, j: int| 0 <= i < j < places.len() implies comes_before(
            keys,
            #[trigger] places[i],
            #[trigger] places[j],
        ) by {
            let a = if i < p {
                i
            } else {
                i - 1
            };
            let b = if j < p {
                j
            } else {
                j - 1
            };
            if i != p && j != p {
                assert(places[i] == before[a] && places[j] == before[b]);
                assert(comes_before(shorter, before[a], before[b]));
                assert(comes_before(keys, before[a], before[b]));
            } else if i == p {
                assert(places[j] == before[b]);
            } else {
                assert(places[i] == before[a]);
            }
        }
        assert(is_order(keys, places));
    }
}

/// Putting rows in their order brings in no other row.
pub proof fn lemma_in_order<R: Row>(rows: Seq<R::V>, i: int)
    requires
        0 <= i < rows.len(),
    ensures
        rows.contains(in_order::<R>(rows)[i]),
{
    let keys = Seq::new(rows.len(), |k: int| row_key::<R>()(rows[k]));
    lemma_order(keys);
    assert(rows[order(keys)[i]] == in_order::<R>(rows)[i]);
}

/// Rows in the order of their keys.
pub open spec fn ordered_by<A>(rows: Seq<A>, key: spec_fn(A) -> (Text, Text)) -> Seq<A> {
    let places = order(Seq::new(rows.len(), |i: int| key(rows[i])));
    Seq::new(rows.len(), |i: int| rows[places[i]])
}

/// A row that has an order among its kind.
pub trait Row: Sized + DeepView {
    /// What the order goes by.
    spec fn key(row: Self::V) -> (Text, Text);

    fn order_key(&self) -> (r: (String, String))
        ensures
            (r.0@, r.1@) == Self::key(self.deep_view()),
    ;

    fn copy(&self) -> (r: Self)
        ensures
            r.deep_view() == self.deep_view(),
    ;
}

/// The key of a row.
pub open spec fn row_key<R: Row>() -> spec_fn(R::V) -> (Text, Text) {
    |row: R::V| R::key(row)
}

/// Rows in their order.
pub open spec fn in_order<R: Row>(rows: Seq<R::V>) -> Seq<R::V> {
    ordered_by(rows, row_key::<R>())
}

/// Puts rows in their order.
pub fn put_in_order<R: Row>(rows: &Vec<R>) -> (r: Vec<R>)
    ensures
        r.deep_view() == in_order::<R>(rows.deep_view()),
{
    let ghost all = rows.deep_view();
    let mut keys: Vec<(String, String)> = Vec::new();
    let mut i: usize = 0;
    while i < rows.len()
        invariant
            i <= rows@.len(),
            all == rows.deep_view(),
            keys@.len() == i,
            forall|j: int|
                0 <= j < i ==> ((#[trigger] keys@[j]).0@, keys@[j].1@) == R::key(all[j]),
        decreases rows@.len() - i,
    {
        keys.push(rows[i].order_key());
        i = i + 1;
    }
    let places = sorted_places(&keys);
    let ghost key = row_key::<R>();
    let ghost listed = Seq::new(all.len(), |i: int| key(all[i]));
    assert(keys.deep_view() =~= listed);
    let mut out: Vec<R> = Vec::new();
    let mut k: usize = 0;
    while k < places.len()
        invariant
            k <= places@.len(),
            places@.len() == rows@.len(),
            all == rows.deep_view(),
            listed.len() == all.len(),
            is_order(listed, order(listed)),
            forall|j: int| 0 <= j < places@.len() ==> (#[trigger] places@[j]) == order(listed)[j],
            out@.len() == k,
            forall|j: int|
                0 <= j < k ==> (#[trigger] out@[j]).deep_view() == all[order(listed)[j]],
        decreases places@.len() - k,
    {
        assert(places@[k as int] == order(listed)[k as int]);
        out.push(rows[places[k]].copy());
        k = k + 1;
    }
    assert(out.deep_view() =~= in_order::<R>(all));
    out
}

/// The rows that are kept are those with the property, and no others.
pub proof fn lemma_kept<A>(rows: Seq<A>, wanted: spec_fn(A) -> bool)
    ensures
        forall|row: A| #[trigger] kept(rows, wanted).contains(row) <==> rows.contains(row)
            && wanted(row),
    decreases rows.len(),
{
    let all = kept(rows, wanted);
    if rows.len() > 0 {
        let shorter = rows.drop_last();
        let before = kept(shorter, wanted);
        lemma_kept(shorter, wanted);
        assert forall|row: A| #[trigger] all.contains(row) <==> rows.contains(row) && wanted(
            row,
        ) by {
            if all.contains(row) {
                let i = choose|i: int| 0 <= i < all.len() && all[i] == row;
                if i < before.len() {
                    assert(before[i] == row);
                    assert(before.contains(row));
                    let j = choose|j: int| 0 <= j < shorter.len() && shorter[j] == row;
                    assert(rows[j] == row);
                } else {
                    assert(rows[rows.len() - 1] == row);
                }
            }
            if rows.contains(row) && wanted(row) {
                let j = choose|j: int| 0 <= j < rows.len() && rows[j] == row;
                if j < rows.len() - 1 {
                    assert(shorter[j] == row);
                    assert(before.contains(row));
                    let i = choose|i: int| 0 <= i < before.len() && before[i] == row;
                    assert(all[i] == row);
                } else {
                    assert(all[all.len() - 1] == row);
                }
            }
        }
    }
}

/// No row is kept exactly where none has the property.
pub proof fn lemma_kept_none<A>(rows: Seq<A>, wanted: spec_fn(A) -> bool)
    ensures
        kept(rows, wanted).len() == 0 <==> forall|i: int|
            0 <= i < rows.len() ==> !wanted(#[trigger] rows[i]),
    decreases rows.len(),
{
    if rows.len() > 0 {
        let shorter = rows.drop_last();
        lemma_kept_none(shorter, wanted);
        assert(rows[rows.len() - 1] == rows.last());
        assert(forall|i: int| 0 <= i < shorter.len() ==> shorter[i] == #[trigger] rows[i]);
        if forall|i: int| 0 <= i < shorter.len() ==> !wanted(#[trigger] shorter[i]) {
            assert forall|i: int| 0 <= i < rows.len() && !wanted(rows.last()) implies !wanted(
                #[trigger] rows[i],
            ) by {
                if i < shorter.len() {
                    assert(!wanted(shorter[i]));
                }
            }
        } else {
            let i = choose|i: int| 0 <= i < shorter.len() && wanted(#[trigger] shorter[i]);
            assert(wanted(rows[i]));
        }
    }
}

/// One row is kept exactly where the given row is the only one with the
/// property.
pub proof fn lemma_kept_one<A>(rows: Seq<A>, wanted: spec_fn(A) -> bool, k: int)
    requires
        0 <= k < rows.len(),
        wanted(rows[k]),
    ensures
        kept(rows, wanted).len() >= 1,
        kept(rows, wanted).len() == 1 <==> forall|i: int|
            0 <= i < rows.len() && i != k ==> !wanted(#[trigger] rows[i]),
    decreases rows.len(),
{
    let shorter = rows.drop_last();
    assert(forall|i: int| 0 <= i < shorter.len() ==> shorter[i] == #[trigger] rows[i]);
    assert(rows[rows.len() - 1] == rows.last());
    lemma_kept_none(shorter, wanted);
    if k == rows.len() - 1 {
        if kept(shorter, wanted).len() == 0 {
            assert forall|i: int| 0 <= i < rows.len() && i != k implies !wanted(
                #[trigger] rows[i],
            ) by {
                assert(!wanted(shorter[i]));
            }
        } else {
            let i = choose|i: int| 0 <= i < shorter.len() && wanted(#[trigger] shorter[i]);
            assert(wanted(rows[i]));
        }
    } else {
        assert(wanted(shorter[k]));
        lemma_kept_one(shorter, wanted, k);
        if kept(shorter, wanted).len() == 1 && !wanted(rows.last()) {
            assert forall|i: int| 0 <= i < rows.len() && i != k implies !wanted(
                #[trigger] rows[i],
            ) by {
                if i < shorter.len() {
                    assert(!wanted(shorter[i]));
                }
            }
        } else if kept(shorter, wanted).len() != 1 {
            let i = choose|i: int|
                0 <= i < shorter.len() && i != k && wanted(#[trigger] shorter[i]);
            assert(wanted(rows[i]));
        }
    }
}

/// Rows in their order are the same rows, and each comes before those with a
/// later key.
pub proof fn lemma_in_order_rows<R: Row>(rows: Seq<R::V>)
    ensures
        in_order::<R>(rows).len() == rows.len(),
        forall|row: R::V| #[trigger] in_order::<R>(rows).contains(row) <==> rows.contains(row),
        forall|i: int, j: int|
            0 <= i < j < rows.len() ==> {
                let a = R::key(#[trigger] in_order::<R>(rows)[i]);
                let b = R::key(#[trigger] in_order::<R>(rows)[j]);
                a == b || text::text_less(a.0, b.0) || a.0 == b.0 && text::text_less(a.1, b.1)
            },
{
    let keys = Seq::new(rows.len(), |k: int| row_key::<R>()(rows[k]));
    let all = in_order::<R>(rows);
    lemma_order(keys);
    let places = order(keys);
    assert forall|row: R::V| #[trigger] all.contains(row) <==> rows.contains(row) by {
        if all.contains(row) {
            let i = choose|i: int| 0 <= i < all.len() && all[i] == row;
            assert(rows[places[i]] == row);
        }
        if rows.contains(row) {
            let k = choose|k: int| 0 <= k < rows.len() && rows[k] == row;
            lemma_order_complete(keys, places, k);
            let i = choose|i: int| 0 <= i < places.len() && places[i] == k;
            assert(all[i] == row);
        }
    }
    assert forall|i: int, j: int| 0 <= i < j < rows.len() implies {
        let a = R::key(#[trigger] all[i]);
        let b = R::key(#[trigger] all[j]);
        a == b || text::text_less(a.0, b.0) || a.0 == b.0 && text::text_less(a.1, b.1)
    } by {
        assert(comes_before(keys, places[i], places[j]));
        assert(keys[places[i]] == R::key(all[i]));
        assert(keys[places[j]] == R::key(all[j]));
    }
}

/// No item fails exactly where the check passes each of them.
pub proof fn lemma_no_failure<A>(items: Seq<A>, check: spec_fn(A) -> Option<Failure>)
    ensures
        first_failure(items, check) is None <==> forall|i: int|
            0 <= i < items.len() ==> check(#[trigger] items[i]) is None,
    decreases items.len(),
{
    if items.len() > 0 {
        let shorter = items.drop_last();
        lemma_no_failure(shorter, check);
        assert(items[items.len() - 1] == items.last());
        assert(forall|i: int| 0 <= i < shorter.len() ==> shorter[i] == #[trigger] items[i]);
        if first_failure(shorter, check) is None {
            assert forall|i: int| 0 <= i < items.len() && check(items.last()) is None implies check(
                #[trigger] items[i],
            ) is None by {
                if i < shorter.len() {
                    assert(check(shorter[i]) is None);
                }
            }
        } else {
            let i = choose|i: int| 0 <= i < shorter.len() && check(#[trigger] shorter[i]) is Some;
            assert(check(items[i]) is Some);
        }
    }
}

} // verus!
