//! Managed views: what a scan finds, how trees differ and what is written.
use vstd::prelude::*;
use crate::error::{Failure, JavelinError, Result};
use crate::model;
use crate::model::{Change, ChangeKind, Tree, TreeEntry};
use crate::objects;
use crate::objects::ObjectKind;
use crate::ordered;
use crate::ordered::PathMap;
use crate::paths;
use crate::text;
use crate::text::Text;

verus! {

/// What a scan of a view found.
#[derive(Debug, Default)]
pub struct ScanResult {
    pub tree: Tree,
    pub ignored: Vec<(String, String)>,
    pub objects: Vec<(String, ObjectKind, u64)>,
}

impl ScanResult {
    /// The identities, kinds and lengths of the objects.
    pub open spec fn object_records(self) -> Seq<(Text, ObjectKind, u64)> {
        Seq::new(
            self.objects@.len(),
            |i: int| (self.objects@[i].0@, self.objects@[i].1, self.objects@[i].2),
        )
    }
}

/// The paths of the entries.
pub open spec fn paths_of(entries: Seq<TreeEntry<Text>>) -> Seq<Text> {
    Seq::new(entries.len(), |i: int| entries[i].path)
}

/// Two paths differ, and not in lower case.
pub open spec fn clash(a: Text, b: Text) -> bool {
    a != b && text::lowercased(a) == text::lowercased(b)
}

/// The first path that clashes with one before it, after the latter.
pub open spec fn collision(items: Seq<Text>) -> Option<(Text, Text)>
    decreases items.len(),
{
    if items.len() == 0 {
        None
    } else {
        match collision(items.drop_last()) {
            Some(found) => Some(found),
            None => if exists|i: int|
                0 <= i < items.len() - 1 && clash(#[trigger] items[i], items.last()) {
                let i = choose|i: int|
                    0 <= i < items.len() - 1 && clash(#[trigger] items[i], items.last());
                Some((items[i], items.last()))
            } else {
                None
            },
        }
    }
}

/// The failure that a clash of paths is.
pub open spec fn collision_failure(entries: Seq<TreeEntry<Text>>) -> Option<Failure> {
    match collision(paths_of(entries)) {
        Some((a, b)) => Some(
            Failure::unsupported(
                "case-fold collision between "@ + text::quoted(a) + (" and "@ + text::quoted(b)),
            ),
        ),
        None => None,
    }
}

/// A found clash stays found when more paths follow.
proof fn lemma_collision_stays(items: Seq<Text>, n: int)
    requires
        0 <= n <= items.len(),
        collision(items.take(n)) is Some,
    ensures
        collision(items) == collision(items.take(n)),
    decreases items.len() - n,
{
    if n == items.len() {
        assert(items.take(n) =~= items);
    } else {
        assert(items.take(n + 1).drop_last() =~= items.take(n));
        lemma_collision_stays(items, n + 1);
    }
}

/// There is no clash exactly where no two of the paths differ in case alone.
proof fn lemma_collision(items: Seq<Text>)
    ensures
        collision(items) is None <==> forall|i: int, j: int|
            0 <= i < j < items.len() ==> !clash(#[trigger] items[i], #[trigger] items[j]),
    decreases items.len(),
{
    if items.len() > 0 {
        let shorter = items.drop_last();
        lemma_collision(shorter);
        assert(forall|i: int| 0 <= i < shorter.len() ==> #[trigger] shorter[i] == items[i]);
        if collision(items) is None {
            assert forall|i: int, j: int| 0 <= i < j < items.len() implies !clash(
                #[trigger] items[i],
                #[trigger] items[j],
            ) by {
                if j < shorter.len() {
                    assert(!clash(shorter[i], shorter[j]));
                }
            }
        }
        if forall|i: int, j: int|
            0 <= i < j < items.len() ==> !clash(#[trigger] items[i], #[trigger] items[j]) {
            assert forall|i: int, j: int| 0 <= i < j < shorter.len() implies !clash(
                #[trigger] shorter[i],
                #[trigger] shorter[j],
            ) by {
                assert(!clash(items[i], items[j]));
            }
            assert forall|i: int| 0 <= i < items.len() - 1 implies !clash(
                #[trigger] items[i],
                items.last(),
            ) by {
                assert(!clash(items[i], items[items.len() - 1]));
            }
        }
    }
}

/// Entries taken from others without a clash have none.
pub proof fn lemma_no_collision(all: Seq<TreeEntry<Text>>, some: Seq<TreeEntry<Text>>)
    requires
        collision_failure(all) is None,
        forall|i: int| 0 <= i < some.len() ==> all.contains(#[trigger] some[i]),
    ensures
        collision_failure(some) is None,
{
    let (a, b) = (paths_of(all), paths_of(some));
    lemma_collision(a);
    lemma_collision(b);
    assert forall|i: int, j: int| 0 <= i < j < b.len() implies !clash(
        #[trigger] b[i],
        #[trigger] b[j],
    ) by {
        assert(all.contains(some[i]));
        assert(all.contains(some[j]));
        let k = choose|k: int| 0 <= k < all.len() && all[k] == some[i];
        let m = choose|m: int| 0 <= m < all.len() && all[m] == some[j];
        assert(a[k] == b[i] && a[m] == b[j]);
        if k < m {
            assert(!clash(a[k], a[m]));
        } else if m < k {
            assert(!clash(a[m], a[k]));
        }
    }
}

/// Refuses entries of which two paths differ in case alone.
pub fn detect_case_collisions(entries: &Vec<TreeEntry>) -> (r: Result<()>)
    ensures
        match collision_failure(entries.deep_view()) {
            Some(failure) => r is Err && r->Err_0@ == failure,
            None => r is Ok,
        },
{
    let ghost all = paths_of(entries.deep_view());
    let mut folded: PathMap<String> = PathMap::new();
    let mut i: usize = 0;
    assert(all.take(0) =~= Seq::empty());
    while i < entries.len()
        invariant
            i <= entries@.len(),
            all == paths_of(entries.deep_view()),
            folded.wf(),
            collision(all.take(i as int)) is None,
            forall|j: int|
                0 <= j < i ==> folded@.contains_key(text::lowercased(#[trigger] all[j]))
                    && folded@[text::lowercased(all[j])] == all[j],
            forall|key: Text| #[trigger]
                folded@.contains_key(key) ==> exists|j: int|
                    0 <= j < i && text::lowercased(#[trigger] all[j]) == key,
        decreases entries@.len() - i,
    {
        let path = &entries[i].path;
        let key = text::lowercase(path.as_str());
        let ghost now = all.take(i as int + 1);
        proof {
            assert(all[i as int] == path@);
            assert(now.drop_last() =~= all.take(i as int));
            assert(now.last() == path@);
            assert(forall|j: int| 0 <= j < i ==> now[j] == all[j]);
        }
        if let Some(previous) = folded.get(key.as_str()) {
            if *previous != *path {
                proof {
                    let j = choose|j: int| 0 <= j < i && text::lowercased(#[trigger] all[j]) == key@;
                    assert(clash(now[j], now.last()));
                    let k = choose|k: int|
                        0 <= k < now.len() - 1 && clash(#[trigger] now[k], now.last());
                    assert(now[k] == all[k]);
                    assert(collision(now) == Some((previous@, path@)));
                    lemma_collision_stays(all, i as int + 1);
                }
                return Err(
                    JavelinError::unsupported(
                        text::concat2(
                            text::concat2(
                                "case-fold collision between ",
                                text::quote(previous.as_str()).as_str(),
                            ).as_str(),
                            text::concat2(" and ", text::quote(path.as_str()).as_str()).as_str(),
                        ),
                    ),
                );
            }
        }
        proof {
            assert forall|k: int| 0 <= k < now.len() - 1 implies !clash(
                #[trigger] now[k],
                now.last(),
            ) by {
                assert(now[k] == all[k]);
            }
        }
        folded.insert(key, path.clone());
        i = i + 1;
    }
    assert(all.take(i as int) =~= all);
    Ok(())
}

/// What kind of change leads from one path state to another.
pub open spec fn change_kind(
    before: Option<TreeEntry<Text>>,
    after: Option<TreeEntry<Text>>,
) -> ChangeKind {
    match (before, after) {
        (None, Some(_)) => ChangeKind::Add,
        (Some(_), None) => ChangeKind::Delete,
        (Some(left), Some(right)) => if left.kind != right.kind {
            ChangeKind::Type
        } else if left.object_id == right.object_id && left.executable != right.executable {
            ChangeKind::Mode
        } else {
            ChangeKind::Modify
        },
        (None, None) => ChangeKind::Modify,
    }
}

/// The change of a path between two trees.
pub open spec fn change_at(
    old: Map<Text, TreeEntry<Text>>,
    new: Map<Text, TreeEntry<Text>>,
    path: Text,
) -> Change<Text> {
    let before = model::state_at(old, path);
    let after = model::state_at(new, path);
    Change { path, change: change_kind(before, after), old: before, new: after }
}

/// The path has another state in the new tree.
pub open spec fn differs(
    old: Map<Text, TreeEntry<Text>>,
    new: Map<Text, TreeEntry<Text>>,
    path: Text,
) -> bool {
    model::state_at(old, path) != model::state_at(new, path)
}

/// The changes are those of the paths that differ, each once, in order.
pub open spec fn is_difference(
    old: Map<Text, TreeEntry<Text>>,
    new: Map<Text, TreeEntry<Text>>,
    changes: Seq<Change<Text>>,
) -> bool {
    &&& forall|i: int, j: int|
        0 <= i < j < changes.len() ==> text::text_less(
            (#[trigger] changes[i]).path,
            (#[trigger] changes[j]).path,
        )
    &&& forall|i: int|
        0 <= i < changes.len() ==> #[trigger] changes[i] == change_at(old, new, changes[i].path)
            && differs(old, new, changes[i].path)
    &&& forall|path: Text| #[trigger]
        differs(old, new, path) ==> exists|i: int|
            0 <= i < changes.len() && (#[trigger] changes[i]).path == path
}

fn kind_of_change(before: Option<&TreeEntry>, after: Option<&TreeEntry>) -> (r: ChangeKind)
    ensures
        r == change_kind(before.deep_view(), after.deep_view()),
{
    match (before, after) {
        (None, Some(_)) => ChangeKind::Add,
        (Some(_), None) => ChangeKind::Delete,
        (Some(left), Some(right)) => {
            if left.kind != right.kind {
                ChangeKind::Type
            } else if text::same_option(&left.object_id, &right.object_id) && left.executable
                != right.executable {
                ChangeKind::Mode
            } else {
                ChangeKind::Modify
            }
        },
        (None, None) => ChangeKind::Modify,
    }
}

/// Every key of the two maps.
pub fn all_paths(a: &PathMap<TreeEntry>, b: &PathMap<TreeEntry>) -> (r: PathMap<()>)
    requires
        a.wf(),
        b.wf(),
    ensures
        r.wf(),
        forall|path: Text| #[trigger]
            r@.contains_key(path) <==> a@.contains_key(path) || b@.contains_key(path),
{
    let mut out: PathMap<()> = PathMap::new();
    add_paths(&mut out, a);
    add_paths(&mut out, b);
    out
}

/// Adds every key of a map.
pub fn add_paths(out: &mut PathMap<()>, map: &PathMap<TreeEntry>)
    requires
        old(out).wf(),
        map.wf(),
    ensures
        final(out).wf(),
        forall|path: Text| #[trigger]
            final(out)@.contains_key(path) <==> old(out)@.contains_key(path) || map@.contains_key(
                path,
            ),
{
    let mut i: usize = 0;
    while i < map.len()
        invariant
            i <= map.pairs().len(),
            map.wf(),
            out.wf(),
            forall|path: Text| #[trigger]
                out@.contains_key(path) <==> old(out)@.contains_key(path) || exists|j: int|
                    0 <= j < i && (#[trigger] map.pairs()[j]).0 == path,
        decreases map.pairs().len() - i,
    {
        let ghost before = out@;
        let key = map.key_at(i).clone();
        out.insert(key, ());
        proof {
            assert forall|path: Text| #[trigger]
                out@.contains_key(path) <==> old(out)@.contains_key(path) || exists|j: int|
                    0 <= j < i + 1 && (#[trigger] map.pairs()[j]).0 == path by {
                if path == key@ {
                    assert(map.pairs()[i as int].0 == path);
                } else {
                    assert(out@.contains_key(path) <==> before.contains_key(path));
                    if exists|j: int| 0 <= j < i + 1 && (#[trigger] map.pairs()[j]).0 == path {
                        let j = choose|j: int|
                            0 <= j < i + 1 && (#[trigger] map.pairs()[j]).0 == path;
                        assert(j < i);
                    }
                }
            }
        }
        i = i + 1;
    }
    proof {
        assert forall|path: Text| #[trigger]
            out@.contains_key(path) <==> old(out)@.contains_key(path) || map@.contains_key(
                path,
            ) by {
            if exists|j: int| 0 <= j < i && (#[trigger] map.pairs()[j]).0 == path {
                let j = choose|j: int| 0 <= j < i && (#[trigger] map.pairs()[j]).0 == path;
                ordered::lemma_position(map.pairs(), j);
            }
            if map@.contains_key(path) {
                let j = ordered::position(map.pairs(), path);
                assert(map.pairs()[j].0 == path);
            }
        }
    }
}

/// The changes of those of the paths that differ.
pub open spec fn changes_of(
    old: Map<Text, TreeEntry<Text>>,
    new: Map<Text, TreeEntry<Text>>,
    items: Seq<Text>,
) -> Seq<Change<Text>>
    decreases items.len(),
{
    if items.len() == 0 {
        Seq::empty()
    } else {
        let before = changes_of(old, new, items.drop_last());
        if differs(old, new, items.last()) {
            before.push(change_at(old, new, items.last()))
        } else {
            before
        }
    }
}

proof fn lemma_changes_of(
    old: Map<Text, TreeEntry<Text>>,
    new: Map<Text, TreeEntry<Text>>,
    items: Seq<Text>,
)
    requires
        ordered::ascending_keys(items),
    ensures
        forall|i: int, j: int|
            0 <= i < j < changes_of(old, new, items).len() ==> text::text_less(
                (#[trigger] changes_of(old, new, items)[i]).path,
                (#[trigger] changes_of(old, new, items)[j]).path,
            ),
        forall|i: int|
            0 <= i < changes_of(old, new, items).len() ==> {
                let change = #[trigger] changes_of(old, new, items)[i];
                &&& change == change_at(old, new, change.path)
                &&& differs(old, new, change.path)
                &&& items.contains(change.path)
            },
        forall|k: int|
            0 <= k < items.len() && differs(old, new, #[trigger] items[k]) ==> exists|i: int|
                0 <= i < changes_of(old, new, items).len() && (#[trigger] changes_of(
                    old,
                    new,
                    items,
                )[i]).path == items[k],
    decreases items.len(),
{
    if items.len() > 0 {
        let shorter = items.drop_last();
        assert(forall|i: int| 0 <= i < shorter.len() ==> shorter[i] == items[i]);
        lemma_changes_of(old, new, shorter);
        let before = changes_of(old, new, shorter);
        let all = changes_of(old, new, items);
        assert forall|i: int| 0 <= i < all.len() implies {
            let change = #[trigger] all[i];
            &&& change == change_at(old, new, change.path)
            &&& differs(old, new, change.path)
            &&& items.contains(change.path)
        } by {
            if i < before.len() {
                assert(all[i] == before[i]);
                let k = choose|k: int| 0 <= k < shorter.len() && shorter[k] == before[i].path;
                assert(items[k] == before[i].path);
            } else {
                assert(items[items.len() - 1] == all[i].path);
            }
        }
        assert forall|i: int, j: int| 0 <= i < j < all.len() implies text::text_less(
            (#[trigger] all[i]).path,
            (#[trigger] all[j]).path,
        ) by {
            assert(all[i] == before[i]);
            if j < before.len() {
                assert(all[j] == before[j]);
            } else {
                let k = choose|k: int| 0 <= k < shorter.len() && shorter[k] == before[i].path;
                assert(text::text_less(items[k], items[items.len() - 1]));
            }
        }
        assert forall|k: int|
            0 <= k < items.len() && differs(old, new, #[trigger] items[k]) implies exists|i: int|
            0 <= i < all.len() && (#[trigger] all[i]).path == items[k] by {
            if k < shorter.len() {
                assert(shorter[k] == items[k]);
                let i = choose|i: int| 0 <= i < before.len() && (#[trigger] before[i]).path
                    == shorter[k];
                assert(all[i] == before[i]);
            } else {
                assert(all[all.len() - 1].path == items[k]);
            }
        }
    }
}

/// The changes that lead from one tree to another.
pub fn diff_trees(old_tree: &Tree, new_tree: &Tree) -> (r: Vec<Change>)
    ensures
        is_difference(model::states(old_tree@), model::states(new_tree@), r.deep_view()),
{
    let before_map = old_tree.map();
    let after_map = new_tree.map();
    let ghost a = model::states(old_tree@);
    let ghost b = model::states(new_tree@);
    let all = all_paths(&before_map, &after_map);
    let ghost items = Seq::new(all.pairs().len(), |i: int| all.pairs()[i].0);
    let mut changes: Vec<Change> = Vec::new();
    let mut i: usize = 0;
    assert(items.take(0) =~= Seq::empty());
    assert(changes.deep_view() =~= Seq::empty());
    while i < all.len()
        invariant
            i <= all.pairs().len(),
            items.len() == all.pairs().len(),
            forall|k: int| 0 <= k < items.len() ==> #[trigger] items[k] == all.pairs()[k].0,
            before_map.wf(),
            after_map.wf(),
            before_map@ == a,
            after_map@ == b,
            changes.deep_view() == changes_of(a, b, items.take(i as int)),
        decreases all.pairs().len() - i,
    {
        let path = all.key_at(i);
        let before = before_map.get(path.as_str());
        let after = after_map.get(path.as_str());
        let ghost earlier = changes.deep_view();
        proof {
            assert(before.deep_view() == model::state_at(a, path@));
            assert(after.deep_view() == model::state_at(b, path@));
            assert(items[i as int] == path@);
            assert(items.take(i as int + 1).drop_last() =~= items.take(i as int));
            assert(items.take(i as int + 1).last() == path@);
        }
        if !model::same_state(before, after) {
            let change = Change {
                path: path.clone(),
                change: kind_of_change(before, after),
                old: model::copy_state(before),
                new: model::copy_state(after),
            };
            assert(change@ == change_at(a, b, path@));
            changes.push(change);
            assert(changes.deep_view() =~= earlier.push(change_at(a, b, path@)));
        }
        i = i + 1;
    }
    proof {
        let found = changes.deep_view();
        assert(items.take(i as int) =~= items);
        lemma_changes_of(a, b, items);
        assert forall|path: Text| #[trigger] differs(a, b, path) implies exists|j: int|
            0 <= j < found.len() && (#[trigger] found[j]).path == path by {
            assert(all@.contains_key(path));
            let k = ordered::position(all.pairs(), path);
            assert(items[k] == path);
        }
    }
    changes
}

/// No path changed exactly when both trees give every path the same state.
pub proof fn law_no_difference(
    old: Map<Text, TreeEntry<Text>>,
    new: Map<Text, TreeEntry<Text>>,
    changes: Seq<Change<Text>>,
)
    requires
        is_difference(old, new, changes),
    ensures
        changes.len() == 0 <==> old == new,
{
    if changes.len() == 0 {
        assert forall|path: Text| old.contains_key(path) <==> new.contains_key(path) by {
            assert(!differs(old, new, path));
        }
        assert forall|path: Text| old.contains_key(path) implies old[path] == new[path] by {
            assert(!differs(old, new, path));
        }
        assert(old =~= new);
    } else {
        assert(differs(old, new, changes[0].path));
    }
}

/// A tree's path states after updates: an update gives a path a new entry or
/// takes it away.
pub open spec fn applied(
    base: Map<Text, TreeEntry<Text>>,
    updates: Map<Text, Option<TreeEntry<Text>>>,
) -> Map<Text, TreeEntry<Text>> {
    Map::new(
        |path: Text|
            if updates.contains_key(path) {
                updates[path] is Some
            } else {
                base.contains_key(path)
            },
        |path: Text|
            if updates.contains_key(path) {
                updates[path]->Some_0
            } else {
                base[path]
            },
    )
}

/// The updates that the changes make.
pub open spec fn updates_of(changes: Seq<Change<Text>>) -> Map<Text, Option<TreeEntry<Text>>>
    decreases changes.len(),
{
    if changes.len() == 0 {
        Map::empty()
    } else {
        updates_of(changes.drop_last()).insert(changes.last().path, changes.last().new)
    }
}

proof fn lemma_updates_of(
    old: Map<Text, TreeEntry<Text>>,
    new: Map<Text, TreeEntry<Text>>,
    changes: Seq<Change<Text>>,
)
    requires
        forall|i: int|
            0 <= i < changes.len() ==> #[trigger] changes[i] == change_at(old, new, changes[i].path),
    ensures
        forall|path: Text| #[trigger]
            updates_of(changes).contains_key(path) <==> exists|i: int|
                0 <= i < changes.len() && (#[trigger] changes[i]).path == path,
        forall|path: Text|
            updates_of(changes).contains_key(path) ==> #[trigger] updates_of(changes)[path]
                == model::state_at(new, path),
    decreases changes.len(),
{
    if changes.len() > 0 {
        let shorter = changes.drop_last();
        assert forall|i: int| 0 <= i < shorter.len() implies #[trigger] shorter[i] == change_at(
            old,
            new,
            shorter[i].path,
        ) by {
            assert(shorter[i] == changes[i]);
        }
        lemma_updates_of(old, new, shorter);
        assert(changes[changes.len() - 1] == changes.last());
        assert forall|path: Text| #[trigger]
            updates_of(changes).contains_key(path) <==> exists|i: int|
                0 <= i < changes.len() && (#[trigger] changes[i]).path == path by {
            if updates_of(shorter).contains_key(path) {
                let i = choose|i: int| 0 <= i < shorter.len() && (#[trigger] shorter[i]).path == path;
                assert(changes[i].path == path);
            }
            if exists|i: int| 0 <= i < changes.len() && (#[trigger] changes[i]).path == path {
                let i = choose|i: int| 0 <= i < changes.len() && (#[trigger] changes[i]).path == path;
                if i < changes.len() - 1 {
                    assert(shorter[i].path == path);
                }
            }
        }
    }
}

/// The changes from one tree to another, applied to the first, give the
/// second.
pub proof fn law_difference_applies(
    old: Map<Text, TreeEntry<Text>>,
    new: Map<Text, TreeEntry<Text>>,
    changes: Seq<Change<Text>>,
)
    requires
        is_difference(old, new, changes),
    ensures
        applied(old, updates_of(changes)) == new,
{
    lemma_updates_of(old, new, changes);
    let result = applied(old, updates_of(changes));
    assert forall|path: Text| #[trigger] result.contains_key(path) <==> new.contains_key(path) by {
        if !differs(old, new, path) {
        } else {
            let i = choose|i: int| 0 <= i < changes.len() && (#[trigger] changes[i]).path == path;
            assert(changes[i].path == path);
            assert(updates_of(changes).contains_key(path));
            assert(updates_of(changes)[path] == model::state_at(new, path));
        }
        if updates_of(changes).contains_key(path) {
            assert(updates_of(changes)[path] == model::state_at(new, path));
        }
    }
    assert forall|path: Text| #[trigger] result.contains_key(path) implies result[path]
        == new[path] by {
        if updates_of(changes).contains_key(path) {
            assert(updates_of(changes)[path] == model::state_at(new, path));
        } else {
            assert(!differs(old, new, path)) by {
                if differs(old, new, path) {
                    let i = choose|i: int|
                        0 <= i < changes.len() && (#[trigger] changes[i]).path == path;
                    assert(changes[i].path == path);
                }
            }
        }
    }
    assert(result =~= new);
}

/// Applies updates to a tree.
pub fn apply_entries(base: &Tree, updates: &PathMap<Option<TreeEntry>>) -> (r: Tree)
    requires
        updates.wf(),
    ensures
        r@ == model::values_of(ordered::pairs_of(applied(model::states(base@), updates@))),
{
    let mut map = base.map();
    let ghost start = map@;
    let mut i: usize = 0;
    assert(map@ =~= applied(start, ordered::map_of(updates.pairs().take(0))));
    while i < updates.len()
        invariant
            i <= updates.pairs().len(),
            updates.wf(),
            map.wf(),
            start == model::states(base@),
            map@ == applied(start, ordered::map_of(updates.pairs().take(i as int))),
        decreases updates.pairs().len() - i,
    {
        let ghost pairs = updates.pairs();
        let ghost before = pairs.take(i as int);
        let ghost now = pairs.take(i as int + 1);
        let ghost map_before = map@;
        let key = updates.key_at(i);
        proof {
            assert(now.drop_last() =~= before);
            assert(now.last() == pairs[i as int]);
            assert(ordered::ascending(now));
            ordered::lemma_map_of_drop_last(now);
            ordered::lemma_position(now, i as int);
        }
        match updates.value_at(i) {
            Some(entry) => {
                map.insert(key.clone(), entry.clone());
            },
            None => {
                map.remove(key.as_str());
            },
        }
        proof {
            let target = applied(start, ordered::map_of(now));
            assert(map@ =~= target) by {
                assert forall|path: Text| #[trigger] map@.contains_key(path) <==> target.contains_key(
                    path,
                ) by {
                    if path != key@ {
                        assert(map@.contains_key(path) <==> map_before.contains_key(path));
                        assert(ordered::map_of(before).contains_key(path) <==> ordered::map_of(
                            now,
                        ).contains_key(path));
                    }
                }
            }
        }
        i = i + 1;
    }
    proof {
        assert(updates.pairs().take(i as int) =~= updates.pairs());
        ordered::lemma_pairs_of(map.pairs());
    }
    Tree::from_map(map)
}

/// Where the materialized copy of a root tree is kept.
pub fn managed_cache_path(metadata: &str, root_id: &str) -> (r: String)
    ensures
        r@ == paths::joined_path(paths::joined_path(metadata@, "materialized"@), root_id@),
{
    paths::join_path(paths::join_path(metadata, "materialized").as_str(), root_id)
}

/// The copy of a root tree that is to be removed.
pub fn invalid_cache_path(metadata: &str, root_id: &str) -> (r: Result<String>)
    ensures
        if objects::valid_id(root_id@) {
            r is Ok && r->Ok_0@ == paths::joined_path(
                paths::joined_path(metadata@, "materialized"@),
                root_id@,
            )
        } else {
            r is Err && r->Err_0@ == Failure::corruption("invalid root cache ID "@ + root_id@)
        },
{
    if !objects::is_valid_id(root_id) {
        return Err(JavelinError::corruption(text::concat2("invalid root cache ID ", root_id)));
    }
    Ok(managed_cache_path(metadata, root_id))
}

/// What a change is called goes by its two states alone: added where there was
/// none, deleted where there is none, a change of type where the kinds differ, a
/// change of mode where only the executable bit differs, and modified otherwise.
pub proof fn law_change_is_named_by_its_states(
    old: Map<Text, TreeEntry<Text>>,
    new: Map<Text, TreeEntry<Text>>,
    path: Text,
)
    ensures
        ({
            let found = change_at(old, new, path);
            &&& found.path == path
            &&& found.old == (if old.contains_key(path) {
                Some(old[path])
            } else {
                None
            })
            &&& found.new == (if new.contains_key(path) {
                Some(new[path])
            } else {
                None
            })
            &&& found.change == ChangeKind::Add <==> !old.contains_key(path) && new.contains_key(
                path,
            )
            &&& found.change == ChangeKind::Delete <==> old.contains_key(path)
                && !new.contains_key(path)
            &&& found.change == ChangeKind::Type <==> old.contains_key(path) && new.contains_key(
                path,
            ) && old[path].kind != new[path].kind
            &&& found.change == ChangeKind::Mode <==> old.contains_key(path) && new.contains_key(
                path,
            ) && old[path].kind == new[path].kind && old[path].object_id == new[path].object_id
                && old[path].executable != new[path].executable
        }),
{
}

/// Turning two trees around turns every change around: what was added is
/// deleted, and each state changes places with the other.
pub proof fn law_changes_turn_around(
    old: Map<Text, TreeEntry<Text>>,
    new: Map<Text, TreeEntry<Text>>,
    path: Text,
)
    ensures
        ({
            let there = change_at(old, new, path);
            let back = change_at(new, old, path);
            &&& back.old == there.new
            &&& back.new == there.old
            &&& there.change == ChangeKind::Add <==> back.change == ChangeKind::Delete
            &&& there.change != ChangeKind::Add && there.change != ChangeKind::Delete
                ==> back.change == there.change
        }),
{
}

/// A tree is refused for its paths exactly where two of them differ and are the
/// same in lower case, as unsupported.
pub proof fn law_paths_that_fold_together_collide(entries: Seq<TreeEntry<Text>>)
    ensures
        collision_failure(entries) is Some <==> exists|i: int, j: int|
            0 <= i < j < entries.len() && (#[trigger] entries[i]).path != (#[trigger]
            entries[j]).path && text::lowercased(entries[i].path) == text::lowercased(
                entries[j].path,
            ),
        collision_failure(entries) is Some ==> collision_failure(entries)->Some_0.exit_code == 9,
{
    let items = paths_of(entries);
    lemma_collision(items);
    if collision(items) is Some {
        let (i, j) = choose|i: int, j: int|
            0 <= i < j < items.len() && clash(#[trigger] items[i], #[trigger] items[j]);
        assert(entries[i].path == items[i] && entries[j].path == items[j]);
    }
    if exists|i: int, j: int|
        0 <= i < j < entries.len() && (#[trigger] entries[i]).path != (#[trigger]
        entries[j]).path && text::lowercased(entries[i].path) == text::lowercased(
            entries[j].path,
        ) {
        let (i, j) = choose|i: int, j: int|
            0 <= i < j < entries.len() && (#[trigger] entries[i]).path != (#[trigger]
            entries[j]).path && text::lowercased(entries[i].path) == text::lowercased(
                entries[j].path,
            );
        assert(clash(items[i], items[j]));
    }
}

} // verus!
