//! What changed, when, and by whom: status, diff, history, show and explain.
use vstd::prelude::*;
use crate::bytes;
use crate::error::{Failure, Result};
use crate::files;
use crate::files::{FilesState, ObjectFiles};
use crate::integration;
use crate::json;
use crate::json::{Json, JsonValue};
use crate::model;
use crate::model::{
    Change,
    Checkpoint,
    EntryKind,
    Layer,
    Tree,
    TreeEntry,
    WorldVersion,
};
use crate::objects;
use crate::objects::ObjectKind;
use crate::ordered::PathMap;
use crate::paths;
use crate::report;
use crate::report::Shown;
use crate::scan;
use crate::store;
use crate::store::Store;
use crate::tables;
use crate::text;
use crate::text::Text;
use crate::view;

verus! {

/// A path is a filter or stands below it.
pub open spec fn passes(path: Text, filter: Text) -> bool {
    path == filter || scan::below(path, filter)
}

/// One of the filters lets a path through.
pub open spec fn passes_one(path: Text, filters: Seq<Text>) -> bool {
    exists|i: int| 0 <= i < filters.len() && #[trigger] passes(path, filters[i])
}

/// A change of a path that one of the filters lets through.
pub open spec fn passes_any(filters: Seq<Text>) -> spec_fn(Change<Text>) -> bool {
    |change: Change<Text>| passes_one(change.path, filters)
}

/// The changes that the filters let through; without a filter, all.
pub open spec fn filtered(changes: Seq<Change<Text>>, filters: Seq<Text>) -> Seq<Change<Text>> {
    if filters.len() == 0 {
        changes
    } else {
        tables::kept(changes, passes_any(filters))
    }
}

fn passes_filter(path: &str, filters: &Vec<String>) -> (r: bool)
    ensures
        r == passes_one(path@, filters.deep_view()),
{
    let ghost all = filters.deep_view();
    let mut i: usize = 0;
    while i < filters.len()
        invariant
            i <= filters@.len(),
            all == filters.deep_view(),
            forall|j: int| 0 <= j < i ==> !#[trigger] passes(path@, all[j]),
        decreases filters@.len() - i,
    {
        assert(all[i as int] == filters@[i as int]@);
        if text::same(path, filters[i].as_str()) || scan::is_below(path, filters[i].as_str()) {
            assert(passes(path@, all[i as int]));
            return true;
        }
        i = i + 1;
    }
    false
}

/// Keeps the changes that the filters let through.
pub fn filter_changes(changes: Vec<Change>, filters: &Vec<String>) -> (r: Vec<Change>)
    ensures
        r.deep_view() == filtered(changes.deep_view(), filters.deep_view()),
{
    if filters.len() == 0 {
        return changes;
    }
    let ghost all = changes.deep_view();
    let ghost wanted = passes_any(filters.deep_view());
    let mut out: Vec<Change> = Vec::new();
    let mut i: usize = 0;
    assert(all.take(0) =~= Seq::empty());
    assert(out.deep_view() =~= Seq::empty());
    while i < changes.len()
        invariant
            i <= changes@.len(),
            all == changes.deep_view(),
            wanted == passes_any(filters.deep_view()),
            out.deep_view() == tables::kept(all.take(i as int), wanted),
        decreases changes@.len() - i,
    {
        let ghost before = out.deep_view();
        let change = &changes[i];
        proof {
            assert(all.take(i as int + 1).drop_last() =~= all.take(i as int));
            assert(all.take(i as int + 1).last() == change@);
        }
        if passes_filter(change.path.as_str(), filters) {
            let copy = Change {
                path: change.path.clone(),
                change: change.change,
                old: model::copy_state(change.old.as_ref()),
                new: model::copy_state(change.new.as_ref()),
            };
            assert(copy@ =~= change@);
            out.push(copy);
            assert(out.deep_view() =~= before.push(change@));
        }
        i = i + 1;
    }
    assert(all.take(i as int) =~= all);
    out
}

/// The object of a state, if it has one.
pub open spec fn object_of(state: Option<TreeEntry<Text>>) -> Option<Text> {
    match state {
        Some(entry) => entry.object_id,
        None => None,
    }
}

/// Where the object of each deleted path stood. Of two paths with one object
/// the later counts.
pub open spec fn deleted_objects(changes: Seq<Change<Text>>) -> Map<Text, Text>
    decreases changes.len(),
{
    if changes.len() == 0 {
        Map::empty()
    } else {
        let before = deleted_objects(changes.drop_last());
        let last = changes.last();
        if last.new is None && object_of(last.old) is Some {
            before.insert(object_of(last.old)->Some_0, last.path)
        } else {
            before
        }
    }
}

/// The former path of each added path whose object a deleted path had.
pub open spec fn renames_of(changes: Seq<Change<Text>>, deleted: Map<Text, Text>) -> Map<Text, Text>
    decreases changes.len(),
{
    if changes.len() == 0 {
        Map::empty()
    } else {
        let before = renames_of(changes.drop_last(), deleted);
        let last = changes.last();
        if last.old is None && object_of(last.new) is Some && deleted.contains_key(
            object_of(last.new)->Some_0,
        ) {
            before.insert(last.path, deleted[object_of(last.new)->Some_0])
        } else {
            before
        }
    }
}

fn object_id_of(state: &Option<TreeEntry>) -> (r: Option<String>)
    ensures
        r.deep_view() == object_of(state.deep_view()),
{
    match state {
        Some(entry) => text::copy_option(&entry.object_id),
        None => None,
    }
}

/// Finds the paths that were renamed without a change of content.
pub fn detected_renames(changes: &Vec<Change>) -> (r: PathMap<String>)
    ensures
        r.wf(),
        r@ == renames_of(changes.deep_view(), deleted_objects(changes.deep_view())),
{
    let ghost all = changes.deep_view();
    let mut deleted: PathMap<String> = PathMap::new();
    let mut i: usize = 0;
    assert(all.take(0) =~= Seq::empty());
    while i < changes.len()
        invariant
            i <= changes@.len(),
            all == changes.deep_view(),
            deleted.wf(),
            deleted@ == deleted_objects(all.take(i as int)),
        decreases changes@.len() - i,
    {
        proof {
            assert(all.take(i as int + 1).drop_last() =~= all.take(i as int));
            assert(all.take(i as int + 1).last() == changes@[i as int]@);
        }
        if changes[i].new.is_none() {
            if let Some(id) = object_id_of(&changes[i].old) {
                deleted.insert(id, changes[i].path.clone());
            }
        }
        i = i + 1;
    }
    assert(all.take(i as int) =~= all);
    let mut renames: PathMap<String> = PathMap::new();
    let mut k: usize = 0;
    while k < changes.len()
        invariant
            k <= changes@.len(),
            all == changes.deep_view(),
            deleted.wf(),
            deleted@ == deleted_objects(all),
            renames.wf(),
            renames@ == renames_of(all.take(k as int), deleted@),
        decreases changes@.len() - k,
    {
        proof {
            assert(all.take(k as int + 1).drop_last() =~= all.take(k as int));
            assert(all.take(k as int + 1).last() == changes@[k as int]@);
        }
        if changes[k].old.is_none() {
            if let Some(id) = object_id_of(&changes[k].new) {
                if let Some(previous) = deleted.get(id.as_str()) {
                    renames.insert(changes[k].path.clone(), previous.clone());
                }
            }
        }
        k = k + 1;
    }
    assert(all.take(k as int) =~= all);
    renames
}

/// What a state holds, for a comparison line by line.
#[derive(Debug, PartialEq, Eq)]
#[verifier::ext_equal]
pub enum StateText<S = String> {
    Absent,
    /// No file, or one that is too long, holds a zero byte, or is no text.
    Binary,
    Lines(S),
}

impl DeepView for StateText {
    type V = StateText<Text>;

    open spec fn deep_view(&self) -> StateText<Text> {
        match *self {
            StateText::Absent => StateText::Absent,
            StateText::Binary => StateText::Binary,
            StateText::Lines(content) => StateText::Lines(content@),
        }
    }
}

/// What a state holds, for a comparison line by line.
pub open spec fn state_text_outcome(
    files: FilesState,
    state: Option<TreeEntry<Text>>,
) -> std::result::Result<StateText<Text>, Failure> {
    match state {
        None => Ok(StateText::Absent),
        Some(entry) => if entry.kind != EntryKind::File {
            Ok(StateText::Binary)
        } else {
            let id = objects::written_id(entry.object_id);
            match files::info_outcome(files, id) {
                Err(failure) => Err(failure),
                Ok((kind, length)) => if kind != ObjectKind::Blob || length
                    > integration::TEXT_DIFF_LIMIT {
                    Ok(StateText::Binary)
                } else {
                    match files::blob_outcome(files, id) {
                        Err(failure) => Err(failure),
                        Ok(content) => match integration::mergeable(content) {
                            Some(lines) => Ok(StateText::Lines(lines)),
                            None => Ok(StateText::Binary),
                        },
                    }
                },
            }
        },
    }
}

/// What a state holds, for a comparison line by line.
pub fn entry_text(files: &ObjectFiles, state: &Option<TreeEntry>) -> (r: Result<StateText>)
    requires
        files.wf(),
    ensures
        match state_text_outcome(files@, state.deep_view()) {
            Ok(found) => r is Ok && r->Ok_0.deep_view() == found,
            Err(failure) => r is Err && r->Err_0@ == failure,
        },
{
    let entry = match state {
        None => {
            return Ok(StateText::Absent);
        },
        Some(entry) => entry,
    };
    if entry.kind != EntryKind::File {
        return Ok(StateText::Binary);
    }
    let id = match &entry.object_id {
        Some(id) => id.clone(),
        None => String::new(),
    };
    assert(id@ =~= objects::written_id(entry@.object_id));
    let (kind, length) = files.info(id.as_str())?;
    if !integration::is_text_sized(kind, length) {
        return Ok(StateText::Binary);
    }
    let content = files.read_blob(id.as_str())?;
    if bytes::has_zero(content.as_slice()) {
        return Ok(StateText::Binary);
    }
    match bytes::text_from_utf8(content.as_slice()) {
        Some(lines) => Ok(StateText::Lines(lines)),
        None => Ok(StateText::Binary),
    }
}

/// The line-by-line difference of two texts.
pub uninterp spec fn patch_text(old: Text, new: Text) -> Text;

/// `diffy::create_patch`, written out. The contract only names what it writes.
#[verifier::external_body]
fn write_patch(before: &str, after: &str) -> (r: String)
    ensures
        r@ == patch_text(before@, after@),
{
    diffy::create_patch(before, after).to_string()
}

/// The line-by-line difference of two states, where both are texts or one is
/// absent.
pub open spec fn patch_of(old: StateText<Text>, new: StateText<Text>) -> Option<Text> {
    match (old, new) {
        (StateText::Lines(before), StateText::Lines(after)) => Some(patch_text(before, after)),
        (StateText::Absent, StateText::Lines(after)) => Some(patch_text(""@, after)),
        (StateText::Lines(before), StateText::Absent) => Some(patch_text(before, ""@)),
        _ => None,
    }
}

/// The line-by-line difference of two states.
pub fn make_patch(old_text: &StateText, new_text: &StateText) -> (r: Option<String>)
    ensures
        r.deep_view() == patch_of(old_text.deep_view(), new_text.deep_view()),
{
    match (old_text, new_text) {
        (StateText::Lines(before), StateText::Lines(after)) => Some(
            write_patch(before.as_str(), after.as_str()),
        ),
        (StateText::Absent, StateText::Lines(after)) => Some(write_patch("", after.as_str())),
        (StateText::Lines(before), StateText::Absent) => Some(write_patch(before.as_str(), "")),
        _ => None,
    }
}

/// What the diff command shows of a change.
pub open spec fn change_value(
    change: Change<Text>,
    old: StateText<Text>,
    new: StateText<Text>,
    renames: Map<Text, Text>,
) -> JsonValue {
    JsonValue::object().field("path"@, JsonValue::Text(change.path)).field(
        "change"@,
        JsonValue::Text(report::change_name(change.change)),
    ).field("old"@, report::value_or_null::<TreeEntry>(change.old)).field(
        "new"@,
        report::value_or_null::<TreeEntry>(change.new),
    ).field("binary"@, JsonValue::Bool(old is Binary || new is Binary)).field(
        "patch"@,
        json::text_or_null(patch_of(old, new)),
    ).field(
        "rename_from"@,
        if renames.contains_key(change.path) {
            JsonValue::Text(renames[change.path])
        } else {
            JsonValue::Null
        },
    )
}

/// What the diff command says of a change.
pub open spec fn change_line(
    change: Change<Text>,
    old: StateText<Text>,
    new: StateText<Text>,
) -> Text {
    match patch_of(old, new) {
        Some(patch) => change.path + "\n"@ + patch,
        None => report::change_name(change.change) + "\t"@ + change.path,
    }
}

/// What the diff command shows and says of a change.
pub fn render_change(files: &ObjectFiles, change: &Change, renames: &PathMap<String>) -> (r: Result<
    (Json, String),
>)
    requires
        files.wf(),
        renames.wf(),
    ensures
        match state_text_outcome(files@, change@.old) {
            Err(failure) => r is Err && r->Err_0@ == failure,
            Ok(before) => match state_text_outcome(files@, change@.new) {
                Err(failure) => r is Err && r->Err_0@ == failure,
                Ok(after) => r is Ok && r->Ok_0.0@ == change_value(
                    change@,
                    before,
                    after,
                    renames@,
                ) && r->Ok_0.1@ == change_line(change@, before, after),
            },
        },
{
    let before = entry_text(files, &change.old)?;
    let after = entry_text(files, &change.new)?;
    let binary = matches!(before, StateText::Binary) || matches!(after, StateText::Binary);
    let patch = make_patch(&before, &after);
    let rename = match renames.get(change.path.as_str()) {
        Some(previous) => Json::text(previous.as_str()),
        None => Json::Null,
    };
    let human = match &patch {
        Some(content) => text::concat3(change.path.as_str(), "\n", content.as_str()),
        None => text::concat3(
            report::change_kind_name(change.change),
            "\t",
            change.path.as_str(),
        ),
    };
    let shown = Json::empty().with("path", Json::text(change.path.as_str())).with(
        "change",
        Json::text(report::change_kind_name(change.change)),
    ).with("old", report::option(&change.old)).with("new", report::option(&change.new)).with(
        "binary",
        Json::Bool(binary),
    ).with("patch", Json::option(&patch)).with("rename_from", rename);
    Ok((shown, human))
}

/// An entry of a path.
pub open spec fn entry_at(path: Text) -> spec_fn(TreeEntry<Text>) -> bool {
    |entry: TreeEntry<Text>| entry.path == path
}

/// The place of a path's entry.
pub fn find_entry(tree: &Tree, path: &str) -> (r: Option<usize>)
    ensures
        match r {
            Some(i) => i < tree.entries@.len() && tables::find(tree@, entry_at(path@)) == Some(
                tree.entries@[i as int]@,
            ),
            None => tables::find(tree@, entry_at(path@)) is None,
        },
{
    let ghost all = tree@;
    let mut i: usize = 0;
    while i < tree.entries.len()
        invariant
            i <= tree.entries@.len(),
            all == tree@,
            forall|j: int| 0 <= j < i ==> !entry_at(path@)(#[trigger] all[j]),
        decreases tree.entries@.len() - i,
    {
        assert(all[i as int] == tree.entries@[i as int]@);
        if text::same(tree.entries[i].path.as_str(), path) {
            proof {
                tables::lemma_first_at(all, entry_at(path@), i as int);
            }
            return Some(i);
        }
        i = i + 1;
    }
    proof {
        tables::lemma_first_none(all, entry_at(path@));
    }
    None
}

/// A state changes a path: it differs there from the state before it, or holds
/// it where there is none before it.
pub open spec fn touches(
    previous: Option<Seq<TreeEntry<Text>>>,
    entries: Seq<TreeEntry<Text>>,
    path: Text,
) -> bool {
    match previous {
        Some(before) => view::differs(model::states(before), model::states(entries), path),
        None => tables::any(entries, entry_at(path)),
    }
}

fn has_change(changes: &Vec<Change>, path: &str) -> (r: bool)
    ensures
        r == exists|i: int|
            0 <= i < changes@.len() && (#[trigger] changes.deep_view()[i]).path == path@,
{
    let ghost all = changes.deep_view();
    let mut i: usize = 0;
    while i < changes.len()
        invariant
            i <= changes@.len(),
            all == changes.deep_view(),
            forall|j: int| 0 <= j < i ==> (#[trigger] all[j]).path != path@,
        decreases changes@.len() - i,
    {
        assert(all[i as int] == changes@[i as int]@);
        if text::same(changes[i].path.as_str(), path) {
            return true;
        }
        i = i + 1;
    }
    false
}

/// Whether a state changes a path.
pub fn state_touches(previous: Option<&Tree>, tree: &Tree, path: &str) -> (r: bool)
    ensures
        r == touches(
            match previous {
                Some(before) => Some(before@),
                None => None,
            },
            tree@,
            path@,
        ),
{
    match previous {
        Some(before) => {
            let changes = view::diff_trees(before, tree);
            let found = has_change(&changes, path);
            proof {
                let rows = changes.deep_view();
                if found {
                    let i = choose|i: int|
                        0 <= i < rows.len() && (#[trigger] rows[i]).path == path@;
                    assert(rows[i] == view::change_at(
                        model::states(before@),
                        model::states(tree@),
                        rows[i].path,
                    ));
                }
            }
            found
        },
        None => find_entry(tree, path).is_some(),
    }
}

/// The places in a history at which a path changed. The trees are read one
/// after another.
pub open spec fn changed_places(files: FilesState, roots: Seq<Text>, path: Text) -> std::result::Result<
    Seq<int>,
    Failure,
>
    decreases roots.len(),
{
    if roots.len() == 0 {
        Ok(Seq::empty())
    } else {
        match changed_places(files, roots.drop_last(), path) {
            Err(failure) => Err(failure),
            Ok(before) => match files::tree_outcome(files, roots.last()) {
                Err(failure) => Err(failure),
                Ok(entries) => {
                    let previous = if roots.len() == 1 {
                        None
                    } else {
                        Some(files::tree_outcome(files, roots[roots.len() - 2])->Ok_0)
                    };
                    if touches(previous, entries, path) {
                        Ok(before.push(roots.len() - 1))
                    } else {
                        Ok(before)
                    }
                },
            },
        }
    }
}

proof fn lemma_places_failure(files: FilesState, roots: Seq<Text>, path: Text, i: int)
    requires
        0 <= i <= roots.len(),
        changed_places(files, roots.take(i), path) is Err,
    ensures
        changed_places(files, roots, path) == changed_places(files, roots.take(i), path),
    decreases roots.len() - i,
{
    if i < roots.len() {
        assert(roots.take(i + 1).drop_last() =~= roots.take(i));
        lemma_places_failure(files, roots, path, i + 1);
    } else {
        assert(roots.take(i) =~= roots);
    }
}

/// The places, as mathematical numbers.
pub open spec fn places_view(places: Seq<usize>) -> Seq<int> {
    Seq::new(places.len(), |i: int| places[i] as int)
}

/// The places in a history at which a path changed.
pub fn places_of_change(files: &ObjectFiles, roots: &Vec<String>, path: &str) -> (r: Result<
    Vec<usize>,
>)
    requires
        files.wf(),
    ensures
        match changed_places(files@, roots.deep_view(), path@) {
            Ok(found) => r is Ok && places_view(r->Ok_0@) == found && forall|i: int|
                0 <= i < r->Ok_0@.len() ==> (#[trigger] r->Ok_0@[i]) < roots@.len(),
            Err(failure) => r is Err && r->Err_0@ == failure,
        },
{
    let ghost all = roots.deep_view();
    let mut out: Vec<usize> = Vec::new();
    let mut previous: Option<Tree> = None;
    let mut i: usize = 0;
    assert(all.take(0) =~= Seq::empty());
    assert(places_view(out@) =~= Seq::empty());
    while i < roots.len()
        invariant
            i <= roots@.len(),
            all == roots.deep_view(),
            files.wf(),
            changed_places(files@, all.take(i as int), path@) == Ok::<Seq<int>, Failure>(
                places_view(out@),
            ),
            forall|j: int| 0 <= j < out@.len() ==> (#[trigger] out@[j]) < i,
            match previous {
                Some(tree) => i > 0 && files::tree_outcome(files@, all[i - 1]) == Ok::<
                    Seq<TreeEntry<Text>>,
                    Failure,
                >(tree@),
                None => i == 0,
            },
        decreases roots@.len() - i,
    {
        let ghost before = places_view(out@);
        let ghost prefix = all.take(i as int + 1);
        proof {
            assert(prefix.drop_last() =~= all.take(i as int));
            assert(prefix.last() == roots@[i as int]@);
            if i > 0 {
                assert(prefix[prefix.len() - 2] == all[i - 1]);
            }
            if changed_places(files@, prefix, path@) is Err {
                lemma_places_failure(files@, all, path@, i as int + 1);
            }
        }
        let tree = files.read_tree(roots[i].as_str())?;
        if state_touches(previous.as_ref(), &tree, path) {
            out.push(i);
            assert(places_view(out@) =~= before.push(i as int));
        }
        previous = Some(tree);
        i = i + 1;
    }
    assert(all.take(i as int) =~= all);
    Ok(out)
}

/// The root trees of Checkpoints.
pub open spec fn checkpoint_trees(rows: Seq<Checkpoint<Text>>) -> Seq<Text> {
    Seq::new(rows.len(), |i: int| rows[i].root_tree)
}

/// The rows at some places.
pub open spec fn rows_at<A>(rows: Seq<A>, places: Seq<int>) -> Seq<A> {
    Seq::new(places.len(), |i: int| rows[places[i]])
}

/// The Checkpoints of a history at which a path changed.
pub fn filter_checkpoint_history(files: &ObjectFiles, history: &Vec<Checkpoint>, path: &str) -> (r:
    Result<Vec<Checkpoint>>)
    requires
        files.wf(),
    ensures
        match changed_places(files@, checkpoint_trees(history.deep_view()), path@) {
            Ok(places) => r is Ok && r->Ok_0.deep_view() == rows_at(history.deep_view(), places),
            Err(failure) => r is Err && r->Err_0@ == failure,
        },
{
    let mut roots: Vec<String> = Vec::new();
    let mut i: usize = 0;
    while i < history.len()
        invariant
            i <= history@.len(),
            roots@.len() == i,
            forall|j: int| 0 <= j < i ==> (#[trigger] roots@[j])@ == history@[j]@.root_tree,
        decreases history@.len() - i,
    {
        roots.push(history[i].root_tree.clone());
        i = i + 1;
    }
    assert(roots.deep_view() =~= checkpoint_trees(history.deep_view()));
    let places = places_of_change(files, &roots, path)?;
    let mut out: Vec<Checkpoint> = Vec::new();
    let mut k: usize = 0;
    while k < places.len()
        invariant
            k <= places@.len(),
            out@.len() == k,
            forall|j: int| 0 <= j < places@.len() ==> (#[trigger] places@[j]) < history@.len(),
            forall|j: int|
                0 <= j < k ==> (#[trigger] out@[j])@ == history@[places@[j] as int]@,
        decreases places@.len() - k,
    {
        out.push(history[places[k]].clone());
        k = k + 1;
    }
    assert(out.deep_view() =~= rows_at(history.deep_view(), places_view(places@)));
    Ok(out)
}

/// The root trees of World Versions.
pub open spec fn version_trees(rows: Seq<WorldVersion<Text>>) -> Seq<Text> {
    Seq::new(rows.len(), |i: int| rows[i].root_tree)
}

/// The versions of a history at which a path changed.
pub fn filter_world_history(files: &ObjectFiles, history: &Vec<WorldVersion>, path: &str) -> (r:
    Result<Vec<WorldVersion>>)
    requires
        files.wf(),
    ensures
        match changed_places(files@, version_trees(history.deep_view()), path@) {
            Ok(places) => r is Ok && r->Ok_0.deep_view() == rows_at(history.deep_view(), places),
            Err(failure) => r is Err && r->Err_0@ == failure,
        },
{
    let mut roots: Vec<String> = Vec::new();
    let mut i: usize = 0;
    while i < history.len()
        invariant
            i <= history@.len(),
            roots@.len() == i,
            forall|j: int| 0 <= j < i ==> (#[trigger] roots@[j])@ == history@[j]@.root_tree,
        decreases history@.len() - i,
    {
        roots.push(history[i].root_tree.clone());
        i = i + 1;
    }
    assert(roots.deep_view() =~= version_trees(history.deep_view()));
    let places = places_of_change(files, &roots, path)?;
    let mut out: Vec<WorldVersion> = Vec::new();
    let mut k: usize = 0;
    while k < places.len()
        invariant
            k <= places@.len(),
            out@.len() == k,
            forall|j: int| 0 <= j < places@.len() ==> (#[trigger] places@[j]) < history@.len(),
            forall|j: int|
                0 <= j < k ==> (#[trigger] out@[j])@ == history@[places@[j] as int]@,
        decreases places@.len() - k,
    {
        out.push(history[places[k]].clone());
        k = k + 1;
    }
    assert(out.deep_view() =~= rows_at(history.deep_view(), places_view(places@)));
    Ok(out)
}

/// The history of a Layer, of a path where one is given.
pub fn layer_history(store: &Store, files: &ObjectFiles, name: &str, path: Option<&str>) -> (r:
    Result<(Layer, Vec<Checkpoint>)>)
    requires
        files.wf(),
    ensures
        match store::layer_outcome(store@, name@) {
            Err(failure) => r is Err && r->Err_0@ == failure,
            Ok(layer) => {
                let rows = tables::kept(store@.checkpoints, store::of_layer(layer.id));
                match path {
                    None => r is Ok && r->Ok_0.0@ == layer && r->Ok_0.1.deep_view() == rows,
                    Some(wanted) => match changed_places(
                        files@,
                        checkpoint_trees(rows),
                        wanted@,
                    ) {
                        Ok(places) => r is Ok && r->Ok_0.0@ == layer && r->Ok_0.1.deep_view()
                            == rows_at(rows, places),
                        Err(failure) => r is Err && r->Err_0@ == failure,
                    },
                }
            },
        },
{
    let layer = store.layer(name)?;
    let rows = store.checkpoint_history(layer.id.as_str());
    match path {
        None => Ok((layer, rows)),
        Some(wanted) => {
            let found = filter_checkpoint_history(files, &rows, wanted)?;
            Ok((layer, found))
        },
    }
}

/// The history of the World, of a path where one is given.
pub fn world_history(store: &Store, files: &ObjectFiles, path: Option<&str>) -> (r: Result<
    Vec<WorldVersion>,
>)
    requires
        files.wf(),
    ensures
        match path {
            None => r is Ok && r->Ok_0.deep_view() == store@.versions,
            Some(wanted) => match changed_places(files@, version_trees(store@.versions), wanted@) {
                Ok(places) => r is Ok && r->Ok_0.deep_view() == rows_at(store@.versions, places),
                Err(failure) => r is Err && r->Err_0@ == failure,
            },
        },
{
    let rows = store.world_history();
    match path {
        None => Ok(rows),
        Some(wanted) => filter_world_history(files, &rows, wanted),
    }
}

/// A patch leads from the old state to the new one: it is the difference from
/// what the old state holds to what the new one holds, an absent state holding
/// the empty text. There is one wherever neither state is binary and one of
/// them is there.
pub proof fn law_patch_leads_from_old_to_new(old: StateText<Text>, new: StateText<Text>)
    ensures
        patch_of(old, new) is Some <==> old !is Binary && new !is Binary && !(old is Absent
            && new is Absent),
        patch_of(old, new) is Some ==> patch_of(old, new)->Some_0 == patch_text(
            if old is Lines {
                old->Lines_0
            } else {
                ""@
            },
            if new is Lines {
                new->Lines_0
            } else {
                ""@
            },
        ),
{
}

/// A filter lets through the path that it names and all below it; without a
/// filter every change is let through, and nothing is made up.
pub proof fn law_filters_let_through_what_they_name(
    changes: Seq<Change<Text>>,
    filters: Seq<Text>,
    change: Change<Text>,
)
    ensures
        filtered(changes, filters).contains(change) <==> changes.contains(change) && (filters.len()
            == 0 || exists|i: int|
            0 <= i < filters.len() && (change.path == #[trigger] filters[i] || text::has_prefix(
                change.path,
                filters[i] + "/"@,
            ))),
{
    tables::lemma_kept(changes, passes_any(filters));
    if exists|i: int|
        0 <= i < filters.len() && (change.path == #[trigger] filters[i] || text::has_prefix(
            change.path,
            filters[i] + "/"@,
        )) {
        let i = choose|i: int|
            0 <= i < filters.len() && (change.path == #[trigger] filters[i] || text::has_prefix(
                change.path,
                filters[i] + "/"@,
            ));
        assert(passes(change.path, filters[i]));
    }
    if filters.len() > 0 && passes_one(change.path, filters) {
        let i = choose|i: int| 0 <= i < filters.len() && #[trigger] passes(change.path, filters[i]);
        assert(change.path == filters[i] || text::has_prefix(change.path, filters[i] + "/"@));
    }
}

/// Where an object of a deleted path stood is the path of such a deletion.
proof fn lemma_deleted_objects(changes: Seq<Change<Text>>)
    ensures
        forall|id: Text| #[trigger]
            deleted_objects(changes).contains_key(id) <==> exists|j: int|
                0 <= j < changes.len() && (#[trigger] changes[j]).new is None && changes[j].old
                    is Some && changes[j].old->Some_0.object_id == Some(id),
        forall|id: Text| #[trigger]
            deleted_objects(changes).contains_key(id) ==> exists|j: int|
                0 <= j < changes.len() && (#[trigger] changes[j]).path == deleted_objects(
                    changes,
                )[id] && changes[j].new is None && changes[j].old is Some
                    && changes[j].old->Some_0.object_id == Some(id),
    decreases changes.len(),
{
    if changes.len() > 0 {
        let shorter = changes.drop_last();
        lemma_deleted_objects(shorter);
        let last = changes.last();
        assert(changes[changes.len() - 1] == last);
        assert forall|id: Text| #[trigger] deleted_objects(changes).contains_key(id) <==> exists|
            j: int,
        |
            0 <= j < changes.len() && (#[trigger] changes[j]).new is None && changes[j].old is Some
                && changes[j].old->Some_0.object_id == Some(id) by {
            if deleted_objects(shorter).contains_key(id) {
                let j = choose|j: int|
                    0 <= j < shorter.len() && (#[trigger] shorter[j]).new is None && shorter[j].old
                        is Some && shorter[j].old->Some_0.object_id == Some(id);
                assert(changes[j] == shorter[j]);
            }
            if exists|j: int|
                0 <= j < changes.len() && (#[trigger] changes[j]).new is None && changes[j].old
                    is Some && changes[j].old->Some_0.object_id == Some(id) {
                let j = choose|j: int|
                    0 <= j < changes.len() && (#[trigger] changes[j]).new is None && changes[j].old
                        is Some && changes[j].old->Some_0.object_id == Some(id);
                if j < shorter.len() {
                    assert(shorter[j] == changes[j]);
                }
            }
        }
        assert forall|id: Text| #[trigger] deleted_objects(changes).contains_key(id) implies exists|
            j: int,
        |
            0 <= j < changes.len() && (#[trigger] changes[j]).path == deleted_objects(changes)[id]
                && changes[j].new is None && changes[j].old is Some
                && changes[j].old->Some_0.object_id == Some(id) by {
            if !(last.new is None && object_of(last.old) == Some(id)) {
                assert(deleted_objects(shorter).contains_key(id));
                let j = choose|j: int|
                    0 <= j < shorter.len() && (#[trigger] shorter[j]).path == deleted_objects(
                        shorter,
                    )[id] && shorter[j].new is None && shorter[j].old is Some
                        && shorter[j].old->Some_0.object_id == Some(id);
                assert(changes[j] == shorter[j]);
            }
        }
    }
}

proof fn lemma_renames(changes: Seq<Change<Text>>, deleted: Map<Text, Text>)
    ensures
        forall|path: Text| #[trigger]
            renames_of(changes, deleted).contains_key(path) ==> exists|i: int|
                0 <= i < changes.len() && (#[trigger] changes[i]).path == path && changes[i].old
                    is None && changes[i].new is Some && changes[i].new->Some_0.object_id is Some
                    && deleted.contains_key(changes[i].new->Some_0.object_id->Some_0)
                    && renames_of(changes, deleted)[path]
                    == deleted[changes[i].new->Some_0.object_id->Some_0],
        forall|i: int|
            0 <= i < changes.len() && (#[trigger] changes[i]).old is None && changes[i].new is Some
                && changes[i].new->Some_0.object_id is Some && deleted.contains_key(
                changes[i].new->Some_0.object_id->Some_0,
            ) ==> renames_of(changes, deleted).contains_key(changes[i].path),
    decreases changes.len(),
{
    if changes.len() > 0 {
        let shorter = changes.drop_last();
        lemma_renames(shorter, deleted);
        let last = changes.last();
        assert(changes[changes.len() - 1] == last);
        let before = renames_of(shorter, deleted);
        let all = renames_of(changes, deleted);
        assert forall|path: Text| #[trigger] all.contains_key(path) implies exists|i: int|
            0 <= i < changes.len() && (#[trigger] changes[i]).path == path && changes[i].old is None
                && changes[i].new is Some && changes[i].new->Some_0.object_id is Some
                && deleted.contains_key(changes[i].new->Some_0.object_id->Some_0) && all[path]
                == deleted[changes[i].new->Some_0.object_id->Some_0] by {
            let renamed = last.old is None && object_of(last.new) is Some && deleted.contains_key(
                object_of(last.new)->Some_0,
            );
            if renamed && last.path == path {
                assert(changes[changes.len() - 1].path == path);
            } else {
                assert(before.contains_key(path));
                let i = choose|i: int|
                    0 <= i < shorter.len() && (#[trigger] shorter[i]).path == path && shorter[i].old
                        is None && shorter[i].new is Some && shorter[i].new->Some_0.object_id is Some
                        && deleted.contains_key(shorter[i].new->Some_0.object_id->Some_0)
                        && before[path] == deleted[shorter[i].new->Some_0.object_id->Some_0];
                assert(changes[i] == shorter[i]);
            }
        }
        assert forall|i: int|
            0 <= i < changes.len() && (#[trigger] changes[i]).old is None && changes[i].new is Some
                && changes[i].new->Some_0.object_id is Some && deleted.contains_key(
                changes[i].new->Some_0.object_id->Some_0,
            ) implies all.contains_key(changes[i].path) by {
            if i < shorter.len() {
                assert(shorter[i] == changes[i]);
                assert(before.contains_key(shorter[i].path));
            }
        }
    }
}

/// A path counts as renamed exactly where it was added with an object that a
/// deleted path had, and it is told to come from such a path.
pub proof fn law_rename_keeps_the_object(changes: Seq<Change<Text>>, path: Text)
    ensures
        ({
            let renames = renames_of(changes, deleted_objects(changes));
            &&& renames.contains_key(path) ==> exists|i: int, j: int|
                {
                    &&& 0 <= i < changes.len() && 0 <= j < changes.len()
                    &&& (#[trigger] changes[i]).path == path && changes[i].old is None
                        && changes[i].new is Some
                    &&& (#[trigger] changes[j]).path == renames[path] && changes[j].new is None
                        && changes[j].old is Some
                    &&& changes[i].new->Some_0.object_id is Some
                    &&& changes[i].new->Some_0.object_id == changes[j].old->Some_0.object_id
                }
            &&& (exists|i: int, j: int|
                {
                    &&& 0 <= i < changes.len() && 0 <= j < changes.len()
                    &&& (#[trigger] changes[i]).path == path && changes[i].old is None
                        && changes[i].new is Some
                    &&& (#[trigger] changes[j]).new is None && changes[j].old is Some
                    &&& changes[i].new->Some_0.object_id is Some
                    &&& changes[i].new->Some_0.object_id == changes[j].old->Some_0.object_id
                }) ==> renames.contains_key(path)
        }),
{
    let deleted = deleted_objects(changes);
    let renames = renames_of(changes, deleted);
    lemma_deleted_objects(changes);
    lemma_renames(changes, deleted);
    if renames.contains_key(path) {
        let i = choose|i: int|
            0 <= i < changes.len() && (#[trigger] changes[i]).path == path && changes[i].old is None
                && changes[i].new is Some && changes[i].new->Some_0.object_id is Some
                && deleted.contains_key(changes[i].new->Some_0.object_id->Some_0) && renames[path]
                == deleted[changes[i].new->Some_0.object_id->Some_0];
        let id = changes[i].new->Some_0.object_id->Some_0;
        assert(deleted.contains_key(id));
        let j = choose|j: int|
            0 <= j < changes.len() && (#[trigger] changes[j]).path == deleted[id] && changes[j].new
                is None && changes[j].old is Some && changes[j].old->Some_0.object_id == Some(id);
        assert(changes[i].path == path && changes[j].path == renames[path]);
    }
    if exists|i: int, j: int|
        {
            &&& 0 <= i < changes.len() && 0 <= j < changes.len()
            &&& (#[trigger] changes[i]).path == path && changes[i].old is None && changes[i].new
                is Some
            &&& (#[trigger] changes[j]).new is None && changes[j].old is Some
            &&& changes[i].new->Some_0.object_id is Some
            &&& changes[i].new->Some_0.object_id == changes[j].old->Some_0.object_id
        } {
        let (i, j) = choose|i: int, j: int|
            {
                &&& 0 <= i < changes.len() && 0 <= j < changes.len()
                &&& (#[trigger] changes[i]).path == path && changes[i].old is None && changes[i].new
                    is Some
                &&& (#[trigger] changes[j]).new is None && changes[j].old is Some
                &&& changes[i].new->Some_0.object_id is Some
                &&& changes[i].new->Some_0.object_id == changes[j].old->Some_0.object_id
            };
        assert(deleted.contains_key(changes[i].new->Some_0.object_id->Some_0));
    }
}

/// A state is shown line by line exactly where it is a file of at most one
/// mebibyte that holds UTF-8 text without a zero byte; what is there and is no
/// such file is binary, and what is not there is absent.
pub proof fn law_only_short_texts_are_shown(files: FilesState, entry: TreeEntry<Text>, id: Text)
    requires
        entry.object_id == Some(id),
        state_text_outcome(files, Some(entry)) is Ok,
    ensures
        ({
            let shown = state_text_outcome(files, Some(entry))->Ok_0;
            let content = files::blob_outcome(files, id)->Ok_0;
            &&& shown !is Absent
            &&& entry.kind != EntryKind::File ==> shown is Binary
            &&& shown is Lines <==> {
                &&& entry.kind == EntryKind::File
                &&& files::info_outcome(files, id)->Ok_0.0 == ObjectKind::Blob
                &&& files::info_outcome(files, id)->Ok_0.1 <= 1048576
                &&& !content.contains(0u8)
                &&& vstd::utf8::valid_utf8(content)
            }
            &&& shown matches StateText::Lines(lines) ==> lines == vstd::utf8::decode_utf8(content)
        }),
        state_text_outcome(files, None) == Ok::<StateText<Text>, Failure>(StateText::Absent),
{
}

/// What is told of a change: its path with the patch where there is one, and
/// otherwise the name of the change and the path; and it counts as binary where
/// either state is.
pub proof fn law_change_is_told_with_its_patch(
    change: Change<Text>,
    old: StateText<Text>,
    new: StateText<Text>,
    renames: Map<Text, Text>,
)
    ensures
        old is Lines && new is Lines ==> change_line(change, old, new) == change.path + "\n"@
            + patch_text(old->Lines_0, new->Lines_0),
        old is Binary || new is Binary ==> change_line(change, old, new) == report::change_name(
            change.change,
        ) + "\t"@ + change.path,
        change_value(change, old, new, renames) == JsonValue::object().field(
            "path"@,
            JsonValue::Text(change.path),
        ).field("change"@, JsonValue::Text(report::change_name(change.change))).field(
            "old"@,
            report::value_or_null::<TreeEntry>(change.old),
        ).field("new"@, report::value_or_null::<TreeEntry>(change.new)).field(
            "binary"@,
            JsonValue::Bool(old is Binary || new is Binary),
        ).field("patch"@, json::text_or_null(patch_of(old, new))).field(
            "rename_from"@,
            if renames.contains_key(change.path) {
                JsonValue::Text(renames[change.path])
            } else {
                JsonValue::Null
            },
        ),
        report::change_name(model::ChangeKind::Add) == "add"@,
        report::change_name(model::ChangeKind::Delete) == "delete"@,
        report::change_name(model::ChangeKind::Modify) == "modify"@,
        report::change_name(model::ChangeKind::Type) == "type"@,
        report::change_name(model::ChangeKind::Mode) == "mode"@,
{
}

/// A path's history tells exactly the states that changed it: the first one
/// where it holds the path, and every later one that gives the path another
/// state than the one before.
pub proof fn law_history_tells_every_change(
    files: FilesState,
    roots: Seq<Text>,
    path: Text,
    i: int,
)
    requires
        changed_places(files, roots, path) is Ok,
        0 <= i < roots.len(),
    ensures
        files::tree_outcome(files, roots[i]) is Ok,
        changed_places(files, roots, path)->Ok_0.contains(i) <==> (if i == 0 {
            model::states(files::tree_outcome(files, roots[0])->Ok_0).contains_key(path)
        } else {
            model::state_at(model::states(files::tree_outcome(files, roots[i])->Ok_0), path)
                != model::state_at(
                model::states(files::tree_outcome(files, roots[i - 1])->Ok_0),
                path,
            )
        }),
        forall|k: int|
            0 <= k < changed_places(files, roots, path)->Ok_0.len() ==> 0
                <= #[trigger] changed_places(files, roots, path)->Ok_0[k] < roots.len(),
    decreases roots.len(),
{
    let shorter = roots.drop_last();
    let before = changed_places(files, shorter, path)->Ok_0;
    let all = changed_places(files, roots, path)->Ok_0;
    let last = roots.len() - 1;
    let entries = files::tree_outcome(files, roots.last())->Ok_0;
    if shorter.len() > 0 {
        law_history_tells_every_change(files, shorter, path, 0);
        if i < last {
            law_history_tells_every_change(files, shorter, path, i);
            assert(shorter[i] == roots[i]);
            if i > 0 {
                assert(shorter[i - 1] == roots[i - 1]);
            }
            assert(shorter[0] == roots[0]);
        }
    }
    assert(before.len() > 0 ==> shorter.len() > 0);
    if before.contains(i) {
        let k = choose|k: int| 0 <= k < before.len() && before[k] == i;
        assert(all[k] == i);
    }
    if all.contains(i) && i < last {
        let k = choose|k: int| 0 <= k < all.len() && all[k] == i;
        assert(k < before.len());
        assert(before[k] == i);
    }
    if i == last {
        model::lemma_states(entries);
        tables::lemma_first(entries, entry_at(path));
        if roots.len() == 1 {
            if model::states(entries).contains_key(path) {
                let k = choose|k: int| 0 <= k < entries.len() && (#[trigger] entries[k]).path == path;
                assert(entry_at(path)(entries[k]));
            }
            if tables::any(entries, entry_at(path)) {
                let k = tables::first(entries, entry_at(path))->Some_0;
                assert(entries[k].path == path);
            }
        }
        if all.len() > before.len() {
            assert(all[before.len() as int] == last);
        }
        if all.contains(i) && all.len() == before.len() {
            let k = choose|k: int| 0 <= k < all.len() && all[k] == i;
            assert(before[k] == i);
            assert(before[k] < shorter.len());
        }
    }
}

} // verus!
