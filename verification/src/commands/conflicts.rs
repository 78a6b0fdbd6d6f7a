//! Resolving Conflicts.
use vstd::prelude::*;
use crate::clock;
use crate::commands::checkpoints;
use crate::commands::refresh;
use crate::commands::views;
use crate::commands::views::ViewOrder;
use crate::error::{Failure, JavelinError, Result};
use crate::files;
use crate::files::{FilesState, ObjectFiles};
use crate::json::{Json, JsonValue};
use crate::model;
use crate::model::{Checkpoint, Layer, Tree, TreeEntry};
use crate::objects;
use crate::objects::ObjectKind;
use crate::ordered;
use crate::ordered::PathMap;
use crate::records;
use crate::records::ConflictRecord;
use crate::report::Shown;
use crate::scan;
use crate::store;
use crate::store::{conflicts, layers, Store, StoreState};
use crate::tables;
use crate::text;
use crate::text::Text;
use crate::view;
use crate::view::ScanResult;

verus! {

/// The state that a Conflict is resolved with.
#[derive(Debug)]
pub enum Choice<'a> {
    Base,
    Target,
    Private,
    /// What the Layer's view holds now.
    Edited(&'a ScanResult),
}

impl<'a> Choice<'a> {
    pub open spec fn name(self) -> Text {
        match self {
            Choice::Base => "base"@,
            Choice::Target => "target"@,
            Choice::Private => "private"@,
            Choice::Edited(_) => "edited"@,
        }
    }

    pub fn as_str(&self) -> (r: &'static str)
        ensures
            r@ == self.name(),
    {
        match self {
            Choice::Base => "base",
            Choice::Target => "target",
            Choice::Private => "private",
            Choice::Edited(_) => "edited",
        }
    }
}

/// A path is another or stands below it.
pub open spec fn covers(path: Text, other: Text) -> bool {
    other == path || scan::below(other, path)
}

/// The updates that take away a path and all below it.
pub open spec fn removals(entries: Seq<TreeEntry<Text>>, path: Text) -> Map<
    Text,
    Option<TreeEntry<Text>>,
>
    decreases entries.len(),
{
    if entries.len() == 0 {
        Map::empty()
    } else {
        let before = removals(entries.drop_last(), path);
        if covers(path, entries.last().path) {
            before.insert(entries.last().path, None)
        } else {
            before
        }
    }
}

/// The updates that give a path a state, and nothing below it.
pub open spec fn resolution_updates(
    entries: Seq<TreeEntry<Text>>,
    path: Text,
    selected: Option<TreeEntry<Text>>,
) -> Map<Text, Option<TreeEntry<Text>>> {
    match selected {
        Some(entry) => removals(entries, path).insert(path, Some(entry)),
        None => removals(entries, path),
    }
}

/// The tree in which a path has a state, and nothing stands below it.
pub open spec fn resolved_tree(
    entries: Seq<TreeEntry<Text>>,
    path: Text,
    selected: Option<TreeEntry<Text>>,
) -> Seq<TreeEntry<Text>> {
    model::values_of(
        ordered::pairs_of(
            view::applied(model::states(entries), resolution_updates(entries, path, selected)),
        ),
    )
}

/// Gives a path a state, and takes away all below it.
pub fn apply_path_resolution(tree: &Tree, path: &str, selected: &Option<TreeEntry>) -> (r: Tree)
    ensures
        r@ == resolved_tree(tree@, path@, selected.deep_view()),
{
    let ghost all = tree@;
    let mut updates: PathMap<Option<TreeEntry>> = PathMap::new();
    let mut i: usize = 0;
    assert(all.take(0) =~= Seq::empty());
    while i < tree.entries.len()
        invariant
            i <= tree.entries@.len(),
            all == tree@,
            updates.wf(),
            updates@ == removals(all.take(i as int), path@),
        decreases tree.entries@.len() - i,
    {
        let entry = &tree.entries[i];
        proof {
            assert(all.take(i as int + 1).drop_last() =~= all.take(i as int));
            assert(all.take(i as int + 1).last() == entry@);
        }
        if text::same(entry.path.as_str(), path) || scan::is_below(entry.path.as_str(), path) {
            updates.insert(entry.path.clone(), None);
        }
        i = i + 1;
    }
    assert(all.take(i as int) =~= all);
    if let Some(entry) = selected {
        updates.insert(path.to_owned(), Some(entry.clone()));
    }
    view::apply_entries(tree, &updates)
}

/// The state of a Conflict that a choice selects.
pub open spec fn selected_state(record: ConflictRecord<Text>, choice: Choice<'_>) -> Option<
    TreeEntry<Text>,
> {
    match choice {
        Choice::Base => record.base_entry,
        Choice::Target => record.target_entry,
        _ => record.private_entry,
    }
}

/// What a resolution stores: the tree, and the state that the Layer is
/// synchronized with. With its last open Conflict resolved, the Layer is
/// synchronized with the target that the Conflict arose from.
#[verifier::ext_equal]
pub struct Resolution {
    pub layer: Layer<Text>,
    pub tree: Seq<TreeEntry<Text>>,
    pub synchronized_ref: Text,
}

/// What resolving a Conflict stores.
pub open spec fn resolution_outcome(
    state: StoreState,
    files: FilesState,
    id: Text,
    choice: Choice<'_>,
) -> std::result::Result<Resolution, Failure> {
    match conflicts::conflict_outcome(state, id) {
        Err(failure) => Err(failure),
        Ok(record) => if record.status != "open"@ {
            Err(Failure::invalid("Conflict "@ + id + " is already resolved"@))
        } else {
            match store::layer_outcome(state, record.layer_id) {
                Err(failure) => Err(failure),
                Ok(layer) => match views::head_outcome(state, files, layer) {
                    Err(failure) => Err(failure),
                    Ok((_, head_tree)) => Ok(
                        Resolution {
                            layer,
                            tree: match choice {
                                Choice::Edited(scan) => scan.tree@,
                                _ => resolved_tree(
                                    head_tree,
                                    record.path,
                                    selected_state(record, choice),
                                ),
                            },
                            synchronized_ref: if refresh::open_conflicts(state, layer.id).len()
                                == 1 {
                                record.target_ref
                            } else {
                                layer.synchronized_ref
                            },
                        },
                    ),
                },
            }
        },
    }
}

/// The reason of the Checkpoint of a resolution.
pub open spec fn resolution_reason(id: Text, choice: Choice<'_>) -> Text {
    "resolve Conflict "@ + id + " using "@ + choice.name()
}

/// What resolving a Conflict gives: the store with the Checkpoint and with the
/// Conflict resolved, before the view is put on disk.
pub open spec fn resolve_outcome(
    state: StoreState,
    files: FilesState,
    id: Text,
    choice: Choice<'_>,
    checkpoint_id: Text,
    now: Text,
) -> std::result::Result<(StoreState, Checkpoint<Text>), Failure> {
    match resolution_outcome(state, files, id, choice) {
        Err(failure) => Err(failure),
        Ok(resolution) => match objects::encode_outcome(resolution.tree) {
            Err(failure) => Err(failure),
            Ok(encoded) => match layers::append_checkpoint_outcome(
                state,
                resolution.layer.id,
                objects::identity(ObjectKind::Tree, encoded),
                resolution.synchronized_ref,
                resolution_reason(id, choice),
                checkpoint_id,
                now,
            ) {
                Err(failure) => Err(failure),
                Ok((stored, checkpoint)) => match conflicts::resolve_outcome(
                    views::opened(stored, resolution.layer.id, checkpoint.id, now),
                    id,
                    choice.name(),
                    now,
                ) {
                    Err(failure) => Err(failure),
                    Ok(after) => Ok((after, checkpoint)),
                },
            },
        },
    }
}

/// What a resolution stored: the new Checkpoint, what is to be put into the
/// view, and the tree's file to write.
#[derive(Debug)]
pub struct Resolved {
    pub checkpoint: Checkpoint,
    pub order: ViewOrder,
    pub file: (String, Vec<u8>),
}

/// The store went by the outcome, with the view's order and the tree's file to
/// write, or nothing changed because the tree could not be compressed.
pub open spec fn resolved_or_refused(
    before: StoreState,
    after: StoreState,
    resolution: std::result::Result<Resolution, Failure>,
    outcome: std::result::Result<(StoreState, Checkpoint<Text>), Failure>,
    r: Result<Resolved>,
) -> bool {
    match r {
        Ok(done) => {
            &&& outcome == Ok::<(StoreState, Checkpoint<Text>), Failure>(
                (after, done.checkpoint@),
            )
            &&& resolution is Ok
            &&& objects::encode_outcome(resolution->Ok_0.tree) is Ok
            &&& files::is_object(
                done.file,
                ObjectKind::Tree,
                objects::encode_outcome(resolution->Ok_0.tree)->Ok_0,
            )
            &&& done.order@ == views::order_for(
                before.root,
                resolution->Ok_0.layer,
                done.checkpoint@.id,
                done.file.0@,
                resolution->Ok_0.tree,
            )
        },
        Err(error) => after == before && (outcome == Err::<
            (StoreState, Checkpoint<Text>),
            Failure,
        >(error@) || (resolution is Ok && checkpoints::tree_refused(
            resolution->Ok_0.tree,
            error@,
        ))),
    }
}

/// Resolves a Conflict, with a given identity and time for its Checkpoint. The
/// view is stale until the order is carried out.
pub fn resolve_at(
    store: &mut Store,
    files: &ObjectFiles,
    id: &str,
    choice: &Choice<'_>,
    checkpoint_id: &str,
    now: &str,
) -> (r: Result<Resolved>)
    requires
        files.wf(),
    ensures
        resolved_or_refused(
            old(store)@,
            final(store)@,
            resolution_outcome(old(store)@, files@, id@, *choice),
            resolve_outcome(old(store)@, files@, id@, *choice, checkpoint_id@, now@),
            r,
        ),
{
    let record = store.conflict(id)?;
    if !text::same(record.status.as_str(), "open") {
        return Err(
            JavelinError::invalid(text::concat3("Conflict ", id, " is already resolved")),
        );
    }
    let layer = store.layer(record.layer_id.as_str())?;
    let (_, head_tree) = views::head_and_tree(store, files, &layer)?;
    let remaining = store.conflicts(Some(layer.id.as_str()), false);
    assert(remaining.deep_view().len() == remaining@.len());
    let synchronized_ref = if remaining.len() == 1 {
        record.target_ref.clone()
    } else {
        layer.synchronized_ref.clone()
    };
    let tree = match choice {
        Choice::Base => apply_path_resolution(
            &head_tree,
            record.path.as_str(),
            &record.base_entry,
        ),
        Choice::Target => apply_path_resolution(
            &head_tree,
            record.path.as_str(),
            &record.target_entry,
        ),
        Choice::Private => apply_path_resolution(
            &head_tree,
            record.path.as_str(),
            &record.private_entry,
        ),
        Choice::Edited(scan) => scan.tree.clone(),
    };
    let ghost before = store@;
    let reason = text::concat3(
        text::concat2("resolve Conflict ", id).as_str(),
        " using ",
        choice.as_str(),
    );
    let file = store.objects.put_tree(&tree)?;
    let checkpoint = store.append_checkpoint_at(
        layer.id.as_str(),
        file.0.as_str(),
        synchronized_ref.as_str(),
        reason.as_str(),
        checkpoint_id,
        now,
    )?;
    let order = views::order_view(
        store,
        &layer,
        checkpoint.id.as_str(),
        file.0.as_str(),
        tree,
    );
    store.mark_view_at(layer.id.as_str(), checkpoint.id.as_str(), true, "materializing", now);
    assert(store@.conflicts == before.conflicts);
    store.resolve_conflict_at(id, choice.as_str(), now)?;
    Ok(Resolved { checkpoint, order, file })
}

/// Resolves a Conflict.
pub fn resolve(store: &mut Store, files: &ObjectFiles, id: &str, choice: &Choice<'_>) -> (r: Result<
    Resolved,
>)
    requires
        files.wf(),
    ensures
        exists|checkpoint_id: Text, now: Text|
            clock::is_stamp(now) && clock::is_fresh(checkpoint_id) && resolved_or_refused(
                old(store)@,
                final(store)@,
                resolution_outcome(old(store)@, files@, id@, *choice),
                #[trigger] resolve_outcome(
                    old(store)@,
                    files@,
                    id@,
                    *choice,
                    checkpoint_id,
                    now,
                ),
                r,
            ),
{
    let checkpoint_id = clock::new_id();
    let now = clock::now();
    resolve_at(store, files, id, choice, checkpoint_id.as_str(), now.as_str())
}

/// What the command shows and says of a resolution.
pub fn resolution_report(id: &str, choice: &str, checkpoint: &Checkpoint) -> (r: (Json, String))
    ensures
        r.0@ == JsonValue::object().field("conflict_id"@, JsonValue::Text(id@)).field(
            "resolution"@,
            JsonValue::Text(choice@),
        ).field("checkpoint"@, Checkpoint::value(checkpoint@)),
        r.1@ == "Resolved Conflict "@ + id@ + " using "@ + choice@,
{
    let shown = Json::empty().with("conflict_id", Json::text(id)).with(
        "resolution",
        Json::text(choice),
    ).with("checkpoint", checkpoint.shown());
    let human = text::concat3(
        text::concat2("Resolved Conflict ", id).as_str(),
        " using ",
        choice,
    );
    (shown, human)
}

proof fn lemma_removals(entries: Seq<TreeEntry<Text>>, path: Text, other: Text)
    ensures
        removals(entries, path).contains_key(other) ==> covers(path, other) && removals(
            entries,
            path,
        )[other] is None,
        covers(path, other) && model::states(entries).contains_key(other) ==> removals(
            entries,
            path,
        ).contains_key(other),
    decreases entries.len(),
{
    if entries.len() > 0 {
        lemma_removals(entries.drop_last(), path, other);
        reveal_with_fuel(model::states, 2);
    }
}

/// A resolution gives the Conflict's path the chosen state and leaves every
/// path alone that is not the Conflict's and does not stand below it.
pub proof fn law_resolution_is_local(
    entries: Seq<TreeEntry<Text>>,
    path: Text,
    selected: Option<TreeEntry<Text>>,
    other: Text,
)
    ensures
        ({
            let before = model::states(entries);
            let after = view::applied(before, resolution_updates(entries, path, selected));
            &&& model::state_at(after, path) == selected
            &&& !covers(path, other) ==> model::state_at(after, other) == model::state_at(
                before,
                other,
            )
            &&& covers(path, other) && other != path ==> model::state_at(after, other) is None
        }),
{
    lemma_removals(entries, path, path);
    lemma_removals(entries, path, other);
}

/// A Conflict is resolved once: a second resolution is refused, and no
/// Checkpoint is appended.
pub proof fn law_conflict_is_resolved_once(
    state: StoreState,
    files: FilesState,
    id: Text,
    choice: Choice<'_>,
    checkpoint_id: Text,
    now: Text,
)
    requires
        conflicts::conflict_outcome(state, id) is Ok,
        conflicts::conflict_outcome(state, id)->Ok_0.status != "open"@,
    ensures
        resolve_outcome(state, files, id, choice, checkpoint_id, now) == Err::<
            (StoreState, Checkpoint<Text>),
            Failure,
        >(Failure::invalid("Conflict "@ + id + " is already resolved"@)),
{
}

/// Resolving a Conflict with one of its sides gives the Conflict's path exactly
/// the state that the record keeps for that side, and takes away all that stood
/// below the path; every other path is as it was at the Layer's head. An edited
/// resolution is what the view holds.
pub proof fn law_choice_keeps_its_side(
    state: StoreState,
    files: FilesState,
    id: Text,
    choice: Choice<'_>,
    other: Text,
)
    requires
        resolution_outcome(state, files, id, choice) is Ok,
        ({
            let record = conflicts::conflict_outcome(state, id)->Ok_0;
            &&& record.base_entry is Some ==> record.base_entry->Some_0.path == record.path
            &&& record.target_entry is Some ==> record.target_entry->Some_0.path == record.path
            &&& record.private_entry is Some ==> record.private_entry->Some_0.path == record.path
        }),
    ensures
        ({
            let record = conflicts::conflict_outcome(state, id)->Ok_0;
            let resolution = resolution_outcome(state, files, id, choice)->Ok_0;
            let head = views::head_outcome(state, files, resolution.layer)->Ok_0.1;
            let after = model::states(resolution.tree);
            &&& record.id == id
            &&& record.status == "open"@
            &&& choice is Base ==> model::state_at(after, record.path) == record.base_entry
            &&& choice is Target ==> model::state_at(after, record.path) == record.target_entry
            &&& choice is Private ==> model::state_at(after, record.path) == record.private_entry
            &&& choice !is Edited && text::has_prefix(other, record.path + "/"@)
                ==> !after.contains_key(other)
            &&& choice !is Edited && other != record.path && !text::has_prefix(
                other,
                record.path + "/"@,
            ) ==> model::state_at(after, other) == model::state_at(model::states(head), other)
            &&& choice matches Choice::Edited(scan) ==> resolution.tree == scan.tree@
        }),
{
    let record = conflicts::conflict_outcome(state, id)->Ok_0;
    tables::lemma_first(state.conflicts, records::conflict_is(id));
    let resolution = resolution_outcome(state, files, id, choice)->Ok_0;
    let head = views::head_outcome(state, files, resolution.layer)->Ok_0.1;
    if choice !is Edited {
        let selected = selected_state(record, choice);
        let before = model::states(head);
        let updates = resolution_updates(head, record.path, selected);
        let after = view::applied(before, updates);
        model::lemma_states(head);
        model::lemma_states_finite(head);
        assert(after.dom().subset_of(before.dom().insert(record.path))) by {
            assert forall|path: Text| #[trigger] after.dom().contains(path) implies
                before.dom().insert(record.path).contains(path) by {
                lemma_removals(head, record.path, path);
            }
        }
        vstd::set_lib::lemma_len_subset(after.dom(), before.dom().insert(record.path));
        assert forall|path: Text| #[trigger] after.contains_key(path) implies after[path].path
            == path by {
            lemma_removals(head, record.path, path);
        }
        model::lemma_states_of_values(after);
        reveal_strlit("/");
        law_resolution_is_local(head, record.path, selected, other);
        if text::has_prefix(other, record.path + "/"@) {
            assert(other.len() > record.path.len());
        }
    }
}

/// The choice is recorded under its own name, in the Conflict and in the reason
/// of the Checkpoint.
pub proof fn law_choice_is_told_by_its_name(id: Text, choice: Choice<'_>)
    ensures
        choice is Base ==> choice.name() == "base"@,
        choice is Target ==> choice.name() == "target"@,
        choice is Private ==> choice.name() == "private"@,
        choice is Edited ==> choice.name() == "edited"@,
        resolution_reason(id, choice) == "resolve Conflict "@ + id + " using "@ + choice.name(),
{
}

/// With the last open Conflict of a Layer its target is integrated: the
/// Checkpoint is synchronized with the target that the Conflict arose from.
/// While another Conflict of the Layer is open, the Layer stays synchronized
/// with what it was.
pub proof fn law_last_resolution_reaches_the_target(
    state: StoreState,
    files: FilesState,
    id: Text,
    choice: Choice<'_>,
    i: int,
)
    requires
        resolution_outcome(state, files, id, choice) is Ok,
        0 <= i < state.conflicts.len(),
        state.conflicts[i] == conflicts::conflict_outcome(state, id)->Ok_0,
        resolution_outcome(state, files, id, choice)->Ok_0.layer.id
            == state.conflicts[i].layer_id,
    ensures
        ({
            let resolution = resolution_outcome(state, files, id, choice)->Ok_0;
            let others = exists|j: int|
                0 <= j < state.conflicts.len() && j != i && (#[trigger] state.conflicts[j]).layer_id
                    == state.conflicts[i].layer_id && state.conflicts[j].status == "open"@;
            &&& !others ==> resolution.synchronized_ref == state.conflicts[i].target_ref
            &&& others ==> resolution.synchronized_ref == resolution.layer.synchronized_ref
        }),
{
    let layer_id = state.conflicts[i].layer_id;
    tables::lemma_kept_one(state.conflicts, conflicts::shown(Some(layer_id), false), i);
}

/// A Conflict that is open can be resolved with any choice, as long as its Layer
/// is known and what the Layer's head holds can be read.
pub proof fn law_every_open_conflict_can_be_resolved(
    state: StoreState,
    files: FilesState,
    id: Text,
    choice: Choice<'_>,
)
    ensures
        resolution_outcome(state, files, id, choice) is Ok <==> {
            let record = conflicts::conflict_outcome(state, id);
            &&& record is Ok
            &&& record->Ok_0.status == "open"@
            &&& state.layer(record->Ok_0.layer_id) is Some
            &&& views::head_outcome(
                state,
                files,
                state.layer(record->Ok_0.layer_id)->Some_0,
            ) is Ok
        },
        resolution_outcome(state, files, id, choice) matches Ok(resolution) ==> Some(
            resolution.layer,
        ) == state.layer(conflicts::conflict_outcome(state, id)->Ok_0.layer_id),
{
}

} // verus!
