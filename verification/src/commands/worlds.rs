//! Creating and restoring Private Layers, and restoring the World.
use vstd::prelude::*;
use crate::clock;
use crate::commands::validation;
use crate::commands::views;
use crate::commands::views::{Order, ViewOrder};
use crate::error::{Failure, JavelinError, Result};
use crate::files;
use crate::files::{FilesState, ObjectFiles};
use crate::json;
use crate::json::{Json, JsonValue};
use crate::model::{Checkpoint, Layer, TreeEntry, WorldVersion};
use crate::paths;
use crate::records::ValidationRecord;
use crate::report;
use crate::report::Shown;
use crate::store;
use crate::store::layers;
use crate::store::layers::NewLayer;
use crate::store::{Store, StoreState};
use crate::tables;
use crate::text;
use crate::text::Text;

verus! {

/// What a new Layer is asked to publish to, and the state of it.
#[derive(Debug)]
#[verifier::ext_equal]
pub struct LayerTarget<S = String> {
    pub kind: S,
    pub id: Option<S>,
    pub reference: S,
}

impl DeepView for LayerTarget {
    type V = LayerTarget<Text>;

    open spec fn deep_view(&self) -> LayerTarget<Text> {
        LayerTarget {
            kind: self.kind@,
            id: self.id.deep_view(),
            reference: self.reference@,
        }
    }
}

/// The target that a text names.
pub open spec fn layer_target_outcome(state: StoreState, target: Text) -> std::result::Result<
    LayerTarget<Text>,
    Failure,
> {
    if target == "world"@ {
        match store::current_outcome(state) {
            Err(failure) => Err(failure),
            Ok(version) => Ok(
                LayerTarget { kind: "world"@, id: None, reference: version.id },
            ),
        }
    } else if text::has_prefix(target, "layer:"@) {
        match store::layer_outcome(state, target.skip(6)) {
            Err(failure) => Err(failure),
            Ok(parent) => match store::checkpoint_outcome(state, parent.head_checkpoint) {
                Err(failure) => Err(failure),
                Ok(head) => Ok(
                    LayerTarget { kind: "layer"@, id: Some(parent.id), reference: head.id },
                ),
            },
        }
    } else {
        Err(Failure::invalid("Layer target must be world or layer:LAYER"@))
    }
}

/// Finds the target that a text names.
pub fn find_layer_target(store: &Store, target: &str) -> (r: Result<LayerTarget>)
    ensures
        match layer_target_outcome(store@, target@) {
            Ok(found) => r is Ok && r->Ok_0.deep_view() == found,
            Err(failure) => r is Err && r->Err_0@ == failure,
        },
{
    if text::same(target, "world") {
        let version = store.current_world()?;
        return Ok(LayerTarget { kind: "world".to_owned(), id: None, reference: version.id });
    }
    if text::starts_with(target, "layer:") {
        proof {
            reveal_strlit("layer:");
        }
        let length: usize = target.unicode_len();
        let name = target.substring_char(6, length);
        assert(target@.subrange(6, length as int) =~= target@.skip(6));
        let parent = store.layer(name)?;
        let head = store.layer_head(&parent)?;
        return Ok(
            LayerTarget {
                kind: "layer".to_owned(),
                id: Some(parent.id),
                reference: head.id,
            },
        );
    }
    Err(JavelinError::invalid("Layer target must be world or layer:LAYER".to_owned()))
}

/// What a new Layer is made from.
#[derive(Debug)]
#[verifier::ext_equal]
pub struct LayerRequest<'a> {
    pub name: &'a str,
    pub from: Option<&'a str>,
    pub target: &'a str,
}

/// Where the view of a Layer stands.
pub open spec fn view_place(metadata: Text, name: Text) -> Text {
    paths::joined_path(paths::joined_path(metadata, "views"@), name)
}

/// What a new Layer is made from, and its tree. A Layer that is not told where
/// to begin begins with what the view holds in which it is made.
pub open spec fn new_layer_outcome(
    state: StoreState,
    files: FilesState,
    context_head: Text,
    name: Text,
    from: Option<Text>,
    target: Text,
) -> std::result::Result<(NewLayer<Text>, Seq<TreeEntry<Text>>), Failure> {
    match layer_target_outcome(state, target) {
        Err(failure) => Err(failure),
        Ok(found) => {
            let origin = match from {
                Some(reference) => reference,
                None => context_head,
            };
            match views::tree_for_ref_outcome(state, files, origin) {
                Err(failure) => Err(failure),
                Ok((resolved, root, tree)) => Ok(
                    (
                        NewLayer {
                            name,
                            origin_ref: resolved,
                            synchronized_ref: if from is Some {
                                resolved
                            } else {
                                found.reference
                            },
                            root_tree: root,
                            target_kind: found.kind,
                            target_id: found.id,
                            view_path: view_place(state.metadata, name),
                        },
                        tree,
                    ),
                ),
            }
        },
    }
}

/// What creating a Layer gives, before its view is put on disk.
pub open spec fn create_outcome(
    state: StoreState,
    files: FilesState,
    context_head: Text,
    name: Text,
    from: Option<Text>,
    target: Text,
    id: Text,
    checkpoint_id: Text,
    now: Text,
) -> std::result::Result<(StoreState, Layer<Text>, Order), Failure> {
    match new_layer_outcome(state, files, context_head, name, from, target) {
        Err(failure) => Err(failure),
        Ok((new, tree)) => match layers::create_failure(state, new) {
            Some(failure) => Err(failure),
            None => {
                let layer = layers::new_layer_row(new, id, checkpoint_id, now);
                Ok(
                    (
                        layers::created_layer(state, new, id, checkpoint_id, now),
                        layer,
                        views::marked_order_for(
                            state.root,
                            layer,
                            checkpoint_id,
                            new.root_tree,
                            tree,
                        ),
                    ),
                )
            },
        },
    }
}

/// Creates a Layer with given identities and time. `context_head` is the head of
/// the Layer in whose view the command runs.
pub fn create_at(
    store: &mut Store,
    files: &ObjectFiles,
    context_head: &str,
    request: &LayerRequest<'_>,
    id: &str,
    checkpoint_id: &str,
    now: &str,
) -> (r: Result<(Layer, ViewOrder)>)
    requires
        files.wf(),
    ensures
        match create_outcome(
            old(store)@,
            files@,
            context_head@,
            request.name@,
            request.from.deep_view(),
            request.target@,
            id@,
            checkpoint_id@,
            now@,
        ) {
            Ok((state, layer, order)) => r is Ok && r->Ok_0.0@ == layer && r->Ok_0.1@ == order
                && final(store)@ == state,
            Err(failure) => r is Err && r->Err_0@ == failure && final(store)@ == old(store)@,
        },
{
    let found = find_layer_target(store, request.target)?;
    let origin = match request.from {
        Some(reference) => reference.to_owned(),
        None => context_head.to_owned(),
    };
    let (resolved, root, tree) = views::tree_for_ref(store, files, origin.as_str())?;
    let synchronized_ref = if request.from.is_some() {
        resolved.clone()
    } else {
        found.reference.clone()
    };
    let view_path = paths::join_path(
        paths::join_path(store.metadata.as_str(), "views").as_str(),
        request.name,
    );
    let target_id = match &found.id {
        Some(parent) => Some(parent.as_str()),
        None => None,
    };
    let new = NewLayer {
        name: request.name,
        origin_ref: resolved.as_str(),
        synchronized_ref: synchronized_ref.as_str(),
        root_tree: root.as_str(),
        target_kind: found.kind.as_str(),
        target_id,
        view_path: view_path.as_str(),
    };
    let layer = store.create_layer_at(&new, id, checkpoint_id, now)?;
    let order = views::order_marked_view(store, &layer, checkpoint_id, root.as_str(), tree);
    Ok((layer, order))
}

/// Creates a Layer.
pub fn create(
    store: &mut Store,
    files: &ObjectFiles,
    context_head: &str,
    request: &LayerRequest<'_>,
) -> (r: Result<(Layer, ViewOrder)>)
    requires
        files.wf(),
    ensures
        exists|id: Text, checkpoint_id: Text, now: Text|
            clock::is_stamp(now) && clock::is_fresh(id) && clock::is_fresh(checkpoint_id)
                && match #[trigger] create_outcome(
                old(store)@,
                files@,
                context_head@,
                request.name@,
                request.from.deep_view(),
                request.target@,
                id,
                checkpoint_id,
                now,
            ) {
                Ok((state, layer, order)) => r is Ok && r->Ok_0.0@ == layer && r->Ok_0.1@ == order
                    && final(store)@ == state,
                Err(failure) => r is Err && r->Err_0@ == failure && final(store)@ == old(store)@,
            },
{
    let id = clock::new_id();
    let checkpoint_id = clock::new_id();
    let now = clock::now();
    create_at(
        store,
        files,
        context_head,
        request,
        id.as_str(),
        checkpoint_id.as_str(),
        now.as_str(),
    )
}

/// What restoring a Checkpoint in a Layer gives, before the view is put on
/// disk: the Checkpoint's tree is appended as the Layer's new head.
pub open spec fn restore_outcome(
    state: StoreState,
    files: FilesState,
    checkpoint: Text,
    layer_name: Text,
    id: Text,
    now: Text,
) -> std::result::Result<(StoreState, Layer<Text>, Checkpoint<Text>, Order), Failure> {
    match store::checkpoint_outcome(state, checkpoint) {
        Err(failure) => Err(failure),
        Ok(selected) => match store::layer_outcome(state, layer_name) {
            Err(failure) => Err(failure),
            Ok(layer) => match files::tree_outcome(files, selected.root_tree) {
                Err(failure) => Err(failure),
                Ok(tree) => match layers::append_checkpoint_outcome(
                    state,
                    layer.id,
                    selected.root_tree,
                    layer.synchronized_ref,
                    "restore"@,
                    id,
                    now,
                ) {
                    Err(failure) => Err(failure),
                    Ok((after, appended)) => Ok(
                        (
                            views::opened(after, layer.id, appended.id, now),
                            layer,
                            appended,
                            views::order_for(
                                state.root,
                                layer,
                                appended.id,
                                selected.root_tree,
                                tree,
                            ),
                        ),
                    ),
                },
            },
        },
    }
}

/// Restores a Checkpoint in a Layer, with a given identity and time.
pub fn restore_at(
    store: &mut Store,
    files: &ObjectFiles,
    checkpoint: &str,
    layer_name: &str,
    id: &str,
    now: &str,
) -> (r: Result<(Layer, Checkpoint, ViewOrder)>)
    requires
        files.wf(),
    ensures
        match restore_outcome(old(store)@, files@, checkpoint@, layer_name@, id@, now@) {
            Ok((state, layer, appended, order)) => r is Ok && r->Ok_0.0@ == layer && r->Ok_0.1@
                == appended && r->Ok_0.2@ == order && final(store)@ == state,
            Err(failure) => r is Err && r->Err_0@ == failure && final(store)@ == old(store)@,
        },
{
    let selected = store.checkpoint(checkpoint)?;
    let layer = store.layer(layer_name)?;
    let tree = files.read_tree(selected.root_tree.as_str())?;
    let appended = store.append_checkpoint_at(
        layer.id.as_str(),
        selected.root_tree.as_str(),
        layer.synchronized_ref.as_str(),
        "restore",
        id,
        now,
    )?;
    let order = views::order_view(
        store,
        &layer,
        appended.id.as_str(),
        selected.root_tree.as_str(),
        tree,
    );
    store.mark_view_at(layer.id.as_str(), appended.id.as_str(), true, "materializing", now);
    Ok((layer, appended, order))
}

/// Restores a Checkpoint in a Layer.
pub fn restore(store: &mut Store, files: &ObjectFiles, checkpoint: &str, layer_name: &str) -> (r:
    Result<(Layer, Checkpoint, ViewOrder)>)
    requires
        files.wf(),
    ensures
        exists|id: Text, now: Text|
            clock::is_stamp(now) && clock::is_fresh(id) && match #[trigger] restore_outcome(
                old(store)@,
                files@,
                checkpoint@,
                layer_name@,
                id,
                now,
            ) {
                Ok((state, layer, appended, order)) => r is Ok && r->Ok_0.0@ == layer
                    && r->Ok_0.1@ == appended && r->Ok_0.2@ == order && final(store)@ == state,
                Err(failure) => r is Err && r->Err_0@ == failure && final(store)@ == old(store)@,
            },
{
    let id = clock::new_id();
    let now = clock::now();
    restore_at(store, files, checkpoint, layer_name, id.as_str(), now.as_str())
}

/// The version of the World that is to be restored.
pub open spec fn selected_version_outcome(
    state: StoreState,
    version: Text,
    accept_failing: bool,
    reason: Option<Text>,
) -> std::result::Result<WorldVersion<Text>, Failure> {
    match store::version_outcome(state, version) {
        Err(failure) => Err(failure),
        Ok(selected) => if accept_failing && reason is None {
            Err(Failure::invalid("--accept-failing requires --reason"@))
        } else {
            Ok(selected)
        },
    }
}

/// Finds the version of the World that is to be restored.
pub fn select_version(store: &Store, version: &str, accept_failing: bool, reason: Option<&str>) -> (r:
    Result<WorldVersion>)
    ensures
        match selected_version_outcome(store@, version@, accept_failing, reason.deep_view()) {
            Ok(selected) => r is Ok && r->Ok_0@ == selected,
            Err(failure) => r is Err && r->Err_0@ == failure,
        },
{
    let selected = store.world_version(version)?;
    if accept_failing && reason.is_none() {
        return Err(JavelinError::invalid("--accept-failing requires --reason".to_owned()));
    }
    Ok(selected)
}

/// The failure of a restore that does not meet a required rule.
pub open spec fn restore_refusal(version: Text, records: Seq<ValidationRecord<Text>>) -> Failure {
    Failure {
        recovery: seq![
            "javelin world restore "@ + version + " --accept-failing --reason TEXT"@,
        ],
        ..validation::gate_failure("required World Rule rejected restore"@, records)
    }
}

/// The event of a restore.
pub open spec fn restore_payload(
    version: Text,
    previous: Text,
    accept_failing: bool,
    reason: Option<Text>,
) -> JsonValue {
    JsonValue::object().field("restored_from"@, JsonValue::Text(version)).field(
        "previous"@,
        JsonValue::Text(previous),
    ).field("accept_failing"@, JsonValue::Bool(accept_failing)).field(
        "reason"@,
        json::text_or_null(reason),
    )
}

/// What restoring a version of the World gives: a new version with its tree,
/// which stays where the runs cannot be linked to it.
pub open spec fn restore_world_outcome(
    state: StoreState,
    selected: WorldVersion<Text>,
    accept_failing: bool,
    reason: Option<Text>,
    records: Seq<ValidationRecord<Text>>,
    link_ids: Seq<Text>,
    now: Text,
) -> (StoreState, std::result::Result<WorldVersion<Text>, Failure>) {
    if tables::any(records, validation::blocks()) && !accept_failing {
        (state, Err(restore_refusal(selected.id, records)))
    } else {
        match store::current_outcome(state) {
            Err(failure) => (state, Err(failure)),
            Ok(current) => match layers::append_version_outcome(
                state,
                selected.root_tree,
                None,
                "world.restored"@,
                restore_payload(selected.id, current.id, accept_failing, reason),
                now,
            ) {
                Err(failure) => (state, Err(failure)),
                Ok((after, version)) => match layers::link_outcome(
                    after,
                    version.id,
                    validation::run_ids(records),
                    link_ids,
                ) {
                    Err(failure) => (after, Err(failure)),
                    Ok(linked) => (linked, Ok(version)),
                },
            },
        }
    }
}

/// Restores a version of the World whose rules were run, with given identities
/// and time.
pub fn restore_world_at(
    store: &mut Store,
    selected: &WorldVersion,
    accept_failing: bool,
    reason: Option<&str>,
    records: &Vec<ValidationRecord>,
    link_ids: &Vec<String>,
    now: &str,
) -> (r: Result<WorldVersion>)
    requires
        link_ids@.len() == records@.len(),
    ensures
        ({
            let outcome = restore_world_outcome(
                old(store)@,
                selected@,
                accept_failing,
                reason.deep_view(),
                records.deep_view(),
                link_ids.deep_view(),
                now@,
            );
            &&& final(store)@ == outcome.0
            &&& match outcome.1 {
                Ok(version) => r is Ok && r->Ok_0@ == version,
                Err(failure) => r is Err && r->Err_0@ == failure,
            }
        }),
{
    if validation::required_rule_failed(records) && !accept_failing {
        let mut recovery: Vec<String> = Vec::new();
        let hint = text::concat3(
            "javelin world restore ",
            selected.id.as_str(),
            " --accept-failing --reason TEXT",
        );
        let ghost line = hint@;
        recovery.push(hint);
        assert(recovery.deep_view() =~= seq![line]);
        return Err(
            JavelinError::verification("required World Rule rejected restore".to_owned()).details(
                Json::empty().with("validations", report::list(records)),
            ).recovery(recovery),
        );
    }
    let current = store.current_world()?;
    let payload = Json::empty().with("restored_from", Json::text(selected.id.as_str())).with(
        "previous",
        Json::text(current.id.as_str()),
    ).with("accept_failing", Json::Bool(accept_failing)).with(
        "reason",
        Json::option(&store::owned(reason)),
    );
    let version = store.append_world_version_at(
        selected.root_tree.as_str(),
        None,
        "world.restored",
        payload,
        now,
    )?;
    let runs = validation::ids_of_runs(records);
    store.link_version_validations_at(version.id.as_str(), &runs, link_ids)?;
    Ok(version)
}

/// Restores a version of the World whose rules were run.
pub fn restore_world(
    store: &mut Store,
    selected: &WorldVersion,
    accept_failing: bool,
    reason: Option<&str>,
    records: &Vec<ValidationRecord>,
) -> (r: Result<WorldVersion>)
    ensures
        exists|link_ids: Seq<Text>, now: Text|
            clock::is_stamp(now) && link_ids.len() == records@.len() && clock::are_fresh(link_ids)
                && {
                let outcome = #[trigger] restore_world_outcome(
                    old(store)@,
                    selected@,
                    accept_failing,
                    reason.deep_view(),
                    records.deep_view(),
                    link_ids,
                    now,
                );
                &&& final(store)@ == outcome.0
                &&& match outcome.1 {
                    Ok(version) => r is Ok && r->Ok_0@ == version,
                    Err(failure) => r is Err && r->Err_0@ == failure,
                }
            },
{
    let link_ids = clock::new_ids(records.len());
    assert(link_ids.deep_view().len() == records@.len());
    let now = clock::now();
    restore_world_at(store, selected, accept_failing, reason, records, &link_ids, now.as_str())
}

/// What the command shows and says of a restore of the World.
pub fn restore_world_report(
    from: &str,
    version: &WorldVersion,
    records: &Vec<ValidationRecord>,
    accept_failing: bool,
) -> (r: (Json, String))
    ensures
        r.0@ == JsonValue::object().field("world_version"@, WorldVersion::value(version@)).field(
            "validations"@,
            JsonValue::Array(report::values::<ValidationRecord>(records.deep_view())),
        ).field(
            "policy_override"@,
            JsonValue::Bool(
                tables::any(records.deep_view(), validation::blocks()) && accept_failing,
            ),
        ),
        r.1@ == "Restored "@ + from@ + " as "@ + version@.id,
{
    let overridden = validation::required_rule_failed(records) && accept_failing;
    let shown = Json::empty().with("world_version", version.shown()).with(
        "validations",
        report::list(records),
    ).with("policy_override", Json::Bool(overridden));
    let human = text::concat3(
        text::concat2("Restored ", from).as_str(),
        " as ",
        version.id.as_str(),
    );
    (shown, human)
}

/// Restoring a version never rewrites history: it appends one version, with the
/// tree of the restored one.
pub proof fn law_restore_appends(
    state: StoreState,
    selected: WorldVersion<Text>,
    accept_failing: bool,
    reason: Option<Text>,
    records: Seq<ValidationRecord<Text>>,
    link_ids: Seq<Text>,
    now: Text,
)
    requires
        restore_world_outcome(
            state,
            selected,
            accept_failing,
            reason,
            records,
            link_ids,
            now,
        ).1 is Ok,
    ensures
        ({
            let outcome = restore_world_outcome(
                state,
                selected,
                accept_failing,
                reason,
                records,
                link_ids,
                now,
            );
            let (after, version) = (outcome.0, outcome.1->Ok_0);
            &&& after.versions == state.versions.push(version)
            &&& version.root_tree == selected.root_tree
            &&& version.parent_version == Some(state.current()->Some_0.id)
            &&& after.world == Some(
                crate::records::World { current_version: version.id, ..state.world->Some_0 },
            )
            &&& after.layers == state.layers
            &&& after.checkpoints == state.checkpoints
            &&& after.contributions == state.contributions
        }),
{
}

/// A restore that a required rule rejects needs to be told to go on.
pub proof fn law_restore_needs_override(
    state: StoreState,
    selected: WorldVersion<Text>,
    reason: Option<Text>,
    records: Seq<ValidationRecord<Text>>,
    link_ids: Seq<Text>,
    now: Text,
)
    requires
        tables::any(records, validation::blocks()),
    ensures
        restore_world_outcome(state, selected, false, reason, records, link_ids, now) == (
            state,
            Err::<WorldVersion<Text>, Failure>(restore_refusal(selected.id, records)),
        ),
{
}

/// Restoring a Checkpoint in a Layer never rewrites the Layer's history: it
/// appends one Checkpoint with the tree of the restored one.
pub proof fn law_layer_restore_appends(
    state: StoreState,
    files: FilesState,
    checkpoint: Text,
    layer_name: Text,
    id: Text,
    now: Text,
)
    requires
        restore_outcome(state, files, checkpoint, layer_name, id, now) is Ok,
    ensures
        ({
            let (after, layer, appended, _) = restore_outcome(
                state,
                files,
                checkpoint,
                layer_name,
                id,
                now,
            )->Ok_0;
            &&& after.checkpoints == state.checkpoints.push(appended)
            &&& appended.root_tree == state.checkpoint(checkpoint)->Some_0.root_tree
            &&& after.versions == state.versions
            &&& after.world == state.world
        }),
{
}

/// A Layer that is made without a word on where to begin holds what the view
/// holds in which it is made, and is synchronized with its target as that
/// stands. One that is told where to begin holds that state and is synchronized
/// with it.
pub proof fn law_new_layer_begins_where_told(
    state: StoreState,
    files: FilesState,
    context_head: Text,
    name: Text,
    from: Option<Text>,
    target: Text,
)
    requires
        new_layer_outcome(state, files, context_head, name, from, target) is Ok,
    ensures
        ({
            let (new, tree) = new_layer_outcome(
                state,
                files,
                context_head,
                name,
                from,
                target,
            )->Ok_0;
            let origin = views::tree_for_ref_outcome(
                state,
                files,
                if from is Some {
                    from->Some_0
                } else {
                    context_head
                },
            )->Ok_0;
            &&& new.name == name
            &&& new.origin_ref == origin.0
            &&& new.root_tree == origin.1
            &&& tree == origin.2
            &&& from is Some ==> new.synchronized_ref == origin.0
            &&& from is None && target == "world"@ ==> new.synchronized_ref
                == state.world->Some_0.current_version
            &&& target == "world"@ ==> new.target_kind == "world"@ && new.target_id is None
            &&& target != "world"@ ==> {
                let parent = state.layer(target.skip(6))->Some_0;
                &&& text::has_prefix(target, "layer:"@)
                &&& new.target_kind == "layer"@
                &&& new.target_id == Some(parent.id)
                &&& from is None ==> new.synchronized_ref == parent.head_checkpoint
            }
        }),
{
    if state.world is Some {
        tables::lemma_first(
            state.versions,
            crate::records::version_is(state.world->Some_0.current_version),
        );
    }
    if let Some(parent) = state.layer(target.skip(6)) {
        tables::lemma_first(
            state.checkpoints,
            crate::records::checkpoint_is(parent.head_checkpoint),
        );
    }
}

/// A required rule whose run ended with any exit code but 0 stops a restore of
/// the World, with the exit code of a failed verification and nothing changed,
/// unless the restore was told to accept that; and to accept it, a reason has to
/// be given.
pub proof fn law_failed_run_stops_a_restore(
    state: StoreState,
    selected: WorldVersion<Text>,
    reason: Option<Text>,
    records: Seq<ValidationRecord<Text>>,
    link_ids: Seq<Text>,
    now: Text,
    i: int,
    version: Text,
)
    requires
        0 <= i < records.len(),
        records[i].required,
        records[i].exit_code != 0,
    ensures
        restore_world_outcome(state, selected, false, reason, records, link_ids, now).0 == state,
        restore_world_outcome(state, selected, false, reason, records, link_ids, now).1 is Err,
        restore_world_outcome(
            state,
            selected,
            false,
            reason,
            records,
            link_ids,
            now,
        ).1->Err_0.exit_code == 5,
        selected_version_outcome(state, version, true, None) is Err,
{
    validation::law_required_rules_ask_for_success(records);
}

/// A restore that goes on in spite of a failed rule is told in the stream of
/// events, with the reason that was given; one whose rules all pass goes on by
/// itself.
pub proof fn law_restore_is_told(
    state: StoreState,
    selected: WorldVersion<Text>,
    accept_failing: bool,
    reason: Option<Text>,
    records: Seq<ValidationRecord<Text>>,
    link_ids: Seq<Text>,
    now: Text,
)
    requires
        accept_failing || forall|i: int|
            0 <= i < records.len() ==> !(#[trigger] records[i]).required || records[i].exit_code
                == 0,
        restore_world_outcome(
            state,
            selected,
            accept_failing,
            reason,
            records,
            link_ids,
            now,
        ).1 is Ok,
    ensures
        ({
            let after = restore_world_outcome(
                state,
                selected,
                accept_failing,
                reason,
                records,
                link_ids,
                now,
            ).0;
            let event = after.events.last();
            &&& event.event_type == "world.restored"@
            &&& event.payload == JsonValue::object().field(
                "restored_from"@,
                JsonValue::Text(selected.id),
            ).field("previous"@, JsonValue::Text(state.current()->Some_0.id)).field(
                "accept_failing"@,
                JsonValue::Bool(accept_failing),
            ).field(
                "reason"@,
                match reason {
                    Some(given) => JsonValue::Text(given),
                    None => JsonValue::Null,
                },
            )
            &&& after.version_validations.len() == state.version_validations.len() + records.len()
        }),
{
}

/// A Checkpoint that is restored in a Layer leaves the Layer synchronized with
/// what it was, and is the Layer's head.
pub proof fn law_restore_stays_synchronized(
    state: StoreState,
    files: FilesState,
    checkpoint: Text,
    layer_name: Text,
    id: Text,
    now: Text,
)
    requires
        restore_outcome(state, files, checkpoint, layer_name, id, now) is Ok,
    ensures
        ({
            let (_, layer, appended, order) = restore_outcome(
                state,
                files,
                checkpoint,
                layer_name,
                id,
                now,
            )->Ok_0;
            &&& appended.synchronized_ref == layer.synchronized_ref
            &&& appended.reason == "restore"@
            &&& appended.id == id
            &&& order.root_tree == state.checkpoint(checkpoint)->Some_0.root_tree
            &&& order.destination == layer.view_path
            &&& files::tree_outcome(files, order.root_tree) == Ok::<Seq<TreeEntry<Text>>, Failure>(
                order.tree,
            )
        }),
{
}

/// The view of a named Layer stands among the views of the World's metadata,
/// under the Layer's name.
pub proof fn law_view_stands_under_its_name(metadata: Text, name: Text)
    requires
        metadata.len() > 0,
        metadata.last() != '/',
    ensures
        view_place(metadata, name) == metadata + "/views/"@ + name,
{
    reveal_strlit("/");
    reveal_strlit("views");
    reveal_strlit("/views/");
    let views = paths::joined_path(metadata, "views"@);
    assert(views.last() == 's');
    assert(view_place(metadata, name) =~= metadata + "/views/"@ + name);
}

/// What is owed: a Layer wherever its target and its beginning are known and
/// nothing stands against it, a restored Checkpoint wherever its tree can be read
/// and the Layer takes it, and a version to restore wherever it is known.
pub proof fn law_layers_and_restores_are_owed(
    state: StoreState,
    files: FilesState,
    context_head: Text,
    name: Text,
    from: Option<Text>,
    target: Text,
    version: Text,
    accept_failing: bool,
    reason: Option<Text>,
)
    ensures
        new_layer_outcome(state, files, context_head, name, from, target) is Ok
            <==> layer_target_outcome(state, target) is Ok && views::tree_for_ref_outcome(
            state,
            files,
            if from is Some {
                from->Some_0
            } else {
                context_head
            },
        ) is Ok,
        target == "world"@ && state.current() is Some ==> layer_target_outcome(state, target)
            is Ok,
        target != "world"@ && text::has_prefix(target, "layer:"@) && state.layer(target.skip(6))
            is Some && state.checkpoint(state.layer(target.skip(6))->Some_0.head_checkpoint)
            is Some ==> layer_target_outcome(state, target) is Ok,
        target != "world"@ && !text::has_prefix(target, "layer:"@) ==> layer_target_outcome(
            state,
            target,
        ) is Err && layer_target_outcome(state, target)->Err_0.exit_code == 2,
        selected_version_outcome(state, version, accept_failing, reason) is Ok
            <==> state.version(version) is Some && (accept_failing ==> reason is Some),
        selected_version_outcome(state, version, accept_failing, reason) matches Ok(selected)
            ==> state.version(version) == Some(selected),
{
}

/// A Layer that is made is the last one of the store, has the name and the
/// identity given to it, and its view is to hold the tree that its first
/// Checkpoint holds. Nothing that was there changes.
pub proof fn law_made_layer_is_added(
    state: StoreState,
    files: FilesState,
    context_head: Text,
    name: Text,
    from: Option<Text>,
    target: Text,
    id: Text,
    checkpoint_id: Text,
    now: Text,
)
    requires
        create_outcome(state, files, context_head, name, from, target, id, checkpoint_id, now) is Ok,
    ensures
        ({
            let (after, layer, order) = create_outcome(
                state,
                files,
                context_head,
                name,
                from,
                target,
                id,
                checkpoint_id,
                now,
            )->Ok_0;
            let first = after.checkpoints.last();
            &&& after.layers == state.layers.push(layer)
            &&& after.checkpoints.drop_last() == state.checkpoints
            &&& after.versions == state.versions
            &&& after.world == state.world
            &&& layer.id == id
            &&& layer.name == name
            &&& layer.status == crate::model::LayerStatus::Active
            &&& layer.head_checkpoint == checkpoint_id
            &&& layer.created_at == now
            &&& first.id == checkpoint_id
            &&& first.layer_id == id
            &&& order.layer_id == id
            &&& order.checkpoint_id == checkpoint_id
            &&& order.root_tree == first.root_tree
            &&& order.destination == layer.view_path
            &&& order.marker is Some
            &&& order.marker->Some_0.layer_id == id
        }),
{
}

/// A restore of the World is refused for no other reason than a required rule
/// that failed: where all of them passed, or that was accepted, it appends its
/// version to the current one wherever that can be done.
pub proof fn law_passed_restore_goes_on(
    state: StoreState,
    selected: WorldVersion<Text>,
    accept_failing: bool,
    reason: Option<Text>,
    records: Seq<ValidationRecord<Text>>,
    link_ids: Seq<Text>,
    now: Text,
)
    requires
        accept_failing || forall|i: int|
            0 <= i < records.len() && (#[trigger] records[i]).required ==> records[i].exit_code == 0,
        store::current_outcome(state) is Ok,
        layers::append_version_outcome(
            state,
            selected.root_tree,
            None,
            "world.restored"@,
            restore_payload(
                selected.id,
                store::current_outcome(state)->Ok_0.id,
                accept_failing,
                reason,
            ),
            now,
        ) is Ok,
    ensures
        ({
            let (appended, version) = layers::append_version_outcome(
                state,
                selected.root_tree,
                None,
                "world.restored"@,
                restore_payload(
                    selected.id,
                    store::current_outcome(state)->Ok_0.id,
                    accept_failing,
                    reason,
                ),
                now,
            )->Ok_0;
            let (after, told) = restore_world_outcome(
                state,
                selected,
                accept_failing,
                reason,
                records,
                link_ids,
                now,
            );
            &&& told is Ok ==> told->Ok_0 == version
            &&& told is Err ==> after == appended
            &&& told is Ok <==> layers::link_outcome(
                appended,
                version.id,
                validation::run_ids(records),
                link_ids,
            ) is Ok
        }),
{
    validation::law_required_rules_ask_for_success(records);
}

} // verus!
