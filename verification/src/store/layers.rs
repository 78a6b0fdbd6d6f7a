//! Worlds, Layers, Checkpoints and views: the steps that create and move them.
use vstd::prelude::*;
use crate::clock;
use crate::error;
use crate::error::{Failure, JavelinError, Result};
use crate::json;
use crate::json::{Json, JsonValue};
use crate::model::{Checkpoint, Layer, LayerStatus, TargetKind, WorldVersion};
use crate::objects::ObjectKind;
use crate::records;
use crate::records::{
    DiscardRecord,
    ObjectRecord,
    ValidationLink,
    ValidationRecord,
    ViewRecord,
    World,
};
use crate::store;
use crate::store::rows;
use crate::store::{Store, StoreState};
use crate::tables;
use crate::text;
use crate::text::Text;

verus! {

/// What a new Layer is made from.
#[derive(Debug)]
pub struct NewLayer<S> {
    pub name: S,
    pub origin_ref: S,
    pub synchronized_ref: S,
    pub root_tree: S,
    pub target_kind: S,
    pub target_id: Option<S>,
    pub view_path: S,
}

impl<'a> DeepView for NewLayer<&'a str> {
    type V = NewLayer<Text>;

    open spec fn deep_view(&self) -> NewLayer<Text> {
        NewLayer {
            name: self.name@,
            origin_ref: self.origin_ref@,
            synchronized_ref: self.synchronized_ref@,
            root_tree: self.root_tree@,
            target_kind: self.target_kind@,
            target_id: self.target_id.deep_view(),
            view_path: self.view_path@,
        }
    }
}

/// The World with its first version, the Local Layer and its view.
pub open spec fn initialized_world(
    state: StoreState,
    root_tree: Text,
    project_id: Text,
    checkpoint_id: Text,
    now: Text,
) -> StoreState {
    let started = StoreState {
        world: Some(World { id: project_id, current_version: "v1"@, created_at: now }),
        versions: state.versions.push(
            WorldVersion {
                id: "v1"@,
                sequence: 1,
                parent_version: None,
                root_tree,
                accepted_contribution: None,
                created_at: now,
            },
        ),
        layers: state.layers.push(
            Layer {
                id: "local"@,
                name: "local"@,
                origin_ref: "v1"@,
                synchronized_ref: "v1"@,
                head_checkpoint: checkpoint_id,
                target_kind: TargetKind::World,
                target_id: None,
                status: LayerStatus::Active,
                view_path: state.root,
                created_at: now,
            },
        ),
        checkpoints: state.checkpoints.push(
            Checkpoint {
                id: checkpoint_id,
                layer_id: "local"@,
                sequence: 1,
                previous_checkpoint: None,
                root_tree,
                synchronized_ref: "v1"@,
                reason: "init"@,
                created_at: now,
            },
        ),
        views: state.views.push(
            ViewRecord {
                layer_id: "local"@,
                path: state.root,
                materialized_ref: checkpoint_id,
                stale: false,
                backend: "existing"@,
                updated_at: now,
            },
        ),
        ..state
    };
    started.with_event(
        "world.initialized"@,
        Some("world"@),
        Some("v1"@),
        JsonValue::object().field("root_tree"@, JsonValue::Text(root_tree)),
        now,
    )
}

/// The store after a World is made where there is none.
pub open spec fn initialize_step(
    state: StoreState,
    root_tree: Text,
    project_id: Text,
    checkpoint_id: Text,
    now: Text,
) -> StoreState {
    if state.world is Some {
        state
    } else {
        initialized_world(state, root_tree, project_id, checkpoint_id, now)
    }
}

/// A name that a Layer may have.
pub open spec fn valid_layer_name(name: Text) -> bool {
    name != "local"@ && text::trimmed(name).len() > 0 && !name.contains('/') && !name.contains('\\')
        && !name.contains('\0')
}

/// What the store asks of the kind of a target.
pub const KIND_CHECK: &'static str = "target_kind IN ('world', 'layer')";

/// What the store asks of a target: the World has no identity, a Layer has one.
pub const TARGET_CHECK: &'static str = "(target_kind = 'world' AND target_id IS NULL) OR
                  (target_kind = 'layer' AND target_id IS NOT NULL)";

/// Why a Layer cannot be created, if it cannot.
pub open spec fn create_failure(state: StoreState, new: NewLayer<Text>) -> Option<Failure> {
    if !valid_layer_name(new.name) {
        Some(Failure::invalid("invalid Private Layer name"@))
    } else if tables::any(state.layers, records::layer_name_is(new.name)) {
        Some(Failure::invalid("Private Layer "@ + new.name + " already exists"@))
    } else if new.target_kind != "world"@ && new.target_kind != "layer"@ {
        Some(Failure::invalid("cannot create Layer: CHECK constraint failed: "@ + KIND_CHECK@))
    } else if (new.target_kind == "layer"@) != (new.target_id is Some) {
        Some(Failure::invalid("cannot create Layer: CHECK constraint failed: "@ + TARGET_CHECK@))
    } else if tables::any(state.layers, records::layer_view_is(new.view_path)) {
        Some(
            Failure::invalid("cannot create Layer: UNIQUE constraint failed: layers.view_path"@),
        )
    } else if new.target_id is Some && !tables::any(
        state.layers,
        records::layer_is(new.target_id->Some_0),
    ) {
        Some(Failure::invalid("cannot create Layer: FOREIGN KEY constraint failed"@))
    } else {
        None
    }
}

/// The kind with a name that passed [`create_failure`].
pub open spec fn kind_named(name: Text) -> TargetKind {
    if name == "world"@ {
        TargetKind::World
    } else {
        TargetKind::Layer
    }
}

/// The row of a new Layer.
pub open spec fn new_layer_row(
    new: NewLayer<Text>,
    id: Text,
    checkpoint_id: Text,
    now: Text,
) -> Layer<Text> {
    Layer {
        id,
        name: new.name,
        origin_ref: new.origin_ref,
        synchronized_ref: new.synchronized_ref,
        head_checkpoint: checkpoint_id,
        target_kind: kind_named(new.target_kind),
        target_id: new.target_id,
        status: LayerStatus::Active,
        view_path: new.view_path,
        created_at: now,
    }
}

/// The store with a new Layer, its first Checkpoint and its view.
pub open spec fn created_layer(
    state: StoreState,
    new: NewLayer<Text>,
    id: Text,
    checkpoint_id: Text,
    now: Text,
) -> StoreState {
    let created = StoreState {
        layers: state.layers.push(new_layer_row(new, id, checkpoint_id, now)),
        checkpoints: state.checkpoints.push(
            Checkpoint {
                id: checkpoint_id,
                layer_id: id,
                sequence: 1,
                previous_checkpoint: None,
                root_tree: new.root_tree,
                synchronized_ref: new.synchronized_ref,
                reason: "create"@,
                created_at: now,
            },
        ),
        views: state.views.push(
            ViewRecord {
                layer_id: id,
                path: new.view_path,
                materialized_ref: checkpoint_id,
                stale: false,
                backend: "pending"@,
                updated_at: now,
            },
        ),
        ..state
    };
    created.with_event(
        "layer.created"@,
        Some("layer"@),
        Some(id),
        JsonValue::object().field("name"@, JsonValue::Text(new.name)).field(
            "origin_ref"@,
            JsonValue::Text(new.origin_ref),
        ).field("target_kind"@, JsonValue::Text(new.target_kind)).field(
            "target_id"@,
            json::text_or_null(new.target_id),
        ),
        now,
    )
}

/// The Layer with another head and Synchronized Reference.
pub open spec fn layer_moved(
    layers: Seq<Layer<Text>>,
    id: Text,
    head: Text,
    synchronized_ref: Text,
) -> Seq<Layer<Text>> {
    match tables::first(layers, records::layer_is(id)) {
        Some(i) => layers.update(
            i,
            Layer { head_checkpoint: head, synchronized_ref, ..layers[i] },
        ),
        None => layers,
    }
}

/// The view of a Layer at another state.
pub open spec fn view_moved(
    views: Seq<ViewRecord<Text>>,
    layer_id: Text,
    head: Text,
    now: Text,
) -> Seq<ViewRecord<Text>> {
    match tables::first(views, records::view_is(layer_id)) {
        Some(i) => views.update(
            i,
            ViewRecord { materialized_ref: head, stale: false, updated_at: now, ..views[i] },
        ),
        None => views,
    }
}

/// The Checkpoint that follows a head.
pub open spec fn next_checkpoint(
    layer_id: Text,
    head: Checkpoint<Text>,
    root_tree: Text,
    synchronized_ref: Text,
    reason: Text,
    id: Text,
    now: Text,
) -> Checkpoint<Text> {
    Checkpoint {
        id,
        layer_id,
        sequence: store::next_number(head.sequence),
        previous_checkpoint: Some(head.id),
        root_tree,
        synchronized_ref,
        reason,
        created_at: now,
    }
}

/// Why a Checkpoint cannot be recorded: a Layer has each number once, and an
/// identity stands for one Checkpoint.
pub open spec fn checkpoint_refusal(
    state: StoreState,
    row: Checkpoint<Text>,
    message: Text,
) -> Option<Failure> {
    if tables::any(state.checkpoints, records::checkpoint_numbered(row.layer_id, row.sequence)) {
        Some(
            store::not_unique(
                message,
                "layer_checkpoints.layer_id, layer_checkpoints.sequence"@,
            ),
        )
    } else if state.checkpoint(row.id) is Some {
        Some(store::not_unique(message, "layer_checkpoints.id"@))
    } else {
        None
    }
}

/// Why a version cannot be recorded: the World has each number and each name
/// once, and a version follows one that is known.
pub open spec fn version_refusal(
    state: StoreState,
    row: WorldVersion<Text>,
    message: Text,
) -> Option<Failure> {
    if tables::any(state.versions, records::version_numbered(row.sequence)) {
        Some(store::not_unique(message, "versions.sequence"@))
    } else if state.version(row.id) is Some {
        Some(store::not_unique(message, "versions.id"@))
    } else if row.parent_version is Some && state.version(row.parent_version->Some_0) is None {
        Some(store::no_reference(message))
    } else {
        None
    }
}

/// The store after a Checkpoint is appended to a Layer.
pub open spec fn appended_checkpoint(
    state: StoreState,
    layer: Layer<Text>,
    head: Checkpoint<Text>,
    root_tree: Text,
    synchronized_ref: Text,
    reason: Text,
    id: Text,
    now: Text,
) -> StoreState {
    let appended = StoreState {
        checkpoints: state.checkpoints.push(
            next_checkpoint(layer.id, head, root_tree, synchronized_ref, reason, id, now),
        ),
        layers: layer_moved(state.layers, layer.id, id, synchronized_ref),
        views: view_moved(state.views, layer.id, id, now),
        checkpoint_provenance: state.checkpoint_provenance + rows::session_links(
            state.sessions,
            id,
            layer.id,
            true,
        ),
        ..state
    };
    appended.with_event(
        "checkpoint.created"@,
        Some("layer"@),
        Some(layer.id),
        JsonValue::object().field("checkpoint_id"@, JsonValue::Text(id)).field(
            "root_tree"@,
            JsonValue::Text(root_tree),
        ).field("reason"@, JsonValue::Text(reason)),
        now,
    )
}

/// What appending a Checkpoint gives. A Checkpoint that would repeat the head
/// is not appended, unless it restores.
pub open spec fn append_checkpoint_outcome(
    state: StoreState,
    layer_id: Text,
    root_tree: Text,
    synchronized_ref: Text,
    reason: Text,
    id: Text,
    now: Text,
) -> std::result::Result<(StoreState, Checkpoint<Text>), Failure> {
    match store::layer_outcome(state, layer_id) {
        Err(failure) => Err(failure),
        Ok(layer) => match store::checkpoint_outcome(state, layer.head_checkpoint) {
            Err(failure) => Err(failure),
            Ok(head) => if head.root_tree == root_tree && head.synchronized_ref == synchronized_ref
                && reason != "restore"@ {
                Ok((state, head))
            } else {
                let row = next_checkpoint(
                    layer.id,
                    head,
                    root_tree,
                    synchronized_ref,
                    reason,
                    id,
                    now,
                );
                match checkpoint_refusal(state, row, "cannot append Layer Checkpoint"@) {
                    Some(failure) => Err(failure),
                    None => Ok(
                        (
                            appended_checkpoint(
                                state,
                                layer,
                                head,
                                root_tree,
                                synchronized_ref,
                                reason,
                                id,
                                now,
                            ),
                            row,
                        ),
                    ),
                }
            },
        },
    }
}

/// The version that follows another.
pub open spec fn next_version(
    current: WorldVersion<Text>,
    root_tree: Text,
    contribution_id: Option<Text>,
    now: Text,
) -> WorldVersion<Text> {
    let sequence = store::next_number(current.sequence);
    WorldVersion {
        id: "v"@ + text::decimal_int(sequence as int),
        sequence,
        parent_version: Some(current.id),
        root_tree,
        accepted_contribution: contribution_id,
        created_at: now,
    }
}

/// The store after a version is appended to the World.
pub open spec fn append_version_outcome(
    state: StoreState,
    root_tree: Text,
    contribution_id: Option<Text>,
    event_type: Text,
    payload: JsonValue,
    now: Text,
) -> std::result::Result<(StoreState, WorldVersion<Text>), Failure> {
    match store::current_outcome(state) {
        Err(failure) => Err(failure),
        Ok(current) => {
            let version = next_version(current, root_tree, contribution_id, now);
            match version_refusal(state, version, "cannot append World Version"@) {
                Some(failure) => Err(failure),
                None => {
                    let appended = StoreState {
                        versions: state.versions.push(version),
                        world: Some(World { current_version: version.id, ..state.world->Some_0 }),
                        views: tables::changed(
                            state.views,
                            rows::stale_views_change("local"@, now),
                        ),
                        ..state
                    };
                    Ok(
                        (
                            appended.with_event(
                                event_type,
                                Some("world"@),
                                Some(version.id),
                                payload,
                                now,
                            ),
                            version,
                        ),
                    )
                },
            }
        },
    }
}

/// The view of a Layer, marked.
pub open spec fn marked_view(
    state: StoreState,
    layer_id: Text,
    state_ref: Text,
    stale: bool,
    backend: Text,
    now: Text,
) -> StoreState {
    match tables::first(state.views, records::view_is(layer_id)) {
        Some(i) => StoreState {
            views: state.views.update(
                i,
                ViewRecord {
                    materialized_ref: state_ref,
                    stale,
                    backend,
                    updated_at: now,
                    ..state.views[i]
                },
            ),
            ..state
        },
        None => state,
    }
}

/// A Layer with another status.
pub open spec fn with_status(state: StoreState, layer_id: Text, status: LayerStatus) -> StoreState {
    match tables::first(state.layers, records::layer_is(layer_id)) {
        Some(i) => StoreState {
            layers: state.layers.update(i, Layer { status, ..state.layers[i] }),
            ..state
        },
        None => state,
    }
}

/// The store after a Layer gets another target.
pub open spec fn reparent_outcome(
    state: StoreState,
    layer_id: Text,
    target_kind: Text,
    target_id: Option<Text>,
    now: Text,
) -> std::result::Result<StoreState, Failure> {
    if target_kind != "world"@ && target_kind != "layer"@ {
        Err(Failure::invalid("reparent target must be World or Private Layer"@))
    } else if target_kind == "layer"@ && target_id == Some(layer_id) {
        Err(Failure::policy("Private Layer cannot target itself"@))
    } else {
        match tables::first(state.layers, records::layer_is(layer_id)) {
            None => Err(Failure::invalid("unknown Private Layer"@)),
            Some(i) => if (target_kind == "layer"@) != (target_id is Some) {
                Err(
                    error::caused(
                        7,
                        "STORE_WRITE"@,
                        "cannot reparent Private Layer"@,
                        "CHECK constraint failed: "@ + TARGET_CHECK@,
                    ),
                )
            } else if target_id is Some && !tables::any(
                state.layers,
                records::layer_is(target_id->Some_0),
            ) {
                Err(store::no_reference("cannot reparent Private Layer"@))
            } else {
                Ok(
                    StoreState {
                        layers: state.layers.update(
                            i,
                            Layer {
                                target_kind: kind_named(target_kind),
                                target_id,
                                ..state.layers[i]
                            },
                        ),
                        ..state
                    }.with_event(
                        "layer.reparented"@,
                        Some("layer"@),
                        Some(layer_id),
                        JsonValue::object().field(
                            "target_kind"@,
                            JsonValue::Text(target_kind),
                        ).field("target_id"@, json::text_or_null(target_id)),
                        now,
                    ),
                )
            },
        }
    }
}

/// The retention of a discarded Layer, set anew where there was one.
pub open spec fn retained(
    discards: Seq<DiscardRecord<Text>>,
    record: DiscardRecord<Text>,
) -> Seq<DiscardRecord<Text>> {
    match tables::first(discards, records::discard_is(record.layer_id)) {
        Some(i) => discards.update(i, record),
        None => discards.push(record),
    }
}

/// The store after a Layer is discarded.
pub open spec fn discarded_layer(
    state: StoreState,
    layer_id: Text,
    purge_after: Text,
    now: Text,
) -> StoreState {
    let marked = with_status(state, layer_id, LayerStatus::Discarded);
    StoreState {
        discards: retained(
            marked.discards,
            DiscardRecord { layer_id, discarded_at: now, purge_after },
        ),
        ..marked
    }.with_event(
        "layer.discarded"@,
        Some("layer"@),
        Some(layer_id),
        JsonValue::object().field("purge_after"@, JsonValue::Text(purge_after)),
        now,
    )
}

/// What discarding a Layer gives.
pub open spec fn record_discard_outcome(
    state: StoreState,
    layer_id: Text,
    purge_after: Text,
    now: Text,
) -> std::result::Result<StoreState, Failure> {
    if !tables::any(state.layers, records::layer_is(layer_id)) {
        Err(store::no_reference("cannot record Discard retention"@))
    } else {
        Ok(discarded_layer(state, layer_id, purge_after, now))
    }
}

/// The store after a discarded Layer is recovered.
pub open spec fn recovered_layer(state: StoreState, layer_id: Text, now: Text) -> StoreState {
    let revived = match tables::find(state.layers, records::layer_is(layer_id)) {
        Some(layer) => if layer.status == LayerStatus::Discarded {
            with_status(state, layer_id, LayerStatus::Active)
        } else {
            state
        },
        None => state,
    };
    StoreState {
        discards: tables::kept(revived.discards, rows::not_layer_discard(layer_id)),
        ..revived
    }.with_event(
        "layer.recovered"@,
        Some("layer"@),
        Some(layer_id),
        JsonValue::object(),
        now,
    )
}

/// The store without a Layer and all that is the Layer's alone. What was
/// accepted from it stays, without naming it.
pub open spec fn purged_layer(state: StoreState, layer_id: Text) -> StoreState {
    StoreState {
        sessions: tables::changed(state.sessions, rows::detach_sessions_change(layer_id)),
        provenance_events: tables::changed(
            state.provenance_events,
            rows::detach_events_change(layer_id),
        ),
        contributions: tables::changed(
            state.contributions,
            rows::detach_contribution(state.checkpoints, layer_id),
        ),
        checkpoint_provenance: tables::kept(
            state.checkpoint_provenance,
            rows::link_stays(state.checkpoints, layer_id),
        ),
        checkpoints: tables::kept(state.checkpoints, rows::not_layer_checkpoints(layer_id)),
        conflicts: tables::kept(state.conflicts, rows::not_layer_conflicts(layer_id)),
        claims: tables::kept(state.claims, rows::not_layer_claims(layer_id)),
        views: tables::kept(state.views, rows::not_layer_view(layer_id)),
        discards: tables::kept(state.discards, rows::not_layer_discard(layer_id)),
        layers: tables::kept(state.layers, rows::not_layer(layer_id)),
        ..state
    }
}

/// What purging a Layer gives.
pub open spec fn purge_outcome(state: StoreState, name_or_id: Text) -> std::result::Result<
    StoreState,
    Failure,
> {
    match store::layer_outcome(state, name_or_id) {
        Err(failure) => Err(failure),
        Ok(layer) => if layer.id == "local"@ || layer.status != LayerStatus::Discarded {
            Err(Failure::policy("only an exact discarded named Layer can be purged"@))
        } else if tables::any(state.layers, store::child_of(layer.id, true)) {
            Err(Failure::policy("cannot purge a Layer with retained child Layers"@))
        } else {
            Ok(purged_layer(state, layer.id))
        },
    }
}

/// The kind of an object, as it is recorded.
pub open spec fn kind_text(kind: ObjectKind) -> Text {
    match kind {
        ObjectKind::Blob => "blob"@,
        ObjectKind::Tree => "tree"@,
    }
}

pub fn object_kind_text(kind: ObjectKind) -> (r: &'static str)
    ensures
        r@ == kind_text(kind),
{
    match kind {
        ObjectKind::Blob => "blob",
        ObjectKind::Tree => "tree",
    }
}

/// The object, recorded unless it was already.
pub open spec fn registered(
    objects: Seq<ObjectRecord<Text>>,
    id: Text,
    kind: ObjectKind,
    size: u64,
    now: Text,
) -> Seq<ObjectRecord<Text>> {
    if tables::any(objects, records::object_is(id)) {
        objects
    } else {
        objects.push(
            ObjectRecord {
                id,
                kind: kind_text(kind),
                uncompressed_size: size as i64,
                created_at: now,
            },
        )
    }
}

/// The objects, each recorded unless it was already.
pub open spec fn all_registered(
    objects: Seq<ObjectRecord<Text>>,
    new: Seq<(Text, ObjectKind, u64)>,
    now: Text,
) -> Seq<ObjectRecord<Text>>
    decreases new.len(),
{
    if new.len() == 0 {
        objects
    } else {
        registered(
            all_registered(objects, new.drop_last(), now),
            new.last().0,
            new.last().1,
            new.last().2,
            now,
        )
    }
}

/// The objects of a list.
pub open spec fn object_list(objects: Seq<(String, ObjectKind, u64)>) -> Seq<
    (Text, ObjectKind, u64),
> {
    Seq::new(objects.len(), |i: int| (objects[i].0@, objects[i].1, objects[i].2))
}

/// A link of a version to each of the validation runs.
pub open spec fn run_links(owner: Text, ids: Seq<Text>, runs: Seq<Text>) -> Seq<
    ValidationLink<Text>,
> {
    Seq::new(runs.len(), |i: int| ValidationLink { id: ids[i], owner, run: runs[i] })
}

/// Every one of the runs is recorded.
pub open spec fn runs_known(state: StoreState, runs: Seq<Text>) -> bool {
    forall|i: int|
        0 <= i < runs.len() ==> tables::any(
            state.validation_runs,
            records::run_is(#[trigger] runs[i]),
        )
}

/// What linking validation runs to a World Version gives: all of them or none.
pub open spec fn link_outcome(
    state: StoreState,
    version_id: Text,
    runs: Seq<Text>,
    ids: Seq<Text>,
) -> std::result::Result<StoreState, Failure> {
    if runs.len() > 0 && !(tables::any(state.versions, records::version_is(version_id))
        && runs_known(state, runs)) {
        Err(store::no_reference("cannot link World Version validation"@))
    } else {
        Ok(
            StoreState {
                version_validations: state.version_validations + run_links(version_id, ids, runs),
                ..state
            },
        )
    }
}

/// What recording a run of a World Rule gives.
pub open spec fn record_validation_outcome(
    state: StoreState,
    record: ValidationRecord<Text>,
) -> std::result::Result<StoreState, Failure> {
    if tables::any(state.validation_runs, records::run_is(record.id)) {
        Err(store::not_unique("cannot record validation"@, "validation_runs.id"@))
    } else {
        Ok(StoreState { validation_runs: state.validation_runs.push(record), ..state })
    }
}

/// A discarded Layer whose retention is over.
pub open spec fn retention_over(cutoff: Text) -> spec_fn(DiscardRecord<Text>) -> bool {
    |row: DiscardRecord<Text>| !text::text_less(cutoff, row.purge_after)
}

impl Store {
    /// Makes the World, unless there is one, with given identities and time.
    pub fn initialize_world_at(
        &mut self,
        root_tree: &str,
        project_id: &str,
        checkpoint_id: &str,
        now: &str,
    ) -> (r: Result<(WorldVersion, Layer)>)
        ensures
            final(self)@ == initialize_step(
                old(self)@,
                root_tree@,
                project_id@,
                checkpoint_id@,
                now@,
            ),
            match (
                store::current_outcome(final(self)@),
                store::layer_outcome(final(self)@, "local"@),
            ) {
                (Ok(version), Ok(layer)) => r is Ok && r->Ok_0.0@ == version && r->Ok_0.1@ == layer,
                (Err(failure), _) => r is Err && r->Err_0@ == failure,
                (_, Err(failure)) => r is Err && r->Err_0@ == failure,
            },
    {
        if self.world.is_none() {
            let ghost before = self@;
            self.world = Some(
                World {
                    id: project_id.to_owned(),
                    current_version: "v1".to_owned(),
                    created_at: now.to_owned(),
                },
            );
            self.versions.push(
                WorldVersion {
                    id: "v1".to_owned(),
                    sequence: 1,
                    parent_version: None,
                    root_tree: root_tree.to_owned(),
                    accepted_contribution: None,
                    created_at: now.to_owned(),
                },
            );
            self.layers.push(
                Layer {
                    id: "local".to_owned(),
                    name: "local".to_owned(),
                    origin_ref: "v1".to_owned(),
                    synchronized_ref: "v1".to_owned(),
                    head_checkpoint: checkpoint_id.to_owned(),
                    target_kind: TargetKind::World,
                    target_id: None,
                    status: LayerStatus::Active,
                    view_path: self.root.clone(),
                    created_at: now.to_owned(),
                },
            );
            self.checkpoints.push(
                Checkpoint {
                    id: checkpoint_id.to_owned(),
                    layer_id: "local".to_owned(),
                    sequence: 1,
                    previous_checkpoint: None,
                    root_tree: root_tree.to_owned(),
                    synchronized_ref: "v1".to_owned(),
                    reason: "init".to_owned(),
                    created_at: now.to_owned(),
                },
            );
            self.views.push(
                ViewRecord {
                    layer_id: "local".to_owned(),
                    path: self.root.clone(),
                    materialized_ref: checkpoint_id.to_owned(),
                    stale: false,
                    backend: "existing".to_owned(),
                    updated_at: now.to_owned(),
                },
            );
            self.append_event_at(
                "world.initialized",
                Some("world"),
                Some("v1"),
                Json::empty().with("root_tree", Json::text(root_tree)),
                now,
            );
            assert(self@ =~= initialized_world(
                before,
                root_tree@,
                project_id@,
                checkpoint_id@,
                now@,
            ));
        }
        let version = self.current_world()?;
        let layer = self.layer("local")?;
        Ok((version, layer))
    }

    /// Makes the World, unless there is one.
    pub fn initialize_world(&mut self, root_tree: &str) -> (r: Result<(WorldVersion, Layer)>)
        ensures
            exists|project_id: Text, checkpoint_id: Text, now: Text|
                clock::is_stamp(now) && clock::is_fresh(project_id)
                    && clock::is_fresh(checkpoint_id) && final(self)@ == #[trigger] initialize_step(
                    old(self)@,
                    root_tree@,
                    project_id,
                    checkpoint_id,
                    now,
                ),
            match (
                store::current_outcome(final(self)@),
                store::layer_outcome(final(self)@, "local"@),
            ) {
                (Ok(version), Ok(layer)) => r is Ok && r->Ok_0.0@ == version && r->Ok_0.1@ == layer,
                (Err(failure), _) => r is Err && r->Err_0@ == failure,
                (_, Err(failure)) => r is Err && r->Err_0@ == failure,
            },
    {
        let now = clock::now();
        let project_id = clock::new_id();
        let checkpoint_id = clock::new_id();
        self.initialize_world_at(
            root_tree,
            project_id.as_str(),
            checkpoint_id.as_str(),
            now.as_str(),
        )
    }

    /// Why a Layer cannot be created.
    fn check_new_layer(&self, new: &NewLayer<&str>) -> (r: Result<TargetKind>)
        ensures
            match create_failure(self@, new.deep_view()) {
                Some(failure) => r is Err && r->Err_0@ == failure,
                None => r is Ok && r->Ok_0 == kind_named(new.target_kind@),
            },
    {
        if text::same(new.name, "local") || text::trim(new.name).as_str().is_empty()
            || text::has_char(new.name, '/') || text::has_char(new.name, '\\') || text::has_char(
            new.name,
            '\0',
        ) {
            return Err(JavelinError::invalid("invalid Private Layer name".to_owned()));
        }
        if records::find_layer_name(&self.layers, new.name).is_some() {
            return Err(
                JavelinError::invalid(
                    text::concat3("Private Layer ", new.name, " already exists"),
                ),
            );
        }
        let to_world = text::same(new.target_kind, "world");
        let to_layer = text::same(new.target_kind, "layer");
        if !to_world && !to_layer {
            return Err(
                JavelinError::invalid(
                    text::concat2("cannot create Layer: CHECK constraint failed: ", KIND_CHECK),
                ),
            );
        }
        if to_layer != new.target_id.is_some() {
            return Err(
                JavelinError::invalid(
                    text::concat2("cannot create Layer: CHECK constraint failed: ", TARGET_CHECK),
                ),
            );
        }
        if records::find_layer_view(&self.layers, new.view_path).is_some() {
            return Err(
                JavelinError::invalid(
                    "cannot create Layer: UNIQUE constraint failed: layers.view_path".to_owned(),
                ),
            );
        }
        if let Some(target) = new.target_id {
            if records::find_layer(&self.layers, target).is_none() {
                return Err(
                    JavelinError::invalid(
                        "cannot create Layer: FOREIGN KEY constraint failed".to_owned(),
                    ),
                );
            }
        }
        if to_world {
            Ok(TargetKind::World)
        } else {
            proof {
                reveal_strlit("world");
                reveal_strlit("layer");
                assert("world"@[0] != "layer"@[0]);
            }
            Ok(TargetKind::Layer)
        }
    }

    /// Creates a Layer with given identities and time.
    pub fn create_layer_at(
        &mut self,
        new: &NewLayer<&str>,
        id: &str,
        checkpoint_id: &str,
        now: &str,
    ) -> (r: Result<Layer>)
        ensures
            match create_failure(old(self)@, new.deep_view()) {
                Some(failure) => r is Err && r->Err_0@ == failure && final(self)@ == old(self)@,
                None => r is Ok && r->Ok_0@ == new_layer_row(
                    new.deep_view(),
                    id@,
                    checkpoint_id@,
                    now@,
                ) && final(self)@ == created_layer(
                    old(self)@,
                    new.deep_view(),
                    id@,
                    checkpoint_id@,
                    now@,
                ),
            },
    {
        let target_kind = self.check_new_layer(new)?;
        let ghost before = self@;
        let layer = Layer {
            id: id.to_owned(),
            name: new.name.to_owned(),
            origin_ref: new.origin_ref.to_owned(),
            synchronized_ref: new.synchronized_ref.to_owned(),
            head_checkpoint: checkpoint_id.to_owned(),
            target_kind,
            target_id: store::owned(new.target_id),
            status: LayerStatus::Active,
            view_path: new.view_path.to_owned(),
            created_at: now.to_owned(),
        };
        self.layers.push(layer.clone());
        self.checkpoints.push(
            Checkpoint {
                id: checkpoint_id.to_owned(),
                layer_id: id.to_owned(),
                sequence: 1,
                previous_checkpoint: None,
                root_tree: new.root_tree.to_owned(),
                synchronized_ref: new.synchronized_ref.to_owned(),
                reason: "create".to_owned(),
                created_at: now.to_owned(),
            },
        );
        self.views.push(
            ViewRecord {
                layer_id: id.to_owned(),
                path: new.view_path.to_owned(),
                materialized_ref: checkpoint_id.to_owned(),
                stale: false,
                backend: "pending".to_owned(),
                updated_at: now.to_owned(),
            },
        );
        let payload = Json::empty().with("name", Json::text(new.name)).with(
            "origin_ref",
            Json::text(new.origin_ref),
        ).with("target_kind", Json::text(new.target_kind)).with(
            "target_id",
            Json::option(&store::owned(new.target_id)),
        );
        self.append_event_at("layer.created", Some("layer"), Some(id), payload, now);
        assert(self@ =~= created_layer(before, new.deep_view(), id@, checkpoint_id@, now@));
        Ok(layer)
    }

    /// Creates a Layer.
    pub fn create_layer(&mut self, new: NewLayer<&str>) -> (r: Result<Layer>)
        ensures
            match create_failure(old(self)@, new.deep_view()) {
                Some(failure) => r is Err && r->Err_0@ == failure && final(self)@ == old(self)@,
                None => r is Ok && exists|id: Text, checkpoint_id: Text, now: Text|
                    clock::is_stamp(now) && clock::is_fresh(id) && clock::is_fresh(checkpoint_id)
                        && final(self)@ == #[trigger] created_layer(
                        old(self)@,
                        new.deep_view(),
                        id,
                        checkpoint_id,
                        now,
                    ) && r->Ok_0@ == new_layer_row(new.deep_view(), id, checkpoint_id, now),
            },
    {
        let id = clock::new_id();
        let checkpoint_id = clock::new_id();
        let now = clock::now();
        self.create_layer_at(&new, id.as_str(), checkpoint_id.as_str(), now.as_str())
    }

    /// Whether a Checkpoint can be recorded.
    pub(crate) fn check_new_checkpoint(&self, row: &Checkpoint, message: &str) -> (r: Result<()>)
        ensures
            match checkpoint_refusal(self@, row@, message@) {
                Some(failure) => r is Err && r->Err_0@ == failure,
                None => r is Ok,
            },
    {
        if records::has_checkpoint_number(
            &self.checkpoints,
            row.layer_id.as_str(),
            row.sequence,
        ) {
            return Err(
                store::not_unique_error(
                    message,
                    "layer_checkpoints.layer_id, layer_checkpoints.sequence",
                ),
            );
        }
        if records::find_checkpoint(&self.checkpoints, row.id.as_str()).is_some() {
            return Err(store::not_unique_error(message, "layer_checkpoints.id"));
        }
        Ok(())
    }

    /// Whether a version can be recorded.
    pub(crate) fn check_new_version(&self, row: &WorldVersion, message: &str) -> (r: Result<()>)
        ensures
            match version_refusal(self@, row@, message@) {
                Some(failure) => r is Err && r->Err_0@ == failure,
                None => r is Ok,
            },
    {
        if records::has_version_number(&self.versions, row.sequence) {
            return Err(store::not_unique_error(message, "versions.sequence"));
        }
        if records::find_version(&self.versions, row.id.as_str()).is_some() {
            return Err(store::not_unique_error(message, "versions.id"));
        }
        if let Some(parent) = &row.parent_version {
            if records::find_version(&self.versions, parent.as_str()).is_none() {
                return Err(store::no_reference_error(message));
            }
        }
        Ok(())
    }

    /// Appends a Checkpoint to a Layer with a given identity and time.
    pub fn append_checkpoint_at(
        &mut self,
        layer_id: &str,
        root_tree: &str,
        synchronized_ref: &str,
        reason: &str,
        id: &str,
        now: &str,
    ) -> (r: Result<Checkpoint>)
        ensures
            match append_checkpoint_outcome(
                old(self)@,
                layer_id@,
                root_tree@,
                synchronized_ref@,
                reason@,
                id@,
                now@,
            ) {
                Ok((state, checkpoint)) => r is Ok && r->Ok_0@ == checkpoint && final(self)@
                    == state,
                Err(failure) => r is Err && r->Err_0@ == failure && final(self)@ == old(self)@,
            },
    {
        let layer = self.layer(layer_id)?;
        let head = self.layer_head(&layer)?;
        if text::same(head.root_tree.as_str(), root_tree) && text::same(
            head.synchronized_ref.as_str(),
            synchronized_ref,
        ) && !text::same(reason, "restore") {
            return Ok(head);
        }
        let ghost before = self@;
        let checkpoint = Checkpoint {
            id: id.to_owned(),
            layer_id: layer.id.clone(),
            sequence: store::number_after(head.sequence),
            previous_checkpoint: Some(head.id.clone()),
            root_tree: root_tree.to_owned(),
            synchronized_ref: synchronized_ref.to_owned(),
            reason: reason.to_owned(),
            created_at: now.to_owned(),
        };
        self.check_new_checkpoint(&checkpoint, "cannot append Layer Checkpoint")?;
        self.checkpoints.push(checkpoint.clone());
        if let Some(i) = records::find_layer(&self.layers, layer.id.as_str()) {
            let mut row = self.layers[i].clone();
            row.head_checkpoint = id.to_owned();
            row.synchronized_ref = synchronized_ref.to_owned();
            self.layers.set(i, row);
        }
        if let Some(i) = records::find_view(&self.views, layer.id.as_str()) {
            let mut row = self.views[i].clone();
            row.materialized_ref = id.to_owned();
            row.stale = false;
            row.updated_at = now.to_owned();
            self.views.set(i, row);
        }
        rows::link_sessions(
            &mut self.checkpoint_provenance,
            &self.sessions,
            id,
            layer.id.as_str(),
            true,
        );
        let payload = Json::empty().with("checkpoint_id", Json::text(id)).with(
            "root_tree",
            Json::text(root_tree),
        ).with("reason", Json::text(reason));
        self.append_event_at(
            "checkpoint.created",
            Some("layer"),
            Some(layer.id.as_str()),
            payload,
            now,
        );
        assert(self@ =~= appended_checkpoint(
            before,
            layer@,
            head@,
            root_tree@,
            synchronized_ref@,
            reason@,
            id@,
            now@,
        ));
        Ok(checkpoint)
    }

    /// Appends a Checkpoint to a Layer.
    pub fn append_checkpoint(
        &mut self,
        layer_id: &str,
        root_tree: &str,
        synchronized_ref: &str,
        reason: &str,
    ) -> (r: Result<Checkpoint>)
        ensures
            exists|id: Text, now: Text|
                clock::is_stamp(now) && clock::is_fresh(id)
                    && match #[trigger] append_checkpoint_outcome(
                    old(self)@,
                    layer_id@,
                    root_tree@,
                    synchronized_ref@,
                    reason@,
                    id,
                    now,
                ) {
                    Ok((state, checkpoint)) => r is Ok && r->Ok_0@ == checkpoint && final(self)@
                        == state,
                    Err(failure) => r is Err && r->Err_0@ == failure && final(self)@ == old(self)@,
                },
    {
        let id = clock::new_id();
        let now = clock::now();
        self.append_checkpoint_at(
            layer_id,
            root_tree,
            synchronized_ref,
            reason,
            id.as_str(),
            now.as_str(),
        )
    }

    /// Appends a version to the World at a given time.
    pub fn append_world_version_at(
        &mut self,
        root_tree: &str,
        contribution_id: Option<&str>,
        event_type: &str,
        payload: Json,
        now: &str,
    ) -> (r: Result<WorldVersion>)
        ensures
            match append_version_outcome(
                old(self)@,
                root_tree@,
                contribution_id.deep_view(),
                event_type@,
                payload@,
                now@,
            ) {
                Ok((state, version)) => r is Ok && r->Ok_0@ == version && final(self)@ == state,
                Err(failure) => r is Err && r->Err_0@ == failure && final(self)@ == old(self)@,
            },
    {
        let current = self.current_world()?;
        let ghost before = self@;
        let sequence: i64 = store::number_after(current.sequence);
        let id = text::concat2("v", text::number_i64(sequence).as_str());
        let version = WorldVersion {
            id: id.clone(),
            sequence,
            parent_version: Some(current.id.clone()),
            root_tree: root_tree.to_owned(),
            accepted_contribution: store::owned(contribution_id),
            created_at: now.to_owned(),
        };
        self.check_new_version(&version, "cannot append World Version")?;
        self.versions.push(version.clone());
        self.advance_world(id.as_str());
        rows::stale_views(&mut self.views, "local", now);
        self.append_event_at(event_type, Some("world"), Some(id.as_str()), payload, now);
        proof {
            let appended = StoreState {
                versions: before.versions.push(version@),
                world: Some(World { current_version: version@.id, ..before.world->Some_0 }),
                views: tables::changed(before.views, rows::stale_views_change("local"@, now@)),
                ..before
            };
            assert(self@ =~= appended.with_event(
                event_type@,
                Some("world"@),
                Some(version@.id),
                payload@,
                now@,
            ));
        }
        Ok(version)
    }

    /// Moves the World to a version.
    pub(crate) fn advance_world(&mut self, version_id: &str)
        ensures
            final(self)@ == (StoreState {
                world: match old(self)@.world {
                    Some(world) => Some(World { current_version: version_id@, ..world }),
                    None => None,
                },
                ..old(self)@
            }),
    {
        if let Some(world) = &self.world {
            let row = World {
                id: world.id.clone(),
                current_version: version_id.to_owned(),
                created_at: world.created_at.clone(),
            };
            self.world = Some(row);
        }
    }

    /// Appends a version to the World.
    pub fn append_world_version(
        &mut self,
        root_tree: &str,
        contribution_id: Option<&str>,
        event_type: &str,
        payload: Json,
    ) -> (r: Result<WorldVersion>)
        ensures
            exists|now: Text|
                clock::is_stamp(now) && match #[trigger] append_version_outcome(
                    old(self)@,
                    root_tree@,
                    contribution_id.deep_view(),
                    event_type@,
                    payload@,
                    now,
                ) {
                    Ok((state, version)) => r is Ok && r->Ok_0@ == version && final(self)@ == state,
                    Err(failure) => r is Err && r->Err_0@ == failure && final(self)@ == old(self)@,
                },
    {
        let now = clock::now();
        self.append_world_version_at(
            root_tree,
            contribution_id,
            event_type,
            payload,
            now.as_str(),
        )
    }

    /// Records a run of a World Rule.
    pub fn record_validation(&mut self, record: &ValidationRecord) -> (r: Result<()>)
        ensures
            match record_validation_outcome(old(self)@, record@) {
                Ok(state) => r is Ok && final(self)@ == state,
                Err(failure) => r is Err && r->Err_0@ == failure && final(self)@ == old(self)@,
            },
    {
        if records::find_run(&self.validation_runs, record.id.as_str()).is_some() {
            return Err(
                store::not_unique_error("cannot record validation", "validation_runs.id"),
            );
        }
        let ghost before = self@;
        self.validation_runs.push(record.clone());
        assert(self.validation_runs.deep_view() =~= before.validation_runs.push(record@));
        Ok(())
    }

    /// Whether every one of the runs is recorded.
    pub fn knows_runs(&self, runs: &Vec<String>) -> (r: bool)
        ensures
            r == runs_known(self@, runs.deep_view()),
    {
        let ghost all = runs.deep_view();
        let mut i: usize = 0;
        while i < runs.len()
            invariant
                i <= runs@.len(),
                all == runs.deep_view(),
                forall|j: int|
                    0 <= j < i ==> tables::any(
                        self@.validation_runs,
                        records::run_is(#[trigger] all[j]),
                    ),
            decreases runs@.len() - i,
        {
            assert(all[i as int] == runs@[i as int]@);
            if records::find_run(&self.validation_runs, runs[i].as_str()).is_none() {
                return false;
            }
            i = i + 1;
        }
        true
    }

    /// Links validation runs to a World Version, with given identities.
    pub fn link_version_validations_at(
        &mut self,
        version_id: &str,
        runs: &Vec<String>,
        ids: &Vec<String>,
    ) -> (r: Result<()>)
        requires
            ids@.len() == runs@.len(),
        ensures
            match link_outcome(old(self)@, version_id@, runs.deep_view(), ids.deep_view()) {
                Ok(state) => r is Ok && final(self)@ == state,
                Err(failure) => r is Err && r->Err_0@ == failure && final(self)@ == old(self)@,
            },
    {
        if runs.len() > 0 {
            let known = records::find_version(&self.versions, version_id).is_some();
            if !known || !self.knows_runs(runs) {
                return Err(store::no_reference_error("cannot link World Version validation"));
            }
        }
        push_run_links(&mut self.version_validations, version_id, runs, ids);
        Ok(())
    }

    /// Links validation runs to a World Version.
    pub fn link_version_validations(&mut self, version_id: &str, runs: &Vec<String>) -> (r: Result<
        (),
    >)
        ensures
            exists|ids: Seq<Text>|
                ids.len() == runs@.len() && clock::are_fresh(ids) && match #[trigger] link_outcome(
                    old(self)@,
                    version_id@,
                    runs.deep_view(),
                    ids,
                ) {
                    Ok(state) => r is Ok && final(self)@ == state,
                    Err(failure) => r is Err && r->Err_0@ == failure && final(self)@ == old(self)@,
                },
    {
        let ids = clock::new_ids(runs.len());
        let r = self.link_version_validations_at(version_id, runs, &ids);
        assert(ids.deep_view().len() == runs@.len());
        r
    }

    /// Marks the view of a Layer at a given time.
    pub fn mark_view_at(
        &mut self,
        layer_id: &str,
        state_ref: &str,
        stale: bool,
        backend: &str,
        now: &str,
    )
        ensures
            final(self)@ == marked_view(
                old(self)@,
                layer_id@,
                state_ref@,
                stale,
                backend@,
                now@,
            ),
    {
        let ghost before = self@;
        if let Some(i) = records::find_view(&self.views, layer_id) {
            let mut row = self.views[i].clone();
            row.materialized_ref = state_ref.to_owned();
            row.stale = stale;
            row.backend = backend.to_owned();
            row.updated_at = now.to_owned();
            self.views.set(i, row);
            assert(self@ =~= marked_view(
                before,
                layer_id@,
                state_ref@,
                stale,
                backend@,
                now@,
            ));
        }
    }

    /// Marks the view of a Layer.
    pub fn mark_view(&mut self, layer_id: &str, state_ref: &str, stale: bool, backend: &str)
        ensures
            exists|now: Text|
                clock::is_stamp(now) && final(self)@ == #[trigger] marked_view(
                    old(self)@,
                    layer_id@,
                    state_ref@,
                    stale,
                    backend@,
                    now,
                ),
    {
        let now = clock::now();
        self.mark_view_at(layer_id, state_ref, stale, backend, now.as_str());
    }

    pub fn set_layer_status(&mut self, layer_id: &str, status: LayerStatus)
        ensures
            final(self)@ == with_status(old(self)@, layer_id@, status),
    {
        let ghost before = self@;
        if let Some(i) = records::find_layer(&self.layers, layer_id) {
            let mut row = self.layers[i].clone();
            row.status = status;
            self.layers.set(i, row);
            assert(self@ =~= with_status(before, layer_id@, status));
        }
    }

    /// Gives a Layer another target, at a given time.
    pub fn reparent_layer_at(
        &mut self,
        layer_id: &str,
        target_kind: &str,
        target_id: Option<&str>,
        now: &str,
    ) -> (r: Result<()>)
        ensures
            match reparent_outcome(
                old(self)@,
                layer_id@,
                target_kind@,
                target_id.deep_view(),
                now@,
            ) {
                Ok(state) => r is Ok && final(self)@ == state,
                Err(failure) => r is Err && r->Err_0@ == failure && final(self)@ == old(self)@,
            },
    {
        let to_world = text::same(target_kind, "world");
        let to_layer = text::same(target_kind, "layer");
        if !to_world && !to_layer {
            return Err(
                JavelinError::invalid("reparent target must be World or Private Layer".to_owned()),
            );
        }
        let to_itself = match target_id {
            Some(target) => text::same(target, layer_id),
            None => false,
        };
        if to_layer && to_itself {
            return Err(JavelinError::policy("Private Layer cannot target itself".to_owned()));
        }
        let ghost before = self@;
        match records::find_layer(&self.layers, layer_id) {
            None => {
                return Err(JavelinError::invalid("unknown Private Layer".to_owned()));
            },
            Some(i) => {
                if to_layer != target_id.is_some() {
                    return Err(
                        JavelinError::new(
                            7,
                            "STORE_WRITE",
                            "cannot reparent Private Layer".to_owned(),
                        ).details(
                            Json::empty().with(
                                "cause",
                                Json::text(
                                    text::concat2(
                                        "CHECK constraint failed: ",
                                        TARGET_CHECK,
                                    ).as_str(),
                                ),
                            ),
                        ),
                    );
                }
                if let Some(target) = target_id {
                    if records::find_layer(&self.layers, target).is_none() {
                        return Err(store::no_reference_error("cannot reparent Private Layer"));
                    }
                }
                let mut row = self.layers[i].clone();
                row.target_kind = if to_world {
                    TargetKind::World
                } else {
                    TargetKind::Layer
                };
                row.target_id = store::owned(target_id);
                self.layers.set(i, row);
            },
        }
        let payload = Json::empty().with("target_kind", Json::text(target_kind)).with(
            "target_id",
            Json::option(&store::owned(target_id)),
        );
        self.append_event_at("layer.reparented", Some("layer"), Some(layer_id), payload, now);
        proof {
            let after = reparent_outcome(
                before,
                layer_id@,
                target_kind@,
                target_id.deep_view(),
                now@,
            );
            assert(self@ =~= after->Ok_0);
        }
        Ok(())
    }

    /// Gives a Layer another target.
    pub fn reparent_layer(
        &mut self,
        layer_id: &str,
        target_kind: &str,
        target_id: Option<&str>,
    ) -> (r: Result<()>)
        ensures
            exists|now: Text|
                clock::is_stamp(now) && match #[trigger] reparent_outcome(
                    old(self)@,
                    layer_id@,
                    target_kind@,
                    target_id.deep_view(),
                    now,
                ) {
                    Ok(state) => r is Ok && final(self)@ == state,
                    Err(failure) => r is Err && r->Err_0@ == failure && final(self)@ == old(self)@,
                },
    {
        let now = clock::now();
        self.reparent_layer_at(layer_id, target_kind, target_id, now.as_str())
    }

    /// Discards a Layer at a given time.
    pub fn record_discard_at(&mut self, layer_id: &str, purge_after: &str, now: &str) -> (r: Result<
        (),
    >)
        ensures
            match record_discard_outcome(old(self)@, layer_id@, purge_after@, now@) {
                Ok(state) => r is Ok && final(self)@ == state,
                Err(failure) => r is Err && r->Err_0@ == failure && final(self)@ == old(self)@,
            },
    {
        if records::find_layer(&self.layers, layer_id).is_none() {
            return Err(store::no_reference_error("cannot record Discard retention"));
        }
        let ghost before = self@;
        self.set_layer_status(layer_id, LayerStatus::Discarded);
        let record = DiscardRecord {
            layer_id: layer_id.to_owned(),
            discarded_at: now.to_owned(),
            purge_after: purge_after.to_owned(),
        };
        match records::find_discard(&self.discards, layer_id) {
            Some(i) => {
                self.discards.set(i, record);
            },
            None => {
                self.discards.push(record);
            },
        }
        let payload = Json::empty().with("purge_after", Json::text(purge_after));
        self.append_event_at("layer.discarded", Some("layer"), Some(layer_id), payload, now);
        assert(self@ =~= discarded_layer(before, layer_id@, purge_after@, now@));
        Ok(())
    }

    /// Discards a Layer.
    pub fn record_discard(&mut self, layer_id: &str, purge_after: &str) -> (r: Result<()>)
        ensures
            exists|now: Text|
                clock::is_stamp(now) && match #[trigger] record_discard_outcome(
                    old(self)@,
                    layer_id@,
                    purge_after@,
                    now,
                ) {
                    Ok(state) => r is Ok && final(self)@ == state,
                    Err(failure) => r is Err && r->Err_0@ == failure && final(self)@ == old(self)@,
                },
    {
        let now = clock::now();
        self.record_discard_at(layer_id, purge_after, now.as_str())
    }

    /// Recovers a discarded Layer at a given time.
    pub fn recover_discard_at(&mut self, layer_id: &str, now: &str)
        ensures
            final(self)@ == recovered_layer(old(self)@, layer_id@, now@),
    {
        let ghost before = self@;
        if let Some(i) = records::find_layer(&self.layers, layer_id) {
            if self.layers[i].status == LayerStatus::Discarded {
                self.set_layer_status(layer_id, LayerStatus::Active);
            }
        }
        rows::drop_layer_discard(&mut self.discards, layer_id);
        self.append_event_at("layer.recovered", Some("layer"), Some(layer_id), Json::empty(), now);
        assert(self@ =~= recovered_layer(before, layer_id@, now@));
    }

    /// Recovers a discarded Layer.
    pub fn recover_discard(&mut self, layer_id: &str)
        ensures
            exists|now: Text|
                clock::is_stamp(now)
                    && final(self)@ == #[trigger] recovered_layer(old(self)@, layer_id@, now),
    {
        let now = clock::now();
        self.recover_discard_at(layer_id, now.as_str());
    }

    pub fn has_child(&self, layer_id: &str) -> (r: bool)
        ensures
            r == tables::any(self@.layers, store::child_of(layer_id@, true)),
    {
        let ghost all = self@.layers;
        let ghost wanted = store::child_of(layer_id@, true);
        let mut i: usize = 0;
        while i < self.layers.len()
            invariant
                i <= self.layers@.len(),
                all == self@.layers,
                wanted == store::child_of(layer_id@, true),
                forall|j: int| 0 <= j < i ==> !wanted(#[trigger] all[j]),
            decreases self.layers@.len() - i,
        {
            let layer = &self.layers[i];
            assert(all[i as int] == layer@);
            let targets = match &layer.target_id {
                Some(id) => text::same(id.as_str(), layer_id),
                None => false,
            };
            if layer.target_kind == TargetKind::Layer && targets {
                proof {
                    tables::lemma_any(all, wanted, i as int);
                }
                return true;
            }
            i = i + 1;
        }
        proof {
            tables::lemma_first_none(all, wanted);
        }
        false
    }

    /// Removes a discarded Layer for good.
    pub fn purge_layer(&mut self, name_or_id: &str) -> (r: Result<()>)
        ensures
            match purge_outcome(old(self)@, name_or_id@) {
                Ok(state) => r is Ok && final(self)@ == state,
                Err(failure) => r is Err && r->Err_0@ == failure && final(self)@ == old(self)@,
            },
    {
        let layer = self.layer(name_or_id)?;
        if text::same(layer.id.as_str(), "local") || layer.status != LayerStatus::Discarded {
            return Err(
                JavelinError::policy(
                    "only an exact discarded named Layer can be purged".to_owned(),
                ),
            );
        }
        if self.has_child(layer.id.as_str()) {
            return Err(
                JavelinError::policy("cannot purge a Layer with retained child Layers".to_owned()),
            );
        }
        let ghost before = self@;
        let id = layer.id.as_str();
        rows::detach_sessions(&mut self.sessions, id);
        rows::detach_events(&mut self.provenance_events, id);
        rows::detach_contributions(&mut self.contributions, &self.checkpoints, id);
        rows::drop_checkpoint_links(&mut self.checkpoint_provenance, &self.checkpoints, id);
        rows::drop_layer_checkpoints(&mut self.checkpoints, id);
        rows::drop_layer_conflicts(&mut self.conflicts, id);
        rows::drop_layer_claims(&mut self.claims, id);
        rows::drop_layer_view(&mut self.views, id);
        rows::drop_layer_discard(&mut self.discards, id);
        rows::drop_layer(&mut self.layers, id);
        assert(self@ =~= purged_layer(before, layer@.id));
        Ok(())
    }

    /// Records an object at a given time, unless it is recorded.
    pub fn register_object_at(&mut self, id: &str, kind: ObjectKind, size: u64, now: &str)
        ensures
            final(self)@ == (StoreState {
                object_metadata: registered(
                    old(self)@.object_metadata,
                    id@,
                    kind,
                    size,
                    now@,
                ),
                ..old(self)@
            }),
    {
        let ghost before = self@;
        if records::find_object(&self.object_metadata, id).is_none() {
            self.object_metadata.push(
                ObjectRecord {
                    id: id.to_owned(),
                    kind: object_kind_text(kind).to_owned(),
                    uncompressed_size: size as i64,
                    created_at: now.to_owned(),
                },
            );
            assert(self.object_metadata.deep_view() =~= registered(
                before.object_metadata,
                id@,
                kind,
                size,
                now@,
            ));
        }
    }

    /// Records an object, unless it is recorded.
    pub fn register_object(&mut self, id: &str, kind: ObjectKind, size: u64)
        ensures
            exists|now: Text|
                clock::is_stamp(now) && final(self)@ == (StoreState {
                    object_metadata: #[trigger] registered(
                        old(self)@.object_metadata,
                        id@,
                        kind,
                        size,
                        now,
                    ),
                    ..old(self)@
                }),
    {
        let now = clock::now();
        self.register_object_at(id, kind, size, now.as_str());
    }

    /// Records objects at a given time, each unless it is recorded.
    pub fn register_objects_at(&mut self, new: &Vec<(String, ObjectKind, u64)>, now: &str)
        ensures
            final(self)@ == (StoreState {
                object_metadata: all_registered(
                    old(self)@.object_metadata,
                    object_list(new@),
                    now@,
                ),
                ..old(self)@
            }),
    {
        let ghost before = self@;
        let ghost all = object_list(new@);
        let mut i: usize = 0;
        assert(all.take(0) =~= Seq::empty());
        while i < new.len()
            invariant
                i <= new@.len(),
                all == object_list(new@),
                self@ == (StoreState {
                    object_metadata: all_registered(
                        before.object_metadata,
                        all.take(i as int),
                        now@,
                    ),
                    ..before
                }),
            decreases new@.len() - i,
        {
            proof {
                assert(all.take(i as int + 1).drop_last() =~= all.take(i as int));
                assert(all.take(i as int + 1).last() == all[i as int]);
            }
            self.register_object_at(new[i].0.as_str(), new[i].1, new[i].2, now);
            i = i + 1;
        }
        assert(all.take(i as int) =~= all);
    }

    /// Records objects, each unless it is recorded.
    pub fn register_objects(&mut self, new: &Vec<(String, ObjectKind, u64)>)
        ensures
            exists|now: Text|
                clock::is_stamp(now) && final(self)@ == (StoreState {
                    object_metadata: #[trigger] all_registered(
                        old(self)@.object_metadata,
                        object_list(new@),
                        now,
                    ),
                    ..old(self)@
                }),
    {
        let now = clock::now();
        self.register_objects_at(new, now.as_str());
    }

    /// The discarded Layers whose retention is over, the longest over first.
    pub fn expired_discarded_layers(&self, cutoff: &str) -> (r: Vec<DiscardRecord>)
        ensures
            r.deep_view() == tables::in_order::<DiscardRecord>(
                tables::kept(self@.discards, retention_over(cutoff@)),
            ),
    {
        let ghost all = self@.discards;
        let mut out: Vec<DiscardRecord> = Vec::new();
        let mut i: usize = 0;
        assert(all.take(0) =~= Seq::empty());
        assert(out.deep_view() =~= Seq::empty());
        while i < self.discards.len()
            invariant
                i <= self.discards@.len(),
                all == self@.discards,
                out.deep_view() == tables::kept(all.take(i as int), retention_over(cutoff@)),
            decreases self.discards@.len() - i,
        {
            let ghost before = out.deep_view();
            let row = &self.discards[i];
            proof {
                assert(all.take(i as int + 1).drop_last() =~= all.take(i as int));
                assert(all.take(i as int + 1).last() == row@);
            }
            if !text::less(cutoff, row.purge_after.as_str()) {
                out.push(row.clone());
                assert(out.deep_view() =~= before.push(row@));
            }
            i = i + 1;
        }
        assert(all.take(i as int) =~= all);
        tables::put_in_order(&out)
    }
}

/// Links an owner to validation runs.
pub fn push_run_links(
    links: &mut Vec<ValidationLink>,
    owner: &str,
    runs: &Vec<String>,
    ids: &Vec<String>,
)
    requires
        ids@.len() == runs@.len(),
    ensures
        final(links).deep_view() == old(links).deep_view() + run_links(
            owner@,
            ids.deep_view(),
            runs.deep_view(),
        ),
{
    let ghost start = links.deep_view();
    let ghost wanted = run_links(owner@, ids.deep_view(), runs.deep_view());
    let mut i: usize = 0;
    assert(start + wanted.take(0) =~= start);
    while i < runs.len()
        invariant
            i <= runs@.len(),
            ids@.len() == runs@.len(),
            wanted == run_links(owner@, ids.deep_view(), runs.deep_view()),
            links.deep_view() == start + wanted.take(i as int),
        decreases runs@.len() - i,
    {
        let ghost before = links.deep_view();
        let link = ValidationLink {
            id: ids[i].clone(),
            owner: owner.to_owned(),
            run: runs[i].clone(),
        };
        assert(link@ == wanted[i as int]);
        let ghost row = link@;
        links.push(link);
        assert(links.deep_view() =~= before.push(row));
        assert(start + wanted.take(i as int + 1) =~= (start + wanted.take(i as int)).push(row));
        i = i + 1;
    }
    assert(wanted.take(i as int) =~= wanted);
}

/// A Checkpoint that is appended follows the Layer's head: it has the next
/// number, names the head as the one before it, and holds what it was given. The
/// Layer's head and Synchronized Reference move to it, and the Layer's view
/// stands for it; no other Layer, view or Checkpoint changes. Where the head
/// holds the same already, nothing changes, unless a state is restored.
pub proof fn law_checkpoint_follows_the_head(
    state: StoreState,
    layer_id: Text,
    root_tree: Text,
    synchronized_ref: Text,
    reason: Text,
    id: Text,
    now: Text,
    i: int,
)
    requires
        append_checkpoint_outcome(state, layer_id, root_tree, synchronized_ref, reason, id, now)
            is Ok,
        0 <= i < state.layers.len(),
        state.layers[i].id == layer_id,
        forall|j: int| 0 <= j < i ==> (#[trigger] state.layers[j]).id != layer_id,
    ensures
        ({
            let (after, row) = append_checkpoint_outcome(
                state,
                layer_id,
                root_tree,
                synchronized_ref,
                reason,
                id,
                now,
            )->Ok_0;
            let head = state.checkpoint(state.layers[i].head_checkpoint)->Some_0;
            let repeats = head.root_tree == root_tree && head.synchronized_ref == synchronized_ref
                && reason != "restore"@;
            &&& head.id == state.layers[i].head_checkpoint
            &&& repeats ==> after == state && row == head
            &&& !repeats ==> {
                &&& row.id == id
                &&& row.layer_id == layer_id
                &&& head.sequence < i64::MAX ==> row.sequence == head.sequence + 1
                &&& row.previous_checkpoint == Some(head.id)
                &&& row.root_tree == root_tree
                &&& row.synchronized_ref == synchronized_ref
                &&& row.reason == reason
                &&& row.created_at == now
                &&& after.checkpoints == state.checkpoints.push(row)
                &&& after.layers == state.layers.update(
                    i,
                    Layer { head_checkpoint: id, synchronized_ref, ..state.layers[i] },
                )
                &&& after.views.len() == state.views.len()
                &&& forall|k: int|
                    0 <= k < state.views.len() && (#[trigger] state.views[k]).layer_id != layer_id
                        ==> after.views[k] == state.views[k]
                &&& forall|k: int|
                    0 <= k < state.views.len() && (#[trigger] state.views[k]).layer_id == layer_id
                        && (forall|m: int|
                        0 <= m < k ==> (#[trigger] state.views[m]).layer_id != layer_id) ==> {
                        &&& after.views[k].materialized_ref == id
                        &&& !after.views[k].stale
                        &&& after.views[k].path == state.views[k].path
                    }
                &&& after.versions == state.versions
                &&& after.world == state.world
                &&& after.contributions == state.contributions
                &&& after.conflicts == state.conflicts
            }
        }),
{
    tables::lemma_first_at(state.layers, records::layer_is(layer_id), i);
    tables::lemma_first(
        state.checkpoints,
        records::checkpoint_is(state.layers[i].head_checkpoint),
    );
    tables::lemma_first(state.views, records::view_is(layer_id));
    assert forall|k: int|
        0 <= k < state.views.len() && (#[trigger] state.views[k]).layer_id == layer_id && (forall|
            m: int,
        |
            0 <= m < k ==> (#[trigger] state.views[m]).layer_id != layer_id) implies tables::first(
        state.views,
        records::view_is(layer_id),
    ) == Some(k) by {
        tables::lemma_first_at(state.views, records::view_is(layer_id), k);
    }
}

/// A Checkpoint is linked to the sessions that are active on its Layer, and to
/// no others.
pub proof fn law_checkpoint_is_linked_to_active_sessions(
    sessions: Seq<records::Session<Text>>,
    owner: Text,
    layer_id: Text,
    session: records::Session<Text>,
)
    requires
        sessions.contains(session),
        session.layer_id == Some(layer_id),
        session.status == "active"@,
    ensures
        rows::session_links(sessions, owner, layer_id, true).contains(
            records::ProvenanceLink { owner, session_id: session.id },
        ),
{
    let wanted = rows::session_of(layer_id, true);
    tables::lemma_kept(sessions, wanted);
    let found = tables::kept(sessions, wanted);
    assert(found.contains(session));
    let i = choose|i: int| 0 <= i < found.len() && found[i] == session;
    let links = rows::session_links(sessions, owner, layer_id, true);
    assert(links[i] == records::ProvenanceLink { owner, session_id: session.id });
}

/// A link to a session is to one of the Layer, and to an active one where only
/// those are asked for.
pub proof fn law_links_are_of_the_layer(
    sessions: Seq<records::Session<Text>>,
    owner: Text,
    layer_id: Text,
    active: bool,
    k: int,
)
    requires
        0 <= k < rows::session_links(sessions, owner, layer_id, active).len(),
    ensures
        ({
            let link = rows::session_links(sessions, owner, layer_id, active)[k];
            &&& link.owner == owner
            &&& exists|i: int|
                0 <= i < sessions.len() && (#[trigger] sessions[i]).id == link.session_id
                    && sessions[i].layer_id == Some(layer_id) && (active ==> sessions[i].status
                    == "active"@)
        }),
{
    let wanted = rows::session_of(layer_id, active);
    tables::lemma_kept(sessions, wanted);
    let found = tables::kept(sessions, wanted);
    assert(found.contains(found[k]));
    let i = choose|i: int| 0 <= i < sessions.len() && sessions[i] == found[k];
    assert(sessions[i].id == found[k].id);
}

/// A new World has one version, and a Local Layer whose view is the project and
/// whose first Checkpoint holds the same tree.
pub proof fn law_world_begins_with_the_project(
    state: StoreState,
    root_tree: Text,
    project_id: Text,
    checkpoint_id: Text,
    now: Text,
)
    requires
        state.world is None,
    ensures
        ({
            let after = initialize_step(state, root_tree, project_id, checkpoint_id, now);
            let version = after.versions.last();
            let layer = after.layers.last();
            let checkpoint = after.checkpoints.last();
            &&& after.world is Some && after.world->Some_0.id == project_id
                && after.world->Some_0.current_version == version.id
            &&& version.id == "v1"@ && version.sequence == 1 && version.parent_version is None
                && version.root_tree == root_tree && version.accepted_contribution is None
            &&& layer.id == "local"@ && layer.name == "local"@ && layer.status
                == LayerStatus::Active && layer.target_kind == TargetKind::World
                && layer.target_id is None && layer.view_path == state.root
                && layer.synchronized_ref == version.id && layer.origin_ref == version.id
                && layer.head_checkpoint == checkpoint.id
            &&& checkpoint.id == checkpoint_id && checkpoint.layer_id == layer.id
                && checkpoint.root_tree == root_tree && checkpoint.synchronized_ref == version.id
                && checkpoint.sequence == 1 && checkpoint.previous_checkpoint is None
            &&& after.views.last().layer_id == layer.id && after.views.last().path == state.root
                && !after.views.last().stale && after.views.last().materialized_ref
                == checkpoint.id
        }),
{
}

/// Where a World is, making one again changes nothing.
pub proof fn law_world_is_made_once(
    state: StoreState,
    root_tree: Text,
    project_id: Text,
    checkpoint_id: Text,
    now: Text,
)
    requires
        state.world is Some,
    ensures
        initialize_step(state, root_tree, project_id, checkpoint_id, now) == state,
{
}

/// A new Layer is what was asked for: it begins with the given tree, is
/// synchronized with the given state, has the given target, and is active. Its
/// view is yet to be put on disk.
pub proof fn law_layer_begins_as_asked(
    state: StoreState,
    new: NewLayer<Text>,
    id: Text,
    checkpoint_id: Text,
    now: Text,
)
    ensures
        ({
            let after = created_layer(state, new, id, checkpoint_id, now);
            let layer = after.layers.last();
            let checkpoint = after.checkpoints.last();
            &&& after.layers.drop_last() == state.layers
            &&& after.checkpoints.drop_last() == state.checkpoints
            &&& after.views.drop_last() == state.views
            &&& layer.id == id && layer.name == new.name && layer.status == LayerStatus::Active
            &&& layer.origin_ref == new.origin_ref
            &&& layer.synchronized_ref == new.synchronized_ref
            &&& layer.head_checkpoint == checkpoint_id
            &&& layer.target_id == new.target_id
            &&& new.target_kind == "world"@ ==> layer.target_kind == TargetKind::World
            &&& new.target_kind != "world"@ ==> layer.target_kind == TargetKind::Layer
            &&& layer.view_path == new.view_path
            &&& checkpoint.id == checkpoint_id && checkpoint.layer_id == id
            &&& checkpoint.root_tree == new.root_tree
            &&& checkpoint.synchronized_ref == new.synchronized_ref
            &&& checkpoint.sequence == 1 && checkpoint.previous_checkpoint is None
            &&& after.views.last().layer_id == id && after.views.last().path == new.view_path
            &&& after.views.last().materialized_ref == checkpoint_id && !after.views.last().stale
                && after.views.last().backend == "pending"@
            &&& after.versions == state.versions && after.world == state.world
        }),
{
    let after = created_layer(state, new, id, checkpoint_id, now);
    assert(after.layers.drop_last() =~= state.layers);
    assert(after.checkpoints.drop_last() =~= state.checkpoints);
    assert(after.views.drop_last() =~= state.views);
}

/// A Layer is refused for its name where that is `local`, blank, or holds a
/// separator or a zero character, and where another Layer has it; and for its
/// view where another Layer has that.
pub proof fn law_layer_names_and_views_are_unique(state: StoreState, new: NewLayer<Text>)
    ensures
        new.name == "local"@ || text::trimmed(new.name).len() == 0 || new.name.contains('/')
            || new.name.contains('\\') || new.name.contains('\0') ==> create_failure(state, new)
            is Some,
        (exists|i: int|
            0 <= i < state.layers.len() && (#[trigger] state.layers[i]).name == new.name)
            ==> create_failure(state, new) is Some,
        (exists|i: int|
            0 <= i < state.layers.len() && (#[trigger] state.layers[i]).view_path
                == new.view_path) ==> create_failure(state, new) is Some,
        new.target_kind != "world"@ && new.target_kind != "layer"@ ==> create_failure(state, new)
            is Some,
        new.target_id is Some && (forall|i: int|
            0 <= i < state.layers.len() ==> (#[trigger] state.layers[i]).id
                != new.target_id->Some_0) ==> create_failure(state, new) is Some,
        create_failure(state, new) is Some ==> create_failure(state, new)->Some_0.exit_code == 2,
{
    tables::lemma_first(state.layers, records::layer_name_is(new.name));
    tables::lemma_first(state.layers, records::layer_view_is(new.view_path));
    if new.target_id is Some {
        tables::lemma_first(state.layers, records::layer_is(new.target_id->Some_0));
    }
}

/// A version that is appended follows the current one: it has the next number
/// and the name that spells it, the current version as its parent, and is
/// current itself.
pub proof fn law_version_follows_the_current(
    state: StoreState,
    root_tree: Text,
    contribution_id: Option<Text>,
    event_type: Text,
    payload: JsonValue,
    now: Text,
)
    requires
        append_version_outcome(state, root_tree, contribution_id, event_type, payload, now) is Ok,
    ensures
        ({
            let (after, version) = append_version_outcome(
                state,
                root_tree,
                contribution_id,
                event_type,
                payload,
                now,
            )->Ok_0;
            let current = state.current()->Some_0;
            &&& current.id == state.world->Some_0.current_version
            &&& after.versions == state.versions.push(version)
            &&& current.sequence < i64::MAX ==> version.sequence == current.sequence + 1
            &&& version.id == "v"@ + text::decimal_int(version.sequence as int)
            &&& version.parent_version == Some(current.id)
            &&& version.root_tree == root_tree
            &&& version.accepted_contribution == contribution_id
            &&& after.world is Some && after.world->Some_0.current_version == version.id
            &&& after.views.len() == state.views.len()
            &&& forall|k: int|
                0 <= k < state.views.len() ==> (#[trigger] after.views[k]).stale == (
                state.views[k].stale || state.views[k].layer_id != "local"@)
            &&& forall|k: int|
                0 <= k < state.views.len() ==> (#[trigger] after.views[k]).materialized_ref
                    == state.views[k].materialized_ref
            &&& after.layers == state.layers
            &&& after.checkpoints == state.checkpoints
            &&& after.contributions == state.contributions
        }),
{
    tables::lemma_first(
        state.versions,
        records::version_is(state.world->Some_0.current_version),
    );
}

/// Discarding a Layer marks that Layer and nothing else, and notes until when it
/// is kept. Its Checkpoints stay.
pub proof fn law_discard_marks_one_layer(
    state: StoreState,
    layer_id: Text,
    purge_after: Text,
    now: Text,
    i: int,
)
    requires
        record_discard_outcome(state, layer_id, purge_after, now) is Ok,
        0 <= i < state.layers.len(),
        state.layers[i].id == layer_id,
        forall|j: int| 0 <= j < i ==> (#[trigger] state.layers[j]).id != layer_id,
    ensures
        ({
            let after = record_discard_outcome(state, layer_id, purge_after, now)->Ok_0;
            &&& after.layers == state.layers.update(
                i,
                Layer { status: LayerStatus::Discarded, ..state.layers[i] },
            )
            &&& after.discards.contains(
                DiscardRecord { layer_id, discarded_at: now, purge_after },
            )
            &&& after.checkpoints == state.checkpoints
            &&& after.versions == state.versions
            &&& after.world == state.world
            &&& after.contributions == state.contributions
            &&& after.conflicts == state.conflicts
            &&& after.views == state.views
        }),
{
    tables::lemma_first_at(state.layers, records::layer_is(layer_id), i);
    let record = DiscardRecord { layer_id, discarded_at: now, purge_after };
    let after = record_discard_outcome(state, layer_id, purge_after, now)->Ok_0;
    tables::lemma_first(state.discards, records::discard_is(layer_id));
    match tables::first(state.discards, records::discard_is(layer_id)) {
        Some(k) => {
            assert(after.discards[k] == record);
        },
        None => {
            assert(after.discards[state.discards.len() as int] == record);
        },
    }
}

/// A Layer is purged only where it is discarded, is not the Local Layer, and no
/// Layer targets it. The purge takes away the Layer with its Checkpoints, view,
/// Conflicts, Claims and retention, and nothing of any other Layer; every
/// Contribution stays, and with it what was accepted.
pub proof fn law_purge_takes_one_layer(state: StoreState, name_or_id: Text)
    requires
        purge_outcome(state, name_or_id) is Ok,
    ensures
        ({
            let after = purge_outcome(state, name_or_id)->Ok_0;
            let layer = state.layer(name_or_id)->Some_0;
            &&& layer.status == LayerStatus::Discarded
            &&& layer.id != "local"@
            &&& forall|i: int|
                0 <= i < state.layers.len() ==> !((#[trigger] state.layers[i]).target_kind
                    == TargetKind::Layer && state.layers[i].target_id == Some(layer.id))
            &&& forall|row: Layer<Text>| #[trigger]
                after.layers.contains(row) <==> state.layers.contains(row) && row.id != layer.id
            &&& forall|row: Checkpoint<Text>| #[trigger]
                after.checkpoints.contains(row) <==> state.checkpoints.contains(row)
                    && row.layer_id != layer.id
            &&& forall|row: ViewRecord<Text>| #[trigger]
                after.views.contains(row) <==> state.views.contains(row) && row.layer_id
                    != layer.id
            &&& forall|row: records::Claim<Text>| #[trigger]
                after.claims.contains(row) <==> state.claims.contains(row) && row.layer_id
                    != layer.id
            &&& forall|row: records::ConflictRecord<Text>| #[trigger]
                after.conflicts.contains(row) <==> state.conflicts.contains(row) && row.layer_id
                    != layer.id
            &&& forall|row: DiscardRecord<Text>| #[trigger]
                after.discards.contains(row) <==> state.discards.contains(row) && row.layer_id
                    != layer.id
            &&& after.contributions.len() == state.contributions.len()
            &&& forall|k: int|
                0 <= k < state.contributions.len() ==> {
                    let row = #[trigger] after.contributions[k];
                    let was = state.contributions[k];
                    &&& row.id == was.id && row.previous_target_ref == was.previous_target_ref
                        && row.resulting_target_ref == was.resulting_target_ref
                        && row.idempotency_key == was.idempotency_key && row.summary_json
                        == was.summary_json && row.target_kind == was.target_kind && row.target_id
                        == was.target_id && row.created_at == was.created_at
                    &&& row.source_layer == (if was.source_layer == Some(layer.id) {
                        None
                    } else {
                        was.source_layer
                    })
                }
            &&& after.sessions.len() == state.sessions.len()
            &&& forall|k: int|
                0 <= k < state.sessions.len() ==> (#[trigger] after.sessions[k]).layer_id == (
                if state.sessions[k].layer_id == Some(layer.id) {
                    None
                } else {
                    state.sessions[k].layer_id
                })
            &&& after.versions == state.versions
            &&& after.world == state.world
            &&& after.validation_runs == state.validation_runs
        }),
{
    let layer = state.layer(name_or_id)->Some_0;
    tables::lemma_first(state.layers, store::child_of(layer.id, true));
    tables::lemma_kept(state.layers, rows::not_layer(layer.id));
    tables::lemma_kept(state.checkpoints, rows::not_layer_checkpoints(layer.id));
    tables::lemma_kept(state.views, rows::not_layer_view(layer.id));
    tables::lemma_kept(state.claims, rows::not_layer_claims(layer.id));
    tables::lemma_kept(state.conflicts, rows::not_layer_conflicts(layer.id));
    tables::lemma_kept(state.discards, rows::not_layer_discard(layer.id));
    assert forall|i: int| 0 <= i < state.layers.len() implies !((#[trigger]
    state.layers[i]).target_kind == TargetKind::Layer && state.layers[i].target_id == Some(
        layer.id,
    )) by {
        assert(!store::child_of(layer.id, true)(state.layers[i]));
    }
}

/// Another target changes the Layer's target and nothing else of it, and no
/// other Layer.
pub proof fn law_reparenting_changes_the_target_alone(
    state: StoreState,
    layer_id: Text,
    target_kind: Text,
    target_id: Option<Text>,
    now: Text,
    i: int,
)
    requires
        reparent_outcome(state, layer_id, target_kind, target_id, now) is Ok,
        0 <= i < state.layers.len(),
        state.layers[i].id == layer_id,
        forall|j: int| 0 <= j < i ==> (#[trigger] state.layers[j]).id != layer_id,
    ensures
        ({
            let after = reparent_outcome(state, layer_id, target_kind, target_id, now)->Ok_0;
            &&& target_id != Some(layer_id)
            &&& after.layers == state.layers.update(
                i,
                Layer {
                    target_kind: if target_kind == "world"@ {
                        TargetKind::World
                    } else {
                        TargetKind::Layer
                    },
                    target_id,
                    ..state.layers[i]
                },
            )
            &&& target_kind == "world"@ <==> target_id is None
            &&& after.checkpoints == state.checkpoints
            &&& after.views == state.views
        }),
{
    reveal_strlit("world");
    reveal_strlit("layer");
    assert("world"@[0] == 'w' && "layer"@[0] == 'l');
    tables::lemma_first_at(state.layers, records::layer_is(layer_id), i);
}

/// An object that is noted has its kind and its size; what was noted before
/// stays, and nothing is noted twice.
pub proof fn law_objects_are_noted_once(
    objects: Seq<ObjectRecord<Text>>,
    id: Text,
    kind: ObjectKind,
    size: u64,
    now: Text,
)
    ensures
        ({
            let after = registered(objects, id, kind, size, now);
            let known = exists|i: int|
                0 <= i < objects.len() && (#[trigger] objects[i]).id == id;
            &&& known ==> after == objects
            &&& !known ==> {
                &&& after.drop_last() == objects
                &&& after.last().id == id
                &&& kind == ObjectKind::Blob ==> after.last().kind == "blob"@
                &&& kind == ObjectKind::Tree ==> after.last().kind == "tree"@
                &&& size <= i64::MAX ==> after.last().uncompressed_size == size
                &&& after.last().created_at == now
            }
        }),
{
    tables::lemma_first(objects, records::object_is(id));
    let after = registered(objects, id, kind, size, now);
    if !tables::any(objects, records::object_is(id)) {
        assert(after.drop_last() =~= objects);
    }
}

/// A Checkpoint is owed to every Layer that is known and has a head, unless its
/// number or its identity is taken: whatever its tree, reason and state.
pub proof fn law_checkpoint_is_owed(
    state: StoreState,
    layer_id: Text,
    root_tree: Text,
    synchronized_ref: Text,
    reason: Text,
    id: Text,
    now: Text,
)
    ensures
        ({
            let outcome = append_checkpoint_outcome(
                state,
                layer_id,
                root_tree,
                synchronized_ref,
                reason,
                id,
                now,
            );
            let layer = state.layer(layer_id)->Some_0;
            let head = state.checkpoint(layer.head_checkpoint)->Some_0;
            &&& state.layer(layer_id) is None ==> outcome is Err && outcome->Err_0.exit_code == 2
            &&& state.layer(layer_id) is Some && state.checkpoint(layer.head_checkpoint) is Some
                && head.sequence < i64::MAX && (forall|i: int|
                0 <= i < state.checkpoints.len() ==> (#[trigger] state.checkpoints[i]).id != id && !(
                state.checkpoints[i].layer_id == layer.id && state.checkpoints[i].sequence
                    == head.sequence + 1)) ==> outcome is Ok
        }),
{
    if state.layer(layer_id) is Some {
        let layer = state.layer(layer_id)->Some_0;
        if state.checkpoint(layer.head_checkpoint) is Some {
            let head = state.checkpoint(layer.head_checkpoint)->Some_0;
            tables::lemma_first(
                state.checkpoints,
                records::checkpoint_numbered(layer.id, store::next_number(head.sequence)),
            );
            tables::lemma_first(state.checkpoints, records::checkpoint_is(id));
        }
    }
}

/// A Checkpoint is linked to exactly the sessions that are active on its Layer.
pub proof fn law_checkpoint_names_its_sessions(
    state: StoreState,
    layer_id: Text,
    root_tree: Text,
    synchronized_ref: Text,
    reason: Text,
    id: Text,
    now: Text,
    session: records::Session<Text>,
)
    requires
        append_checkpoint_outcome(state, layer_id, root_tree, synchronized_ref, reason, id, now)
            is Ok,
        append_checkpoint_outcome(
            state,
            layer_id,
            root_tree,
            synchronized_ref,
            reason,
            id,
            now,
        )->Ok_0.0.checkpoints != state.checkpoints,
    ensures
        ({
            let after = append_checkpoint_outcome(
                state,
                layer_id,
                root_tree,
                synchronized_ref,
                reason,
                id,
                now,
            )->Ok_0.0;
            let owner = state.layer(layer_id)->Some_0.id;
            let before = state.checkpoint_provenance.len() as int;
            &&& after.checkpoint_provenance.take(before) == state.checkpoint_provenance
            &&& state.sessions.contains(session) && session.layer_id == Some(owner)
                && session.status == "active"@ ==> after.checkpoint_provenance.contains(
                records::ProvenanceLink { owner: id, session_id: session.id },
            )
            &&& forall|k: int|
                before <= k < after.checkpoint_provenance.len() ==> (#[trigger]
                after.checkpoint_provenance[k]).owner == id && exists|i: int|
                    0 <= i < state.sessions.len() && (#[trigger] state.sessions[i]).id
                        == after.checkpoint_provenance[k].session_id && state.sessions[i].layer_id
                        == Some(owner) && state.sessions[i].status == "active"@
        }),
{
    let after = append_checkpoint_outcome(
        state,
        layer_id,
        root_tree,
        synchronized_ref,
        reason,
        id,
        now,
    )->Ok_0.0;
    let owner = state.layer(layer_id)->Some_0.id;
    let before = state.checkpoint_provenance.len() as int;
    let links = rows::session_links(state.sessions, id, owner, true);
    assert(after.checkpoint_provenance.take(before) =~= state.checkpoint_provenance);
    if state.sessions.contains(session) && session.layer_id == Some(owner) && session.status
        == "active"@ {
        law_checkpoint_is_linked_to_active_sessions(state.sessions, id, owner, session);
        let wanted = records::ProvenanceLink { owner: id, session_id: session.id };
        let k = choose|k: int| 0 <= k < links.len() && links[k] == wanted;
        assert(after.checkpoint_provenance[before + k] == wanted);
    }
    assert forall|k: int| before <= k < after.checkpoint_provenance.len() implies (#[trigger]
    after.checkpoint_provenance[k]).owner == id && exists|i: int|
        0 <= i < state.sessions.len() && (#[trigger] state.sessions[i]).id
            == after.checkpoint_provenance[k].session_id && state.sessions[i].layer_id == Some(owner)
            && state.sessions[i].status == "active"@ by {
        assert(after.checkpoint_provenance[k] == links[k - before]);
        law_links_are_of_the_layer(state.sessions, id, owner, true, k - before);
    }
}

/// A Layer is made wherever its name and view are free, its name can be one, and
/// its target is the World or a Layer that is known.
pub proof fn law_layer_is_owed(state: StoreState, new: NewLayer<Text>)
    ensures
        create_failure(state, new) is None <==> {
            &&& new.name != "local"@
            &&& text::trimmed(new.name).len() > 0
            &&& !new.name.contains('/')
            &&& !new.name.contains('\\')
            &&& !new.name.contains('\0')
            &&& forall|i: int|
                0 <= i < state.layers.len() ==> (#[trigger] state.layers[i]).name != new.name
                    && state.layers[i].view_path != new.view_path
            &&& new.target_kind == "world"@ || new.target_kind == "layer"@
            &&& new.target_kind == "layer"@ <==> new.target_id is Some
            &&& new.target_id is Some ==> exists|i: int|
                0 <= i < state.layers.len() && (#[trigger] state.layers[i]).id
                    == new.target_id->Some_0
        },
{
    tables::lemma_first(state.layers, records::layer_name_is(new.name));
    tables::lemma_first(state.layers, records::layer_view_is(new.view_path));
    if new.target_id is Some {
        tables::lemma_first(state.layers, records::layer_is(new.target_id->Some_0));
    }
}

/// A discard is owed to every Layer that is known; a purge to every discarded
/// one that is not the Local Layer and that no Layer targets, and to no other.
pub proof fn law_discard_and_purge_are_owed(
    state: StoreState,
    layer_id: Text,
    purge_after: Text,
    now: Text,
)
    ensures
        record_discard_outcome(state, layer_id, purge_after, now) is Ok <==> exists|i: int|
            0 <= i < state.layers.len() && (#[trigger] state.layers[i]).id == layer_id,
        purge_outcome(state, layer_id) is Ok <==> {
            let layer = state.layer(layer_id);
            &&& layer is Some
            &&& layer->Some_0.id != "local"@
            &&& layer->Some_0.status == LayerStatus::Discarded
            &&& forall|i: int|
                0 <= i < state.layers.len() ==> !((#[trigger] state.layers[i]).target_kind
                    == TargetKind::Layer && state.layers[i].target_id == Some(layer->Some_0.id))
        },
        state.layer(layer_id) is Some && purge_outcome(state, layer_id) is Err ==> purge_outcome(
            state,
            layer_id,
        )->Err_0.exit_code == 10,
{
    tables::lemma_first(state.layers, records::layer_is(layer_id));
    if let Some(layer) = state.layer(layer_id) {
        tables::lemma_first(state.layers, store::child_of(layer.id, true));
        if tables::any(state.layers, store::child_of(layer.id, true)) {
            let k = tables::first(state.layers, store::child_of(layer.id, true))->Some_0;
            assert(state.layers[k].target_id == Some(layer.id));
        }
        if exists|i: int|
            0 <= i < state.layers.len() && (#[trigger] state.layers[i]).target_kind
                == TargetKind::Layer && state.layers[i].target_id == Some(layer.id) {
            let i = choose|i: int|
                0 <= i < state.layers.len() && (#[trigger] state.layers[i]).target_kind
                    == TargetKind::Layer && state.layers[i].target_id == Some(layer.id);
            assert(store::child_of(layer.id, true)(state.layers[i]));
        }
    }
}

/// Recovering a Layer makes it active where it was discarded, takes away its
/// retention and no other, and changes nothing else.
pub proof fn law_recovery_revives_one_layer(
    state: StoreState,
    layer_id: Text,
    now: Text,
    i: int,
)
    requires
        0 <= i < state.layers.len(),
        state.layers[i].id == layer_id,
        forall|j: int| 0 <= j < i ==> (#[trigger] state.layers[j]).id != layer_id,
    ensures
        ({
            let after = recovered_layer(state, layer_id, now);
            &&& after.layers == state.layers.update(
                i,
                Layer {
                    status: if state.layers[i].status == LayerStatus::Discarded {
                        LayerStatus::Active
                    } else {
                        state.layers[i].status
                    },
                    ..state.layers[i]
                },
            )
            &&& forall|row: DiscardRecord<Text>| #[trigger]
                after.discards.contains(row) <==> state.discards.contains(row) && row.layer_id
                    != layer_id
            &&& after.checkpoints == state.checkpoints
            &&& after.views == state.views
        }),
{
    tables::lemma_first_at(state.layers, records::layer_is(layer_id), i);
    tables::lemma_kept(state.discards, rows::not_layer_discard(layer_id));
    let after = recovered_layer(state, layer_id, now);
    assert(after.layers =~= state.layers.update(
        i,
        Layer {
            status: if state.layers[i].status == LayerStatus::Discarded {
                LayerStatus::Active
            } else {
                state.layers[i].status
            },
            ..state.layers[i]
        },
    ));
}

/// A version is owed where there is a current one and its number and name are
/// free.
pub proof fn law_version_is_owed(
    state: StoreState,
    root_tree: Text,
    contribution_id: Option<Text>,
    event_type: Text,
    payload: JsonValue,
    now: Text,
)
    requires
        state.current() is Some,
        state.current()->Some_0.sequence < i64::MAX,
        forall|i: int|
            0 <= i < state.versions.len() ==> (#[trigger] state.versions[i]).sequence
                != state.current()->Some_0.sequence + 1 && state.versions[i].id != "v"@
                + text::decimal_int(state.current()->Some_0.sequence + 1),
    ensures
        append_version_outcome(state, root_tree, contribution_id, event_type, payload, now) is Ok,
{
    let current = state.current()->Some_0;
    let row = next_version(current, root_tree, contribution_id, now);
    tables::lemma_first(state.versions, records::version_numbered(row.sequence));
    tables::lemma_first(state.versions, records::version_is(row.id));
    tables::lemma_first(
        state.versions,
        records::version_is(state.world->Some_0.current_version),
    );
}

/// Another target is given wherever the Layer is known and the target is the
/// World or another Layer that is known.
pub proof fn law_target_is_owed(
    state: StoreState,
    layer_id: Text,
    target_kind: Text,
    target_id: Option<Text>,
    now: Text,
)
    ensures
        reparent_outcome(state, layer_id, target_kind, target_id, now) is Ok <==> {
            &&& target_kind == "world"@ || target_kind == "layer"@
            &&& target_kind == "layer"@ <==> target_id is Some
            &&& target_id != Some(layer_id)
            &&& exists|i: int|
                0 <= i < state.layers.len() && (#[trigger] state.layers[i]).id == layer_id
            &&& target_id is Some ==> exists|i: int|
                0 <= i < state.layers.len() && (#[trigger] state.layers[i]).id
                    == target_id->Some_0
        },
{
    tables::lemma_first(state.layers, records::layer_is(layer_id));
    if target_id is Some {
        tables::lemma_first(state.layers, records::layer_is(target_id->Some_0));
    }
}

/// A run is recorded once under its identity, and linked wherever the version
/// and all the runs are known.
pub proof fn law_runs_are_recorded_and_linked(
    state: StoreState,
    record: ValidationRecord<Text>,
    version_id: Text,
    runs: Seq<Text>,
    ids: Seq<Text>,
)
    ensures
        record_validation_outcome(state, record) is Ok <==> forall|i: int|
            0 <= i < state.validation_runs.len() ==> (#[trigger] state.validation_runs[i]).id
                != record.id,
        record_validation_outcome(state, record) matches Ok(after) ==> after == (StoreState {
            validation_runs: state.validation_runs.push(record),
            ..state
        }),
        runs.len() == 0 ==> link_outcome(state, version_id, runs, ids) is Ok,
        link_outcome(state, version_id, runs, ids) matches Ok(after) ==> {
            &&& after.version_validations.len() == state.version_validations.len() + runs.len()
            &&& forall|k: int|
                0 <= k < runs.len() ==> {
                    let link = after.version_validations[state.version_validations.len() + k];
                    link.owner == version_id && link.run == #[trigger] runs[k] && link.id == ids[k]
                }
            &&& after.versions == state.versions
        },
        (exists|i: int|
            0 <= i < state.versions.len() && (#[trigger] state.versions[i]).id == version_id) && (
        forall|k: int|
            0 <= k < runs.len() ==> exists|i: int|
                0 <= i < state.validation_runs.len() && (#[trigger] state.validation_runs[i]).id
                    == #[trigger] runs[k]) ==> link_outcome(state, version_id, runs, ids) is Ok,
{
    tables::lemma_first(state.validation_runs, records::run_is(record.id));
    tables::lemma_first(state.versions, records::version_is(version_id));
    if forall|k: int|
        0 <= k < runs.len() ==> exists|i: int|
            0 <= i < state.validation_runs.len() && (#[trigger] state.validation_runs[i]).id
                == #[trigger] runs[k] {
        assert forall|k: int| 0 <= k < runs.len() implies tables::any(
            state.validation_runs,
            records::run_is(#[trigger] runs[k]),
        ) by {
            let i = choose|i: int|
                0 <= i < state.validation_runs.len() && (#[trigger] state.validation_runs[i]).id
                    == runs[k];
            tables::lemma_any(state.validation_runs, records::run_is(runs[k]), i);
        }
    }
}

/// A purge keeps the sessions, the events and the Contributions of its Layer, but
/// none of them names the Layer or one of its Checkpoints any longer, and what
/// names another Layer goes on doing so.
pub proof fn law_purge_detaches_what_stays(state: StoreState, name_or_id: Text, k: int, c: int)
    requires
        purge_outcome(state, name_or_id) is Ok,
        0 <= c < state.checkpoints.len(),
    ensures
        ({
            let after = purge_outcome(state, name_or_id)->Ok_0;
            let id = state.layer(name_or_id)->Some_0.id;
            &&& after.sessions.len() == state.sessions.len()
            &&& 0 <= k < state.sessions.len() ==> after.sessions[k] == (records::Session {
                layer_id: if state.sessions[k].layer_id == Some(id) {
                    None
                } else {
                    state.sessions[k].layer_id
                },
                ..state.sessions[k]
            })
            &&& after.provenance_events.len() == state.provenance_events.len()
            &&& 0 <= k < state.provenance_events.len() ==> after.provenance_events[k] == (
            records::ProvenanceEvent {
                layer_id: if state.provenance_events[k].layer_id == Some(id) {
                    None
                } else {
                    state.provenance_events[k].layer_id
                },
                ..state.provenance_events[k]
            })
            &&& 0 <= k < state.contributions.len() ==> after.contributions[k].source_layer == (
            if state.contributions[k].source_layer == Some(id) {
                None
            } else {
                state.contributions[k].source_layer
            })
            &&& 0 <= k < state.contributions.len() && state.checkpoints[c].layer_id == id
                ==> after.contributions[k].source_checkpoint != Some(state.checkpoints[c].id)
        }),
{
    let id = state.layer(name_or_id)->Some_0.id;
    if 0 <= k < state.contributions.len() && state.checkpoints[c].layer_id == id {
        let wanted = rows::checkpoint_of(id, state.checkpoints[c].id);
        assert(wanted(state.checkpoints[c]));
        tables::lemma_any(state.checkpoints, wanted, c);
    }
}

} // verus!
