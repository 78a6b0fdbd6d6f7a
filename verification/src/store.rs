//! The store of a World: its tables, and what can be asked of them.
//!
//! The store holds the rows themselves. Every operation that changes them is
//! stated as a step from one [`StoreState`] to another.
use vstd::prelude::*;
use crate::clock;
use crate::error;
use crate::error::{Failure, JavelinError, Result};
use crate::json::{Json, JsonValue};
use crate::model::{Checkpoint, Layer, LayerStatus, TargetKind, WorldVersion};
use crate::objects;
use crate::objects::ObjectStore;
use crate::paths;
use crate::records;
use crate::records::{
    Attachment,
    Claim,
    ConflictRecord,
    Contribution,
    DiscardRecord,
    Event,
    ObjectRecord,
    ProvenanceEvent,
    ProvenanceLink,
    QueueEntry,
    Session,
    ValidationLink,
    ValidationRecord,
    ViewRecord,
    World,
};
use crate::tables;
use crate::text;
use crate::text::Text;

pub mod layers;
pub mod claims;
pub mod conflicts;
pub mod provenance;
pub mod publish;
pub mod recovery;
pub mod rows;
pub mod laws;

verus! {

/// The tables of a World.
#[derive(Debug)]
pub struct Store {
    pub root: String,
    pub metadata: String,
    pub objects: ObjectStore,
    pub world: Option<World>,
    pub versions: Vec<WorldVersion>,
    pub layers: Vec<Layer>,
    pub checkpoints: Vec<Checkpoint>,
    pub contributions: Vec<Contribution>,
    pub validation_runs: Vec<ValidationRecord>,
    pub validations: Vec<ValidationLink>,
    pub version_validations: Vec<ValidationLink>,
    pub conflicts: Vec<ConflictRecord>,
    pub claims: Vec<Claim>,
    pub events: Vec<Event>,
    pub views: Vec<ViewRecord>,
    pub discards: Vec<DiscardRecord>,
    pub object_metadata: Vec<ObjectRecord>,
    pub sessions: Vec<Session>,
    pub provenance_events: Vec<ProvenanceEvent>,
    pub attachments: Vec<Attachment>,
    pub checkpoint_provenance: Vec<ProvenanceLink>,
    pub contribution_provenance: Vec<ProvenanceLink>,
    pub queue: Vec<QueueEntry>,
    pub last_ticket: i64,
}

/// The mathematical value of a [`Store`].
#[verifier::ext_equal]
pub struct StoreState {
    pub root: Text,
    pub metadata: Text,
    pub objects: ObjectStore<Text>,
    pub world: Option<World<Text>>,
    pub versions: Seq<WorldVersion<Text>>,
    pub layers: Seq<Layer<Text>>,
    pub checkpoints: Seq<Checkpoint<Text>>,
    pub contributions: Seq<Contribution<Text>>,
    pub validation_runs: Seq<ValidationRecord<Text>>,
    pub validations: Seq<ValidationLink<Text>>,
    pub version_validations: Seq<ValidationLink<Text>>,
    pub conflicts: Seq<ConflictRecord<Text>>,
    pub claims: Seq<Claim<Text>>,
    pub events: Seq<Event<Text, JsonValue>>,
    pub views: Seq<ViewRecord<Text>>,
    pub discards: Seq<DiscardRecord<Text>>,
    pub object_metadata: Seq<ObjectRecord<Text>>,
    pub sessions: Seq<Session<Text>>,
    pub provenance_events: Seq<ProvenanceEvent<Text>>,
    pub attachments: Seq<Attachment<Text>>,
    pub checkpoint_provenance: Seq<ProvenanceLink<Text>>,
    pub contribution_provenance: Seq<ProvenanceLink<Text>>,
    pub queue: Seq<QueueEntry<Text>>,
    pub last_ticket: i64,
}

impl View for Store {
    type V = StoreState;

    open spec fn view(&self) -> StoreState {
        StoreState {
            root: self.root@,
            metadata: self.metadata@,
            objects: self.objects@,
            world: self.world.deep_view(),
            versions: self.versions.deep_view(),
            layers: self.layers.deep_view(),
            checkpoints: self.checkpoints.deep_view(),
            contributions: self.contributions.deep_view(),
            validation_runs: self.validation_runs.deep_view(),
            validations: self.validations.deep_view(),
            version_validations: self.version_validations.deep_view(),
            conflicts: self.conflicts.deep_view(),
            claims: self.claims.deep_view(),
            events: self.events.deep_view(),
            views: self.views.deep_view(),
            discards: self.discards.deep_view(),
            object_metadata: self.object_metadata.deep_view(),
            sessions: self.sessions.deep_view(),
            provenance_events: self.provenance_events.deep_view(),
            attachments: self.attachments.deep_view(),
            checkpoint_provenance: self.checkpoint_provenance.deep_view(),
            contribution_provenance: self.contribution_provenance.deep_view(),
            queue: self.queue.deep_view(),
            last_ticket: self.last_ticket,
        }
    }
}

/// The number after another, short of the largest.
pub open spec fn next_number(n: i64) -> i64 {
    if n == i64::MAX {
        n
    } else {
        (n + 1) as i64
    }
}

pub fn number_after(n: i64) -> (r: i64)
    ensures
        r == next_number(n),
{
    if n == i64::MAX {
        n
    } else {
        n + 1
    }
}

/// The failure of a query that finds no row.
pub open spec fn no_row(message: Text) -> Failure {
    error::caused(7, "STORE_QUERY"@, message, "Query returned no rows"@)
}

pub fn no_row_error(message: &str) -> (r: JavelinError)
    ensures
        r@ == no_row(message@),
{
    JavelinError::new(7, "STORE_QUERY", message.to_owned()).details(
        Json::empty().with("cause", Json::text("Query returned no rows")),
    )
}

/// The failure of a write that would repeat what stands in a row already.
pub open spec fn not_unique(message: Text, columns: Text) -> Failure {
    error::caused(7, "STORE_WRITE"@, message, "UNIQUE constraint failed: "@ + columns)
}

pub fn not_unique_error(message: &str, columns: &str) -> (r: JavelinError)
    ensures
        r@ == not_unique(message@, columns@),
{
    let cause = text::concat2("UNIQUE constraint failed: ", columns);
    JavelinError::new(7, "STORE_WRITE", message.to_owned()).details(
        Json::empty().with("cause", Json::text(cause.as_str())),
    )
}

/// The failure of a write that would leave a row without the row it refers to.
pub open spec fn no_reference(message: Text) -> Failure {
    error::caused(7, "STORE_WRITE"@, message, "FOREIGN KEY constraint failed"@)
}

pub fn no_reference_error(message: &str) -> (r: JavelinError)
    ensures
        r@ == no_reference(message@),
{
    JavelinError::new(7, "STORE_WRITE", message.to_owned()).details(
        Json::empty().with("cause", Json::text("FOREIGN KEY constraint failed")),
    )
}

/// The rows without any World.
pub open spec fn blank(root: Text) -> StoreState {
    StoreState {
        root,
        metadata: paths::joined_path(root, ".javelin"@),
        objects: objects::object_store(paths::joined_path(root, ".javelin"@)),
        world: None,
        versions: Seq::empty(),
        layers: Seq::empty(),
        checkpoints: Seq::empty(),
        contributions: Seq::empty(),
        validation_runs: Seq::empty(),
        validations: Seq::empty(),
        version_validations: Seq::empty(),
        conflicts: Seq::empty(),
        claims: Seq::empty(),
        events: Seq::empty(),
        views: Seq::empty(),
        discards: Seq::empty(),
        object_metadata: Seq::empty(),
        sessions: Seq::empty(),
        provenance_events: Seq::empty(),
        attachments: Seq::empty(),
        checkpoint_provenance: Seq::empty(),
        contribution_provenance: Seq::empty(),
        queue: Seq::empty(),
        last_ticket: 0,
    }
}

impl StoreState {
    /// The cursor of the next event.
    pub open spec fn next_cursor(self) -> i64 {
        if self.events.len() == 0 {
            1
        } else {
            next_number(self.events.last().cursor)
        }
    }

    /// The store with one more event.
    pub open spec fn with_event(
        self,
        event_type: Text,
        subject_kind: Option<Text>,
        subject_id: Option<Text>,
        payload: JsonValue,
        now: Text,
    ) -> StoreState {
        StoreState {
            events: self.events.push(
                Event {
                    cursor: self.next_cursor(),
                    event_type,
                    subject_kind,
                    subject_id,
                    payload,
                    created_at: now,
                },
            ),
            ..self
        }
    }

    /// The current version of the World.
    pub open spec fn current(self) -> Option<WorldVersion<Text>> {
        match self.world {
            None => None,
            Some(world) => tables::find(self.versions, records::version_is(world.current_version)),
        }
    }

    pub open spec fn version(self, id: Text) -> Option<WorldVersion<Text>> {
        tables::find(self.versions, records::version_is(id))
    }

    /// The Layer with an ID, or else with a name.
    pub open spec fn layer(self, name_or_id: Text) -> Option<Layer<Text>> {
        match tables::find(self.layers, records::layer_is(name_or_id)) {
            Some(layer) => Some(layer),
            None => tables::find(self.layers, records::layer_name_is(name_or_id)),
        }
    }

    pub open spec fn checkpoint(self, id: Text) -> Option<Checkpoint<Text>> {
        tables::find(self.checkpoints, records::checkpoint_is(id))
    }
}

/// What a lookup of a Layer gives.
pub open spec fn layer_outcome(state: StoreState, name_or_id: Text) -> std::result::Result<
    Layer<Text>,
    Failure,
> {
    match state.layer(name_or_id) {
        Some(layer) => Ok(layer),
        None => Err(Failure::invalid("unknown Private Layer "@ + name_or_id)),
    }
}

/// What a lookup of a Checkpoint gives.
pub open spec fn checkpoint_outcome(state: StoreState, id: Text) -> std::result::Result<
    Checkpoint<Text>,
    Failure,
> {
    match state.checkpoint(id) {
        Some(checkpoint) => Ok(checkpoint),
        None => Err(Failure::invalid("unknown Layer Checkpoint "@ + id)),
    }
}

/// What a lookup of a World Version gives.
pub open spec fn version_outcome(state: StoreState, id: Text) -> std::result::Result<
    WorldVersion<Text>,
    Failure,
> {
    match state.version(id) {
        Some(version) => Ok(version),
        None => Err(Failure::invalid("unknown World Version "@ + id)),
    }
}

/// What a lookup of the current version gives.
pub open spec fn current_outcome(state: StoreState) -> std::result::Result<
    WorldVersion<Text>,
    Failure,
> {
    match state.current() {
        Some(version) => Ok(version),
        None => Err(no_row("cannot read Current World"@)),
    }
}

/// A World Version's name: `v` and digits.
pub open spec fn names_version(reference: Text) -> bool {
    reference.len() > 0 && reference[0] == 'v' && forall|i: int|
        1 <= i < reference.len() ==> '0' <= #[trigger] reference[i] <= '9'
}

/// The state and the root tree that a reference stands for.
pub open spec fn resolve_outcome(state: StoreState, reference: Text) -> std::result::Result<
    (Text, Text),
    Failure,
> {
    if reference == "world"@ || reference == "current"@ {
        match current_outcome(state) {
            Ok(version) => Ok((version.id, version.root_tree)),
            Err(failure) => Err(failure),
        }
    } else if names_version(reference) {
        match version_outcome(state, reference) {
            Ok(version) => Ok((version.id, version.root_tree)),
            Err(failure) => Err(failure),
        }
    } else if text::has_prefix(reference, "layer:"@) {
        match layer_outcome(state, reference.skip(6)) {
            Err(failure) => Err(failure),
            Ok(layer) => match checkpoint_outcome(state, layer.head_checkpoint) {
                Err(failure) => Err(failure),
                Ok(head) => Ok((head.id, head.root_tree)),
            },
        }
    } else if state.checkpoint(reference) is Some {
        let checkpoint = state.checkpoint(reference)->Some_0;
        Ok((checkpoint.id, checkpoint.root_tree))
    } else if state.layer(reference) is Some {
        match checkpoint_outcome(state, state.layer(reference)->Some_0.head_checkpoint) {
            Err(failure) => Err(failure),
            Ok(head) => Ok((head.id, head.root_tree)),
        }
    } else {
        Err(Failure::invalid("unknown State Reference "@ + reference))
    }
}

/// A Layer that a list of Layers shows.
pub open spec fn listed(include_discarded: bool) -> spec_fn(Layer<Text>) -> bool {
    |layer: Layer<Text>| include_discarded || layer.status != LayerStatus::Discarded
}

/// A Layer that the Monitor watches: open, with a view that is current and
/// written.
pub open spec fn monitored(state: StoreState) -> spec_fn(Layer<Text>) -> bool {
    |layer: Layer<Text>|
        (layer.status == LayerStatus::Active || layer.status == LayerStatus::Conflicted)
            && match tables::find(state.views, records::view_is(layer.id)) {
            Some(view) => !view.stale && view.backend != "pending"@,
            None => false,
        }
}

/// A Layer that targets another.
pub open spec fn child_of(parent: Text, include_discarded: bool) -> spec_fn(Layer<Text>) -> bool {
    |layer: Layer<Text>|
        layer.target_kind == TargetKind::Layer && layer.target_id == Some(parent) && (
        include_discarded || layer.status != LayerStatus::Discarded)
}

/// A Checkpoint of a Layer.
pub open spec fn of_layer(layer_id: Text) -> spec_fn(Checkpoint<Text>) -> bool {
    |checkpoint: Checkpoint<Text>| checkpoint.layer_id == layer_id
}

/// An event after a cursor.
pub open spec fn after_cursor(cursor: i64) -> spec_fn(Event<Text, JsonValue>) -> bool {
    |event: Event<Text, JsonValue>| event.cursor > cursor
}

impl Store {
    /// The tables of a directory that is to become a World.
    pub fn create(root: &str) -> (r: Self)
        ensures
            r@ == blank(root@),
    {
        let metadata = paths::join_path(root, ".javelin");
        let store = Store {
            root: root.to_owned(),
            objects: ObjectStore::new(metadata.as_str()),
            metadata,
            world: None,
            versions: Vec::new(),
            layers: Vec::new(),
            checkpoints: Vec::new(),
            contributions: Vec::new(),
            validation_runs: Vec::new(),
            validations: Vec::new(),
            version_validations: Vec::new(),
            conflicts: Vec::new(),
            claims: Vec::new(),
            events: Vec::new(),
            views: Vec::new(),
            discards: Vec::new(),
            object_metadata: Vec::new(),
            sessions: Vec::new(),
            provenance_events: Vec::new(),
            attachments: Vec::new(),
            checkpoint_provenance: Vec::new(),
            contribution_provenance: Vec::new(),
            queue: Vec::new(),
            last_ticket: 0,
        };
        assert(store@ =~= blank(root@));
        store
    }

    pub fn initialized(&self) -> (r: bool)
        ensures
            r == self@.world is Some,
    {
        self.world.is_some()
    }

    pub fn project_id(&self) -> (r: Result<String>)
        ensures
            match self@.world {
                Some(world) => r is Ok && r->Ok_0@ == world.id,
                None => r is Err && r->Err_0@ == no_row("cannot read World ID"@),
            },
    {
        match &self.world {
            Some(world) => Ok(world.id.clone()),
            None => Err(no_row_error("cannot read World ID")),
        }
    }

    pub fn current_world(&self) -> (r: Result<WorldVersion>)
        ensures
            match current_outcome(self@) {
                Ok(version) => r is Ok && r->Ok_0@ == version,
                Err(failure) => r is Err && r->Err_0@ == failure,
            },
    {
        if let Some(world) = &self.world {
            if let Some(i) = records::find_version(&self.versions, world.current_version.as_str()) {
                return Ok(self.versions[i].clone());
            }
        }
        Err(no_row_error("cannot read Current World"))
    }

    pub fn world_version(&self, id: &str) -> (r: Result<WorldVersion>)
        ensures
            match version_outcome(self@, id@) {
                Ok(version) => r is Ok && r->Ok_0@ == version,
                Err(failure) => r is Err && r->Err_0@ == failure,
            },
    {
        match records::find_version(&self.versions, id) {
            Some(i) => Ok(self.versions[i].clone()),
            None => Err(JavelinError::invalid(text::concat2("unknown World Version ", id))),
        }
    }

    /// Every version, in the order in which they were accepted.
    pub fn world_history(&self) -> (r: Vec<WorldVersion>)
        ensures
            r.deep_view() == self@.versions,
    {
        let mut out: Vec<WorldVersion> = Vec::new();
        let mut i: usize = 0;
        while i < self.versions.len()
            invariant
                i <= self.versions@.len(),
                out@.len() == i,
                forall|j: int| 0 <= j < i ==> (#[trigger] out@[j])@ == self.versions@[j]@,
            decreases self.versions@.len() - i,
        {
            out.push(self.versions[i].clone());
            i = i + 1;
        }
        assert(out.deep_view() =~= self.versions.deep_view());
        out
    }

    /// The place of a Layer, by ID or else by name.
    pub fn layer_place(&self, name_or_id: &str) -> (r: Option<usize>)
        ensures
            match r {
                Some(i) => i < self.layers@.len() && self@.layer(name_or_id@) == Some(
                    self.layers@[i as int]@,
                ),
                None => self@.layer(name_or_id@) is None,
            },
    {
        match records::find_layer(&self.layers, name_or_id) {
            Some(i) => Some(i),
            None => records::find_layer_name(&self.layers, name_or_id),
        }
    }

    pub fn layer(&self, name_or_id: &str) -> (r: Result<Layer>)
        ensures
            match layer_outcome(self@, name_or_id@) {
                Ok(layer) => r is Ok && r->Ok_0@ == layer,
                Err(failure) => r is Err && r->Err_0@ == failure,
            },
    {
        match self.layer_place(name_or_id) {
            Some(i) => Ok(self.layers[i].clone()),
            None => Err(
                JavelinError::invalid(text::concat2("unknown Private Layer ", name_or_id)),
            ),
        }
    }

    /// The Layers, by the time of their creation and then by name.
    pub fn layers(&self, include_discarded: bool) -> (r: Vec<Layer>)
        ensures
            r.deep_view() == tables::in_order::<Layer>(
                tables::kept(self@.layers, listed(include_discarded)),
            ),
    {
        let ghost all = self@.layers;
        let mut out: Vec<Layer> = Vec::new();
        let mut i: usize = 0;
        assert(all.take(0) =~= Seq::empty());
        assert(out.deep_view() =~= Seq::empty());
        while i < self.layers.len()
            invariant
                i <= self.layers@.len(),
                all == self@.layers,
                out.deep_view() == tables::kept(all.take(i as int), listed(include_discarded)),
            decreases self.layers@.len() - i,
        {
            let ghost before = out.deep_view();
            proof {
                assert(all.take(i as int + 1).drop_last() =~= all.take(i as int));
                assert(all.take(i as int + 1).last() == self.layers@[i as int]@);
            }
            if include_discarded || self.layers[i].status != LayerStatus::Discarded {
                out.push(self.layers[i].clone());
                assert(out.deep_view() =~= before.push(self.layers@[i as int]@));
            }
            i = i + 1;
        }
        assert(all.take(i as int) =~= all);
        tables::put_in_order(&out)
    }

    fn is_monitored(&self, layer: &Layer) -> (r: bool)
        ensures
            r == monitored(self@)(layer@),
    {
        if layer.status != LayerStatus::Active && layer.status != LayerStatus::Conflicted {
            return false;
        }
        match records::find_view(&self.views, layer.id.as_str()) {
            Some(i) => !self.views[i].stale && !text::same(
                self.views[i].backend.as_str(),
                "pending",
            ),
            None => false,
        }
    }

    /// The Layers that the Monitor watches.
    pub fn monitor_layers(&self) -> (r: Vec<Layer>)
        ensures
            r.deep_view() == tables::in_order::<Layer>(
                tables::kept(self@.layers, monitored(self@)),
            ),
    {
        let ghost all = self@.layers;
        let mut out: Vec<Layer> = Vec::new();
        let mut i: usize = 0;
        assert(all.take(0) =~= Seq::empty());
        assert(out.deep_view() =~= Seq::empty());
        while i < self.layers.len()
            invariant
                i <= self.layers@.len(),
                all == self@.layers,
                out.deep_view() == tables::kept(all.take(i as int), monitored(self@)),
            decreases self.layers@.len() - i,
        {
            let ghost before = out.deep_view();
            proof {
                assert(all.take(i as int + 1).drop_last() =~= all.take(i as int));
                assert(all.take(i as int + 1).last() == self.layers@[i as int]@);
            }
            if self.is_monitored(&self.layers[i]) {
                out.push(self.layers[i].clone());
                assert(out.deep_view() =~= before.push(self.layers@[i as int]@));
            }
            i = i + 1;
        }
        assert(all.take(i as int) =~= all);
        tables::put_in_order(&out)
    }

    fn children(&self, layer_id: &str, include_discarded: bool) -> (r: Vec<Layer>)
        ensures
            r.deep_view() == tables::in_order::<Layer>(
                tables::kept(self@.layers, child_of(layer_id@, include_discarded)),
            ),
    {
        let ghost all = self@.layers;
        let mut out: Vec<Layer> = Vec::new();
        let mut i: usize = 0;
        assert(all.take(0) =~= Seq::empty());
        assert(out.deep_view() =~= Seq::empty());
        while i < self.layers.len()
            invariant
                i <= self.layers@.len(),
                all == self@.layers,
                out.deep_view() == tables::kept(
                    all.take(i as int),
                    child_of(layer_id@, include_discarded),
                ),
            decreases self.layers@.len() - i,
        {
            let ghost before = out.deep_view();
            let layer = &self.layers[i];
            proof {
                assert(all.take(i as int + 1).drop_last() =~= all.take(i as int));
                assert(all.take(i as int + 1).last() == layer@);
            }
            let targets = match &layer.target_id {
                Some(id) => text::same(id.as_str(), layer_id),
                None => false,
            };
            if layer.target_kind == TargetKind::Layer && targets && (include_discarded
                || layer.status != LayerStatus::Discarded) {
                out.push(layer.clone());
                assert(out.deep_view() =~= before.push(layer@));
            }
            i = i + 1;
        }
        assert(all.take(i as int) =~= all);
        tables::put_in_order(&out)
    }

    /// The Layers that target a Layer and are not discarded.
    pub fn active_children(&self, layer_id: &str) -> (r: Vec<Layer>)
        ensures
            r.deep_view() == tables::in_order::<Layer>(
                tables::kept(self@.layers, child_of(layer_id@, false)),
            ),
    {
        self.children(layer_id, false)
    }

    /// The Layers that target a Layer.
    pub fn all_children(&self, layer_id: &str) -> (r: Vec<Layer>)
        ensures
            r.deep_view() == tables::in_order::<Layer>(
                tables::kept(self@.layers, child_of(layer_id@, true)),
            ),
    {
        self.children(layer_id, true)
    }

    pub fn checkpoint(&self, id: &str) -> (r: Result<Checkpoint>)
        ensures
            match checkpoint_outcome(self@, id@) {
                Ok(checkpoint) => r is Ok && r->Ok_0@ == checkpoint,
                Err(failure) => r is Err && r->Err_0@ == failure,
            },
    {
        match records::find_checkpoint(&self.checkpoints, id) {
            Some(i) => Ok(self.checkpoints[i].clone()),
            None => Err(JavelinError::invalid(text::concat2("unknown Layer Checkpoint ", id))),
        }
    }

    pub fn layer_head(&self, layer: &Layer) -> (r: Result<Checkpoint>)
        ensures
            match checkpoint_outcome(self@, layer@.head_checkpoint) {
                Ok(checkpoint) => r is Ok && r->Ok_0@ == checkpoint,
                Err(failure) => r is Err && r->Err_0@ == failure,
            },
    {
        self.checkpoint(layer.head_checkpoint.as_str())
    }

    /// The Checkpoints of a Layer, in the order in which they were appended.
    pub fn checkpoint_history(&self, layer_id: &str) -> (r: Vec<Checkpoint>)
        ensures
            r.deep_view() == tables::kept(self@.checkpoints, of_layer(layer_id@)),
    {
        let ghost all = self@.checkpoints;
        let mut out: Vec<Checkpoint> = Vec::new();
        let mut i: usize = 0;
        assert(all.take(0) =~= Seq::empty());
        assert(out.deep_view() =~= Seq::empty());
        while i < self.checkpoints.len()
            invariant
                i <= self.checkpoints@.len(),
                all == self@.checkpoints,
                out.deep_view() == tables::kept(all.take(i as int), of_layer(layer_id@)),
            decreases self.checkpoints@.len() - i,
        {
            let ghost before = out.deep_view();
            let checkpoint = &self.checkpoints[i];
            proof {
                assert(all.take(i as int + 1).drop_last() =~= all.take(i as int));
                assert(all.take(i as int + 1).last() == checkpoint@);
            }
            if text::same(checkpoint.layer_id.as_str(), layer_id) {
                out.push(checkpoint.clone());
                assert(out.deep_view() =~= before.push(checkpoint@));
            }
            i = i + 1;
        }
        assert(all.take(i as int) =~= all);
        out
    }

    /// The state and the root tree that a reference stands for.
    pub fn resolve_ref(&self, reference: &str) -> (r: Result<(String, String)>)
        ensures
            match resolve_outcome(self@, reference@) {
                Ok(found) => r is Ok && r->Ok_0.0@ == found.0 && r->Ok_0.1@ == found.1,
                Err(failure) => r is Err && r->Err_0@ == failure,
            },
    {
        if text::same(reference, "world") || text::same(reference, "current") {
            let version = self.current_world()?;
            return Ok((version.id, version.root_tree));
        }
        if is_version_name(reference) {
            let version = self.world_version(reference)?;
            return Ok((version.id, version.root_tree));
        }
        if text::starts_with(reference, "layer:") {
            proof {
                reveal_strlit("layer:");
            }
            let length: usize = reference.unicode_len();
            let name = reference.substring_char(6, length);
            assert(reference@.subrange(6, length as int) =~= reference@.skip(6));
            let layer = self.layer(name)?;
            let head = self.layer_head(&layer)?;
            return Ok((head.id, head.root_tree));
        }
        if let Some(i) = records::find_checkpoint(&self.checkpoints, reference) {
            let found = self.checkpoints[i].clone();
            return Ok((found.id, found.root_tree));
        }
        if let Some(i) = self.layer_place(reference) {
            let head = self.layer_head(&self.layers[i])?;
            return Ok((head.id, head.root_tree));
        }
        Err(JavelinError::invalid(text::concat2("unknown State Reference ", reference)))
    }

    /// Whether the view of a Layer is stale.
    pub fn view_stale(&self, layer_id: &str) -> (r: Result<bool>)
        ensures
            match tables::find(self@.views, records::view_is(layer_id@)) {
                Some(view) => r is Ok && r->Ok_0 == view.stale,
                None => r is Err && r->Err_0@ == no_row("cannot read Managed view state"@),
            },
    {
        match records::find_view(&self.views, layer_id) {
            Some(i) => Ok(self.views[i].stale),
            None => Err(no_row_error("cannot read Managed view state")),
        }
    }

    /// The places of the events after a cursor, in the order of the stream.
    pub fn events_since(&self, cursor: i64) -> (r: Vec<usize>)
        ensures
            Seq::new(r@.len(), |i: int| self@.events[r@[i] as int]) == tables::kept(
                self@.events,
                after_cursor(cursor),
            ),
    {
        let ghost all = self@.events;
        let mut out: Vec<usize> = Vec::new();
        let mut i: usize = 0;
        assert(all.take(0) =~= Seq::empty());
        assert(Seq::new(out@.len(), |k: int| all[out@[k] as int]) =~= Seq::empty());
        while i < self.events.len()
            invariant
                i <= self.events@.len(),
                all == self@.events,
                Seq::new(out@.len(), |k: int| all[out@[k] as int]) == tables::kept(
                    all.take(i as int),
                    after_cursor(cursor),
                ),
            decreases self.events@.len() - i,
        {
            let ghost before = out@;
            proof {
                assert(all.take(i as int + 1).drop_last() =~= all.take(i as int));
                assert(all.take(i as int + 1).last() == self.events@[i as int]@);
            }
            if self.events[i].cursor > cursor {
                out.push(i);
                assert(Seq::new(out@.len(), |k: int| all[out@[k] as int]) =~= Seq::new(
                    before.len(),
                    |k: int| all[before[k] as int],
                ).push(all[i as int]));
            }
            i = i + 1;
        }
        assert(all.take(i as int) =~= all);
        out
    }

    /// Appends an event at a given time and gives its cursor.
    pub fn append_event_at(
        &mut self,
        event_type: &str,
        subject_kind: Option<&str>,
        subject_id: Option<&str>,
        payload: Json,
        now: &str,
    ) -> (r: i64)
        ensures
            final(self)@ == old(self)@.with_event(
                event_type@,
                subject_kind.deep_view(),
                subject_id.deep_view(),
                payload@,
                now@,
            ),
            r == old(self)@.next_cursor(),
    {
        let cursor: i64 = if self.events.len() == 0 {
            1
        } else {
            number_after(self.events[self.events.len() - 1].cursor)
        };
        let ghost before = self.events.deep_view();
        let event = Event {
            cursor,
            event_type: event_type.to_owned(),
            subject_kind: owned(subject_kind),
            subject_id: owned(subject_id),
            payload,
            created_at: now.to_owned(),
        };
        let ghost row = event@;
        self.events.push(event);
        assert(self.events.deep_view() =~= before.push(row));
        cursor
    }

    /// Appends an event and gives its cursor.
    pub fn append_event(
        &mut self,
        event_type: &str,
        subject_kind: Option<&str>,
        subject_id: Option<&str>,
        payload: Json,
    ) -> (r: i64)
        ensures
            exists|now: Text|
                clock::is_stamp(now) && final(self)@ == #[trigger] old(self)@.with_event(
                    event_type@,
                    subject_kind.deep_view(),
                    subject_id.deep_view(),
                    payload@,
                    now,
                ),
            r == old(self)@.next_cursor(),
    {
        let now = clock::now();
        self.append_event_at(event_type, subject_kind, subject_id, payload, now.as_str())
    }
}

/// Text of one's own.
pub fn owned(value: Option<&str>) -> (r: Option<String>)
    ensures
        r.deep_view() == value.deep_view(),
{
    match value {
        Some(content) => Some(content.to_owned()),
        None => None,
    }
}

/// The reference is a World Version's name.
pub fn is_version_name(reference: &str) -> (r: bool)
    ensures
        r == names_version(reference@),
{
    let chars = text::chars_of(reference);
    if chars.len() == 0 || chars[0] != 'v' {
        return false;
    }
    let mut i: usize = 1;
    while i < chars.len()
        invariant
            1 <= i <= chars@.len(),
            chars@ == reference@,
            forall|j: int| 1 <= j < i ==> '0' <= #[trigger] chars@[j] <= '9',
        decreases chars@.len() - i,
    {
        let c = chars[i];
        if !('0' <= c && c <= '9') {
            assert(!('0' <= reference@[i as int] <= '9'));
            return false;
        }
        i = i + 1;
    }
    true
}

/// The words for the accepted state stand for the World's current version; a
/// version's name for that version; a Layer behind `layer:` for its head; and any
/// other text for the Checkpoint of that identity, or else for the head of the
/// Layer of that name. The tree is always that of the state it resolves to.
pub proof fn law_reference_stands_for_its_state(state: StoreState, reference: Text)
    requires
        resolve_outcome(state, reference) is Ok,
    ensures
        ({
            let (resolved, root) = resolve_outcome(state, reference)->Ok_0;
            &&& reference == "world"@ || reference == "current"@ ==> resolved
                == state.world->Some_0.current_version
            &&& (exists|i: int|
                0 <= i < state.versions.len() && (#[trigger] state.versions[i]).id == resolved
                    && state.versions[i].root_tree == root) || (exists|i: int|
                0 <= i < state.checkpoints.len() && (#[trigger] state.checkpoints[i]).id == resolved
                    && state.checkpoints[i].root_tree == root)
            &&& reference != "world"@ && reference != "current"@ && names_version(reference)
                ==> resolved == reference
            &&& reference != "world"@ && reference != "current"@ && !names_version(reference)
                && !text::has_prefix(reference, "layer:"@) && (exists|i: int|
                0 <= i < state.checkpoints.len() && (#[trigger] state.checkpoints[i]).id
                    == reference) ==> resolved == reference
            &&& reference != "world"@ && reference != "current"@ && !names_version(reference)
                && text::has_prefix(reference, "layer:"@) ==> state.layer(reference.skip(6)) is Some
                && resolved == state.layer(reference.skip(6))->Some_0.head_checkpoint
        }),
{
    if state.world is Some {
        tables::lemma_first(
            state.versions,
            records::version_is(state.world->Some_0.current_version),
        );
    }
    tables::lemma_first(state.versions, records::version_is(reference));
    tables::lemma_first(state.checkpoints, records::checkpoint_is(reference));
    if let Some(layer) = state.layer(reference.skip(6)) {
        tables::lemma_first(state.checkpoints, records::checkpoint_is(layer.head_checkpoint));
    }
    if let Some(layer) = state.layer(reference) {
        tables::lemma_first(state.checkpoints, records::checkpoint_is(layer.head_checkpoint));
    }
}

/// A Layer is found by its identity before it is found by its name.
pub proof fn law_identity_goes_before_name(state: StoreState, name_or_id: Text)
    ensures
        match state.layer(name_or_id) {
            Some(layer) => {
                &&& state.layers.contains(layer)
                &&& layer.id == name_or_id || layer.name == name_or_id
                &&& (exists|i: int|
                    0 <= i < state.layers.len() && (#[trigger] state.layers[i]).id == name_or_id)
                    ==> layer.id == name_or_id
            },
            None => forall|i: int|
                0 <= i < state.layers.len() ==> (#[trigger] state.layers[i]).id != name_or_id
                    && state.layers[i].name != name_or_id,
        },
{
    tables::lemma_first(state.layers, records::layer_is(name_or_id));
    tables::lemma_first(state.layers, records::layer_name_is(name_or_id));
}

/// An event gets a cursor after that of the last one, and keeps every event
/// before it.
pub proof fn law_event_is_appended(
    state: StoreState,
    event_type: Text,
    subject_kind: Option<Text>,
    subject_id: Option<Text>,
    payload: JsonValue,
    now: Text,
)
    ensures
        ({
            let after = state.with_event(event_type, subject_kind, subject_id, payload, now);
            let event = after.events.last();
            &&& after.events.drop_last() == state.events
            &&& event.event_type == event_type
            &&& event.subject_kind == subject_kind
            &&& event.subject_id == subject_id
            &&& event.payload == payload
            &&& event.created_at == now
            &&& state.events.len() == 0 ==> event.cursor == 1
            &&& state.events.len() > 0 && state.events.last().cursor < i64::MAX ==> event.cursor
                == state.events.last().cursor + 1
        }),
{
    let after = state.with_event(event_type, subject_kind, subject_id, payload, now);
    assert(after.events.drop_last() =~= state.events);
}

/// The Layers that are watched are those with nothing in the way: active or in
/// conflict, with a view that is current and was put on disk.
pub proof fn law_watched_layers_are_at_rest(state: StoreState, layer: Layer<Text>, k: int)
    requires
        0 <= k < state.views.len(),
        state.views[k].layer_id == layer.id,
        forall|j: int| 0 <= j < k ==> (#[trigger] state.views[j]).layer_id != layer.id,
    ensures
        monitored(state)(layer) <==> (layer.status == LayerStatus::Active || layer.status
            == LayerStatus::Conflicted) && !state.views[k].stale && state.views[k].backend
            != "pending"@,
{
    tables::lemma_first_at(state.views, records::view_is(layer.id), k);
}

/// The children of a Layer are the Layers that target it; discarded ones only
/// where they are asked for.
pub proof fn law_children_target_their_parent(
    layer: Layer<Text>,
    parent: Text,
    include_discarded: bool,
)
    ensures
        child_of(parent, include_discarded)(layer) <==> layer.target_kind == TargetKind::Layer
            && layer.target_id == Some(parent) && (layer.status == LayerStatus::Discarded
            ==> include_discarded),
        listed(include_discarded)(layer) <==> (layer.status == LayerStatus::Discarded
            ==> include_discarded),
{
}

/// A World Version is named by `v` and digits, and by nothing else.
pub proof fn law_versions_are_named_by_numbers(n: nat, reference: Text)
    ensures
        names_version("v"@ + text::decimal(n)),
        names_version(reference) ==> reference.len() > 0 && reference[0] == 'v',
        names_version(reference) ==> forall|i: int|
            1 <= i < reference.len() ==> '0' <= #[trigger] reference[i] <= '9',
        !names_version("world"@),
        !names_version("current"@),
{
    reveal_strlit("v");
    reveal_strlit("world");
    reveal_strlit("current");
    assert("world"@[0] == 'w' && "current"@[0] == 'c');
    lemma_decimal_is_digits(n);
    let name = "v"@ + text::decimal(n);
    assert(name[0] == 'v');
    assert forall|i: int| 1 <= i < name.len() implies '0' <= #[trigger] name[i] <= '9' by {
        assert(name[i] == text::decimal(n)[i - 1]);
    }
}

proof fn lemma_decimal_is_digits(n: nat)
    ensures
        forall|i: int|
            0 <= i < text::decimal(n).len() ==> '0' <= #[trigger] text::decimal(n)[i] <= '9',
    decreases n,
{
    if n >= 10 {
        lemma_decimal_is_digits(n / 10);
        let before = text::decimal(n / 10);
        assert forall|i: int| 0 <= i < text::decimal(n).len() implies '0'
            <= #[trigger] text::decimal(n)[i] <= '9' by {
            if i < before.len() {
                assert(text::decimal(n)[i] == before[i]);
            }
        }
    }
}

/// A store without any World has no rows, and its metadata stands in the project.
pub proof fn law_blank_store_is_empty(root: Text)
    requires
        root.len() > 0,
        root.last() != '/',
    ensures
        blank(root).world is None,
        blank(root).versions.len() == 0,
        blank(root).layers.len() == 0,
        blank(root).checkpoints.len() == 0,
        blank(root).contributions.len() == 0,
        blank(root).events.len() == 0,
        blank(root).root == root,
        blank(root).metadata == root + "/.javelin"@,
        blank(root).objects.objects == root + "/.javelin/objects"@,
        blank(root).objects.temp == root + "/.javelin/temp"@,
{
    reveal_strlit("/");
    reveal_strlit(".javelin");
    reveal_strlit("/.javelin");
    reveal_strlit("objects");
    reveal_strlit("temp");
    reveal_strlit("/.javelin/objects");
    reveal_strlit("/.javelin/temp");
    let metadata = blank(root).metadata;
    assert(metadata =~= root + "/.javelin"@);
    assert(metadata.last() == 'n');
    assert(blank(root).objects.objects =~= root + "/.javelin/objects"@);
    assert(blank(root).objects.temp =~= root + "/.javelin/temp"@);
}

/// A reference is owed its state wherever there is one: the accepted state where
/// there is a World, a version or a Checkpoint that is known, and a Layer with a
/// head.
pub proof fn law_reference_is_owed_its_state(state: StoreState, reference: Text)
    ensures
        (reference == "world"@ || reference == "current"@) && state.current() is Some
            ==> resolve_outcome(state, reference) is Ok,
        reference != "world"@ && reference != "current"@ && names_version(reference) ==> (
        resolve_outcome(state, reference) is Ok <==> exists|i: int|
            0 <= i < state.versions.len() && (#[trigger] state.versions[i]).id == reference),
        reference != "world"@ && reference != "current"@ && !names_version(reference)
            && !text::has_prefix(reference, "layer:"@) && (exists|i: int|
            0 <= i < state.checkpoints.len() && (#[trigger] state.checkpoints[i]).id == reference)
            ==> resolve_outcome(state, reference) is Ok,
        reference != "world"@ && reference != "current"@ && !names_version(reference)
            && !text::has_prefix(reference, "layer:"@) && state.checkpoint(reference) is None
            && state.layer(reference) is Some && state.checkpoint(
            state.layer(reference)->Some_0.head_checkpoint,
        ) is Some ==> resolve_outcome(state, reference) is Ok && resolve_outcome(
            state,
            reference,
        )->Ok_0.0 == state.layer(reference)->Some_0.head_checkpoint,
        reference != "world"@ && reference != "current"@ && !names_version(reference)
            && text::has_prefix(reference, "layer:"@) && state.layer(reference.skip(6)) is Some
            && state.checkpoint(state.layer(reference.skip(6))->Some_0.head_checkpoint) is Some
            ==> resolve_outcome(state, reference) is Ok,
        resolve_outcome(state, reference) is Err && reference != "world"@ && reference
            != "current"@ ==> resolve_outcome(state, reference)->Err_0.exit_code == 2,
{
    tables::lemma_first(state.versions, records::version_is(reference));
    tables::lemma_first(state.checkpoints, records::checkpoint_is(reference));
    if let Some(layer) = state.layer(reference) {
        tables::lemma_first(state.checkpoints, records::checkpoint_is(layer.head_checkpoint));
    }
}

} // verus!
