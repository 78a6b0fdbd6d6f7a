//! The rows of the store.
use vstd::prelude::*;
use crate::json::{Json, JsonValue};
use crate::model;
use crate::model::{Checkpoint, Layer, TargetKind, TreeEntry, WorldVersion};
use crate::tables;
use crate::tables::Row;
use crate::text;
use crate::text::Text;

verus! {

/// The World: its identity and its current version.
#[verifier::ext_equal]
#[derive(Debug)]
pub struct World<S = String> {
    pub id: S,
    pub current_version: S,
    pub created_at: S,
}

impl View for World {
    type V = World<Text>;

    open spec fn view(&self) -> World<Text> {
        World {
            id: self.id@,
            current_version: self.current_version@,
            created_at: self.created_at@,
        }
    }
}

impl DeepView for World {
    type V = World<Text>;

    open spec fn deep_view(&self) -> World<Text> {
        self@
    }
}

impl Clone for World {
    fn clone(&self) -> (r: Self)
        ensures
            r@ == self@,
    {
        World {
            id: self.id.clone(),
            current_version: self.current_version.clone(),
            created_at: self.created_at.clone(),
        }
    }
}

/// An accepted Publish.
#[verifier::ext_equal]
#[derive(Debug)]
pub struct Contribution<S = String> {
    pub id: S,
    pub idempotency_key: Option<S>,
    pub source_layer: Option<S>,
    pub source_checkpoint: Option<S>,
    pub target_kind: TargetKind,
    pub target_id: Option<S>,
    pub previous_target_ref: S,
    pub resulting_target_ref: S,
    pub summary_json: S,
    pub created_at: S,
}

impl View for Contribution {
    type V = Contribution<Text>;

    open spec fn view(&self) -> Contribution<Text> {
        Contribution {
            id: self.id@,
            idempotency_key: self.idempotency_key.deep_view(),
            source_layer: self.source_layer.deep_view(),
            source_checkpoint: self.source_checkpoint.deep_view(),
            target_kind: self.target_kind,
            target_id: self.target_id.deep_view(),
            previous_target_ref: self.previous_target_ref@,
            resulting_target_ref: self.resulting_target_ref@,
            summary_json: self.summary_json@,
            created_at: self.created_at@,
        }
    }
}

impl DeepView for Contribution {
    type V = Contribution<Text>;

    open spec fn deep_view(&self) -> Contribution<Text> {
        self@
    }
}

impl Clone for Contribution {
    fn clone(&self) -> (r: Self)
        ensures
            r@ == self@,
    {
        Contribution {
            id: self.id.clone(),
            idempotency_key: text::copy_option(&self.idempotency_key),
            source_layer: text::copy_option(&self.source_layer),
            source_checkpoint: text::copy_option(&self.source_checkpoint),
            target_kind: self.target_kind,
            target_id: text::copy_option(&self.target_id),
            previous_target_ref: self.previous_target_ref.clone(),
            resulting_target_ref: self.resulting_target_ref.clone(),
            summary_json: self.summary_json.clone(),
            created_at: self.created_at.clone(),
        }
    }
}

/// What a repeated Publish needs of the Contribution with its key.
#[verifier::ext_equal]
#[derive(Debug)]
pub struct ExistingContribution<S = String> {
    pub id: S,
    pub resulting_target_ref: S,
    pub source_layer: Option<S>,
    pub source_checkpoint: Option<S>,
}

impl View for ExistingContribution {
    type V = ExistingContribution<Text>;

    open spec fn view(&self) -> ExistingContribution<Text> {
        ExistingContribution {
            id: self.id@,
            resulting_target_ref: self.resulting_target_ref@,
            source_layer: self.source_layer.deep_view(),
            source_checkpoint: self.source_checkpoint.deep_view(),
        }
    }
}

impl DeepView for ExistingContribution {
    type V = ExistingContribution<Text>;

    open spec fn deep_view(&self) -> ExistingContribution<Text> {
        self@
    }
}

impl Clone for ExistingContribution {
    fn clone(&self) -> (r: Self)
        ensures
            r@ == self@,
    {
        ExistingContribution {
            id: self.id.clone(),
            resulting_target_ref: self.resulting_target_ref.clone(),
            source_layer: text::copy_option(&self.source_layer),
            source_checkpoint: text::copy_option(&self.source_checkpoint),
        }
    }
}

/// A run of a World Rule.
#[verifier::ext_equal]
#[derive(Debug)]
pub struct ValidationRecord<S = String> {
    pub id: S,
    pub rule_name: S,
    pub command_json: S,
    pub required: bool,
    pub exit_code: i32,
    pub duration_ms: i64,
    pub environment_json: S,
    pub stdout_object: Option<S>,
    pub stderr_object: Option<S>,
    pub candidate_root: S,
    pub policy_hash: S,
    pub created_at: S,
}

impl View for ValidationRecord {
    type V = ValidationRecord<Text>;

    open spec fn view(&self) -> ValidationRecord<Text> {
        ValidationRecord {
            id: self.id@,
            rule_name: self.rule_name@,
            command_json: self.command_json@,
            required: self.required,
            exit_code: self.exit_code,
            duration_ms: self.duration_ms,
            environment_json: self.environment_json@,
            stdout_object: self.stdout_object.deep_view(),
            stderr_object: self.stderr_object.deep_view(),
            candidate_root: self.candidate_root@,
            policy_hash: self.policy_hash@,
            created_at: self.created_at@,
        }
    }
}

impl DeepView for ValidationRecord {
    type V = ValidationRecord<Text>;

    open spec fn deep_view(&self) -> ValidationRecord<Text> {
        self@
    }
}

impl Clone for ValidationRecord {
    fn clone(&self) -> (r: Self)
        ensures
            r@ == self@,
    {
        ValidationRecord {
            id: self.id.clone(),
            rule_name: self.rule_name.clone(),
            command_json: self.command_json.clone(),
            required: self.required,
            exit_code: self.exit_code,
            duration_ms: self.duration_ms,
            environment_json: self.environment_json.clone(),
            stdout_object: text::copy_option(&self.stdout_object),
            stderr_object: text::copy_option(&self.stderr_object),
            candidate_root: self.candidate_root.clone(),
            policy_hash: self.policy_hash.clone(),
            created_at: self.created_at.clone(),
        }
    }
}

/// A validation run behind a Contribution or a World Version.
#[verifier::ext_equal]
#[derive(Debug)]
pub struct ValidationLink<S = String> {
    pub id: S,
    pub owner: S,
    pub run: S,
}

impl View for ValidationLink {
    type V = ValidationLink<Text>;

    open spec fn view(&self) -> ValidationLink<Text> {
        ValidationLink {
            id: self.id@,
            owner: self.owner@,
            run: self.run@,
        }
    }
}

impl DeepView for ValidationLink {
    type V = ValidationLink<Text>;

    open spec fn deep_view(&self) -> ValidationLink<Text> {
        self@
    }
}

impl Clone for ValidationLink {
    fn clone(&self) -> (r: Self)
        ensures
            r@ == self@,
    {
        ValidationLink {
            id: self.id.clone(),
            owner: self.owner.clone(),
            run: self.run.clone(),
        }
    }
}

/// A stored Conflict with its three path states.
#[verifier::ext_equal]
#[derive(Debug)]
pub struct ConflictRecord<S = String> {
    pub id: S,
    pub layer_id: S,
    pub path: S,
    pub conflict_type: S,
    pub base_entry: Option<TreeEntry<S>>,
    pub target_entry: Option<TreeEntry<S>>,
    pub private_entry: Option<TreeEntry<S>>,
    pub target_ref: S,
    pub status: S,
    pub resolution: Option<S>,
    pub created_at: S,
}

impl View for ConflictRecord {
    type V = ConflictRecord<Text>;

    open spec fn view(&self) -> ConflictRecord<Text> {
        ConflictRecord {
            id: self.id@,
            layer_id: self.layer_id@,
            path: self.path@,
            conflict_type: self.conflict_type@,
            base_entry: self.base_entry.deep_view(),
            target_entry: self.target_entry.deep_view(),
            private_entry: self.private_entry.deep_view(),
            target_ref: self.target_ref@,
            status: self.status@,
            resolution: self.resolution.deep_view(),
            created_at: self.created_at@,
        }
    }
}

impl DeepView for ConflictRecord {
    type V = ConflictRecord<Text>;

    open spec fn deep_view(&self) -> ConflictRecord<Text> {
        self@
    }
}

impl Clone for ConflictRecord {
    fn clone(&self) -> (r: Self)
        ensures
            r@ == self@,
    {
        ConflictRecord {
            id: self.id.clone(),
            layer_id: self.layer_id.clone(),
            path: self.path.clone(),
            conflict_type: self.conflict_type.clone(),
            base_entry: model::copy_state(self.base_entry.as_ref()),
            target_entry: model::copy_state(self.target_entry.as_ref()),
            private_entry: model::copy_state(self.private_entry.as_ref()),
            target_ref: self.target_ref.clone(),
            status: self.status.clone(),
            resolution: text::copy_option(&self.resolution),
            created_at: self.created_at.clone(),
        }
    }
}

/// A passive Claim of a path.
#[verifier::ext_equal]
#[derive(Debug)]
pub struct Claim<S = String> {
    pub id: S,
    pub layer_id: S,
    pub resource: S,
    pub kind: S,
    pub expires_at: S,
    pub released_at: Option<S>,
    pub created_at: S,
}

impl View for Claim {
    type V = Claim<Text>;

    open spec fn view(&self) -> Claim<Text> {
        Claim {
            id: self.id@,
            layer_id: self.layer_id@,
            resource: self.resource@,
            kind: self.kind@,
            expires_at: self.expires_at@,
            released_at: self.released_at.deep_view(),
            created_at: self.created_at@,
        }
    }
}

impl DeepView for Claim {
    type V = Claim<Text>;

    open spec fn deep_view(&self) -> Claim<Text> {
        self@
    }
}

impl Clone for Claim {
    fn clone(&self) -> (r: Self)
        ensures
            r@ == self@,
    {
        Claim {
            id: self.id.clone(),
            layer_id: self.layer_id.clone(),
            resource: self.resource.clone(),
            kind: self.kind.clone(),
            expires_at: self.expires_at.clone(),
            released_at: text::copy_option(&self.released_at),
            created_at: self.created_at.clone(),
        }
    }
}

/// An entry of the event stream.
#[verifier::ext_equal]
#[derive(Debug)]
pub struct Event<S = String, J = Json> {
    pub cursor: i64,
    pub event_type: S,
    pub subject_kind: Option<S>,
    pub subject_id: Option<S>,
    pub payload: J,
    pub created_at: S,
}

impl View for Event {
    type V = Event<Text, JsonValue>;

    open spec fn view(&self) -> Event<Text, JsonValue> {
        Event {
            cursor: self.cursor,
            event_type: self.event_type@,
            subject_kind: self.subject_kind.deep_view(),
            subject_id: self.subject_id.deep_view(),
            payload: self.payload@,
            created_at: self.created_at@,
        }
    }
}

impl DeepView for Event {
    type V = Event<Text, JsonValue>;

    open spec fn deep_view(&self) -> Event<Text, JsonValue> {
        self@
    }
}

/// The Managed view of a Layer.
#[verifier::ext_equal]
#[derive(Debug)]
pub struct ViewRecord<S = String> {
    pub layer_id: S,
    pub path: S,
    pub materialized_ref: S,
    pub stale: bool,
    pub backend: S,
    pub updated_at: S,
}

impl View for ViewRecord {
    type V = ViewRecord<Text>;

    open spec fn view(&self) -> ViewRecord<Text> {
        ViewRecord {
            layer_id: self.layer_id@,
            path: self.path@,
            materialized_ref: self.materialized_ref@,
            stale: self.stale,
            backend: self.backend@,
            updated_at: self.updated_at@,
        }
    }
}

impl DeepView for ViewRecord {
    type V = ViewRecord<Text>;

    open spec fn deep_view(&self) -> ViewRecord<Text> {
        self@
    }
}

impl Clone for ViewRecord {
    fn clone(&self) -> (r: Self)
        ensures
            r@ == self@,
    {
        ViewRecord {
            layer_id: self.layer_id.clone(),
            path: self.path.clone(),
            materialized_ref: self.materialized_ref.clone(),
            stale: self.stale,
            backend: self.backend.clone(),
            updated_at: self.updated_at.clone(),
        }
    }
}

/// Until when a discarded Layer is retained.
#[verifier::ext_equal]
#[derive(Debug)]
pub struct DiscardRecord<S = String> {
    pub layer_id: S,
    pub discarded_at: S,
    pub purge_after: S,
}

impl View for DiscardRecord {
    type V = DiscardRecord<Text>;

    open spec fn view(&self) -> DiscardRecord<Text> {
        DiscardRecord {
            layer_id: self.layer_id@,
            discarded_at: self.discarded_at@,
            purge_after: self.purge_after@,
        }
    }
}

impl DeepView for DiscardRecord {
    type V = DiscardRecord<Text>;

    open spec fn deep_view(&self) -> DiscardRecord<Text> {
        self@
    }
}

impl Clone for DiscardRecord {
    fn clone(&self) -> (r: Self)
        ensures
            r@ == self@,
    {
        DiscardRecord {
            layer_id: self.layer_id.clone(),
            discarded_at: self.discarded_at.clone(),
            purge_after: self.purge_after.clone(),
        }
    }
}

/// What is known of an object beside its file.
#[verifier::ext_equal]
#[derive(Debug)]
pub struct ObjectRecord<S = String> {
    pub id: S,
    pub kind: S,
    pub uncompressed_size: i64,
    pub created_at: S,
}

impl View for ObjectRecord {
    type V = ObjectRecord<Text>;

    open spec fn view(&self) -> ObjectRecord<Text> {
        ObjectRecord {
            id: self.id@,
            kind: self.kind@,
            uncompressed_size: self.uncompressed_size,
            created_at: self.created_at@,
        }
    }
}

impl DeepView for ObjectRecord {
    type V = ObjectRecord<Text>;

    open spec fn deep_view(&self) -> ObjectRecord<Text> {
        self@
    }
}

impl Clone for ObjectRecord {
    fn clone(&self) -> (r: Self)
        ensures
            r@ == self@,
    {
        ObjectRecord {
            id: self.id.clone(),
            kind: self.kind.clone(),
            uncompressed_size: self.uncompressed_size,
            created_at: self.created_at.clone(),
        }
    }
}

/// A provenance session.
#[verifier::ext_equal]
#[derive(Debug)]
pub struct Session<S = String> {
    pub id: S,
    pub layer_id: Option<S>,
    pub actor_json: S,
    pub status: S,
    pub started_at: S,
    pub ended_at: Option<S>,
}

impl View for Session {
    type V = Session<Text>;

    open spec fn view(&self) -> Session<Text> {
        Session {
            id: self.id@,
            layer_id: self.layer_id.deep_view(),
            actor_json: self.actor_json@,
            status: self.status@,
            started_at: self.started_at@,
            ended_at: self.ended_at.deep_view(),
        }
    }
}

impl DeepView for Session {
    type V = Session<Text>;

    open spec fn deep_view(&self) -> Session<Text> {
        self@
    }
}

impl Clone for Session {
    fn clone(&self) -> (r: Self)
        ensures
            r@ == self@,
    {
        Session {
            id: self.id.clone(),
            layer_id: text::copy_option(&self.layer_id),
            actor_json: self.actor_json.clone(),
            status: self.status.clone(),
            started_at: self.started_at.clone(),
            ended_at: text::copy_option(&self.ended_at),
        }
    }
}

/// A recorded event of a provenance session.
#[verifier::ext_equal]
#[derive(Debug)]
pub struct ProvenanceEvent<S = String> {
    pub event_id: S,
    pub session_id: S,
    pub layer_id: Option<S>,
    pub timestamp: S,
    pub actor_json: S,
    pub event_type: S,
    pub payload_json: S,
}

impl View for ProvenanceEvent {
    type V = ProvenanceEvent<Text>;

    open spec fn view(&self) -> ProvenanceEvent<Text> {
        ProvenanceEvent {
            event_id: self.event_id@,
            session_id: self.session_id@,
            layer_id: self.layer_id.deep_view(),
            timestamp: self.timestamp@,
            actor_json: self.actor_json@,
            event_type: self.event_type@,
            payload_json: self.payload_json@,
        }
    }
}

impl DeepView for ProvenanceEvent {
    type V = ProvenanceEvent<Text>;

    open spec fn deep_view(&self) -> ProvenanceEvent<Text> {
        self@
    }
}

impl Clone for ProvenanceEvent {
    fn clone(&self) -> (r: Self)
        ensures
            r@ == self@,
    {
        ProvenanceEvent {
            event_id: self.event_id.clone(),
            session_id: self.session_id.clone(),
            layer_id: text::copy_option(&self.layer_id),
            timestamp: self.timestamp.clone(),
            actor_json: self.actor_json.clone(),
            event_type: self.event_type.clone(),
            payload_json: self.payload_json.clone(),
        }
    }
}

/// A file attached to a provenance session.
#[verifier::ext_equal]
#[derive(Debug)]
pub struct Attachment<S = String> {
    pub id: S,
    pub session_id: S,
    pub object_id: Option<S>,
    pub name: S,
    pub media_type: Option<S>,
    pub purged: bool,
    pub created_at: S,
}

impl View for Attachment {
    type V = Attachment<Text>;

    open spec fn view(&self) -> Attachment<Text> {
        Attachment {
            id: self.id@,
            session_id: self.session_id@,
            object_id: self.object_id.deep_view(),
            name: self.name@,
            media_type: self.media_type.deep_view(),
            purged: self.purged,
            created_at: self.created_at@,
        }
    }
}

impl DeepView for Attachment {
    type V = Attachment<Text>;

    open spec fn deep_view(&self) -> Attachment<Text> {
        self@
    }
}

impl Clone for Attachment {
    fn clone(&self) -> (r: Self)
        ensures
            r@ == self@,
    {
        Attachment {
            id: self.id.clone(),
            session_id: self.session_id.clone(),
            object_id: text::copy_option(&self.object_id),
            name: self.name.clone(),
            media_type: text::copy_option(&self.media_type),
            purged: self.purged,
            created_at: self.created_at.clone(),
        }
    }
}

/// A session behind a Checkpoint or a Contribution.
#[verifier::ext_equal]
#[derive(Debug)]
pub struct ProvenanceLink<S = String> {
    pub owner: S,
    pub session_id: S,
}

impl View for ProvenanceLink {
    type V = ProvenanceLink<Text>;

    open spec fn view(&self) -> ProvenanceLink<Text> {
        ProvenanceLink {
            owner: self.owner@,
            session_id: self.session_id@,
        }
    }
}

impl DeepView for ProvenanceLink {
    type V = ProvenanceLink<Text>;

    open spec fn deep_view(&self) -> ProvenanceLink<Text> {
        self@
    }
}

impl Clone for ProvenanceLink {
    fn clone(&self) -> (r: Self)
        ensures
            r@ == self@,
    {
        ProvenanceLink {
            owner: self.owner.clone(),
            session_id: self.session_id.clone(),
        }
    }
}

/// A Publish that waits for its turn at a target.
#[verifier::ext_equal]
#[derive(Debug)]
pub struct QueueEntry<S = String> {
    pub ticket: i64,
    pub request_id: S,
    pub target: S,
    pub pid: u32,
    pub created_at: S,
}

impl View for QueueEntry {
    type V = QueueEntry<Text>;

    open spec fn view(&self) -> QueueEntry<Text> {
        QueueEntry {
            ticket: self.ticket,
            request_id: self.request_id@,
            target: self.target@,
            pid: self.pid,
            created_at: self.created_at@,
        }
    }
}

impl DeepView for QueueEntry {
    type V = QueueEntry<Text>;

    open spec fn deep_view(&self) -> QueueEntry<Text> {
        self@
    }
}

impl Clone for QueueEntry {
    fn clone(&self) -> (r: Self)
        ensures
            r@ == self@,
    {
        QueueEntry {
            ticket: self.ticket,
            request_id: self.request_id.clone(),
            target: self.target.clone(),
            pid: self.pid,
            created_at: self.created_at.clone(),
        }
    }
}

impl Row for Layer {
    open spec fn key(row: Layer<Text>) -> (Text, Text) {
        (row.created_at, row.name)
    }

    fn order_key(&self) -> (r: (String, String)) {
        (self.created_at.clone(), self.name.clone())
    }

    fn copy(&self) -> (r: Self) {
        self.clone()
    }
}

impl Row for ConflictRecord {
    open spec fn key(row: ConflictRecord<Text>) -> (Text, Text) {
        (row.created_at, row.path)
    }

    fn order_key(&self) -> (r: (String, String)) {
        (self.created_at.clone(), self.path.clone())
    }

    fn copy(&self) -> (r: Self) {
        self.clone()
    }
}

impl Row for Claim {
    open spec fn key(row: Claim<Text>) -> (Text, Text) {
        (row.created_at, Seq::empty())
    }

    fn order_key(&self) -> (r: (String, String)) {
        (self.created_at.clone(), String::new())
    }

    fn copy(&self) -> (r: Self) {
        self.clone()
    }
}

impl Row for Session {
    open spec fn key(row: Session<Text>) -> (Text, Text) {
        (row.started_at, Seq::empty())
    }

    fn order_key(&self) -> (r: (String, String)) {
        (self.started_at.clone(), String::new())
    }

    fn copy(&self) -> (r: Self) {
        self.clone()
    }
}

impl Row for DiscardRecord {
    open spec fn key(row: DiscardRecord<Text>) -> (Text, Text) {
        (row.purge_after, Seq::empty())
    }

    fn order_key(&self) -> (r: (String, String)) {
        (self.purge_after.clone(), String::new())
    }

    fn copy(&self) -> (r: Self) {
        self.clone()
    }
}

impl Row for ObjectRecord {
    open spec fn key(row: ObjectRecord<Text>) -> (Text, Text) {
        (row.id, Seq::empty())
    }

    fn order_key(&self) -> (r: (String, String)) {
        (self.id.clone(), String::new())
    }

    fn copy(&self) -> (r: Self) {
        self.clone()
    }
}

impl Row for ProvenanceEvent {
    open spec fn key(row: ProvenanceEvent<Text>) -> (Text, Text) {
        (row.timestamp, row.event_id)
    }

    fn order_key(&self) -> (r: (String, String)) {
        (self.timestamp.clone(), self.event_id.clone())
    }

    fn copy(&self) -> (r: Self) {
        self.clone()
    }
}

impl Row for ProvenanceLink {
    open spec fn key(row: ProvenanceLink<Text>) -> (Text, Text) {
        (row.session_id, Seq::empty())
    }

    fn order_key(&self) -> (r: (String, String)) {
        (self.session_id.clone(), String::new())
    }

    fn copy(&self) -> (r: Self) {
        self.clone()
    }
}

pub open spec fn version_is(id: Text) -> spec_fn(WorldVersion<Text>) -> bool {
    |row: WorldVersion<Text>| row.id == id
}

pub fn find_version(rows: &Vec<WorldVersion>, id: &str) -> (r: Option<usize>)
    ensures
        match r {
            Some(i) => i < rows@.len() && tables::first(rows.deep_view(), version_is(id@)) == Some(
                i as int,
            ) && tables::find(rows.deep_view(), version_is(id@)) == Some(rows@[i as int]@),
            None => tables::first(rows.deep_view(), version_is(id@)) is None,
        },
{
    let ghost all = rows.deep_view();
    let mut i: usize = 0;
    while i < rows.len()
        invariant
            i <= rows@.len(),
            all == rows.deep_view(),
            forall|j: int| 0 <= j < i ==> !version_is(id@)(#[trigger] all[j]),
        decreases rows@.len() - i,
    {
        assert(all[i as int] == rows@[i as int]@);
        if text::same(rows[i].id.as_str(), id) {
            proof {
                tables::lemma_first_at(all, version_is(id@), i as int);
            }
            return Some(i);
        }
        i = i + 1;
    }
    proof {
        tables::lemma_first_none(all, version_is(id@));
    }
    None
}

pub open spec fn layer_is(id: Text) -> spec_fn(Layer<Text>) -> bool {
    |row: Layer<Text>| row.id == id
}

pub fn find_layer(rows: &Vec<Layer>, id: &str) -> (r: Option<usize>)
    ensures
        match r {
            Some(i) => i < rows@.len() && tables::first(rows.deep_view(), layer_is(id@)) == Some(
                i as int,
            ) && tables::find(rows.deep_view(), layer_is(id@)) == Some(rows@[i as int]@),
            None => tables::first(rows.deep_view(), layer_is(id@)) is None,
        },
{
    let ghost all = rows.deep_view();
    let mut i: usize = 0;
    while i < rows.len()
        invariant
            i <= rows@.len(),
            all == rows.deep_view(),
            forall|j: int| 0 <= j < i ==> !layer_is(id@)(#[trigger] all[j]),
        decreases rows@.len() - i,
    {
        assert(all[i as int] == rows@[i as int]@);
        if text::same(rows[i].id.as_str(), id) {
            proof {
                tables::lemma_first_at(all, layer_is(id@), i as int);
            }
            return Some(i);
        }
        i = i + 1;
    }
    proof {
        tables::lemma_first_none(all, layer_is(id@));
    }
    None
}

pub open spec fn layer_name_is(name: Text) -> spec_fn(Layer<Text>) -> bool {
    |row: Layer<Text>| row.name == name
}

pub fn find_layer_name(rows: &Vec<Layer>, name: &str) -> (r: Option<usize>)
    ensures
        match r {
            Some(i) => i < rows@.len() && tables::first(rows.deep_view(), layer_name_is(name@)) == Some(
                i as int,
            ) && tables::find(rows.deep_view(), layer_name_is(name@)) == Some(rows@[i as int]@),
            None => tables::first(rows.deep_view(), layer_name_is(name@)) is None,
        },
{
    let ghost all = rows.deep_view();
    let mut i: usize = 0;
    while i < rows.len()
        invariant
            i <= rows@.len(),
            all == rows.deep_view(),
            forall|j: int| 0 <= j < i ==> !layer_name_is(name@)(#[trigger] all[j]),
        decreases rows@.len() - i,
    {
        assert(all[i as int] == rows@[i as int]@);
        if text::same(rows[i].name.as_str(), name) {
            proof {
                tables::lemma_first_at(all, layer_name_is(name@), i as int);
            }
            return Some(i);
        }
        i = i + 1;
    }
    proof {
        tables::lemma_first_none(all, layer_name_is(name@));
    }
    None
}

pub open spec fn layer_view_is(view_path: Text) -> spec_fn(Layer<Text>) -> bool {
    |row: Layer<Text>| row.view_path == view_path
}

pub fn find_layer_view(rows: &Vec<Layer>, view_path: &str) -> (r: Option<usize>)
    ensures
        match r {
            Some(i) => i < rows@.len() && tables::first(rows.deep_view(), layer_view_is(view_path@)) == Some(
                i as int,
            ) && tables::find(rows.deep_view(), layer_view_is(view_path@)) == Some(rows@[i as int]@),
            None => tables::first(rows.deep_view(), layer_view_is(view_path@)) is None,
        },
{
    let ghost all = rows.deep_view();
    let mut i: usize = 0;
    while i < rows.len()
        invariant
            i <= rows@.len(),
            all == rows.deep_view(),
            forall|j: int| 0 <= j < i ==> !layer_view_is(view_path@)(#[trigger] all[j]),
        decreases rows@.len() - i,
    {
        assert(all[i as int] == rows@[i as int]@);
        if text::same(rows[i].view_path.as_str(), view_path) {
            proof {
                tables::lemma_first_at(all, layer_view_is(view_path@), i as int);
            }
            return Some(i);
        }
        i = i + 1;
    }
    proof {
        tables::lemma_first_none(all, layer_view_is(view_path@));
    }
    None
}

/// A version with a number.
pub open spec fn version_numbered(sequence: i64) -> spec_fn(WorldVersion<Text>) -> bool {
    |row: WorldVersion<Text>| row.sequence == sequence
}

pub fn has_version_number(rows: &Vec<WorldVersion>, sequence: i64) -> (r: bool)
    ensures
        r == tables::any(rows.deep_view(), version_numbered(sequence)),
{
    let ghost all = rows.deep_view();
    let mut i: usize = 0;
    while i < rows.len()
        invariant
            i <= rows@.len(),
            all == rows.deep_view(),
            forall|j: int| 0 <= j < i ==> !version_numbered(sequence)(#[trigger] all[j]),
        decreases rows@.len() - i,
    {
        assert(all[i as int] == rows@[i as int]@);
        if rows[i].sequence == sequence {
            proof {
                tables::lemma_any(all, version_numbered(sequence), i as int);
            }
            return true;
        }
        i = i + 1;
    }
    proof {
        tables::lemma_first_none(all, version_numbered(sequence));
    }
    false
}

/// A Checkpoint of a Layer with a number.
pub open spec fn checkpoint_numbered(layer_id: Text, sequence: i64) -> spec_fn(
    Checkpoint<Text>,
) -> bool {
    |row: Checkpoint<Text>| row.layer_id == layer_id && row.sequence == sequence
}

pub fn has_checkpoint_number(rows: &Vec<Checkpoint>, layer_id: &str, sequence: i64) -> (r: bool)
    ensures
        r == tables::any(rows.deep_view(), checkpoint_numbered(layer_id@, sequence)),
{
    let ghost all = rows.deep_view();
    let mut i: usize = 0;
    while i < rows.len()
        invariant
            i <= rows@.len(),
            all == rows.deep_view(),
            forall|j: int|
                0 <= j < i ==> !checkpoint_numbered(layer_id@, sequence)(#[trigger] all[j]),
        decreases rows@.len() - i,
    {
        assert(all[i as int] == rows@[i as int]@);
        if text::same(rows[i].layer_id.as_str(), layer_id) && rows[i].sequence == sequence {
            proof {
                tables::lemma_any(all, checkpoint_numbered(layer_id@, sequence), i as int);
            }
            return true;
        }
        i = i + 1;
    }
    proof {
        tables::lemma_first_none(all, checkpoint_numbered(layer_id@, sequence));
    }
    false
}

pub open spec fn checkpoint_is(id: Text) -> spec_fn(Checkpoint<Text>) -> bool {
    |row: Checkpoint<Text>| row.id == id
}

pub fn find_checkpoint(rows: &Vec<Checkpoint>, id: &str) -> (r: Option<usize>)
    ensures
        match r {
            Some(i) => i < rows@.len() && tables::first(rows.deep_view(), checkpoint_is(id@)) == Some(
                i as int,
            ) && tables::find(rows.deep_view(), checkpoint_is(id@)) == Some(rows@[i as int]@),
            None => tables::first(rows.deep_view(), checkpoint_is(id@)) is None,
        },
{
    let ghost all = rows.deep_view();
    let mut i: usize = 0;
    while i < rows.len()
        invariant
            i <= rows@.len(),
            all == rows.deep_view(),
            forall|j: int| 0 <= j < i ==> !checkpoint_is(id@)(#[trigger] all[j]),
        decreases rows@.len() - i,
    {
        assert(all[i as int] == rows@[i as int]@);
        if text::same(rows[i].id.as_str(), id) {
            proof {
                tables::lemma_first_at(all, checkpoint_is(id@), i as int);
            }
            return Some(i);
        }
        i = i + 1;
    }
    proof {
        tables::lemma_first_none(all, checkpoint_is(id@));
    }
    None
}

pub open spec fn run_is(id: Text) -> spec_fn(ValidationRecord<Text>) -> bool {
    |row: ValidationRecord<Text>| row.id == id
}

pub fn find_run(rows: &Vec<ValidationRecord>, id: &str) -> (r: Option<usize>)
    ensures
        match r {
            Some(i) => i < rows@.len() && tables::first(rows.deep_view(), run_is(id@)) == Some(
                i as int,
            ) && tables::find(rows.deep_view(), run_is(id@)) == Some(rows@[i as int]@),
            None => tables::first(rows.deep_view(), run_is(id@)) is None,
        },
{
    let ghost all = rows.deep_view();
    let mut i: usize = 0;
    while i < rows.len()
        invariant
            i <= rows@.len(),
            all == rows.deep_view(),
            forall|j: int| 0 <= j < i ==> !run_is(id@)(#[trigger] all[j]),
        decreases rows@.len() - i,
    {
        assert(all[i as int] == rows@[i as int]@);
        if text::same(rows[i].id.as_str(), id) {
            proof {
                tables::lemma_first_at(all, run_is(id@), i as int);
            }
            return Some(i);
        }
        i = i + 1;
    }
    proof {
        tables::lemma_first_none(all, run_is(id@));
    }
    None
}

pub open spec fn conflict_is(id: Text) -> spec_fn(ConflictRecord<Text>) -> bool {
    |row: ConflictRecord<Text>| row.id == id
}

pub fn find_conflict(rows: &Vec<ConflictRecord>, id: &str) -> (r: Option<usize>)
    ensures
        match r {
            Some(i) => i < rows@.len() && tables::first(rows.deep_view(), conflict_is(id@)) == Some(
                i as int,
            ) && tables::find(rows.deep_view(), conflict_is(id@)) == Some(rows@[i as int]@),
            None => tables::first(rows.deep_view(), conflict_is(id@)) is None,
        },
{
    let ghost all = rows.deep_view();
    let mut i: usize = 0;
    while i < rows.len()
        invariant
            i <= rows@.len(),
            all == rows.deep_view(),
            forall|j: int| 0 <= j < i ==> !conflict_is(id@)(#[trigger] all[j]),
        decreases rows@.len() - i,
    {
        assert(all[i as int] == rows@[i as int]@);
        if text::same(rows[i].id.as_str(), id) {
            proof {
                tables::lemma_first_at(all, conflict_is(id@), i as int);
            }
            return Some(i);
        }
        i = i + 1;
    }
    proof {
        tables::lemma_first_none(all, conflict_is(id@));
    }
    None
}

pub open spec fn view_is(layer_id: Text) -> spec_fn(ViewRecord<Text>) -> bool {
    |row: ViewRecord<Text>| row.layer_id == layer_id
}

pub fn find_view(rows: &Vec<ViewRecord>, layer_id: &str) -> (r: Option<usize>)
    ensures
        match r {
            Some(i) => i < rows@.len() && tables::first(rows.deep_view(), view_is(layer_id@)) == Some(
                i as int,
            ) && tables::find(rows.deep_view(), view_is(layer_id@)) == Some(rows@[i as int]@),
            None => tables::first(rows.deep_view(), view_is(layer_id@)) is None,
        },
{
    let ghost all = rows.deep_view();
    let mut i: usize = 0;
    while i < rows.len()
        invariant
            i <= rows@.len(),
            all == rows.deep_view(),
            forall|j: int| 0 <= j < i ==> !view_is(layer_id@)(#[trigger] all[j]),
        decreases rows@.len() - i,
    {
        assert(all[i as int] == rows@[i as int]@);
        if text::same(rows[i].layer_id.as_str(), layer_id) {
            proof {
                tables::lemma_first_at(all, view_is(layer_id@), i as int);
            }
            return Some(i);
        }
        i = i + 1;
    }
    proof {
        tables::lemma_first_none(all, view_is(layer_id@));
    }
    None
}

pub open spec fn discard_is(layer_id: Text) -> spec_fn(DiscardRecord<Text>) -> bool {
    |row: DiscardRecord<Text>| row.layer_id == layer_id
}

pub fn find_discard(rows: &Vec<DiscardRecord>, layer_id: &str) -> (r: Option<usize>)
    ensures
        match r {
            Some(i) => i < rows@.len() && tables::first(rows.deep_view(), discard_is(layer_id@)) == Some(
                i as int,
            ) && tables::find(rows.deep_view(), discard_is(layer_id@)) == Some(rows@[i as int]@),
            None => tables::first(rows.deep_view(), discard_is(layer_id@)) is None,
        },
{
    let ghost all = rows.deep_view();
    let mut i: usize = 0;
    while i < rows.len()
        invariant
            i <= rows@.len(),
            all == rows.deep_view(),
            forall|j: int| 0 <= j < i ==> !discard_is(layer_id@)(#[trigger] all[j]),
        decreases rows@.len() - i,
    {
        assert(all[i as int] == rows@[i as int]@);
        if text::same(rows[i].layer_id.as_str(), layer_id) {
            proof {
                tables::lemma_first_at(all, discard_is(layer_id@), i as int);
            }
            return Some(i);
        }
        i = i + 1;
    }
    proof {
        tables::lemma_first_none(all, discard_is(layer_id@));
    }
    None
}

pub open spec fn object_is(id: Text) -> spec_fn(ObjectRecord<Text>) -> bool {
    |row: ObjectRecord<Text>| row.id == id
}

pub fn find_object(rows: &Vec<ObjectRecord>, id: &str) -> (r: Option<usize>)
    ensures
        match r {
            Some(i) => i < rows@.len() && tables::first(rows.deep_view(), object_is(id@)) == Some(
                i as int,
            ) && tables::find(rows.deep_view(), object_is(id@)) == Some(rows@[i as int]@),
            None => tables::first(rows.deep_view(), object_is(id@)) is None,
        },
{
    let ghost all = rows.deep_view();
    let mut i: usize = 0;
    while i < rows.len()
        invariant
            i <= rows@.len(),
            all == rows.deep_view(),
            forall|j: int| 0 <= j < i ==> !object_is(id@)(#[trigger] all[j]),
        decreases rows@.len() - i,
    {
        assert(all[i as int] == rows@[i as int]@);
        if text::same(rows[i].id.as_str(), id) {
            proof {
                tables::lemma_first_at(all, object_is(id@), i as int);
            }
            return Some(i);
        }
        i = i + 1;
    }
    proof {
        tables::lemma_first_none(all, object_is(id@));
    }
    None
}

pub open spec fn session_is(id: Text) -> spec_fn(Session<Text>) -> bool {
    |row: Session<Text>| row.id == id
}

pub fn find_session(rows: &Vec<Session>, id: &str) -> (r: Option<usize>)
    ensures
        match r {
            Some(i) => i < rows@.len() && tables::first(rows.deep_view(), session_is(id@)) == Some(
                i as int,
            ) && tables::find(rows.deep_view(), session_is(id@)) == Some(rows@[i as int]@),
            None => tables::first(rows.deep_view(), session_is(id@)) is None,
        },
{
    let ghost all = rows.deep_view();
    let mut i: usize = 0;
    while i < rows.len()
        invariant
            i <= rows@.len(),
            all == rows.deep_view(),
            forall|j: int| 0 <= j < i ==> !session_is(id@)(#[trigger] all[j]),
        decreases rows@.len() - i,
    {
        assert(all[i as int] == rows@[i as int]@);
        if text::same(rows[i].id.as_str(), id) {
            proof {
                tables::lemma_first_at(all, session_is(id@), i as int);
            }
            return Some(i);
        }
        i = i + 1;
    }
    proof {
        tables::lemma_first_none(all, session_is(id@));
    }
    None
}

/// Lists come oldest first: Layers, Conflicts and Claims by the time they were
/// made, sessions by their start, provenance events by their time, and discarded
/// Layers by the end of their retention.
pub proof fn law_lists_come_oldest_first(
    layers: Seq<Layer<Text>>,
    conflicts: Seq<ConflictRecord<Text>>,
    claims: Seq<Claim<Text>>,
    sessions: Seq<Session<Text>>,
    events: Seq<ProvenanceEvent<Text>>,
    discards: Seq<DiscardRecord<Text>>,
    i: int,
    j: int,
)
    requires
        0 <= i < j,
    ensures
        j < layers.len() ==> !text::text_less(
            tables::in_order::<Layer>(layers)[j].created_at,
            tables::in_order::<Layer>(layers)[i].created_at,
        ),
        j < conflicts.len() ==> !text::text_less(
            tables::in_order::<ConflictRecord>(conflicts)[j].created_at,
            tables::in_order::<ConflictRecord>(conflicts)[i].created_at,
        ),
        j < claims.len() ==> !text::text_less(
            tables::in_order::<Claim>(claims)[j].created_at,
            tables::in_order::<Claim>(claims)[i].created_at,
        ),
        j < sessions.len() ==> !text::text_less(
            tables::in_order::<Session>(sessions)[j].started_at,
            tables::in_order::<Session>(sessions)[i].started_at,
        ),
        j < events.len() ==> !text::text_less(
            tables::in_order::<ProvenanceEvent>(events)[j].timestamp,
            tables::in_order::<ProvenanceEvent>(events)[i].timestamp,
        ),
        j < discards.len() ==> !text::text_less(
            tables::in_order::<DiscardRecord>(discards)[j].purge_after,
            tables::in_order::<DiscardRecord>(discards)[i].purge_after,
        ),
{
    tables::lemma_in_order_rows::<Layer>(layers);
    tables::lemma_in_order_rows::<ConflictRecord>(conflicts);
    tables::lemma_in_order_rows::<Claim>(claims);
    tables::lemma_in_order_rows::<Session>(sessions);
    tables::lemma_in_order_rows::<ProvenanceEvent>(events);
    tables::lemma_in_order_rows::<DiscardRecord>(discards);
    if j < layers.len() {
        let all = tables::in_order::<Layer>(layers);
        lemma_not_before(all[i].created_at, all[j].created_at);
    }
    if j < conflicts.len() {
        let all = tables::in_order::<ConflictRecord>(conflicts);
        lemma_not_before(all[i].created_at, all[j].created_at);
    }
    if j < claims.len() {
        let all = tables::in_order::<Claim>(claims);
        lemma_not_before(all[i].created_at, all[j].created_at);
    }
    if j < sessions.len() {
        let all = tables::in_order::<Session>(sessions);
        lemma_not_before(all[i].started_at, all[j].started_at);
    }
    if j < events.len() {
        let all = tables::in_order::<ProvenanceEvent>(events);
        lemma_not_before(all[i].timestamp, all[j].timestamp);
    }
    if j < discards.len() {
        let all = tables::in_order::<DiscardRecord>(discards);
        lemma_not_before(all[i].purge_after, all[j].purge_after);
    }
}

proof fn lemma_not_before(a: Text, b: Text)
    ensures
        a == b || text::text_less(a, b) ==> !text::text_less(b, a),
{
    text::lemma_text_less_irreflexive(a);
    if text::text_less(a, b) {
        text::lemma_text_less_asymmetric(a, b);
    }
}

} // verus!
