//! Accepting a Publish: one Contribution, and one step of its target.
use vstd::prelude::*;
use crate::clock;
use crate::error::{Failure, JavelinError, Result};
use crate::json::{Json, JsonValue};
use crate::model::{Checkpoint, Layer, LayerStatus, TargetKind, WorldVersion};
use crate::records;
use crate::records::{Contribution, ExistingContribution, World};
use crate::store;
use crate::store::layers;
use crate::store::rows;
use crate::store::{Store, StoreState};
use crate::tables;
use crate::text;
use crate::text::Text;

verus! {

/// A Contribution with an idempotency key.
pub open spec fn keyed(key: Text) -> spec_fn(Contribution<Text>) -> bool {
    |row: Contribution<Text>| row.idempotency_key == Some(key)
}

/// A Layer that can be published to.
pub open spec fn open_parent(id: Text) -> spec_fn(Layer<Text>) -> bool {
    |row: Layer<Text>| row.id == id && row.status != LayerStatus::Discarded
}

/// What a Publish with a key that was accepted before gives: the same again to
/// the Layer that used it, and a refusal to every other.
pub open spec fn repeat_outcome(
    existing: Contribution<Text>,
    layer_id: Text,
) -> std::result::Result<(Text, Text), Failure> {
    match existing.source_layer {
        None => Err(
            Failure::stale("Publish idempotency key belongs to a purged Private Layer"@),
        ),
        Some(owner) => if owner != layer_id {
            Err(Failure::stale("Publish idempotency key belongs to a different Private Layer"@))
        } else {
            Ok((existing.id, existing.resulting_target_ref))
        },
    }
}

/// Where the target of a Layer stands.
pub open spec fn target_ref_outcome(state: StoreState, layer: Layer<Text>) -> std::result::Result<
    Text,
    Failure,
> {
    match layer.target_kind {
        TargetKind::World => match state.world {
            Some(world) => Ok(world.current_version),
            None => Err(store::no_row("cannot read Publish target"@)),
        },
        TargetKind::Layer => match layer.target_id {
            None => Err(Failure::corruption("Layer target has no ID"@)),
            Some(id) => match tables::find(state.layers, open_parent(id)) {
                Some(parent) => Ok(parent.head_checkpoint),
                None => Err(Failure::stale("parent Layer is unavailable"@)),
            },
        },
    }
}

/// The largest sequence of the versions, or zero.
pub open spec fn max_sequence(versions: Seq<WorldVersion<Text>>) -> i64
    decreases versions.len(),
{
    if versions.len() == 0 {
        0
    } else {
        let before = max_sequence(versions.drop_last());
        if versions.last().sequence > before {
            versions.last().sequence
        } else {
            before
        }
    }
}

pub proof fn lemma_max_sequence(versions: Seq<WorldVersion<Text>>)
    ensures
        forall|i: int|
            0 <= i < versions.len() ==> (#[trigger] versions[i]).sequence <= max_sequence(versions),
    decreases versions.len(),
{
    if versions.len() > 0 {
        let before = versions.drop_last();
        lemma_max_sequence(before);
        assert forall|i: int| 0 <= i < versions.len() implies (#[trigger] versions[i]).sequence
            <= max_sequence(versions) by {
            if i < before.len() {
                assert(before[i] == versions[i]);
            }
        }
    }
}

/// The version that a Publish to the World makes.
pub open spec fn published_version(
    state: StoreState,
    previous: Text,
    candidate_root: Text,
    contribution_id: Text,
    now: Text,
) -> WorldVersion<Text> {
    let sequence = store::next_number(max_sequence(state.versions));
    WorldVersion {
        id: "v"@ + text::decimal_int(sequence as int),
        sequence,
        parent_version: Some(previous),
        root_tree: candidate_root,
        accepted_contribution: Some(contribution_id),
        created_at: now,
    }
}

/// The Checkpoint that a Publish to a Layer makes on it.
pub open spec fn published_checkpoint(
    parent_id: Text,
    head: Checkpoint<Text>,
    candidate_root: Text,
    contribution_id: Text,
    checkpoint_id: Text,
    now: Text,
) -> Checkpoint<Text> {
    Checkpoint {
        id: checkpoint_id,
        layer_id: parent_id,
        sequence: store::next_number(head.sequence),
        previous_checkpoint: Some(head.id),
        root_tree: candidate_root,
        synchronized_ref: head.synchronized_ref,
        reason: "Publish Contribution "@ + contribution_id,
        created_at: now,
    }
}

/// The Layer with another head.
pub open spec fn head_moved(layers: Seq<Layer<Text>>, id: Text, head: Text) -> Seq<Layer<Text>> {
    match tables::first(layers, records::layer_is(id)) {
        Some(i) => layers.update(i, Layer { head_checkpoint: head, ..layers[i] }),
        None => layers,
    }
}

/// The target after a Publish, and the reference to its new state.
pub open spec fn advanced_target(
    state: StoreState,
    layer: Layer<Text>,
    previous: Text,
    candidate_root: Text,
    contribution_id: Text,
    checkpoint_id: Text,
    now: Text,
) -> std::result::Result<(StoreState, Text), Failure> {
    match layer.target_kind {
        TargetKind::World => {
            let version = published_version(
                state,
                previous,
                candidate_root,
                contribution_id,
                now,
            );
            match layers::version_refusal(state, version, "cannot append accepted World Version"@) {
                Some(failure) => Err(failure),
                None => Ok(
                    (
                        StoreState {
                            versions: state.versions.push(version),
                            world: Some(
                                World { current_version: version.id, ..state.world->Some_0 },
                            ),
                            ..state
                        },
                        version.id,
                    ),
                ),
            }
        },
        TargetKind::Layer => {
            let parent = layer.target_id->Some_0;
            match state.checkpoint(previous) {
                None => Err(store::no_row("cannot read parent Layer head"@)),
                Some(head) => {
                    let row = published_checkpoint(
                        parent,
                        head,
                        candidate_root,
                        contribution_id,
                        checkpoint_id,
                        now,
                    );
                    match layers::checkpoint_refusal(
                        state,
                        row,
                        "cannot append parent Layer Checkpoint"@,
                    ) {
                        Some(failure) => Err(failure),
                        None => Ok(
                            (
                                StoreState {
                                    checkpoints: state.checkpoints.push(row),
                                    layers: head_moved(state.layers, parent, checkpoint_id),
                                    ..state
                                },
                                checkpoint_id,
                            ),
                        ),
                    }
                },
            }
        },
    }
}

/// What is handed to an acceptance.
#[derive(Debug)]
#[verifier::ext_equal]
pub struct Acceptance<S = String> {
    pub candidate_root: S,
    pub idempotency_key: Option<S>,
    pub summary_json: S,
    pub contribution_id: S,
    pub checkpoint_id: S,
    pub now: S,
}

impl View for Acceptance {
    type V = Acceptance<Text>;

    open spec fn view(&self) -> Acceptance<Text> {
        Acceptance {
            candidate_root: self.candidate_root@,
            idempotency_key: self.idempotency_key.deep_view(),
            summary_json: self.summary_json@,
            contribution_id: self.contribution_id@,
            checkpoint_id: self.checkpoint_id@,
            now: self.now@,
        }
    }
}

/// The row of an accepted Contribution.
pub open spec fn contribution_row(
    layer: Layer<Text>,
    source: Checkpoint<Text>,
    terms: Acceptance<Text>,
    previous: Text,
    resulting: Text,
) -> Contribution<Text> {
    Contribution {
        id: terms.contribution_id,
        idempotency_key: terms.idempotency_key,
        source_layer: Some(layer.id),
        source_checkpoint: Some(source.id),
        target_kind: layer.target_kind,
        target_id: layer.target_id,
        previous_target_ref: previous,
        resulting_target_ref: resulting,
        summary_json: terms.summary_json,
        created_at: terms.now,
    }
}

/// The store after a Contribution is recorded on an advanced target.
pub open spec fn recorded_contribution(
    advanced: StoreState,
    layer: Layer<Text>,
    source: Checkpoint<Text>,
    terms: Acceptance<Text>,
    runs: Seq<Text>,
    link_ids: Seq<Text>,
    previous: Text,
    resulting: Text,
) -> StoreState {
    StoreState {
        contributions: advanced.contributions.push(
            contribution_row(layer, source, terms, previous, resulting),
        ),
        validations: advanced.validations + layers::run_links(
            terms.contribution_id,
            link_ids,
            runs,
        ),
        contribution_provenance: advanced.contribution_provenance + rows::session_links(
            advanced.sessions,
            terms.contribution_id,
            layer.id,
            false,
        ),
        views: match layer.target_kind {
            TargetKind::World => tables::changed(
                advanced.views,
                rows::stale_views_change(layer.id, terms.now),
            ),
            TargetKind::Layer => tables::changed(
                advanced.views,
                rows::stale_view_change(layer.target_id->Some_0, terms.now),
            ),
        },
        ..advanced
    }.with_event(
        "publish.accepted"@,
        Some(layer.target_kind.name()),
        Some(resulting),
        JsonValue::object().field("contribution_id"@, JsonValue::Text(terms.contribution_id)).field(
            "source_layer"@,
            JsonValue::Text(layer.id),
        ).field("previous_target_ref"@, JsonValue::Text(previous)).field(
            "resulting_target_ref"@,
            JsonValue::Text(resulting),
        ).field("candidate_root"@, JsonValue::Text(terms.candidate_root)),
        terms.now,
    )
}

/// What an acceptance with a key that is new gives.
pub open spec fn new_acceptance_outcome(
    state: StoreState,
    layer: Layer<Text>,
    source: Checkpoint<Text>,
    terms: Acceptance<Text>,
    runs: Seq<Text>,
    link_ids: Seq<Text>,
) -> std::result::Result<(StoreState, (Text, Text)), Failure> {
    match target_ref_outcome(state, layer) {
        Err(failure) => Err(failure),
        Ok(previous) => if previous != source.synchronized_ref {
            Err(
                Failure::stale("Publish target advanced after final Refresh; retry Publish"@),
            )
        } else {
            match advanced_target(
                state,
                layer,
                previous,
                terms.candidate_root,
                terms.contribution_id,
                terms.checkpoint_id,
                terms.now,
            ) {
                Err(failure) => Err(failure),
                Ok((advanced, resulting)) => if !tables::any(
                    state.layers,
                    records::layer_is(layer.id),
                ) || state.checkpoint(source.id) is None {
                    Err(Failure::stale("duplicate Publish idempotency key"@))
                } else if !layers::runs_known(state, runs) {
                    Err(store::no_reference("cannot link Publish validation"@))
                } else {
                    Ok(
                        (
                            recorded_contribution(
                                advanced,
                                layer,
                                source,
                                terms,
                                runs,
                                link_ids,
                                previous,
                                resulting,
                            ),
                            (terms.contribution_id, resulting),
                        ),
                    )
                },
            }
        },
    }
}

/// What an acceptance gives: the store after it, the Contribution and the
/// reference to the target's new state.
pub open spec fn accept_outcome(
    state: StoreState,
    layer: Layer<Text>,
    source: Checkpoint<Text>,
    terms: Acceptance<Text>,
    runs: Seq<Text>,
    link_ids: Seq<Text>,
) -> std::result::Result<(StoreState, (Text, Text)), Failure> {
    let existing = match terms.idempotency_key {
        Some(key) => tables::find(state.contributions, keyed(key)),
        None => None,
    };
    match existing {
        Some(contribution) => match repeat_outcome(contribution, layer.id) {
            Ok(found) => Ok((state, found)),
            Err(failure) => Err(failure),
        },
        None => new_acceptance_outcome(state, layer, source, terms, runs, link_ids),
    }
}

impl Store {
    /// The place of the Contribution with a key.
    fn contribution_place(&self, key: &str) -> (r: Option<usize>)
        ensures
            match r {
                Some(i) => i < self.contributions@.len() && tables::find(
                    self@.contributions,
                    keyed(key@),
                ) == Some(self.contributions@[i as int]@),
                None => tables::find(self@.contributions, keyed(key@)) is None,
            },
    {
        let ghost all = self@.contributions;
        let mut i: usize = 0;
        while i < self.contributions.len()
            invariant
                i <= self.contributions@.len(),
                all == self@.contributions,
                forall|j: int| 0 <= j < i ==> !keyed(key@)(#[trigger] all[j]),
            decreases self.contributions@.len() - i,
        {
            assert(all[i as int] == self.contributions@[i as int]@);
            if let Some(own) = &self.contributions[i].idempotency_key {
                if text::same(own.as_str(), key) {
                    proof {
                        tables::lemma_first_at(all, keyed(key@), i as int);
                    }
                    return Some(i);
                }
            }
            i = i + 1;
        }
        proof {
            tables::lemma_first_none(all, keyed(key@));
        }
        None
    }

    /// The Contribution with a key, and the reference that it led to.
    pub fn contribution_by_key(&self, key: &str) -> (r: Option<(String, String)>)
        ensures
            match tables::find(self@.contributions, keyed(key@)) {
                Some(row) => r is Some && r->Some_0.0@ == row.id && r->Some_0.1@
                    == row.resulting_target_ref,
                None => r is None,
            },
    {
        match self.contribution_place(key) {
            Some(i) => Some(
                (
                    self.contributions[i].id.clone(),
                    self.contributions[i].resulting_target_ref.clone(),
                ),
            ),
            None => None,
        }
    }

    /// What a repeated Publish needs of the Contribution with its key.
    pub fn contribution_details_by_key(&self, key: &str) -> (r: Option<ExistingContribution>)
        ensures
            match tables::find(self@.contributions, keyed(key@)) {
                Some(row) => r is Some && r->Some_0@ == (ExistingContribution {
                    id: row.id,
                    resulting_target_ref: row.resulting_target_ref,
                    source_layer: row.source_layer,
                    source_checkpoint: row.source_checkpoint,
                }),
                None => r is None,
            },
    {
        match self.contribution_place(key) {
            Some(i) => {
                let row = &self.contributions[i];
                Some(
                    ExistingContribution {
                        id: row.id.clone(),
                        resulting_target_ref: row.resulting_target_ref.clone(),
                        source_layer: text::copy_option(&row.source_layer),
                        source_checkpoint: text::copy_option(&row.source_checkpoint),
                    },
                )
            },
            None => None,
        }
    }

    fn open_parent_place(&self, id: &str) -> (r: Option<usize>)
        ensures
            match r {
                Some(i) => i < self.layers@.len() && tables::find(self@.layers, open_parent(id@))
                    == Some(self.layers@[i as int]@),
                None => tables::find(self@.layers, open_parent(id@)) is None,
            },
    {
        let ghost all = self@.layers;
        let mut i: usize = 0;
        while i < self.layers.len()
            invariant
                i <= self.layers@.len(),
                all == self@.layers,
                forall|j: int| 0 <= j < i ==> !open_parent(id@)(#[trigger] all[j]),
            decreases self.layers@.len() - i,
        {
            assert(all[i as int] == self.layers@[i as int]@);
            if text::same(self.layers[i].id.as_str(), id) && self.layers[i].status
                != LayerStatus::Discarded {
                proof {
                    tables::lemma_first_at(all, open_parent(id@), i as int);
                }
                return Some(i);
            }
            i = i + 1;
        }
        proof {
            tables::lemma_first_none(all, open_parent(id@));
        }
        None
    }

    /// Where the target of a Layer stands.
    pub fn target_ref(&self, layer: &Layer) -> (r: Result<String>)
        ensures
            match target_ref_outcome(self@, layer@) {
                Ok(found) => r is Ok && r->Ok_0@ == found,
                Err(failure) => r is Err && r->Err_0@ == failure,
            },
    {
        match layer.target_kind {
            TargetKind::World => match &self.world {
                Some(world) => Ok(world.current_version.clone()),
                None => Err(store::no_row_error("cannot read Publish target")),
            },
            TargetKind::Layer => match &layer.target_id {
                None => Err(JavelinError::corruption("Layer target has no ID".to_owned())),
                Some(id) => match self.open_parent_place(id.as_str()) {
                    Some(i) => Ok(self.layers[i].head_checkpoint.clone()),
                    None => Err(JavelinError::stale("parent Layer is unavailable".to_owned())),
                },
            },
        }
    }

    fn largest_sequence(&self) -> (r: i64)
        ensures
            r == max_sequence(self@.versions),
    {
        let ghost all = self@.versions;
        let mut best: i64 = 0;
        let mut i: usize = 0;
        assert(all.take(0) =~= Seq::empty());
        while i < self.versions.len()
            invariant
                i <= self.versions@.len(),
                all == self@.versions,
                best == max_sequence(all.take(i as int)),
            decreases self.versions@.len() - i,
        {
            proof {
                assert(all.take(i as int + 1).drop_last() =~= all.take(i as int));
                assert(all.take(i as int + 1).last() == self.versions@[i as int]@);
            }
            if self.versions[i].sequence > best {
                best = self.versions[i].sequence;
            }
            i = i + 1;
        }
        assert(all.take(i as int) =~= all);
        best
    }

    /// The version that a Publish to the World makes.
    fn new_version(&self, previous: &str, terms: &Acceptance) -> (r: WorldVersion)
        ensures
            r@ == published_version(
                self@,
                previous@,
                terms@.candidate_root,
                terms@.contribution_id,
                terms@.now,
            ),
    {
        let sequence: i64 = store::number_after(self.largest_sequence());
        WorldVersion {
            id: text::concat2("v", text::number_i64(sequence).as_str()),
            sequence,
            parent_version: Some(previous.to_owned()),
            root_tree: terms.candidate_root.clone(),
            accepted_contribution: Some(terms.contribution_id.clone()),
            created_at: terms.now.clone(),
        }
    }

    /// The Checkpoint that a Publish to a Layer makes on it.
    fn new_checkpoint(&self, parent: &str, previous: &str, terms: &Acceptance) -> (r: Result<
        Checkpoint,
    >)
        ensures
            match self@.checkpoint(previous@) {
                None => r is Err && r->Err_0@ == store::no_row("cannot read parent Layer head"@),
                Some(head) => r is Ok && r->Ok_0@ == published_checkpoint(
                    parent@,
                    head,
                    terms@.candidate_root,
                    terms@.contribution_id,
                    terms@.checkpoint_id,
                    terms@.now,
                ),
            },
    {
        let head = match records::find_checkpoint(&self.checkpoints, previous) {
            Some(i) => self.checkpoints[i].clone(),
            None => {
                return Err(store::no_row_error("cannot read parent Layer head"));
            },
        };
        let row = Checkpoint {
            id: terms.checkpoint_id.clone(),
            layer_id: parent.to_owned(),
            sequence: store::number_after(head.sequence),
            previous_checkpoint: Some(head.id.clone()),
            root_tree: terms.candidate_root.clone(),
            synchronized_ref: head.synchronized_ref.clone(),
            reason: text::concat2("Publish Contribution ", terms.contribution_id.as_str()),
            created_at: terms.now.clone(),
        };
        Ok(row)
    }

    /// Whether the target can be taken one step further.
    fn check_target(&self, layer: &Layer, previous: &str, terms: &Acceptance) -> (r: Result<()>)
        requires
            target_ref_outcome(self@, layer@) is Ok,
        ensures
            match advanced_target(
                self@,
                layer@,
                previous@,
                terms@.candidate_root,
                terms@.contribution_id,
                terms@.checkpoint_id,
                terms@.now,
            ) {
                Ok(_) => r is Ok,
                Err(failure) => r is Err && r->Err_0@ == failure,
            },
    {
        match layer.target_kind {
            TargetKind::World => {
                let version = self.new_version(previous, terms);
                self.check_new_version(&version, "cannot append accepted World Version")
            },
            TargetKind::Layer => match &layer.target_id {
                None => Err(JavelinError::corruption("Layer target has no ID".to_owned())),
                Some(parent) => {
                    let row = self.new_checkpoint(parent.as_str(), previous, terms)?;
                    self.check_new_checkpoint(&row, "cannot append parent Layer Checkpoint")
                },
            },
        }
    }

    /// Takes the target one step further.
    fn advance_target(
        &mut self,
        layer: &Layer,
        previous: &str,
        terms: &Acceptance,
    ) -> (r: Result<String>)
        requires
            target_ref_outcome(old(self)@, layer@) is Ok,
        ensures
            match advanced_target(
                old(self)@,
                layer@,
                previous@,
                terms@.candidate_root,
                terms@.contribution_id,
                terms@.checkpoint_id,
                terms@.now,
            ) {
                Ok((state, resulting)) => r is Ok && r->Ok_0@ == resulting && final(self)@ == state,
                Err(failure) => r is Err && r->Err_0@ == failure && final(self)@ == old(self)@,
            },
    {
        let ghost before = self@;
        self.check_target(layer, previous, terms)?;
        match layer.target_kind {
            TargetKind::World => {
                let version = self.new_version(previous, terms);
                let id = version.id.clone();
                let ghost row = version@;
                self.versions.push(version);
                self.advance_world(id.as_str());
                assert(self@ =~= StoreState {
                    versions: before.versions.push(row),
                    world: Some(World { current_version: row.id, ..before.world->Some_0 }),
                    ..before
                });
                Ok(id)
            },
            TargetKind::Layer => {
                let parent = match &layer.target_id {
                    Some(id) => id,
                    None => {
                        return Err(JavelinError::corruption("Layer target has no ID".to_owned()));
                    },
                };
                let checkpoint = self.new_checkpoint(parent.as_str(), previous, terms)?;
                let ghost row = checkpoint@;
                self.checkpoints.push(checkpoint);
                if let Some(i) = records::find_layer(&self.layers, parent.as_str()) {
                    let mut target = self.layers[i].clone();
                    target.head_checkpoint = terms.checkpoint_id.clone();
                    self.layers.set(i, target);
                }
                assert(self@ =~= StoreState {
                    checkpoints: before.checkpoints.push(row),
                    layers: head_moved(before.layers, parent@, terms@.checkpoint_id),
                    ..before
                });
                Ok(terms.checkpoint_id.clone())
            },
        }
    }

    /// Records a Contribution on the advanced target.
    fn record_contribution(
        &mut self,
        layer: &Layer,
        source: &Checkpoint,
        terms: &Acceptance,
        runs: &Vec<String>,
        link_ids: &Vec<String>,
        previous: &str,
        resulting: &str,
    )
        requires
            link_ids@.len() == runs@.len(),
            layer@.target_kind == TargetKind::Layer ==> layer@.target_id is Some,
        ensures
            final(self)@ == recorded_contribution(
                old(self)@,
                layer@,
                source@,
                terms@,
                runs.deep_view(),
                link_ids.deep_view(),
                previous@,
                resulting@,
            ),
    {
        let ghost before = self@;
        self.contributions.push(
            Contribution {
                id: terms.contribution_id.clone(),
                idempotency_key: text::copy_option(&terms.idempotency_key),
                source_layer: Some(layer.id.clone()),
                source_checkpoint: Some(source.id.clone()),
                target_kind: layer.target_kind,
                target_id: text::copy_option(&layer.target_id),
                previous_target_ref: previous.to_owned(),
                resulting_target_ref: resulting.to_owned(),
                summary_json: terms.summary_json.clone(),
                created_at: terms.now.clone(),
            },
        );
        layers::push_run_links(
            &mut self.validations,
            terms.contribution_id.as_str(),
            runs,
            link_ids,
        );
        rows::link_sessions(
            &mut self.contribution_provenance,
            &self.sessions,
            terms.contribution_id.as_str(),
            layer.id.as_str(),
            false,
        );
        match layer.target_kind {
            TargetKind::World => {
                rows::stale_views(&mut self.views, layer.id.as_str(), terms.now.as_str());
            },
            TargetKind::Layer => {
                if let Some(parent) = &layer.target_id {
                    rows::stale_view(&mut self.views, parent.as_str(), terms.now.as_str());
                }
            },
        }
        let payload = Json::empty().with(
            "contribution_id",
            Json::text(terms.contribution_id.as_str()),
        ).with("source_layer", Json::text(layer.id.as_str())).with(
            "previous_target_ref",
            Json::text(previous),
        ).with("resulting_target_ref", Json::text(resulting)).with(
            "candidate_root",
            Json::text(terms.candidate_root.as_str()),
        );
        self.append_event_at(
            "publish.accepted",
            Some(layer.target_kind.as_str()),
            Some(resulting),
            payload,
            terms.now.as_str(),
        );
        assert(self@ =~= recorded_contribution(
            before,
            layer@,
            source@,
            terms@,
            runs.deep_view(),
            link_ids.deep_view(),
            previous@,
            resulting@,
        ));
    }

    /// Accepts a Publish with given identities and time.
    pub fn accept_publish_at(
        &mut self,
        layer: &Layer,
        source: &Checkpoint,
        terms: &Acceptance,
        runs: &Vec<String>,
        link_ids: &Vec<String>,
    ) -> (r: Result<(String, String)>)
        requires
            link_ids@.len() == runs@.len(),
        ensures
            match accept_outcome(
                old(self)@,
                layer@,
                source@,
                terms@,
                runs.deep_view(),
                link_ids.deep_view(),
            ) {
                Ok((state, found)) => r is Ok && r->Ok_0.0@ == found.0 && r->Ok_0.1@ == found.1
                    && final(self)@ == state,
                Err(failure) => r is Err && r->Err_0@ == failure && final(self)@ == old(self)@,
            },
    {
        if let Some(key) = &terms.idempotency_key {
            if let Some(i) = self.contribution_place(key.as_str()) {
                let existing = &self.contributions[i];
                return match &existing.source_layer {
                    None => Err(
                        JavelinError::stale(
                            "Publish idempotency key belongs to a purged Private Layer".to_owned(),
                        ),
                    ),
                    Some(owner) => if *owner != layer.id {
                        Err(
                            JavelinError::stale(
                                "Publish idempotency key belongs to a different Private Layer".to_owned(),
                            ),
                        )
                    } else {
                        Ok((existing.id.clone(), existing.resulting_target_ref.clone()))
                    },
                };
            }
        }
        let previous = self.target_ref(layer)?;
        if previous != source.synchronized_ref {
            return Err(
                JavelinError::stale(
                    "Publish target advanced after final Refresh; retry Publish".to_owned(),
                ),
            );
        }
        self.check_target(layer, previous.as_str(), terms)?;
        if records::find_layer(&self.layers, layer.id.as_str()).is_none()
            || records::find_checkpoint(&self.checkpoints, source.id.as_str()).is_none() {
            return Err(JavelinError::stale("duplicate Publish idempotency key".to_owned()));
        }
        if !self.knows_runs(runs) {
            return Err(store::no_reference_error("cannot link Publish validation"));
        }
        let resulting = self.advance_target(layer, previous.as_str(), terms)?;
        self.record_contribution(
            layer,
            source,
            terms,
            runs,
            link_ids,
            previous.as_str(),
            resulting.as_str(),
        );
        Ok((terms.contribution_id.clone(), resulting))
    }

    /// Accepts a Publish.
    pub fn accept_publish(
        &mut self,
        layer: &Layer,
        source_checkpoint: &Checkpoint,
        candidate_root: &str,
        idempotency_key: Option<&str>,
        validation_ids: &Vec<String>,
        summary_json: &str,
    ) -> (r: Result<(String, String)>)
        ensures
            exists|terms: Acceptance<Text>, link_ids: Seq<Text>|
                terms.candidate_root == candidate_root@ && terms.idempotency_key
                    == idempotency_key.deep_view() && terms.summary_json == summary_json@
                    && link_ids.len() == validation_ids@.len() && clock::is_fresh(
                    terms.contribution_id,
                ) && clock::is_fresh(terms.checkpoint_id) && clock::is_stamp(terms.now)
                && clock::are_fresh(link_ids)
                    && match #[trigger] accept_outcome(
                    old(self)@,
                    layer@,
                    source_checkpoint@,
                    terms,
                    validation_ids.deep_view(),
                    link_ids,
                ) {
                    Ok((state, found)) => r is Ok && r->Ok_0.0@ == found.0 && r->Ok_0.1@ == found.1
                        && final(self)@ == state,
                    Err(failure) => r is Err && r->Err_0@ == failure && final(self)@ == old(self)@,
                },
    {
        let terms = Acceptance {
            candidate_root: candidate_root.to_owned(),
            idempotency_key: store::owned(idempotency_key),
            summary_json: summary_json.to_owned(),
            contribution_id: clock::new_id(),
            checkpoint_id: clock::new_id(),
            now: clock::now(),
        };
        let link_ids = clock::new_ids(validation_ids.len());
        assert(link_ids.deep_view().len() == validation_ids@.len());
        self.accept_publish_at(layer, source_checkpoint, &terms, validation_ids, &link_ids)
    }
}

/// A Contribution tells where it came from and what it made: the Layer and the
/// Checkpoint that were published, the target's state before and after, and the
/// key and summary that it was given.
pub proof fn law_contribution_tells_its_source(
    state: StoreState,
    layer: Layer<Text>,
    source: Checkpoint<Text>,
    terms: Acceptance<Text>,
    runs: Seq<Text>,
    link_ids: Seq<Text>,
)
    requires
        new_acceptance_outcome(state, layer, source, terms, runs, link_ids) is Ok,
    ensures
        ({
            let (after, (contribution, resulting)) = new_acceptance_outcome(
                state,
                layer,
                source,
                terms,
                runs,
                link_ids,
            )->Ok_0;
            let row = after.contributions.last();
            &&& contribution == terms.contribution_id
            &&& row.id == terms.contribution_id
            &&& row.source_layer == Some(layer.id)
            &&& row.source_checkpoint == Some(source.id)
            &&& row.target_kind == layer.target_kind
            &&& row.target_id == layer.target_id
            &&& row.previous_target_ref == source.synchronized_ref
            &&& row.resulting_target_ref == resulting
            &&& row.idempotency_key == terms.idempotency_key
            &&& row.summary_json == terms.summary_json
            &&& row.created_at == terms.now
            &&& after.validations.len() == state.validations.len() + runs.len()
            &&& forall|k: int|
                0 <= k < runs.len() ==> {
                    let link = after.validations[state.validations.len() + k];
                    link.owner == terms.contribution_id && link.run == #[trigger] runs[k]
                }
        }),
{
}

/// What a Publish leaves stale: with the World as the target every view but the
/// publishing Layer's, with a Layer as the target that Layer's view. No view is
/// said to hold anything else than it did.
pub proof fn law_publish_makes_views_stale(
    state: StoreState,
    layer: Layer<Text>,
    source: Checkpoint<Text>,
    terms: Acceptance<Text>,
    runs: Seq<Text>,
    link_ids: Seq<Text>,
)
    requires
        new_acceptance_outcome(state, layer, source, terms, runs, link_ids) is Ok,
    ensures
        ({
            let (after, _) = new_acceptance_outcome(
                state,
                layer,
                source,
                terms,
                runs,
                link_ids,
            )->Ok_0;
            &&& after.views.len() == state.views.len()
            &&& forall|k: int|
                0 <= k < state.views.len() ==> (#[trigger] after.views[k]).stale == (
                state.views[k].stale || (if layer.target_kind == TargetKind::World {
                    state.views[k].layer_id != layer.id
                } else {
                    Some(state.views[k].layer_id) == layer.target_id
                })) && after.views[k].materialized_ref == state.views[k].materialized_ref
                    && after.views[k].path == state.views[k].path && after.views[k].layer_id
                    == state.views[k].layer_id
        }),
{
}

/// A published version has a number above that of every other, and the name
/// that spells it.
pub proof fn law_published_version_is_the_latest(
    state: StoreState,
    previous: Text,
    candidate_root: Text,
    contribution_id: Text,
    now: Text,
)
    requires
        forall|i: int|
            0 <= i < state.versions.len() ==> (#[trigger] state.versions[i]).sequence < i64::MAX,
    ensures
        ({
            let version = published_version(
                state,
                previous,
                candidate_root,
                contribution_id,
                now,
            );
            &&& forall|i: int|
                0 <= i < state.versions.len() ==> (#[trigger] state.versions[i]).sequence
                    < version.sequence
            &&& version.id == "v"@ + text::decimal_int(version.sequence as int)
            &&& version.parent_version == Some(previous)
            &&& version.root_tree == candidate_root
            &&& version.accepted_contribution == Some(contribution_id)
            &&& version.created_at == now
        }),
{
    lemma_max_sequence(state.versions);
    lemma_max_is_reached(state.versions);
}

proof fn lemma_max_is_reached(versions: Seq<WorldVersion<Text>>)
    ensures
        max_sequence(versions) == 0 || exists|i: int|
            0 <= i < versions.len() && (#[trigger] versions[i]).sequence == max_sequence(versions),
    decreases versions.len(),
{
    if versions.len() > 0 {
        let shorter = versions.drop_last();
        lemma_max_is_reached(shorter);
        if versions.last().sequence > max_sequence(shorter) {
            assert(versions[versions.len() - 1].sequence == max_sequence(versions));
        } else if max_sequence(shorter) != 0 {
            let i = choose|i: int|
                0 <= i < shorter.len() && (#[trigger] shorter[i]).sequence == max_sequence(shorter);
            assert(versions[i].sequence == max_sequence(versions));
        }
    }
}

/// A key belongs to the Layer that used it first: to that Layer it gives the
/// same again, and to every other it is refused as stale.
pub proof fn law_key_belongs_to_its_layer(existing: Contribution<Text>, layer_id: Text)
    ensures
        existing.source_layer == Some(layer_id) ==> repeat_outcome(existing, layer_id) == Ok::<
            (Text, Text),
            Failure,
        >((existing.id, existing.resulting_target_ref)),
        existing.source_layer != Some(layer_id) ==> repeat_outcome(existing, layer_id) is Err
            && repeat_outcome(existing, layer_id)->Err_0.exit_code == 6,
{
}

/// A Layer is published to where its target stands now: the World's current
/// version, or the head of the Layer that it targets, as long as that is not
/// discarded.
pub proof fn law_target_is_where_it_stands(state: StoreState, layer: Layer<Text>, i: int)
    ensures
        layer.target_kind == TargetKind::World && state.world is Some ==> target_ref_outcome(
            state,
            layer,
        ) == Ok::<Text, Failure>(state.world->Some_0.current_version),
        layer.target_kind == TargetKind::Layer && layer.target_id is Some && 0 <= i
            < state.layers.len() && state.layers[i].id == layer.target_id->Some_0 && (forall|j: int|
            0 <= j < i ==> (#[trigger] state.layers[j]).id != layer.target_id->Some_0)
            && state.layers[i].status != LayerStatus::Discarded ==> target_ref_outcome(state, layer)
            == Ok::<Text, Failure>(state.layers[i].head_checkpoint),
        layer.target_kind == TargetKind::Layer && layer.target_id is Some && (forall|j: int|
            0 <= j < state.layers.len() && (#[trigger] state.layers[j]).id
                == layer.target_id->Some_0 ==> state.layers[j].status == LayerStatus::Discarded)
            ==> target_ref_outcome(state, layer) is Err && target_ref_outcome(
            state,
            layer,
        )->Err_0.exit_code == 6,
{
    if layer.target_id is Some {
        let id = layer.target_id->Some_0;
        tables::lemma_first(state.layers, open_parent(id));
        if 0 <= i < state.layers.len() && state.layers[i].id == id && (forall|j: int|
            0 <= j < i ==> (#[trigger] state.layers[j]).id != id) && state.layers[i].status
            != LayerStatus::Discarded {
            tables::lemma_first_at(state.layers, open_parent(id), i);
        }
    }
}

/// A Publish to a Layer follows that Layer's head: the new Checkpoint has the
/// next number, names the head, keeps what the Layer is synchronized with, and
/// becomes the head; the Layer is otherwise as it was.
pub proof fn law_publish_follows_the_parents_head(
    state: StoreState,
    layer: Layer<Text>,
    source: Checkpoint<Text>,
    terms: Acceptance<Text>,
    runs: Seq<Text>,
    link_ids: Seq<Text>,
    i: int,
)
    requires
        layer.target_kind == TargetKind::Layer,
        new_acceptance_outcome(state, layer, source, terms, runs, link_ids) is Ok,
        0 <= i < state.layers.len(),
        layer.target_id == Some(state.layers[i].id),
        forall|j: int| 0 <= j < i ==> (#[trigger] state.layers[j]).id != state.layers[i].id,
    ensures
        ({
            let (after, _) = new_acceptance_outcome(
                state,
                layer,
                source,
                terms,
                runs,
                link_ids,
            )->Ok_0;
            let row = after.checkpoints.last();
            let head = state.checkpoint(source.synchronized_ref)->Some_0;
            &&& row.id == terms.checkpoint_id
            &&& row.layer_id == state.layers[i].id
            &&& row.previous_checkpoint == Some(head.id)
            &&& head.sequence < i64::MAX ==> row.sequence == head.sequence + 1
            &&& row.synchronized_ref == head.synchronized_ref
            &&& row.root_tree == terms.candidate_root
            &&& after.layers == state.layers.update(
                i,
                Layer { head_checkpoint: terms.checkpoint_id, ..state.layers[i] },
            )
        }),
{
    tables::lemma_first_at(state.layers, records::layer_is(state.layers[i].id), i);
}

/// A Publish is owed wherever its target stands where the Layer was synchronized
/// with, the Layer, its Checkpoint and the runs are known, and the next state's
/// number and name are free.
pub proof fn law_publish_is_owed(
    state: StoreState,
    layer: Layer<Text>,
    source: Checkpoint<Text>,
    terms: Acceptance<Text>,
    runs: Seq<Text>,
    link_ids: Seq<Text>,
)
    requires
        layer.target_kind == TargetKind::World,
        state.world is Some,
        state.world->Some_0.current_version == source.synchronized_ref,
        state.version(source.synchronized_ref) is Some,
        forall|i: int|
            0 <= i < state.versions.len() ==> (#[trigger] state.versions[i]).sequence < i64::MAX,
        forall|i: int|
            0 <= i < state.versions.len() ==> (#[trigger] state.versions[i]).id != "v"@
                + text::decimal_int(max_sequence(state.versions) + 1),
        exists|i: int| 0 <= i < state.layers.len() && (#[trigger] state.layers[i]).id == layer.id,
        state.checkpoint(source.id) is Some,
        forall|k: int|
            0 <= k < runs.len() ==> tables::any(
                state.validation_runs,
                records::run_is(#[trigger] runs[k]),
            ),
    ensures
        new_acceptance_outcome(state, layer, source, terms, runs, link_ids) is Ok,
{
    lemma_max_sequence(state.versions);
    lemma_max_is_reached(state.versions);
    tables::lemma_first(state.layers, records::layer_is(layer.id));
    let row = published_version(
        state,
        source.synchronized_ref,
        terms.candidate_root,
        terms.contribution_id,
        terms.now,
    );
    tables::lemma_first(state.versions, records::version_numbered(row.sequence));
    tables::lemma_first(state.versions, records::version_is(row.id));
    assert forall|i: int| 0 <= i < state.versions.len() implies (#[trigger]
    state.versions[i]).sequence != row.sequence by {
        assert(state.versions[i].sequence <= max_sequence(state.versions));
    }
}

/// A Publish whose target moved on is refused as stale, whatever else holds, and
/// a key that was not used before decides nothing.
pub proof fn law_stale_publish_is_refused(
    state: StoreState,
    layer: Layer<Text>,
    source: Checkpoint<Text>,
    terms: Acceptance<Text>,
    runs: Seq<Text>,
    link_ids: Seq<Text>,
)
    ensures
        target_ref_outcome(state, layer) is Ok && target_ref_outcome(state, layer)->Ok_0
            != source.synchronized_ref ==> new_acceptance_outcome(
            state,
            layer,
            source,
            terms,
            runs,
            link_ids,
        ) is Err && new_acceptance_outcome(
            state,
            layer,
            source,
            terms,
            runs,
            link_ids,
        )->Err_0.exit_code == 6,
        terms.idempotency_key is None || (forall|i: int|
            0 <= i < state.contributions.len() ==> (#[trigger]
            state.contributions[i]).idempotency_key != terms.idempotency_key) ==> accept_outcome(
            state,
            layer,
            source,
            terms,
            runs,
            link_ids,
        ) == new_acceptance_outcome(state, layer, source, terms, runs, link_ids),
{
    if let Some(key) = terms.idempotency_key {
        tables::lemma_first(state.contributions, keyed(key));
    }
}

/// A Contribution is linked to every session of its Layer, active or ended, and
/// to no other.
pub proof fn law_contribution_names_its_sessions(
    state: StoreState,
    layer: Layer<Text>,
    source: Checkpoint<Text>,
    terms: Acceptance<Text>,
    runs: Seq<Text>,
    link_ids: Seq<Text>,
    session: records::Session<Text>,
)
    requires
        new_acceptance_outcome(state, layer, source, terms, runs, link_ids) is Ok,
    ensures
        ({
            let after = new_acceptance_outcome(
                state,
                layer,
                source,
                terms,
                runs,
                link_ids,
            )->Ok_0.0;
            let before = state.contribution_provenance.len() as int;
            &&& after.contribution_provenance.take(before) == state.contribution_provenance
            &&& state.sessions.contains(session) && session.layer_id == Some(layer.id)
                ==> after.contribution_provenance.contains(
                records::ProvenanceLink { owner: terms.contribution_id, session_id: session.id },
            )
            &&& forall|k: int|
                before <= k < after.contribution_provenance.len() ==> (#[trigger]
                after.contribution_provenance[k]).owner == terms.contribution_id && exists|i: int|
                    0 <= i < state.sessions.len() && (#[trigger] state.sessions[i]).id
                        == after.contribution_provenance[k].session_id
                        && state.sessions[i].layer_id == Some(layer.id)
        }),
{
    let after = new_acceptance_outcome(state, layer, source, terms, runs, link_ids)->Ok_0.0;
    let before = state.contribution_provenance.len() as int;
    let links = rows::session_links(state.sessions, terms.contribution_id, layer.id, false);
    assert(after.contribution_provenance.take(before) =~= state.contribution_provenance);
    if state.sessions.contains(session) && session.layer_id == Some(layer.id) {
        let wanted = rows::session_of(layer.id, false);
        tables::lemma_kept(state.sessions, wanted);
        let found = tables::kept(state.sessions, wanted);
        assert(found.contains(session));
        let k = choose|k: int| 0 <= k < found.len() && found[k] == session;
        let link = records::ProvenanceLink {
            owner: terms.contribution_id,
            session_id: session.id,
        };
        assert(links[k] == link);
        assert(after.contribution_provenance[before + k] == link);
    }
    assert forall|k: int| before <= k < after.contribution_provenance.len() implies (#[trigger]
    after.contribution_provenance[k]).owner == terms.contribution_id && exists|i: int|
        0 <= i < state.sessions.len() && (#[trigger] state.sessions[i]).id
            == after.contribution_provenance[k].session_id && state.sessions[i].layer_id == Some(
            layer.id,
        ) by {
        assert(after.contribution_provenance[k] == links[k - before]);
        layers::law_links_are_of_the_layer(
            state.sessions,
            terms.contribution_id,
            layer.id,
            false,
            k - before,
        );
    }
}

} // verus!
