//! Stored Conflicts and their resolution.
use vstd::prelude::*;
use crate::clock;
use crate::error::{Failure, JavelinError, Result};
use crate::integration::ConflictInput;
use crate::json::{Json, JsonValue};
use crate::model;
use crate::model::LayerStatus;
use crate::records;
use crate::records::ConflictRecord;
use crate::store;
use crate::store::layers;
use crate::store::{Store, StoreState};
use crate::tables;
use crate::text;
use crate::text::Text;

verus! {

/// The row of a new Conflict.
pub open spec fn conflict_row(
    layer_id: Text,
    target_ref: Text,
    conflict: ConflictInput<Text>,
    id: Text,
    now: Text,
) -> ConflictRecord<Text> {
    ConflictRecord {
        id,
        layer_id,
        path: conflict.path,
        conflict_type: conflict.conflict_type,
        base_entry: conflict.base,
        target_entry: conflict.target,
        private_entry: conflict.private,
        target_ref,
        status: "open"@,
        resolution: None,
        created_at: now,
    }
}

/// The store with one more Conflict.
pub open spec fn with_conflict(
    state: StoreState,
    layer_id: Text,
    target_ref: Text,
    conflict: ConflictInput<Text>,
    id: Text,
    now: Text,
) -> StoreState {
    StoreState {
        conflicts: state.conflicts.push(conflict_row(layer_id, target_ref, conflict, id, now)),
        ..state
    }.with_event(
        "conflict.created"@,
        Some("conflict"@),
        Some(id),
        JsonValue::object().field("layer_id"@, JsonValue::Text(layer_id)).field(
            "path"@,
            JsonValue::Text(conflict.path),
        ).field("type"@, JsonValue::Text(conflict.conflict_type)),
        now,
    )
}

/// The store with more Conflicts.
pub open spec fn with_conflicts(
    state: StoreState,
    layer_id: Text,
    target_ref: Text,
    conflicts: Seq<ConflictInput<Text>>,
    ids: Seq<Text>,
    now: Text,
) -> StoreState
    decreases conflicts.len(),
{
    if conflicts.len() == 0 {
        state
    } else {
        with_conflict(
            with_conflicts(
                state,
                layer_id,
                target_ref,
                conflicts.drop_last(),
                ids,
                now,
            ),
            layer_id,
            target_ref,
            conflicts.last(),
            ids[conflicts.len() - 1],
            now,
        )
    }
}

/// The store after Conflicts of a Layer are recorded.
pub open spec fn recorded_conflicts(
    state: StoreState,
    layer_id: Text,
    target_ref: Text,
    conflicts: Seq<ConflictInput<Text>>,
    ids: Seq<Text>,
    now: Text,
) -> StoreState {
    with_conflicts(
        layers::with_status(state, layer_id, LayerStatus::Conflicted),
        layer_id,
        target_ref,
        conflicts,
        ids,
        now,
    )
}

/// What recording Conflicts of a Layer gives.
pub open spec fn record_outcome(
    state: StoreState,
    layer_id: Text,
    target_ref: Text,
    conflicts: Seq<ConflictInput<Text>>,
    ids: Seq<Text>,
    now: Text,
) -> std::result::Result<StoreState, Failure> {
    if conflicts.len() > 0 && !tables::any(state.layers, records::layer_is(layer_id)) {
        Err(store::no_reference("cannot store Conflict"@))
    } else {
        Ok(recorded_conflicts(state, layer_id, target_ref, conflicts, ids, now))
    }
}

/// A Conflict of a Layer, or of any; only an open one, unless so asked.
pub open spec fn shown(layer: Option<Text>, include_resolved: bool) -> spec_fn(
    ConflictRecord<Text>,
) -> bool {
    |row: ConflictRecord<Text>|
        (layer is None || layer == Some(row.layer_id)) && (include_resolved || row.status
            == "open"@)
}

/// What a lookup of a Conflict gives.
pub open spec fn conflict_outcome(state: StoreState, id: Text) -> std::result::Result<
    ConflictRecord<Text>,
    Failure,
> {
    match tables::find(state.conflicts, records::conflict_is(id)) {
        Some(row) => Ok(row),
        None => Err(Failure::invalid("unknown Conflict "@ + id)),
    }
}

/// The Conflict with its resolution.
pub open spec fn settled(state: StoreState, id: Text, resolution: Text) -> StoreState {
    match tables::first(state.conflicts, records::conflict_is(id)) {
        Some(i) => StoreState {
            conflicts: state.conflicts.update(
                i,
                ConflictRecord {
                    status: "resolved"@,
                    resolution: Some(resolution),
                    ..state.conflicts[i]
                },
            ),
            ..state
        },
        None => state,
    }
}

/// How many Conflicts of a Layer are open.
pub open spec fn open_count(state: StoreState, layer_id: Text) -> nat {
    tables::count(state.conflicts, shown(Some(layer_id), false))
}

/// The store after a Conflict is resolved. The Layer is active again once none
/// of its Conflicts is open.
pub open spec fn resolved_conflict(
    state: StoreState,
    conflict: ConflictRecord<Text>,
    resolution: Text,
    now: Text,
) -> StoreState {
    let after = settled(state, conflict.id, resolution);
    let remaining = open_count(after, conflict.layer_id);
    let revived = if remaining == 0 {
        layers::with_status(after, conflict.layer_id, LayerStatus::Active)
    } else {
        after
    };
    revived.with_event(
        "conflict.resolved"@,
        Some("conflict"@),
        Some(conflict.id),
        JsonValue::object().field("resolution"@, JsonValue::Text(resolution)).field(
            "remaining"@,
            JsonValue::Number(text::decimal(remaining)),
        ),
        now,
    )
}

/// What resolving a Conflict gives.
pub open spec fn resolve_outcome(
    state: StoreState,
    id: Text,
    resolution: Text,
    now: Text,
) -> std::result::Result<StoreState, Failure> {
    match conflict_outcome(state, id) {
        Err(failure) => Err(failure),
        Ok(conflict) => if conflict.status != "open"@ {
            Err(Failure::invalid("Conflict "@ + id + " is already resolved"@))
        } else {
            Ok(resolved_conflict(state, conflict, resolution, now))
        },
    }
}

impl Store {
    /// Records Conflicts of a Layer with given identities and time.
    pub fn record_conflicts_at(
        &mut self,
        layer_id: &str,
        target_ref: &str,
        conflicts: &Vec<ConflictInput>,
        ids: &Vec<String>,
        now: &str,
    ) -> (r: Result<()>)
        requires
            ids@.len() == conflicts@.len(),
        ensures
            match record_outcome(
                old(self)@,
                layer_id@,
                target_ref@,
                conflicts.deep_view(),
                ids.deep_view(),
                now@,
            ) {
                Ok(state) => r is Ok && final(self)@ == state,
                Err(failure) => r is Err && r->Err_0@ == failure && final(self)@ == old(self)@,
            },
    {
        if conflicts.len() > 0 && records::find_layer(&self.layers, layer_id).is_none() {
            return Err(store::no_reference_error("cannot store Conflict"));
        }
        self.set_layer_status(layer_id, LayerStatus::Conflicted);
        let ghost start = self@;
        let ghost all = conflicts.deep_view();
        let mut i: usize = 0;
        assert(all.take(0) =~= Seq::empty());
        while i < conflicts.len()
            invariant
                i <= conflicts@.len(),
                ids@.len() == conflicts@.len(),
                all == conflicts.deep_view(),
                self@ == with_conflicts(
                    start,
                    layer_id@,
                    target_ref@,
                    all.take(i as int),
                    ids.deep_view(),
                    now@,
                ),
            decreases conflicts@.len() - i,
        {
            let ghost before = self@;
            let conflict = &conflicts[i];
            let id = &ids[i];
            proof {
                assert(all.take(i as int + 1).drop_last() =~= all.take(i as int));
                assert(all.take(i as int + 1).last() == conflict@);
            }
            self.conflicts.push(
                ConflictRecord {
                    id: id.clone(),
                    layer_id: layer_id.to_owned(),
                    path: conflict.path.clone(),
                    conflict_type: conflict.conflict_type.clone(),
                    base_entry: model::copy_state(conflict.base.as_ref()),
                    target_entry: model::copy_state(conflict.target.as_ref()),
                    private_entry: model::copy_state(conflict.private.as_ref()),
                    target_ref: target_ref.to_owned(),
                    status: "open".to_owned(),
                    resolution: None,
                    created_at: now.to_owned(),
                },
            );
            let payload = Json::empty().with("layer_id", Json::text(layer_id)).with(
                "path",
                Json::text(conflict.path.as_str()),
            ).with("type", Json::text(conflict.conflict_type.as_str()));
            self.append_event_at(
                "conflict.created",
                Some("conflict"),
                Some(id.as_str()),
                payload,
                now,
            );
            assert(self@ =~= with_conflict(
                before,
                layer_id@,
                target_ref@,
                conflict@,
                id@,
                now@,
            ));
            i = i + 1;
        }
        assert(all.take(i as int) =~= all);
        Ok(())
    }

    /// Records Conflicts of a Layer and gives their identities.
    pub fn record_conflicts(
        &mut self,
        layer_id: &str,
        target_ref: &str,
        conflicts: &Vec<ConflictInput>,
    ) -> (r: Result<Vec<String>>)
        ensures
            exists|ids: Seq<Text>, now: Text|
                clock::is_stamp(now) && ids.len() == conflicts@.len() && clock::are_fresh(ids)
                    && match #[trigger] record_outcome(
                    old(self)@,
                    layer_id@,
                    target_ref@,
                    conflicts.deep_view(),
                    ids,
                    now,
                ) {
                    Ok(state) => r is Ok && r->Ok_0.deep_view() == ids && final(self)@ == state,
                    Err(failure) => r is Err && r->Err_0@ == failure && final(self)@ == old(self)@,
                },
    {
        let ids = clock::new_ids(conflicts.len());
        let now = clock::now();
        assert(ids.deep_view().len() == conflicts@.len());
        self.record_conflicts_at(layer_id, target_ref, conflicts, &ids, now.as_str())?;
        Ok(ids)
    }

    fn shown_conflicts(&self, layer: Option<&str>, include_resolved: bool) -> (r: Vec<
        ConflictRecord,
    >)
        ensures
            r.deep_view() == tables::kept(
                self@.conflicts,
                shown(layer.deep_view(), include_resolved),
            ),
    {
        let ghost all = self@.conflicts;
        let ghost wanted = shown(layer.deep_view(), include_resolved);
        let mut out: Vec<ConflictRecord> = Vec::new();
        let mut i: usize = 0;
        assert(all.take(0) =~= Seq::empty());
        assert(out.deep_view() =~= Seq::empty());
        while i < self.conflicts.len()
            invariant
                i <= self.conflicts@.len(),
                all == self@.conflicts,
                wanted == shown(layer.deep_view(), include_resolved),
                out.deep_view() == tables::kept(all.take(i as int), wanted),
            decreases self.conflicts@.len() - i,
        {
            let ghost before = out.deep_view();
            let row = &self.conflicts[i];
            proof {
                assert(all.take(i as int + 1).drop_last() =~= all.take(i as int));
                assert(all.take(i as int + 1).last() == row@);
            }
            let of_layer = match layer {
                Some(id) => text::same(row.layer_id.as_str(), id),
                None => true,
            };
            if of_layer && (include_resolved || text::same(row.status.as_str(), "open")) {
                out.push(row.clone());
                assert(out.deep_view() =~= before.push(row@));
            }
            i = i + 1;
        }
        assert(all.take(i as int) =~= all);
        out
    }

    /// The Conflicts of a Layer, or all, by the time of their creation and then
    /// by path.
    pub fn conflicts(&self, layer: Option<&str>, include_resolved: bool) -> (r: Vec<ConflictRecord>)
        ensures
            r.deep_view() == tables::in_order::<ConflictRecord>(
                tables::kept(self@.conflicts, shown(layer.deep_view(), include_resolved)),
            ),
    {
        tables::put_in_order(&self.shown_conflicts(layer, include_resolved))
    }

    pub fn conflict(&self, id: &str) -> (r: Result<ConflictRecord>)
        ensures
            match conflict_outcome(self@, id@) {
                Ok(row) => r is Ok && r->Ok_0@ == row,
                Err(failure) => r is Err && r->Err_0@ == failure,
            },
    {
        match records::find_conflict(&self.conflicts, id) {
            Some(i) => Ok(self.conflicts[i].clone()),
            None => Err(JavelinError::invalid(text::concat2("unknown Conflict ", id))),
        }
    }

    /// Resolves a Conflict at a given time.
    pub fn resolve_conflict_at(&mut self, id: &str, resolution: &str, now: &str) -> (r: Result<()>)
        ensures
            match resolve_outcome(old(self)@, id@, resolution@, now@) {
                Ok(state) => r is Ok && final(self)@ == state,
                Err(failure) => r is Err && r->Err_0@ == failure && final(self)@ == old(self)@,
            },
    {
        let ghost before = self@;
        let i: usize = match records::find_conflict(&self.conflicts, id) {
            Some(i) => i,
            None => {
                return Err(JavelinError::invalid(text::concat2("unknown Conflict ", id)));
            },
        };
        let conflict = self.conflicts[i].clone();
        if !text::same(conflict.status.as_str(), "open") {
            return Err(
                JavelinError::invalid(text::concat3("Conflict ", id, " is already resolved")),
            );
        }
        proof {
            tables::lemma_first(before.conflicts, records::conflict_is(id@));
            assert(conflict@.id == id@);
        }
        let mut row = conflict.clone();
        row.status = "resolved".to_owned();
        row.resolution = Some(resolution.to_owned());
        self.conflicts.set(i, row);
        let ghost after = settled(before, id@, resolution@);
        assert(self@ =~= after);
        let remaining: usize = self.shown_conflicts(Some(conflict.layer_id.as_str()), false).len();
        assert(remaining == open_count(after, conflict@.layer_id));
        if remaining == 0 {
            self.set_layer_status(conflict.layer_id.as_str(), LayerStatus::Active);
        }
        let payload = Json::empty().with("resolution", Json::text(resolution)).with(
            "remaining",
            Json::Number(text::number(remaining as u64)),
        );
        self.append_event_at("conflict.resolved", Some("conflict"), Some(id), payload, now);
        assert(self@ =~= resolved_conflict(before, conflict@, resolution@, now@));
        Ok(())
    }

    /// Resolves a Conflict.
    pub fn resolve_conflict(&mut self, id: &str, resolution: &str) -> (r: Result<()>)
        ensures
            exists|now: Text|
                clock::is_stamp(now)
                    && match #[trigger] resolve_outcome(old(self)@, id@, resolution@, now) {
                    Ok(state) => r is Ok && final(self)@ == state,
                    Err(failure) => r is Err && r->Err_0@ == failure && final(self)@ == old(self)@,
                },
    {
        let now = clock::now();
        self.resolve_conflict_at(id, resolution, now.as_str())
    }
}

/// Recording Conflicts adds one open row for each, in order, with the path, the
/// type and each of the three states in its own place; rows that were there
/// stay as they are.
pub proof fn law_conflicts_are_recorded_whole(
    state: StoreState,
    layer_id: Text,
    target_ref: Text,
    conflicts: Seq<ConflictInput<Text>>,
    ids: Seq<Text>,
    now: Text,
)
    ensures
        ({
            let after = recorded_conflicts(state, layer_id, target_ref, conflicts, ids, now);
            &&& after.conflicts.len() == state.conflicts.len() + conflicts.len()
            &&& forall|k: int|
                0 <= k < state.conflicts.len() ==> #[trigger] after.conflicts[k]
                    == state.conflicts[k]
            &&& forall|k: int|
                0 <= k < conflicts.len() ==> {
                    let row = after.conflicts[state.conflicts.len() + k];
                    let conflict = #[trigger] conflicts[k];
                    &&& row.id == ids[k]
                    &&& row.layer_id == layer_id
                    &&& row.path == conflict.path
                    &&& row.conflict_type == conflict.conflict_type
                    &&& row.base_entry == conflict.base
                    &&& row.target_entry == conflict.target
                    &&& row.private_entry == conflict.private
                    &&& row.target_ref == target_ref
                    &&& row.status == "open"@
                    &&& row.resolution is None
                    &&& row.created_at == now
                }
        }),
{
    lemma_rows_of_conflicts(
        layers::with_status(state, layer_id, LayerStatus::Conflicted),
        layer_id,
        target_ref,
        conflicts,
        ids,
        now,
    );
}

proof fn lemma_rows_of_conflicts(
    state: StoreState,
    layer_id: Text,
    target_ref: Text,
    conflicts: Seq<ConflictInput<Text>>,
    ids: Seq<Text>,
    now: Text,
)
    ensures
        ({
            let after = with_conflicts(state, layer_id, target_ref, conflicts, ids, now);
            &&& after.conflicts.len() == state.conflicts.len() + conflicts.len()
            &&& forall|k: int|
                0 <= k < state.conflicts.len() ==> #[trigger] after.conflicts[k]
                    == state.conflicts[k]
            &&& forall|k: int|
                0 <= k < conflicts.len() ==> after.conflicts[state.conflicts.len() + k]
                    == conflict_row(layer_id, target_ref, #[trigger] conflicts[k], ids[k], now)
        }),
    decreases conflicts.len(),
{
    if conflicts.len() > 0 {
        let shorter = conflicts.drop_last();
        lemma_rows_of_conflicts(state, layer_id, target_ref, shorter, ids, now);
        let before = with_conflicts(state, layer_id, target_ref, shorter, ids, now);
        let after = with_conflicts(state, layer_id, target_ref, conflicts, ids, now);
        assert(after.conflicts == before.conflicts.push(
            conflict_row(layer_id, target_ref, conflicts.last(), ids[conflicts.len() - 1], now),
        ));
        assert forall|k: int| 0 <= k < conflicts.len() implies after.conflicts[
            state.conflicts.len() + k
        ] == conflict_row(layer_id, target_ref, #[trigger] conflicts[k], ids[k], now) by {
            if k < shorter.len() {
                assert(shorter[k] == conflicts[k]);
            }
        }
    }
}

/// Resolving a Conflict marks that one resolved, with the choice; its sides and
/// every other Conflict stay as they are, and no Checkpoint, version or
/// Contribution changes.
pub proof fn law_resolution_marks_one_conflict(
    state: StoreState,
    id: Text,
    resolution: Text,
    now: Text,
    i: int,
)
    requires
        resolve_outcome(state, id, resolution, now) is Ok,
        0 <= i < state.conflicts.len(),
        state.conflicts[i].id == id,
        forall|j: int| 0 <= j < i ==> (#[trigger] state.conflicts[j]).id != id,
    ensures
        ({
            let after = resolve_outcome(state, id, resolution, now)->Ok_0;
            &&& state.conflicts[i].status == "open"@
            &&& after.conflicts == state.conflicts.update(
                i,
                ConflictRecord {
                    status: "resolved"@,
                    resolution: Some(resolution),
                    ..state.conflicts[i]
                },
            )
            &&& after.checkpoints == state.checkpoints
            &&& after.versions == state.versions
            &&& after.world == state.world
            &&& after.contributions == state.contributions
            &&& (exists|j: int|
                0 <= j < state.conflicts.len() && j != i && (#[trigger] state.conflicts[j]).layer_id
                    == state.conflicts[i].layer_id && state.conflicts[j].status == "open"@)
                ==> after.layers == state.layers
        }),
{
    tables::lemma_first_at(state.conflicts, records::conflict_is(id), i);
    let conflict = state.conflicts[i];
    let settled_state = settled(state, id, resolution);
    if exists|j: int|
        0 <= j < state.conflicts.len() && j != i && (#[trigger] state.conflicts[j]).layer_id
            == state.conflicts[i].layer_id && state.conflicts[j].status == "open"@ {
        let j = choose|j: int|
            0 <= j < state.conflicts.len() && j != i && (#[trigger] state.conflicts[j]).layer_id
                == state.conflicts[i].layer_id && state.conflicts[j].status == "open"@;
        tables::lemma_kept_none(settled_state.conflicts, shown(Some(conflict.layer_id), false));
        assert(settled_state.conflicts[j] == state.conflicts[j]);
        assert(shown(Some(conflict.layer_id), false)(settled_state.conflicts[j]));
    }
}

/// A resolution is owed to every Conflict that is known and open, and to no
/// other; the Layer is active again once none of its Conflicts is open.
pub proof fn law_resolution_is_owed(
    state: StoreState,
    id: Text,
    resolution: Text,
    now: Text,
    i: int,
    k: int,
)
    requires
        0 <= i < state.conflicts.len(),
        state.conflicts[i].id == id,
        forall|j: int| 0 <= j < i ==> (#[trigger] state.conflicts[j]).id != id,
        0 <= k < state.layers.len(),
        state.layers[k].id == state.conflicts[i].layer_id,
        forall|j: int|
            0 <= j < k ==> (#[trigger] state.layers[j]).id != state.conflicts[i].layer_id,
    ensures
        resolve_outcome(state, id, resolution, now) is Ok <==> state.conflicts[i].status == "open"@,
        resolve_outcome(state, id, resolution, now) is Err ==> resolve_outcome(
            state,
            id,
            resolution,
            now,
        )->Err_0.exit_code == 2,
        resolve_outcome(state, id, resolution, now) is Ok && (forall|j: int|
            0 <= j < state.conflicts.len() && j != i && (#[trigger] state.conflicts[j]).layer_id
                == state.conflicts[i].layer_id ==> state.conflicts[j].status != "open"@)
            ==> resolve_outcome(state, id, resolution, now)->Ok_0.layers == state.layers.update(
            k,
            crate::model::Layer { status: LayerStatus::Active, ..state.layers[k] },
        ),
{
    reveal_strlit("open");
    reveal_strlit("resolved");
    assert("open"@[0] == 'o' && "resolved"@[0] == 'r');
    tables::lemma_first_at(state.conflicts, records::conflict_is(id), i);
    tables::lemma_first_at(
        state.layers,
        records::layer_is(state.conflicts[i].layer_id),
        k,
    );
    let after = settled(state, id, resolution);
    let wanted = shown(Some(state.conflicts[i].layer_id), false);
    tables::lemma_kept_none(after.conflicts, wanted);
    if forall|j: int|
        0 <= j < state.conflicts.len() && j != i && (#[trigger] state.conflicts[j]).layer_id
            == state.conflicts[i].layer_id ==> state.conflicts[j].status != "open"@ {
        assert forall|j: int| 0 <= j < after.conflicts.len() implies !wanted(
            #[trigger] after.conflicts[j],
        ) by {
            if j != i {
                assert(after.conflicts[j] == state.conflicts[j]);
            }
        }
    }
}

/// Conflicts are recorded for every Layer that the store knows, and for no other.
pub proof fn law_conflicts_are_of_a_known_layer(
    state: StoreState,
    layer_id: Text,
    target_ref: Text,
    conflicts: Seq<ConflictInput<Text>>,
    ids: Seq<Text>,
    now: Text,
)
    requires
        conflicts.len() > 0,
    ensures
        record_outcome(state, layer_id, target_ref, conflicts, ids, now) is Ok <==> exists|i: int|
            0 <= i < state.layers.len() && (#[trigger] state.layers[i]).id == layer_id,
        record_outcome(state, layer_id, target_ref, conflicts, ids, now) is Ok ==> record_outcome(
            state,
            layer_id,
            target_ref,
            conflicts,
            ids,
            now,
        )->Ok_0.conflicts.len() == state.conflicts.len() + conflicts.len(),
{
    let wanted = records::layer_is(layer_id);
    tables::lemma_first(state.layers, wanted);
    if exists|i: int| 0 <= i < state.layers.len() && (#[trigger] state.layers[i]).id == layer_id {
        let i = choose|i: int|
            0 <= i < state.layers.len() && (#[trigger] state.layers[i]).id == layer_id;
        assert(wanted(state.layers[i]));
    }
    if tables::first(state.layers, wanted) is Some {
        assert(wanted(state.layers[tables::first(state.layers, wanted)->Some_0]));
    }
    law_conflicts_are_recorded_whole(state, layer_id, target_ref, conflicts, ids, now);
}

} // verus!
