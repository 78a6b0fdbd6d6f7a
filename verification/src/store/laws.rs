//! What every step of the store keeps.
use vstd::prelude::*;
use crate::commands::checkpoints;
use crate::commands::refresh;
use crate::commands::validation;
use crate::commands::validation::RuleRun;
use crate::config::RuleValue;
use crate::error::Failure;
use crate::integration::ConflictInput;
use crate::json::JsonValue;
use crate::model::{Checkpoint, Layer, TreeEntry, WorldVersion};
use crate::objects::ObjectKind;
use crate::records;
use crate::records::{Claim, Event};
use crate::search;
use crate::store;
use crate::store::claims;
use crate::store::conflicts;
use crate::store::layers;
use crate::store::layers::NewLayer;
use crate::store::provenance;
use crate::store::publish;
use crate::store::publish::Acceptance;
use crate::store::rows;
use crate::store::StoreState;
use crate::tables;
use crate::text;
use crate::text::Text;

verus! {

/// The name of the version with a number.
pub open spec fn version_name(n: int) -> Text {
    "v"@ + text::decimal_int(n)
}

/// The versions are one chain from `v1`, and the last of them is the World's.
pub open spec fn linear(state: StoreState) -> bool {
    &&& match state.world {
        None => state.versions.len() == 0,
        Some(world) => state.versions.len() > 0 && world.current_version
            == state.versions.last().id,
    }
    &&& state.versions.len() <= i64::MAX
    &&& forall|i: int|
        0 <= i < state.versions.len() ==> (#[trigger] state.versions[i]).sequence == i + 1
            && state.versions[i].id == version_name(i + 1) && state.versions[i].parent_version
            == if i == 0 {
            None
        } else {
            Some(version_name(i))
        }
}

proof fn lemma_digit_value(n: nat)
    ensures
        search::digits_value(text::decimal(n)) == n,
    decreases n,
{
    if n < 10 {
        assert(text::decimal(n).drop_last() =~= Seq::<char>::empty());
        assert(search::digits_value(Seq::<char>::empty()) == 0);
    } else {
        lemma_digit_value(n / 10);
        assert(text::decimal(n).drop_last() =~= text::decimal(n / 10));
    }
}

proof fn lemma_names_differ(a: int, b: int)
    requires
        0 <= a,
        0 <= b,
        version_name(a) == version_name(b),
    ensures
        a == b,
{
    lemma_digit_value(a as nat);
    lemma_digit_value(b as nat);
    assert(version_name(a).skip("v"@.len() as int) =~= text::decimal_int(a));
    assert(version_name(b).skip("v"@.len() as int) =~= text::decimal_int(b));
}

proof fn lemma_first_name()
    ensures
        version_name(1) == "v1"@,
{
    reveal_strlit("v");
    reveal_strlit("v1");
    assert(version_name(1) =~= "v1"@);
}

/// The current version of a chain is its last.
pub proof fn lemma_current_is_last(state: StoreState)
    requires
        linear(state),
        state.world is Some,
    ensures
        state.current() == Some(state.versions.last()),
{
    let last = state.versions.len() - 1;
    let wanted = records::version_is(state.world->Some_0.current_version);
    assert(state.versions[last].id == version_name(last + 1));
    assert forall|j: int| 0 <= j < last implies !wanted(#[trigger] state.versions[j]) by {
        if state.versions[j].id == state.versions[last].id {
            lemma_names_differ(j + 1, last + 1);
        }
    }
    tables::lemma_first_at(state.versions, wanted, last);
}

proof fn lemma_max_is_last(versions: Seq<WorldVersion<Text>>)
    requires
        forall|i: int| 0 <= i < versions.len() ==> (#[trigger] versions[i]).sequence == i + 1,
    ensures
        publish::max_sequence(versions) == versions.len(),
    decreases versions.len(),
{
    if versions.len() > 0 {
        let before = versions.drop_last();
        assert forall|i: int| 0 <= i < before.len() implies (#[trigger] before[i]).sequence == i
            + 1 by {
            assert(before[i] == versions[i]);
        }
        lemma_max_is_last(before);
        assert(versions[versions.len() - 1].sequence == versions.len());
    }
}

proof fn lemma_chain_grows(state: StoreState, after: StoreState, version: WorldVersion<Text>)
    requires
        linear(state),
        state.versions.len() > 0,
        state.versions.len() < i64::MAX,
        after.versions == state.versions.push(version),
        after.world is Some,
        after.world->Some_0.current_version == version.id,
        version.sequence == state.versions.len() + 1,
        version.id == version_name(state.versions.len() as int + 1),
        version.parent_version == Some(state.versions.last().id),
    ensures
        linear(after),
{
    let n = state.versions.len();
    assert(state.versions[n - 1].id == version_name(n as int));
    assert forall|i: int| 0 <= i < after.versions.len() implies {
        &&& (#[trigger] after.versions[i]).sequence == i + 1
        &&& after.versions[i].id == version_name(i + 1)
        &&& after.versions[i].parent_version == if i == 0 {
            None
        } else {
            Some(version_name(i))
        }
    } by {
        if i < n {
            assert(after.versions[i] == state.versions[i]);
        }
    }
}

/// A new World has one version, `v1`, and nothing before it.
pub proof fn law_new_world_is_linear(
    root: Text,
    root_tree: Text,
    project_id: Text,
    checkpoint_id: Text,
    now: Text,
)
    ensures
        linear(store::blank(root)),
        linear(
            layers::initialized_world(
                store::blank(root),
                root_tree,
                project_id,
                checkpoint_id,
                now,
            ),
        ),
{
    lemma_first_name();
    let after = layers::initialized_world(
        store::blank(root),
        root_tree,
        project_id,
        checkpoint_id,
        now,
    );
    assert(after.versions.len() == 1);
    assert(after.versions[0].id == "v1"@);
}

/// A Publish keeps the World one chain, whether the World is its target or not.
pub proof fn law_publish_keeps_world_linear(
    state: StoreState,
    layer: Layer<Text>,
    source: Checkpoint<Text>,
    terms: Acceptance<Text>,
    runs: Seq<Text>,
    link_ids: Seq<Text>,
)
    requires
        linear(state),
        state.versions.len() < i64::MAX,
        publish::accept_outcome(state, layer, source, terms, runs, link_ids) is Ok,
    ensures
        linear(publish::accept_outcome(state, layer, source, terms, runs, link_ids)->Ok_0.0),
{
    let (after, _) = publish::accept_outcome(
        state,
        layer,
        source,
        terms,
        runs,
        link_ids,
    )->Ok_0;
    if after.versions != state.versions {
        lemma_max_is_last(state.versions);
        lemma_chain_grows(state, after, after.versions.last());
    } else if after.world != state.world {
        assert(after.versions.len() == state.versions.len() + 1);
    }
}

/// Appending a version, as a restore does, keeps the World one chain.
pub proof fn law_restore_keeps_world_linear(
    state: StoreState,
    root_tree: Text,
    contribution_id: Option<Text>,
    event_type: Text,
    payload: JsonValue,
    now: Text,
)
    requires
        linear(state),
        state.versions.len() < i64::MAX,
        state.world is Some,
    ensures
        layers::append_version_outcome(
            state,
            root_tree,
            contribution_id,
            event_type,
            payload,
            now,
        ) is Ok,
        linear(
            layers::append_version_outcome(
                state,
                root_tree,
                contribution_id,
                event_type,
                payload,
                now,
            )->Ok_0.0,
        ),
{
    let n = state.versions.len() as int;
    lemma_current_is_last(state);
    assert(state.versions[n - 1].sequence == n);
    tables::lemma_first(state.versions, records::version_numbered((n + 1) as i64));
    tables::lemma_first(state.versions, records::version_is(version_name(n + 1)));
    assert forall|j: int| 0 <= j < n implies (#[trigger] state.versions[j]).id != version_name(
        n + 1,
    ) by {
        if state.versions[j].id == version_name(n + 1) {
            lemma_names_differ(j + 1, n + 1);
        }
    }
    let (after, version) = layers::append_version_outcome(
        state,
        root_tree,
        contribution_id,
        event_type,
        payload,
        now,
    )->Ok_0;
    lemma_chain_grows(state, after, version);
}

/// Neither the World nor what was accepted into it changed.
pub open spec fn same_world(before: StoreState, after: StoreState) -> bool {
    &&& after.world == before.world
    &&& after.versions == before.versions
    &&& after.contributions == before.contributions
    &&& after.version_validations == before.version_validations
    &&& after.validations == before.validations
}

/// Every Layer is still there, with its identity, name and Origin Reference.
pub open spec fn same_origins(before: StoreState, after: StoreState) -> bool {
    &&& before.layers.len() <= after.layers.len()
    &&& forall|i: int|
        0 <= i < before.layers.len() ==> (#[trigger] after.layers[i]).id == before.layers[i].id
            && after.layers[i].name == before.layers[i].name && after.layers[i].origin_ref
            == before.layers[i].origin_ref
}

/// No Checkpoint was changed or removed.
pub open spec fn checkpoints_grow(before: StoreState, after: StoreState) -> bool {
    before.checkpoints.is_prefix_of(after.checkpoints)
}

/// No Layer changed but the one with an identity.
pub open spec fn others_kept(before: StoreState, after: StoreState, id: Text) -> bool {
    forall|i: int|
        0 <= i < before.layers.len() && (#[trigger] before.layers[i]).id != id ==> after.layers[i]
            == before.layers[i]
}

/// A Checkpoint changes no target: neither the World nor another Layer.
pub proof fn law_checkpoint_is_private(
    state: StoreState,
    layer_id: Text,
    root_tree: Text,
    synchronized_ref: Text,
    reason: Text,
    id: Text,
    now: Text,
)
    requires
        layers::append_checkpoint_outcome(
            state,
            layer_id,
            root_tree,
            synchronized_ref,
            reason,
            id,
            now,
        ) is Ok,
    ensures
        ({
            let (after, _) = layers::append_checkpoint_outcome(
                state,
                layer_id,
                root_tree,
                synchronized_ref,
                reason,
                id,
                now,
            )->Ok_0;
            &&& same_world(state, after)
            &&& same_origins(state, after)
            &&& checkpoints_grow(state, after)
            &&& others_kept(state, after, state.layer(layer_id)->Some_0.id)
        }),
{
    let layer = state.layer(layer_id)->Some_0;
    tables::lemma_first(state.layers, records::layer_is(layer.id));
}

/// Storing a scan changes no target, whether it succeeds or fails: neither the
/// World nor another Layer.
pub proof fn law_stored_scan_is_private(
    state: StoreState,
    layer_id: Text,
    found: Seq<(Text, ObjectKind, u64)>,
    entries: Seq<TreeEntry<Text>>,
    synchronized_ref: Text,
    reason: Text,
    id: Text,
    now: Text,
)
    ensures
        ({
            let (after, _) = checkpoints::stored_outcome(
                state,
                layer_id,
                found,
                entries,
                synchronized_ref,
                reason,
                id,
                now,
            );
            &&& same_world(state, after)
            &&& same_origins(state, after)
            &&& checkpoints_grow(state, after)
            &&& others_kept(state, after, state.layer(layer_id)->Some_0.id)
        }),
{
    let encoded = crate::objects::encode_outcome(entries)->Ok_0;
    let noted = checkpoints::with_tree(
        checkpoints::with_objects(state, found, now),
        encoded,
        now,
    );
    let root = crate::objects::identity(ObjectKind::Tree, encoded);
    if layers::append_checkpoint_outcome(
        noted,
        layer_id,
        root,
        synchronized_ref,
        reason,
        id,
        now,
    ) is Ok {
        law_checkpoint_is_private(noted, layer_id, root, synchronized_ref, reason, id, now);
    }
    assert(noted.layers == state.layers);
    assert(noted.layer(layer_id) == state.layer(layer_id));
}

/// The Monitor never refreshes: whatever it records, every Layer stays
/// synchronized with what it was, and no target changes.
pub proof fn law_monitor_never_refreshes(
    state: StoreState,
    layer_id: Text,
    synchronized_ref: Text,
    found: Seq<(Text, ObjectKind, u64)>,
    entries: Seq<TreeEntry<Text>>,
    id: Text,
    now: Text,
)
    requires
        separate(state),
    ensures
        ({
            let (after, _) = checkpoints::capture_outcome(
                state,
                layer_id,
                synchronized_ref,
                found,
                entries,
                id,
                now,
            );
            &&& same_world(state, after)
            &&& same_origins(state, after)
            &&& checkpoints_grow(state, after)
            &&& others_kept(state, after, state.layer(layer_id)->Some_0.id)
            &&& forall|i: int|
                0 <= i < state.layers.len() ==> (#[trigger] after.layers[i]).synchronized_ref
                    == state.layers[i].synchronized_ref
        }),
{
    let (after, _) = checkpoints::capture_outcome(
        state,
        layer_id,
        synchronized_ref,
        found,
        entries,
        id,
        now,
    );
    let layer = state.layer(layer_id)->Some_0;
    if state.layer(layer_id) is Some {
        lemma_found_by_identity(state, layer_id);
    }
    if after.layers != state.layers {
        law_stored_scan_is_private(
            state,
            layer.id,
            found,
            entries,
            layer.synchronized_ref,
            "automatic"@,
            id,
            now,
        );
        let place = tables::first(state.layers, records::layer_is(layer.id))->Some_0;
        tables::lemma_first(state.layers, records::layer_is(layer.id));
        assert(state.layers[place] == layer);
        let noted = checkpoints::with_tree(
            checkpoints::with_objects(state, found, now),
            crate::objects::encode_outcome(entries)->Ok_0,
            now,
        );
        assert(noted.layers == state.layers);
        assert(noted.layer(layer.id) == state.layer(layer.id));
        assert(after.layers == state.layers || after.layers == state.layers.update(
            place,
            Layer { head_checkpoint: id, synchronized_ref: layer.synchronized_ref, ..layer },
        ));
    }
}

/// A Refresh without Conflicts changes the refreshed Layer and no target, whether
/// it succeeds or fails: neither the World nor another Layer.
pub proof fn law_refresh_is_private(
    state: StoreState,
    layer: Layer<Text>,
    target_ref: Text,
    entries: Seq<TreeEntry<Text>>,
    blobs: Seq<(Text, Seq<u8>)>,
    id: Text,
    now: Text,
)
    ensures
        ({
            let (after, _) = refresh::accepted_outcome(
                state,
                layer,
                target_ref,
                entries,
                blobs,
                id,
                now,
            );
            &&& same_world(state, after)
            &&& same_origins(state, after)
            &&& checkpoints_grow(state, after)
            &&& others_kept(state, after, state.layer(layer.id)->Some_0.id)
        }),
{
    law_stored_scan_is_private(
        state,
        layer.id,
        refresh::blob_records(blobs),
        entries,
        target_ref,
        "refresh"@,
        id,
        now,
    );
}

/// Creating a Layer changes no target and no other Layer.
pub proof fn law_new_layer_is_private(
    state: StoreState,
    new: NewLayer<Text>,
    id: Text,
    checkpoint_id: Text,
    now: Text,
)
    ensures
        ({
            let after = layers::created_layer(state, new, id, checkpoint_id, now);
            &&& same_world(state, after)
            &&& same_origins(state, after)
            &&& checkpoints_grow(state, after)
            &&& after.layers.drop_last() == state.layers
        }),
{
    let after = layers::created_layer(state, new, id, checkpoint_id, now);
    assert(after.layers.drop_last() =~= state.layers);
}

/// A verification records its run and changes nothing that is accepted.
pub proof fn law_verification_accepts_nothing(
    state: StoreState,
    rule: RuleValue,
    run: RuleRun,
    candidate_root: Text,
    policy: Text,
    id: Text,
    now: Text,
)
    ensures
        ({
            let outcome = validation::run_outcome(
                state,
                rule,
                run,
                candidate_root,
                policy,
                id,
                now,
            );
            outcome matches Ok(after) ==> {
                &&& same_world(state, after)
                &&& after.layers == state.layers
                &&& after.checkpoints == state.checkpoints
                &&& after.object_metadata == state.object_metadata
            }
        }),
{
}

/// The steps of a provenance session change no state of World or Layers.
pub proof fn law_provenance_is_annotation(
    state: StoreState,
    session: Text,
    layer_id: Option<Text>,
    content: Text,
    kind: Text,
    media_type: Option<Text>,
    id: Text,
    now: Text,
)
    ensures
        ({
            let outcomes = seq![
                provenance::begin_outcome(state, layer_id, content, id, now),
                provenance::session_event_outcome(state, session, kind, content, id, now),
                provenance::attach_outcome(state, session, kind, media_type, content, id, now),
                provenance::end_outcome(state, session, now),
                provenance::purge_outcome(state, session, now),
            ];
            forall|i: int|
                0 <= i < outcomes.len() && (#[trigger] outcomes[i]) is Ok ==> same_world(
                    state,
                    outcomes[i]->Ok_0,
                ) && outcomes[i]->Ok_0.layers == state.layers && outcomes[i]->Ok_0.checkpoints
                    == state.checkpoints
        }),
{
}

/// No two Layers have the same identity.
pub open spec fn separate(state: StoreState) -> bool {
    forall|i: int, j: int|
        0 <= i < j < state.layers.len() ==> (#[trigger] state.layers[i]).id != (
        #[trigger] state.layers[j]).id
}

proof fn lemma_found_by_identity(state: StoreState, name_or_id: Text)
    requires
        separate(state),
        state.layer(name_or_id) is Some,
    ensures
        ({
            let layer = state.layer(name_or_id)->Some_0;
            &&& state.layer(layer.id) == Some(layer)
            &&& tables::first(state.layers, records::layer_is(layer.id)) is Some
            &&& state.layers[tables::first(state.layers, records::layer_is(layer.id))->Some_0]
                == layer
        }),
{
    let layer = state.layer(name_or_id)->Some_0;
    tables::lemma_first(state.layers, records::layer_is(name_or_id));
    tables::lemma_first(state.layers, records::layer_name_is(name_or_id));
    tables::lemma_first(state.layers, records::layer_is(layer.id));
    let place = choose|k: int| 0 <= k < state.layers.len() && state.layers[k] == layer;
    let found = tables::first(state.layers, records::layer_is(layer.id));
    match found {
        Some(k) => {
            if k < place {
                assert(state.layers[k].id != state.layers[place].id);
            } else if place < k {
                assert(state.layers[place].id != state.layers[k].id);
            }
        },
        None => {
            assert(!records::layer_is(layer.id)(state.layers[place]));
        },
    }
}

/// Every Layer has a head, which is one of its own Checkpoints.
pub open spec fn heads_stand(state: StoreState) -> bool {
    &&& separate(state)
    &&& forall|i: int|
        0 <= i < state.layers.len() ==> match state.checkpoint(
            (#[trigger] state.layers[i]).head_checkpoint,
        ) {
            Some(head) => head.layer_id == state.layers[i].id,
            None => false,
        }
}

proof fn lemma_still_found(state: StoreState, after: StoreState, row: Checkpoint<Text>, id: Text)
    requires
        after.checkpoints == state.checkpoints.push(row),
        state.checkpoint(id) is Some,
    ensures
        after.checkpoint(id) == state.checkpoint(id),
{
    tables::lemma_first_push(state.checkpoints, row, records::checkpoint_is(id));
    tables::lemma_first(state.checkpoints, records::checkpoint_is(id));
}

proof fn lemma_new_found(state: StoreState, after: StoreState, row: Checkpoint<Text>)
    requires
        after.checkpoints == state.checkpoints.push(row),
        state.checkpoint(row.id) is None,
    ensures
        after.checkpoint(row.id) == Some(row),
{
    tables::lemma_first_push(state.checkpoints, row, records::checkpoint_is(row.id));
}

/// A new World's Layer has its head.
pub proof fn law_new_world_has_a_head(
    root: Text,
    root_tree: Text,
    project_id: Text,
    checkpoint_id: Text,
    now: Text,
)
    ensures
        heads_stand(
            layers::initialized_world(
                store::blank(root),
                root_tree,
                project_id,
                checkpoint_id,
                now,
            ),
        ),
{
    let before = store::blank(root);
    let after = layers::initialized_world(before, root_tree, project_id, checkpoint_id, now);
    lemma_new_found(before, after, after.checkpoints.last());
    assert(after.layers.len() == 1);
}

/// A new Layer has its head, and so do the others still.
pub proof fn law_new_layer_has_a_head(
    state: StoreState,
    new: NewLayer<Text>,
    id: Text,
    checkpoint_id: Text,
    now: Text,
)
    requires
        heads_stand(state),
        state.checkpoint(checkpoint_id) is None,
        !tables::any(state.layers, records::layer_is(id)),
    ensures
        heads_stand(layers::created_layer(state, new, id, checkpoint_id, now)),
{
    let after = layers::created_layer(state, new, id, checkpoint_id, now);
    let row = after.checkpoints.last();
    lemma_new_found(state, after, row);
    tables::lemma_first(state.layers, records::layer_is(id));
    assert forall|i: int| 0 <= i < after.layers.len() implies match after.checkpoint(
        (#[trigger] after.layers[i]).head_checkpoint,
    ) {
        Some(head) => head.layer_id == after.layers[i].id,
        None => false,
    } by {
        if i < state.layers.len() {
            assert(after.layers[i] == state.layers[i]);
            lemma_still_found(state, after, row, state.layers[i].head_checkpoint);
        }
    }
    assert forall|i: int, j: int| 0 <= i < j < after.layers.len() implies (
    #[trigger] after.layers[i]).id != (#[trigger] after.layers[j]).id by {
        assert(after.layers[i] == state.layers[i]);
        if j < state.layers.len() {
            assert(after.layers[j] == state.layers[j]);
        } else {
            assert(!records::layer_is(id)(state.layers[i]));
        }
    }
}

proof fn lemma_head_moves(
    state: StoreState,
    after: StoreState,
    row: Checkpoint<Text>,
    place: int,
)
    requires
        heads_stand(state),
        state.checkpoint(row.id) is None,
        after.checkpoints == state.checkpoints.push(row),
        after.layers.len() == state.layers.len(),
        0 <= place < state.layers.len(),
        row.layer_id == state.layers[place].id,
        after.layers[place].id == state.layers[place].id,
        after.layers[place].head_checkpoint == row.id,
        forall|i: int|
            0 <= i < state.layers.len() && i != place ==> (#[trigger] after.layers[i])
                == state.layers[i],
    ensures
        heads_stand(after),
{
    lemma_new_found(state, after, row);
    assert forall|i: int| 0 <= i < after.layers.len() implies match after.checkpoint(
        (#[trigger] after.layers[i]).head_checkpoint,
    ) {
        Some(head) => head.layer_id == after.layers[i].id,
        None => false,
    } by {
        if i != place {
            assert(after.layers[i] == state.layers[i]);
            lemma_still_found(state, after, row, state.layers[i].head_checkpoint);
        }
    }
    assert forall|i: int, j: int| 0 <= i < j < after.layers.len() implies (
    #[trigger] after.layers[i]).id != (#[trigger] after.layers[j]).id by {
        assert(state.layers[i].id != state.layers[j].id);
    }
}

/// A Checkpoint with a new identity leaves every Layer a head of its own.
pub proof fn law_checkpoint_keeps_heads(
    state: StoreState,
    layer_id: Text,
    root_tree: Text,
    synchronized_ref: Text,
    reason: Text,
    id: Text,
    now: Text,
)
    requires
        heads_stand(state),
        layers::append_checkpoint_outcome(
            state,
            layer_id,
            root_tree,
            synchronized_ref,
            reason,
            id,
            now,
        ) is Ok,
    ensures
        heads_stand(
            layers::append_checkpoint_outcome(
                state,
                layer_id,
                root_tree,
                synchronized_ref,
                reason,
                id,
                now,
            )->Ok_0.0,
        ),
{
    let (after, row) = layers::append_checkpoint_outcome(
        state,
        layer_id,
        root_tree,
        synchronized_ref,
        reason,
        id,
        now,
    )->Ok_0;
    if after != state {
        lemma_found_by_identity(state, layer_id);
        tables::lemma_first(state.layers, records::layer_is(state.layer(layer_id)->Some_0.id));
        let place = tables::first(
            state.layers,
            records::layer_is(state.layer(layer_id)->Some_0.id),
        )->Some_0;
        lemma_head_moves(state, after, row, place);
    }
}

proof fn lemma_same_heads(state: StoreState, after: StoreState)
    requires
        heads_stand(state),
        after.checkpoints == state.checkpoints,
        after.layers.len() == state.layers.len(),
        forall|i: int|
            0 <= i < state.layers.len() ==> (#[trigger] after.layers[i]).id == state.layers[i].id
                && after.layers[i].head_checkpoint == state.layers[i].head_checkpoint,
    ensures
        heads_stand(after),
{
    assert forall|i: int| 0 <= i < after.layers.len() implies match after.checkpoint(
        (#[trigger] after.layers[i]).head_checkpoint,
    ) {
        Some(head) => head.layer_id == after.layers[i].id,
        None => false,
    } by {
        assert(after.checkpoint(state.layers[i].head_checkpoint) == state.checkpoint(
            state.layers[i].head_checkpoint,
        ));
    }
    assert forall|i: int, j: int| 0 <= i < j < after.layers.len() implies (
    #[trigger] after.layers[i]).id != (#[trigger] after.layers[j]).id by {
        assert(state.layers[i].id != state.layers[j].id);
    }
}

/// Storing a scan leaves every Layer a head of its own, whether it succeeds or
/// fails.
pub proof fn law_stored_scan_keeps_heads(
    state: StoreState,
    layer_id: Text,
    found: Seq<(Text, ObjectKind, u64)>,
    entries: Seq<TreeEntry<Text>>,
    synchronized_ref: Text,
    reason: Text,
    id: Text,
    now: Text,
)
    requires
        heads_stand(state),
    ensures
        heads_stand(
            checkpoints::stored_outcome(
                state,
                layer_id,
                found,
                entries,
                synchronized_ref,
                reason,
                id,
                now,
            ).0,
        ),
{
    let encoded = crate::objects::encode_outcome(entries)->Ok_0;
    let noted = checkpoints::with_tree(
        checkpoints::with_objects(state, found, now),
        encoded,
        now,
    );
    let root = crate::objects::identity(ObjectKind::Tree, encoded);
    lemma_same_heads(state, noted);
    lemma_same_heads(state, checkpoints::with_objects(state, found, now));
    if layers::append_checkpoint_outcome(
        noted,
        layer_id,
        root,
        synchronized_ref,
        reason,
        id,
        now,
    ) is Ok {
        law_checkpoint_keeps_heads(noted, layer_id, root, synchronized_ref, reason, id, now);
    }
}

/// A Refresh without Conflicts leaves every Layer a head of its own, whether it
/// succeeds or fails.
pub proof fn law_refresh_keeps_heads(
    state: StoreState,
    layer: Layer<Text>,
    target_ref: Text,
    entries: Seq<TreeEntry<Text>>,
    blobs: Seq<(Text, Seq<u8>)>,
    id: Text,
    now: Text,
)
    requires
        heads_stand(state),
    ensures
        heads_stand(
            refresh::accepted_outcome(state, layer, target_ref, entries, blobs, id, now).0,
        ),
{
    law_stored_scan_keeps_heads(
        state,
        layer.id,
        refresh::blob_records(blobs),
        entries,
        target_ref,
        "refresh"@,
        id,
        now,
    );
    let (stored, _) = checkpoints::stored_outcome(
        state,
        layer.id,
        refresh::blob_records(blobs),
        entries,
        target_ref,
        "refresh"@,
        id,
        now,
    );
    lemma_same_heads(
        stored,
        refresh::accepted_outcome(state, layer, target_ref, entries, blobs, id, now).0,
    );
}

/// A discard, a recovery and a new target leave every Layer its head.
pub proof fn law_discard_keeps_heads(
    state: StoreState,
    layer_id: Text,
    purge_after: Text,
    target_kind: Text,
    target_id: Option<Text>,
    now: Text,
)
    requires
        heads_stand(state),
    ensures
        heads_stand(layers::discarded_layer(state, layer_id, purge_after, now)),
        heads_stand(layers::recovered_layer(state, layer_id, now)),
        match layers::reparent_outcome(state, layer_id, target_kind, target_id, now) {
            Ok(after) => heads_stand(after),
            Err(_) => true,
        },
{
    tables::lemma_first(state.layers, records::layer_is(layer_id));
    lemma_same_heads(state, layers::discarded_layer(state, layer_id, purge_after, now));
    lemma_same_heads(state, layers::recovered_layer(state, layer_id, now));
    match layers::reparent_outcome(state, layer_id, target_kind, target_id, now) {
        Ok(after) => lemma_same_heads(state, after),
        Err(_) => {},
    }
}

/// Conflicts, recorded or resolved, leave every Layer its head.
pub proof fn law_conflicts_keep_heads(
    state: StoreState,
    layer_id: Text,
    target_ref: Text,
    found: Seq<ConflictInput<Text>>,
    ids: Seq<Text>,
    id: Text,
    resolution: Text,
    now: Text,
)
    requires
        heads_stand(state),
    ensures
        heads_stand(
            conflicts::recorded_conflicts(state, layer_id, target_ref, found, ids, now),
        ),
        match conflicts::resolve_outcome(state, id, resolution, now) {
            Ok(after) => heads_stand(after),
            Err(_) => true,
        },
{
    refresh::law_refused_refresh_keeps_heads(state, layer_id, target_ref, found, ids, now);
    lemma_same_heads(
        state,
        conflicts::recorded_conflicts(state, layer_id, target_ref, found, ids, now),
    );
    match conflicts::resolve_outcome(state, id, resolution, now) {
        Ok(after) => {
            let row = tables::find(state.conflicts, records::conflict_is(id))->Some_0;
            tables::lemma_first(state.layers, records::layer_is(row.layer_id));
            lemma_same_heads(state, after);
        },
        Err(_) => {},
    }
}

/// A Publish, to the World or to a Layer, leaves every Layer a head of its own.
pub proof fn law_publish_keeps_heads(
    state: StoreState,
    layer: Layer<Text>,
    source: Checkpoint<Text>,
    terms: Acceptance<Text>,
    runs: Seq<Text>,
    link_ids: Seq<Text>,
)
    requires
        heads_stand(state),
        publish::accept_outcome(state, layer, source, terms, runs, link_ids) is Ok,
    ensures
        heads_stand(publish::accept_outcome(state, layer, source, terms, runs, link_ids)->Ok_0.0),
        same_origins(
            state,
            publish::accept_outcome(state, layer, source, terms, runs, link_ids)->Ok_0.0,
        ),
        checkpoints_grow(
            state,
            publish::accept_outcome(state, layer, source, terms, runs, link_ids)->Ok_0.0,
        ),
{
    let (after, _) = publish::accept_outcome(
        state,
        layer,
        source,
        terms,
        runs,
        link_ids,
    )->Ok_0;
    if after.checkpoints != state.checkpoints {
        let parent = layer.target_id->Some_0;
        tables::lemma_first(state.layers, publish::open_parent(parent));
        tables::lemma_first(state.layers, records::layer_is(parent));
        match tables::first(state.layers, records::layer_is(parent)) {
            Some(place) => lemma_head_moves(state, after, after.checkpoints.last(), place),
            None => {
                let open = tables::first(state.layers, publish::open_parent(parent))->Some_0;
                assert(!records::layer_is(parent)(state.layers[open]));
            },
        }
    } else if after.layers != state.layers {
        assert(after.checkpoints.len() == state.checkpoints.len() + 1);
    } else {
        lemma_same_heads(state, after);
    }
}

/// The cursors of the events grow.
pub open spec fn cursors_grow(events: Seq<Event<Text, JsonValue>>) -> bool {
    &&& forall|i: int| 0 <= i < events.len() ==> (#[trigger] events[i]).cursor > 0
    &&& forall|i: int, j: int|
        0 <= i < j < events.len() ==> (#[trigger] events[i]).cursor < (#[trigger] events[j]).cursor
}

/// An event keeps the cursors growing, while there are numbers left.
pub proof fn law_cursors_keep_growing(
    state: StoreState,
    event_type: Text,
    subject_kind: Option<Text>,
    subject_id: Option<Text>,
    payload: JsonValue,
    now: Text,
)
    requires
        cursors_grow(state.events),
        state.events.len() > 0 ==> state.events.last().cursor < i64::MAX,
    ensures
        cursors_grow(
            state.with_event(event_type, subject_kind, subject_id, payload, now).events,
        ),
{
    let after = state.with_event(event_type, subject_kind, subject_id, payload, now).events;
    let n = state.events.len();
    if n > 0 {
        assert(state.events[n - 1].cursor > 0);
    }
    assert forall|i: int, j: int| 0 <= i < j < after.len() implies (#[trigger] after[i]).cursor < (
    #[trigger] after[j]).cursor by {
        assert(after[i] == state.events[i]);
        if j < n {
            assert(after[j] == state.events[j]);
        } else if i < n - 1 {
            assert(state.events[i].cursor < state.events[n - 1].cursor);
        }
    }
}

proof fn lemma_kept_tail<A>(rows: Seq<A>, wanted: spec_fn(A) -> bool, i: int)
    requires
        0 <= i <= rows.len(),
        forall|j: int| 0 <= j < i ==> !wanted(#[trigger] rows[j]),
        forall|j: int| i <= j < rows.len() ==> wanted(#[trigger] rows[j]),
    ensures
        tables::kept(rows, wanted) == rows.skip(i),
    decreases rows.len(),
{
    if rows.len() == 0 {
        assert(tables::kept(rows, wanted) =~= rows.skip(i));
    } else {
        let shorter = rows.drop_last();
        if i < rows.len() {
            assert forall|j: int| 0 <= j < i implies !wanted(#[trigger] shorter[j]) by {
                assert(shorter[j] == rows[j]);
            }
            assert forall|j: int| i <= j < shorter.len() implies wanted(#[trigger] shorter[j]) by {
                assert(shorter[j] == rows[j]);
            }
            lemma_kept_tail(shorter, wanted, i);
            assert(wanted(rows[rows.len() - 1]));
            assert(tables::kept(rows, wanted) =~= rows.skip(i));
        } else {
            assert forall|j: int| 0 <= j < shorter.len() implies !wanted(#[trigger] shorter[j]) by {
                assert(shorter[j] == rows[j]);
            }
            lemma_kept_tail(shorter, wanted, shorter.len() as int);
            assert(!wanted(rows[rows.len() - 1]));
            assert(tables::kept(rows, wanted) =~= rows.skip(i));
        }
    }
}

/// A reader that passes the cursor of the last event it saw gets exactly the
/// events after that one.
pub proof fn law_reader_resumes(events: Seq<Event<Text, JsonValue>>, i: int)
    requires
        cursors_grow(events),
        0 <= i < events.len(),
    ensures
        tables::kept(events, store::after_cursor(events[i].cursor)) == events.skip(i + 1),
{
    let wanted = store::after_cursor(events[i].cursor);
    assert forall|j: int| 0 <= j < i + 1 implies !wanted(#[trigger] events[j]) by {
        if j < i {
            assert(events[j].cursor < events[i].cursor);
        }
    }
    assert forall|j: int| i + 1 <= j < events.len() implies wanted(#[trigger] events[j]) by {
        assert(events[i].cursor < events[j].cursor);
    }
    lemma_kept_tail(events, wanted, i + 1);
}

/// Claims inform and never block: with other Claims a Publish has the same
/// outcome.
pub proof fn law_claims_never_block(
    state: StoreState,
    held: Seq<Claim<Text>>,
    layer: Layer<Text>,
    source: Checkpoint<Text>,
    terms: Acceptance<Text>,
    runs: Seq<Text>,
    link_ids: Seq<Text>,
)
    ensures
        ({
            let other = StoreState { claims: held, ..state };
            match publish::accept_outcome(state, layer, source, terms, runs, link_ids) {
                Ok((after, given)) => publish::accept_outcome(
                    other,
                    layer,
                    source,
                    terms,
                    runs,
                    link_ids,
                ) == Ok::<(StoreState, (Text, Text)), Failure>(
                    (StoreState { claims: held, ..after }, given),
                ),
                Err(failure) => publish::accept_outcome(
                    other,
                    layer,
                    source,
                    terms,
                    runs,
                    link_ids,
                ) == Err::<(StoreState, (Text, Text)), Failure>(failure),
            }
        }),
{
    let other = StoreState { claims: held, ..state };
    assert(publish::target_ref_outcome(other, layer) == publish::target_ref_outcome(state, layer));
    match publish::accept_outcome(state, layer, source, terms, runs, link_ids) {
        Ok((after, given)) => {
            assert(publish::accept_outcome(
                other,
                layer,
                source,
                terms,
                runs,
                link_ids,
            )->Ok_0.0 =~= StoreState { claims: held, ..after });
        },
        Err(_) => {},
    }
}

/// A Claim changes the Claims and the events, and nothing else.
pub proof fn law_claim_is_informational(
    state: StoreState,
    layer_id: Text,
    resource: Text,
    id: Text,
    expires: Text,
    now: Text,
)
    requires
        claims::create_claim_outcome(state, layer_id, resource, id, expires, now) is Ok,
    ensures
        ({
            let after = claims::create_claim_outcome(
                state,
                layer_id,
                resource,
                id,
                expires,
                now,
            )->Ok_0;
            after == StoreState { claims: after.claims, events: after.events, ..state }
        }),
{
}

/// The evidence of a Conflict: its path and its three states.
pub open spec fn same_evidence(before: StoreState, after: StoreState) -> bool {
    &&& before.conflicts.len() <= after.conflicts.len()
    &&& forall|i: int|
        0 <= i < before.conflicts.len() ==> {
            &&& (#[trigger] after.conflicts[i]).id == before.conflicts[i].id
            &&& after.conflicts[i].path == before.conflicts[i].path
            &&& after.conflicts[i].base_entry == before.conflicts[i].base_entry
            &&& after.conflicts[i].target_entry == before.conflicts[i].target_entry
            &&& after.conflicts[i].private_entry == before.conflicts[i].private_entry
            &&& after.conflicts[i].target_ref == before.conflicts[i].target_ref
        }
}

/// Resolving a Conflict keeps the evidence of it and of every other.
pub proof fn law_evidence_is_kept(state: StoreState, id: Text, resolution: Text, now: Text)
    requires
        conflicts::resolve_outcome(state, id, resolution, now) is Ok,
    ensures
        same_evidence(state, conflicts::resolve_outcome(state, id, resolution, now)->Ok_0),
        same_world(state, conflicts::resolve_outcome(state, id, resolution, now)->Ok_0),
{
    let row = tables::find(state.conflicts, records::conflict_is(id))->Some_0;
    tables::lemma_first(state.conflicts, records::conflict_is(id));
    tables::lemma_first(state.conflicts, records::conflict_is(row.id));
}

/// Purging a Layer keeps the World and every accepted Contribution; only the
/// name of its source goes.
pub proof fn law_purge_keeps_contributions(state: StoreState, name_or_id: Text)
    requires
        layers::purge_outcome(state, name_or_id) is Ok,
    ensures
        ({
            let after = layers::purge_outcome(state, name_or_id)->Ok_0;
            &&& after.world == state.world
            &&& after.versions == state.versions
            &&& after.contributions.len() == state.contributions.len()
            &&& forall|i: int|
                0 <= i < state.contributions.len() ==> {
                    &&& (#[trigger] after.contributions[i]).id == state.contributions[i].id
                    &&& after.contributions[i].resulting_target_ref
                        == state.contributions[i].resulting_target_ref
                    &&& after.contributions[i].idempotency_key
                        == state.contributions[i].idempotency_key
                    &&& after.contributions[i].summary_json == state.contributions[i].summary_json
                }
        }),
{
}

/// The Layers that a purge leaves have their heads still.
pub proof fn law_purge_keeps_heads(state: StoreState, name_or_id: Text)
    requires
        heads_stand(state),
        layers::purge_outcome(state, name_or_id) is Ok,
    ensures
        heads_stand(layers::purge_outcome(state, name_or_id)->Ok_0),
{
    let gone = state.layer(name_or_id)->Some_0.id;
    let after = layers::purge_outcome(state, name_or_id)->Ok_0;
    lemma_kept_layers(state.layers, gone);
    assert forall|i: int| 0 <= i < after.layers.len() implies match after.checkpoint(
        (#[trigger] after.layers[i]).head_checkpoint,
    ) {
        Some(head) => head.layer_id == after.layers[i].id,
        None => false,
    } by {
        let layer = after.layers[i];
        assert(state.layers.contains(layer) && layer.id != gone);
        let k = choose|k: int| 0 <= k < state.layers.len() && state.layers[k] == layer;
        assert(state.layers[k].head_checkpoint == layer.head_checkpoint);
        tables::lemma_find_kept(
            state.checkpoints,
            rows::not_layer_checkpoints(gone),
            records::checkpoint_is(layer.head_checkpoint),
        );
    }
}

/// The Layers that stay are those with another identity, and none is twice.
proof fn lemma_kept_layers(all: Seq<Layer<Text>>, gone: Text)
    requires
        forall|i: int, j: int|
            0 <= i < j < all.len() ==> (#[trigger] all[i]).id != (#[trigger] all[j]).id,
    ensures
        ({
            let left = tables::kept(all, rows::not_layer(gone));
            &&& forall|i: int|
                0 <= i < left.len() ==> all.contains(#[trigger] left[i]) && left[i].id != gone
            &&& forall|i: int, j: int|
                0 <= i < j < left.len() ==> (#[trigger] left[i]).id != (#[trigger] left[j]).id
        }),
    decreases all.len(),
{
    if all.len() > 0 {
        let shorter = all.drop_last();
        lemma_kept_layers(shorter, gone);
        let before = tables::kept(shorter, rows::not_layer(gone));
        let left = tables::kept(all, rows::not_layer(gone));
        assert forall|i: int| 0 <= i < left.len() implies all.contains(#[trigger] left[i])
            && left[i].id != gone by {
            if i < before.len() {
                assert(shorter.contains(before[i]));
                let k = choose|k: int| 0 <= k < shorter.len() && shorter[k] == before[i];
                assert(all[k] == left[i]);
            } else {
                assert(all[all.len() - 1] == left[i]);
            }
        }
        assert forall|i: int, j: int| 0 <= i < j < left.len() implies (#[trigger] left[i]).id != (
        #[trigger] left[j]).id by {
            if j == before.len() {
                assert(shorter.contains(before[i]));
                let k = choose|k: int| 0 <= k < shorter.len() && shorter[k] == before[i];
                assert(all[k].id != all[all.len() - 1].id);
            } else {
                assert(before[i].id != before[j].id);
            }
        }
    }
}

} // verus!
