//! Recording what a view holds as a Checkpoint of its Layer.
use vstd::prelude::*;
use crate::clock;
use crate::error::{Failure, JavelinError, Result};
use crate::files;
use crate::model::{Checkpoint, Layer, LayerStatus, Tree, TreeEntry};
use crate::objects;
use crate::objects::ObjectKind;
use crate::paths;
use crate::store;
use crate::store::{layers, Store, StoreState};
use crate::text;
use crate::text::Text;
use crate::view::ScanResult;

verus! {

/// What was last seen of a view, and the Checkpoint that holds it.
#[derive(Debug)]
#[verifier::ext_equal]
pub struct ViewObservation<S = String> {
    pub schema: u8,
    pub layer_id: S,
    pub checkpoint_id: S,
    pub stamp: S,
}

impl DeepView for ViewObservation {
    type V = ViewObservation<Text>;

    open spec fn deep_view(&self) -> ViewObservation<Text> {
        ViewObservation {
            schema: self.schema,
            layer_id: self.layer_id@,
            checkpoint_id: self.checkpoint_id@,
            stamp: self.stamp@,
        }
    }
}

/// What is noted of a view after it was recorded.
pub fn observe(layer: &Layer, checkpoint: &Checkpoint, stamp: &str) -> (r: ViewObservation)
    ensures
        r.deep_view() == (ViewObservation {
            schema: 1,
            layer_id: layer@.id,
            checkpoint_id: checkpoint@.id,
            stamp: stamp@,
        }),
{
    ViewObservation {
        schema: 1,
        layer_id: layer.id.clone(),
        checkpoint_id: checkpoint.id.clone(),
        stamp: stamp.to_owned(),
    }
}

/// Where what was seen of a Layer's view is noted.
pub fn view_observation_path(metadata: &str, layer_id: &str) -> (r: String)
    ensures
        r@ == paths::joined_path(
            paths::joined_path(metadata@, "monitor"@),
            "view-"@ + layer_id@ + ".json"@,
        ),
{
    paths::join_path(
        paths::join_path(metadata, "monitor").as_str(),
        text::concat3("view-", layer_id, ".json").as_str(),
    )
}

/// The Checkpoint that holds what the view holds now, if that is known: the
/// Layer's head, where it was the head that was noted with this very stamp.
pub open spec fn observed_outcome(
    state: StoreState,
    layer: Layer<Text>,
    stamp: Text,
    observation: Option<ViewObservation<Text>>,
) -> std::result::Result<Option<Checkpoint<Text>>, Failure> {
    match observation {
        None => Ok(None),
        Some(seen) => if seen.schema != 1 || seen.layer_id != layer.id || seen.stamp != stamp {
            Ok(None)
        } else {
            match store::checkpoint_outcome(state, layer.head_checkpoint) {
                Err(failure) => Err(failure),
                Ok(head) => if seen.checkpoint_id == head.id {
                    Ok(Some(head))
                } else {
                    Ok(None)
                },
            }
        },
    }
}

/// The Checkpoint that holds what the view holds now, if that is known.
pub fn observed_checkpoint(
    store: &Store,
    layer: &Layer,
    stamp: &str,
    observation: &Option<ViewObservation>,
) -> (r: Result<Option<Checkpoint>>)
    ensures
        match observed_outcome(store@, layer@, stamp@, observation.deep_view()) {
            Ok(found) => r is Ok && r->Ok_0.deep_view() == found,
            Err(failure) => r is Err && r->Err_0@ == failure,
        },
{
    match observation {
        None => Ok(None),
        Some(seen) => {
            if seen.schema != 1 || !text::same(seen.layer_id.as_str(), layer.id.as_str())
                || !text::same(seen.stamp.as_str(), stamp) {
                return Ok(None);
            }
            let head = store.layer_head(layer)?;
            if text::same(seen.checkpoint_id.as_str(), head.id.as_str()) {
                Ok(Some(head))
            } else {
                Ok(None)
            }
        },
    }
}

/// Why nothing more is recorded of a Layer, if nothing is.
pub open spec fn closed_layer(layer: Layer<Text>) -> Option<Failure> {
    if layer.status == LayerStatus::Discarded {
        Some(Failure::policy("Private Layer "@ + layer.name + " is discarded"@))
    } else {
        None
    }
}

/// Refuses a discarded Layer.
pub fn check_layer_open(layer: &Layer) -> (r: Result<()>)
    ensures
        match closed_layer(layer@) {
            Some(failure) => r is Err && r->Err_0@ == failure,
            None => r is Ok,
        },
{
    if layer.status == LayerStatus::Discarded {
        return Err(
            JavelinError::policy(
                text::concat3("Private Layer ", layer.name.as_str(), " is discarded"),
            ),
        );
    }
    Ok(())
}

/// The store with a tree, which has an encoding.
pub open spec fn with_tree(state: StoreState, encoded: Seq<u8>, now: Text) -> StoreState {
    StoreState {
        object_metadata: layers::registered(
            state.object_metadata,
            objects::identity(ObjectKind::Tree, encoded),
            ObjectKind::Tree,
            encoded.len() as u64,
            now,
        ),
        ..state
    }
}

/// The store with more objects.
pub open spec fn with_objects(
    state: StoreState,
    new: Seq<(Text, ObjectKind, u64)>,
    now: Text,
) -> StoreState {
    StoreState {
        object_metadata: layers::all_registered(state.object_metadata, new, now),
        ..state
    }
}

/// What storing a tree as a Checkpoint of a Layer gives, with the objects that
/// came with it. The objects are recorded first and stay recorded where the rest
/// fails.
pub open spec fn stored_outcome(
    state: StoreState,
    layer_id: Text,
    found: Seq<(Text, ObjectKind, u64)>,
    entries: Seq<TreeEntry<Text>>,
    synchronized_ref: Text,
    reason: Text,
    id: Text,
    now: Text,
) -> (StoreState, std::result::Result<Checkpoint<Text>, Failure>) {
    let noted = with_objects(state, found, now);
    match objects::encode_outcome(entries) {
        Err(failure) => (noted, Err(failure)),
        Ok(encoded) => {
            let kept = with_tree(noted, encoded, now);
            match layers::append_checkpoint_outcome(
                kept,
                layer_id,
                objects::identity(ObjectKind::Tree, encoded),
                synchronized_ref,
                reason,
                id,
                now,
            ) {
                Err(failure) => (kept, Err(failure)),
                Ok((after, checkpoint)) => (after, Ok(checkpoint)),
            }
        },
    }
}

/// The tree has an encoding that could not be compressed, and this is the error.
pub open spec fn tree_refused(entries: Seq<TreeEntry<Text>>, failure: Failure) -> bool {
    objects::encode_outcome(entries) is Ok && objects::compression_failure(
        objects::encode_outcome(entries)->Ok_0,
        failure,
    )
}

/// The store went by the outcome, with the tree's file to write, or the objects
/// are recorded alone because the tree could not be compressed.
pub open spec fn stored_or_refused(
    noted: StoreState,
    after: StoreState,
    outcome: (StoreState, std::result::Result<Checkpoint<Text>, Failure>),
    entries: Seq<TreeEntry<Text>>,
    r: Result<(Checkpoint, (String, Vec<u8>))>,
) -> bool {
    match r {
        Ok((checkpoint, file)) => outcome == (
            after,
            Ok::<Checkpoint<Text>, Failure>(checkpoint@),
        ) && objects::encode_outcome(entries) is Ok && files::is_object(
            file,
            ObjectKind::Tree,
            objects::encode_outcome(entries)->Ok_0,
        ),
        Err(error) => outcome == (after, Err::<Checkpoint<Text>, Failure>(error@)) || (after
            == noted && tree_refused(entries, error@)),
    }
}

/// Stores a tree as a Checkpoint of a Layer with a given identity and time, and
/// gives the tree's file to write.
pub fn store_checkpoint_at(
    store: &mut Store,
    layer_id: &str,
    found: &Vec<(String, ObjectKind, u64)>,
    tree: &Tree,
    synchronized_ref: &str,
    reason: &str,
    id: &str,
    now: &str,
) -> (r: Result<(Checkpoint, (String, Vec<u8>))>)
    ensures
        stored_or_refused(
            with_objects(old(store)@, layers::object_list(found@), now@),
            final(store)@,
            stored_outcome(
                old(store)@,
                layer_id@,
                layers::object_list(found@),
                tree@,
                synchronized_ref@,
                reason@,
                id@,
                now@,
            ),
            tree@,
            r,
        ),
{
    let ghost before = store@;
    store.register_objects_at(found, now);
    let ghost noted = store@;
    assert(noted =~= with_objects(before, layers::object_list(found@), now@));
    let encoded = objects::encode_tree(tree)?;
    let length: u64 = encoded.len() as u64;
    let (root, file) = store.objects.put_tree(tree)?;
    store.register_object_at(root.as_str(), ObjectKind::Tree, length, now);
    assert(store@ =~= with_tree(noted, encoded@, now@));
    let checkpoint = store.append_checkpoint_at(
        layer_id,
        root.as_str(),
        synchronized_ref,
        reason,
        id,
        now,
    )?;
    let r: Result<(Checkpoint, (String, Vec<u8>))> = Ok((checkpoint, (root, file)));
    assert(files::is_object(r->Ok_0.1, ObjectKind::Tree, encoded@));
    r
}

/// Why a scan of a Layer's view is not recorded, if it is not.
pub open spec fn scan_refusal(state: StoreState, layer_id: Text, stamp: Text, stable_stamp: Text) -> Option<
    Failure,
> {
    match store::layer_outcome(state, layer_id) {
        Err(failure) => Some(failure),
        Ok(_) => if stamp != stable_stamp {
            Some(
                Failure::busy(
                    "Managed view changed during reconciliation; retry the command"@,
                ),
            )
        } else {
            None
        },
    }
}

/// What recording a scan of a Layer's view gives.
pub open spec fn record_outcome(
    state: StoreState,
    layer_id: Text,
    found: Seq<(Text, ObjectKind, u64)>,
    entries: Seq<TreeEntry<Text>>,
    stamp: Text,
    stable_stamp: Text,
    reason: Text,
    id: Text,
    now: Text,
) -> (StoreState, std::result::Result<Checkpoint<Text>, Failure>) {
    match scan_refusal(state, layer_id, stamp, stable_stamp) {
        Some(failure) => (state, Err(failure)),
        None => {
            let layer = state.layer(layer_id)->Some_0;
            stored_outcome(
                state,
                layer.id,
                found,
                entries,
                layer.synchronized_ref,
                reason,
                id,
                now,
            )
        },
    }
}

/// The store went by the outcome of recording a scan, or recorded the scan's
/// objects alone because its tree could not be compressed.
pub open spec fn recorded_or_refused(
    before: StoreState,
    after: StoreState,
    layer_id: Text,
    scan: ScanResult,
    stamp: Text,
    stable_stamp: Text,
    outcome: (StoreState, std::result::Result<Checkpoint<Text>, Failure>),
    now: Text,
    r: Result<(Checkpoint, (String, Vec<u8>))>,
) -> bool {
    if scan_refusal(before, layer_id, stamp, stable_stamp) is Some {
        r is Err && outcome == (after, Err::<Checkpoint<Text>, Failure>(r->Err_0@))
    } else {
        stored_or_refused(
            with_objects(before, layers::object_list(scan.objects@), now),
            after,
            outcome,
            scan.tree@,
            r,
        )
    }
}

/// Records a scan of a Layer's view as a Checkpoint with a given identity and
/// time, and gives the tree's file to write. `stamp` is the stamp of the view
/// before the scan and `stable_stamp` the one after it.
pub fn reconcile_at(
    store: &mut Store,
    layer_id: &str,
    scan: &ScanResult,
    stamp: &str,
    stable_stamp: &str,
    reason: &str,
    id: &str,
    now: &str,
) -> (r: Result<(Checkpoint, (String, Vec<u8>))>)
    ensures
        recorded_or_refused(
            old(store)@,
            final(store)@,
            layer_id@,
            *scan,
            stamp@,
            stable_stamp@,
            record_outcome(
                old(store)@,
                layer_id@,
                layers::object_list(scan.objects@),
                scan.tree@,
                stamp@,
                stable_stamp@,
                reason@,
                id@,
                now@,
            ),
            now@,
            r,
        ),
{
    let layer = store.layer(layer_id)?;
    if !text::same(stamp, stable_stamp) {
        return Err(
            JavelinError::busy(
                "Managed view changed during reconciliation; retry the command".to_owned(),
            ),
        );
    }
    store_checkpoint_at(
        store,
        layer.id.as_str(),
        &scan.objects,
        &scan.tree,
        layer.synchronized_ref.as_str(),
        reason,
        id,
        now,
    )
}

/// Records a scan of a Layer's view as a Checkpoint.
pub fn reconcile(
    store: &mut Store,
    layer_id: &str,
    scan: &ScanResult,
    stamp: &str,
    stable_stamp: &str,
    reason: &str,
) -> (r: Result<(Checkpoint, (String, Vec<u8>))>)
    ensures
        exists|id: Text, now: Text|
            clock::is_stamp(now) && clock::is_fresh(id) && recorded_or_refused(
                old(store)@,
                final(store)@,
                layer_id@,
                *scan,
                stamp@,
                stable_stamp@,
                #[trigger] record_outcome(
                    old(store)@,
                    layer_id@,
                    layers::object_list(scan.objects@),
                    scan.tree@,
                    stamp@,
                    stable_stamp@,
                    reason@,
                    id,
                    now,
                ),
                now,
                r,
            ),
{
    let id = clock::new_id();
    let now = clock::now();
    reconcile_at(
        store,
        layer_id,
        scan,
        stamp,
        stable_stamp,
        reason,
        id.as_str(),
        now.as_str(),
    )
}

/// What the Monitor records of a view: the objects in any case, and of the tree
/// nothing where the Layer moved to another state meanwhile, and the head where
/// it holds the tree already.
pub open spec fn capture_outcome(
    state: StoreState,
    layer_id: Text,
    synchronized_ref: Text,
    found: Seq<(Text, ObjectKind, u64)>,
    entries: Seq<TreeEntry<Text>>,
    id: Text,
    now: Text,
) -> (StoreState, std::result::Result<Option<(Layer<Text>, Checkpoint<Text>)>, Failure>) {
    let noted = with_objects(state, found, now);
    match objects::encode_outcome(entries) {
        Err(failure) => (noted, Err(failure)),
        Ok(encoded) => match store::layer_outcome(state, layer_id) {
            Err(failure) => (noted, Err(failure)),
            Ok(layer) => if layer.synchronized_ref != synchronized_ref {
                (noted, Ok(None))
            } else {
                match store::checkpoint_outcome(state, layer.head_checkpoint) {
                    Err(failure) => (noted, Err(failure)),
                    Ok(head) => if head.root_tree == objects::identity(
                        ObjectKind::Tree,
                        encoded,
                    ) {
                        (noted, Ok(Some((layer, head))))
                    } else {
                        let stored = stored_outcome(
                            state,
                            layer.id,
                            found,
                            entries,
                            layer.synchronized_ref,
                            "automatic"@,
                            id,
                            now,
                        );
                        match stored.1 {
                            Err(failure) => (stored.0, Err(failure)),
                            Ok(checkpoint) => (stored.0, Ok(Some((layer, checkpoint)))),
                        }
                    },
                }
            },
        },
    }
}

/// A capture: the Layer as it was, and the Checkpoint that holds the view.
#[derive(Debug)]
pub struct Capture {
    pub layer: Layer,
    pub checkpoint: Checkpoint,
}

pub open spec fn capture_view(capture: Option<Capture>) -> Option<(Layer<Text>, Checkpoint<Text>)> {
    match capture {
        Some(found) => Some((found.layer@, found.checkpoint@)),
        None => None,
    }
}

/// The store went by the outcome, with the tree's file to write, or the objects
/// are recorded alone because the tree could not be compressed.
pub open spec fn captured_or_refused(
    noted: StoreState,
    after: StoreState,
    outcome: (
        StoreState,
        std::result::Result<Option<(Layer<Text>, Checkpoint<Text>)>, Failure>,
    ),
    entries: Seq<TreeEntry<Text>>,
    r: Result<(Option<Capture>, (String, Vec<u8>))>,
) -> bool {
    match r {
        Ok((capture, file)) => outcome == (
            after,
            Ok::<Option<(Layer<Text>, Checkpoint<Text>)>, Failure>(capture_view(capture)),
        ) && objects::encode_outcome(entries) is Ok && files::is_object(
            file,
            ObjectKind::Tree,
            objects::encode_outcome(entries)->Ok_0,
        ),
        Err(error) => outcome == (
            after,
            Err::<Option<(Layer<Text>, Checkpoint<Text>)>, Failure>(error@),
        ) || (after == noted && tree_refused(entries, error@)),
    }
}

/// Records what the Monitor scanned, with a given identity and time, and gives
/// the tree's file to write. `synchronized_ref` is the state that the Layer was
/// synchronized with when the scan began.
pub fn capture_at(
    store: &mut Store,
    layer_id: &str,
    synchronized_ref: &str,
    scan: &ScanResult,
    id: &str,
    now: &str,
) -> (r: Result<(Option<Capture>, (String, Vec<u8>))>)
    ensures
        captured_or_refused(
            with_objects(old(store)@, layers::object_list(scan.objects@), now@),
            final(store)@,
            capture_outcome(
                old(store)@,
                layer_id@,
                synchronized_ref@,
                layers::object_list(scan.objects@),
                scan.tree@,
                id@,
                now@,
            ),
            scan.tree@,
            r,
        ),
{
    let ghost before = store@;
    let ghost found = layers::object_list(scan.objects@);
    store.register_objects_at(&scan.objects, now);
    let ghost noted = store@;
    assert(noted =~= with_objects(before, found, now@));
    let encoded = objects::encode_tree(&scan.tree)?;
    let length: u64 = encoded.len() as u64;
    let (root, file) = store.objects.put_tree(&scan.tree)?;
    let ghost written = (root, file);
    assert(files::is_object(written, ObjectKind::Tree, encoded@));
    assert(noted.layer(layer_id@) == before.layer(layer_id@));
    let layer = store.layer(layer_id)?;
    if !text::same(layer.synchronized_ref.as_str(), synchronized_ref) {
        return Ok((None, (root, file)));
    }
    assert(noted.checkpoint(layer@.head_checkpoint) == before.checkpoint(layer@.head_checkpoint));
    let head = store.layer_head(&layer)?;
    if text::same(head.root_tree.as_str(), root.as_str()) {
        return Ok((Some(Capture { layer, checkpoint: head }), (root, file)));
    }
    store.register_object_at(root.as_str(), ObjectKind::Tree, length, now);
    assert(store@ =~= with_tree(noted, encoded@, now@));
    let checkpoint = store.append_checkpoint_at(
        layer.id.as_str(),
        root.as_str(),
        layer.synchronized_ref.as_str(),
        "automatic",
        id,
        now,
    )?;
    Ok((Some(Capture { layer, checkpoint }), (root, file)))
}

/// Records what the Monitor scanned.
pub fn capture(
    store: &mut Store,
    layer_id: &str,
    synchronized_ref: &str,
    scan: &ScanResult,
) -> (r: Result<(Option<Capture>, (String, Vec<u8>))>)
    ensures
        exists|id: Text, now: Text|
            clock::is_stamp(now) && clock::is_fresh(id) && captured_or_refused(
                with_objects(old(store)@, layers::object_list(scan.objects@), now),
                final(store)@,
                #[trigger] capture_outcome(
                    old(store)@,
                    layer_id@,
                    synchronized_ref@,
                    layers::object_list(scan.objects@),
                    scan.tree@,
                    id,
                    now,
                ),
                scan.tree@,
                r,
            ),
{
    let id = clock::new_id();
    let now = clock::now();
    capture_at(store, layer_id, synchronized_ref, scan, id.as_str(), now.as_str())
}

/// What a head that was noted with the stamp of an unchanged view is taken for:
/// nothing is scanned again.
pub proof fn law_unchanged_view_is_recognized(
    state: StoreState,
    layer: Layer<Text>,
    head: Checkpoint<Text>,
    stamp: Text,
)
    requires
        state.checkpoint(layer.head_checkpoint) == Some(head),
    ensures
        observed_outcome(
            state,
            layer,
            stamp,
            Some(
                ViewObservation {
                    schema: 1,
                    layer_id: layer.id,
                    checkpoint_id: head.id,
                    stamp,
                },
            ),
        ) == Ok::<Option<Checkpoint<Text>>, Failure>(Some(head)),
{
}

/// A view with another stamp is never taken for the recorded one.
pub proof fn law_changed_view_is_scanned(
    state: StoreState,
    layer: Layer<Text>,
    stamp: Text,
    observation: ViewObservation<Text>,
)
    requires
        observation.stamp != stamp,
    ensures
        observed_outcome(state, layer, stamp, Some(observation)) == Ok::<
            Option<Checkpoint<Text>>,
            Failure,
        >(None),
{
}

/// A scan is recorded only where the view did not change under it; one that did
/// is refused as busy, and nothing changes.
pub proof fn law_moving_view_is_not_recorded(
    state: StoreState,
    layer_id: Text,
    found: Seq<(Text, ObjectKind, u64)>,
    entries: Seq<TreeEntry<Text>>,
    stamp: Text,
    stable_stamp: Text,
    reason: Text,
    id: Text,
    now: Text,
)
    requires
        state.layer(layer_id) is Some,
        stamp != stable_stamp,
    ensures
        ({
            let (after, told) = record_outcome(
                state,
                layer_id,
                found,
                entries,
                stamp,
                stable_stamp,
                reason,
                id,
                now,
            );
            after == state && told is Err && told->Err_0.exit_code == 8
        }),
{
}

/// A recorded Checkpoint holds the scanned tree, under the identity of its
/// encoding, and the Layer stays synchronized with what it was.
pub proof fn law_recorded_checkpoint_holds_the_scan(
    state: StoreState,
    layer_id: Text,
    found: Seq<(Text, ObjectKind, u64)>,
    entries: Seq<TreeEntry<Text>>,
    stamp: Text,
    reason: Text,
    id: Text,
    now: Text,
)
    requires
        record_outcome(state, layer_id, found, entries, stamp, stamp, reason, id, now).1 is Ok,
    ensures
        ({
            let (after, told) = record_outcome(
                state,
                layer_id,
                found,
                entries,
                stamp,
                stamp,
                reason,
                id,
                now,
            );
            let checkpoint = told->Ok_0;
            let layer = state.layer(layer_id)->Some_0;
            &&& objects::encode_outcome(entries) is Ok
            &&& checkpoint.root_tree == objects::identity(
                ObjectKind::Tree,
                objects::encode_outcome(entries)->Ok_0,
            )
            &&& checkpoint.synchronized_ref == layer.synchronized_ref
            &&& after.versions == state.versions
            &&& after.world == state.world
            &&& after.contributions == state.contributions
        }),
{
    lemma_objects_keep_rows(state, found, now);
}

proof fn lemma_objects_keep_rows(
    state: StoreState,
    found: Seq<(Text, ObjectKind, u64)>,
    now: Text,
)
    ensures
        with_objects(state, found, now).layers == state.layers,
        with_objects(state, found, now).checkpoints == state.checkpoints,
        with_objects(state, found, now).versions == state.versions,
{
}

/// A view is taken for recorded only where everything that was noted agrees: the
/// Layer, its head, and the stamp.
pub proof fn law_recorded_view_agrees_in_everything(
    state: StoreState,
    layer: Layer<Text>,
    stamp: Text,
    observation: Option<ViewObservation<Text>>,
)
    ensures
        observed_outcome(state, layer, stamp, observation) matches Ok(Some(head)) ==> {
            &&& observation is Some
            &&& observation->Some_0.schema == 1
            &&& observation->Some_0.layer_id == layer.id
            &&& observation->Some_0.stamp == stamp
            &&& observation->Some_0.checkpoint_id == head.id
            &&& state.checkpoint(layer.head_checkpoint) == Some(head)
        },
        layer.status == LayerStatus::Discarded <==> closed_layer(layer) is Some,
        closed_layer(layer) is Some ==> closed_layer(layer)->Some_0.exit_code == 10,
{
}

/// The Monitor appends nothing to a Layer that was brought to another state
/// since its view was read, and nothing where the head holds the tree already.
/// Whatever else it appends is the tree of the view.
pub proof fn law_capture_never_overtakes(
    state: StoreState,
    layer_id: Text,
    synchronized_ref: Text,
    found: Seq<(Text, ObjectKind, u64)>,
    entries: Seq<TreeEntry<Text>>,
    id: Text,
    now: Text,
)
    ensures
        ({
            let (after, told) = capture_outcome(
                state,
                layer_id,
                synchronized_ref,
                found,
                entries,
                id,
                now,
            );
            let layer = state.layer(layer_id);
            &&& told matches Ok(None) ==> layer is Some && layer->Some_0.synchronized_ref
                != synchronized_ref && after.checkpoints == state.checkpoints && after.layers
                == state.layers
            &&& told matches Ok(Some((captured, checkpoint))) ==> {
                &&& layer == Some(captured)
                &&& captured.synchronized_ref == synchronized_ref
                &&& checkpoint.root_tree == objects::identity(
                    ObjectKind::Tree,
                    objects::encode_outcome(entries)->Ok_0,
                )
                &&& state.checkpoint(captured.head_checkpoint)->Some_0.root_tree
                    == checkpoint.root_tree ==> after.checkpoints == state.checkpoints
            }
            &&& layer is Some && layer->Some_0.synchronized_ref != synchronized_ref
                ==> after.checkpoints == state.checkpoints
        }),
{
}

} // verus!
