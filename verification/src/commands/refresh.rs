//! Refresh: a Private Layer takes over what its target gained.
use vstd::prelude::*;
use crate::clock;
use crate::commands::checkpoints;
use crate::commands::views;
use crate::commands::views::ViewOrder;
use crate::error::{Failure, JavelinError, Result};
use crate::files;
use crate::files::{FilesState, ObjectFiles};
use crate::integration;
use crate::integration::{Candidate, ConflictInput, Contents, Integration, Sides};
use crate::json;
use crate::json::{Json, JsonValue};
use crate::model;
use crate::model::{Checkpoint, Layer, LayerStatus, TargetKind, Tree, TreeEntry};
use crate::objects;
use crate::objects::ObjectKind;
use crate::ordered;
use crate::ordered::PathMap;
use crate::records::ConflictRecord;
use crate::report;
use crate::report::Shown;
use crate::store;
use crate::store::{conflicts, layers, Store, StoreState};
use crate::tables;
use crate::text;
use crate::text::Text;

verus! {

/// The identities of Conflicts.
pub open spec fn conflict_ids(rows: Seq<ConflictRecord<Text>>) -> Seq<Text> {
    Seq::new(rows.len(), |i: int| rows[i].id)
}

/// The open Conflicts of a Layer, in order.
pub open spec fn open_conflicts(state: StoreState, layer_id: Text) -> Seq<ConflictRecord<Text>> {
    tables::in_order::<ConflictRecord>(
        tables::kept(state.conflicts, conflicts::shown(Some(layer_id), false)),
    )
}

/// Why a Layer cannot be refreshed, if it cannot: it is discarded, or has
/// Conflicts that are not resolved.
pub open spec fn refresh_refusal(state: StoreState, layer: Layer<Text>) -> Option<Failure> {
    let rows = open_conflicts(state, layer.id);
    if layer.status == LayerStatus::Discarded {
        Some(Failure::policy("Private Layer "@ + layer.name + " is discarded"@))
    } else if rows.len() > 0 {
        Some(
            Failure {
                details: JsonValue::object().field(
                    "conflict_ids"@,
                    JsonValue::Array(json::text_values(conflict_ids(rows))),
                ),
                recovery: seq!["javelin conflict list "@ + layer.name],
                ..Failure::conflict(
                    "Private Layer "@ + layer.name + " has "@ + text::decimal(rows.len())
                        + " unresolved Conflicts"@,
                )
            },
        )
    } else {
        None
    }
}

fn ids_of_conflicts(rows: &Vec<ConflictRecord>) -> (r: Vec<String>)
    ensures
        r.deep_view() == conflict_ids(rows.deep_view()),
{
    let mut out: Vec<String> = Vec::new();
    let mut i: usize = 0;
    while i < rows.len()
        invariant
            i <= rows@.len(),
            out@.len() == i,
            forall|j: int| 0 <= j < i ==> (#[trigger] out@[j])@ == rows@[j]@.id,
        decreases rows@.len() - i,
    {
        out.push(rows[i].id.clone());
        i = i + 1;
    }
    assert(out.deep_view() =~= conflict_ids(rows.deep_view()));
    out
}

fn one_text(content: String) -> (r: Vec<String>)
    ensures
        r.deep_view() == seq![content@],
{
    let mut out: Vec<String> = Vec::new();
    let ghost value = content@;
    out.push(content);
    assert(out.deep_view() =~= seq![value]);
    out
}

/// Refuses a Layer that cannot be refreshed.
pub fn check_refresh(store: &Store, layer: &Layer) -> (r: Result<()>)
    ensures
        match refresh_refusal(store@, layer@) {
            Some(failure) => r is Err && r->Err_0@ == failure,
            None => r is Ok,
        },
{
    checkpoints::check_layer_open(layer)?;
    let rows = store.conflicts(Some(layer.id.as_str()), false);
    if rows.len() > 0 {
        let message = text::concat3(
            text::concat3("Private Layer ", layer.name.as_str(), " has ").as_str(),
            text::number(rows.len() as u64).as_str(),
            " unresolved Conflicts",
        );
        return Err(
            JavelinError::conflict(message).details(
                Json::empty().with("conflict_ids", Json::texts(&ids_of_conflicts(&rows))),
            ).recovery(
                one_text(text::concat2("javelin conflict list ", layer.name.as_str())),
            ),
        );
    }
    Ok(())
}

/// The state of a Layer's target: its reference, its root and its tree.
pub open spec fn target_outcome(state: StoreState, files: FilesState, layer: Layer<Text>) -> std::result::Result<
    (Text, Text, Seq<TreeEntry<Text>>),
    Failure,
> {
    match layer.target_kind {
        TargetKind::World => match store::current_outcome(state) {
            Err(failure) => Err(failure),
            Ok(version) => match files::tree_outcome(files, version.root_tree) {
                Err(failure) => Err(failure),
                Ok(tree) => Ok((version.id, version.root_tree, tree)),
            },
        },
        TargetKind::Layer => match layer.target_id {
            None => Err(Failure::corruption("Layer target has no ID"@)),
            Some(id) => match store::layer_outcome(state, id) {
                Err(failure) => Err(failure),
                Ok(parent) => match views::head_outcome(state, files, parent) {
                    Err(failure) => Err(failure),
                    Ok((head, tree)) => Ok((head.id, head.root_tree, tree)),
                },
            },
        },
    }
}

/// The state of a Layer's target.
pub fn target_state(store: &Store, files: &ObjectFiles, layer: &Layer) -> (r: Result<
    (String, String, Tree),
>)
    requires
        files.wf(),
    ensures
        match target_outcome(store@, files@, layer@) {
            Ok(found) => r is Ok && r->Ok_0.0@ == found.0 && r->Ok_0.1@ == found.1
                && r->Ok_0.2@ == found.2,
            Err(failure) => r is Err && r->Err_0@ == failure,
        },
{
    match layer.target_kind {
        TargetKind::World => {
            let version = store.current_world()?;
            let tree = files.read_tree(version.root_tree.as_str())?;
            Ok((version.id, version.root_tree, tree))
        },
        TargetKind::Layer => match &layer.target_id {
            None => Err(JavelinError::corruption("Layer target has no ID".to_owned())),
            Some(id) => {
                let parent = store.layer(id.as_str())?;
                let (head, tree) = views::head_and_tree(store, files, &parent)?;
                Ok((head.id, head.root_tree, tree))
            },
        },
    }
}

/// Whether an object is a blob that is short enough to be merged as text.
pub open spec fn text_sized(files: FilesState, id: Text) -> std::result::Result<bool, Failure> {
    match files::info_outcome(files, id) {
        Err(failure) => Err(failure),
        Ok((kind, length)) => Ok(
            kind == ObjectKind::Blob && length <= integration::TEXT_DIFF_LIMIT,
        ),
    }
}

/// The contents of a path's blob on the three sides.
pub open spec fn read_contents(files: FilesState, candidate: Candidate<Text>) -> std::result::Result<
    Contents<Seq<u8>>,
    Failure,
> {
    match files::blob_outcome(files, candidate.base) {
        Err(failure) => Err(failure),
        Ok(base) => match files::blob_outcome(files, candidate.target) {
            Err(failure) => Err(failure),
            Ok(target) => match files::blob_outcome(files, candidate.private) {
                Err(failure) => Err(failure),
                Ok(private) => Ok(Contents { base, target, private }),
            },
        },
    }
}

/// The contents of a path's blob on the three sides, where all are short
/// enough to be merged.
pub open spec fn contents_outcome(files: FilesState, candidate: Candidate<Text>) -> std::result::Result<
    Option<Contents<Seq<u8>>>,
    Failure,
> {
    match text_sized(files, candidate.base) {
        Err(failure) => Err(failure),
        Ok(false) => Ok(None),
        Ok(true) => match text_sized(files, candidate.target) {
            Err(failure) => Err(failure),
            Ok(false) => Ok(None),
            Ok(true) => match text_sized(files, candidate.private) {
                Err(failure) => Err(failure),
                Ok(false) => Ok(None),
                Ok(true) => match read_contents(files, candidate) {
                    Err(failure) => Err(failure),
                    Ok(contents) => Ok(Some(contents)),
                },
            },
        },
    }
}

/// The contents of the paths that need them, the paths read one after another.
pub open spec fn all_contents(files: FilesState, candidates: Seq<Candidate<Text>>) -> std::result::Result<
    Map<Text, Contents<Seq<u8>>>,
    Failure,
>
    decreases candidates.len(),
{
    if candidates.len() == 0 {
        Ok(Map::empty())
    } else {
        match all_contents(files, candidates.drop_last()) {
            Err(failure) => Err(failure),
            Ok(before) => match contents_outcome(files, candidates.last()) {
                Err(failure) => Err(failure),
                Ok(None) => Ok(before),
                Ok(Some(contents)) => Ok(before.insert(candidates.last().path, contents)),
            },
        }
    }
}

fn is_text_sized(files: &ObjectFiles, id: &str) -> (r: Result<bool>)
    requires
        files.wf(),
    ensures
        match text_sized(files@, id@) {
            Ok(found) => r is Ok && r->Ok_0 == found,
            Err(failure) => r is Err && r->Err_0@ == failure,
        },
{
    let (kind, length) = files.info(id)?;
    Ok(integration::is_text_sized(kind, length))
}

fn load_contents(files: &ObjectFiles, candidate: &Candidate) -> (r: Result<Option<Contents>>)
    requires
        files.wf(),
    ensures
        match contents_outcome(files@, candidate.deep_view()) {
            Ok(found) => r is Ok && r->Ok_0.deep_view() == found,
            Err(failure) => r is Err && r->Err_0@ == failure,
        },
{
    if !is_text_sized(files, candidate.base.as_str())? {
        return Ok(None);
    }
    if !is_text_sized(files, candidate.target.as_str())? {
        return Ok(None);
    }
    if !is_text_sized(files, candidate.private.as_str())? {
        return Ok(None);
    }
    let base = files.read_blob(candidate.base.as_str())?;
    let target = files.read_blob(candidate.target.as_str())?;
    let private = files.read_blob(candidate.private.as_str())?;
    Ok(Some(Contents { base, target, private }))
}

proof fn lemma_contents_failure(files: FilesState, candidates: Seq<Candidate<Text>>, i: int)
    requires
        0 <= i <= candidates.len(),
        all_contents(files, candidates.take(i)) is Err,
    ensures
        all_contents(files, candidates) == all_contents(files, candidates.take(i)),
    decreases candidates.len() - i,
{
    if i < candidates.len() {
        assert(candidates.take(i + 1).drop_last() =~= candidates.take(i));
        lemma_contents_failure(files, candidates, i + 1);
    } else {
        assert(candidates.take(i) =~= candidates);
    }
}

/// How many of the candidates can be read before the first that cannot.
pub open spec fn readable(files: FilesState, candidates: Seq<Candidate<Text>>) -> nat
    decreases candidates.len(),
{
    if candidates.len() == 0 {
        0
    } else if all_contents(files, candidates.drop_last()) is Err {
        readable(files, candidates.drop_last())
    } else if contents_outcome(files, candidates.last()) is Err {
        (candidates.len() - 1) as nat
    } else {
        candidates.len()
    }
}

/// The texts that the contents of the candidates are merged to, with their
/// identities.
pub open spec fn merged_texts(files: FilesState, candidates: Seq<Candidate<Text>>) -> Seq<
    (Text, Seq<u8>),
>
    decreases candidates.len(),
{
    if candidates.len() == 0 {
        Seq::empty()
    } else {
        let before = merged_texts(files, candidates.drop_last());
        match contents_outcome(files, candidates.last()) {
            Ok(Some(contents)) => match integration::text_integration(contents) {
                Some(merged) => before.push(
                    (objects::identity(ObjectKind::Blob, merged), merged),
                ),
                None => before,
            },
            _ => before,
        }
    }
}

proof fn lemma_readable(files: FilesState, candidates: Seq<Candidate<Text>>, i: int, n: int)
    requires
        0 <= i < n <= candidates.len(),
        all_contents(files, candidates.take(i)) is Ok,
        contents_outcome(files, candidates[i]) is Err,
    ensures
        readable(files, candidates.take(n)) == i,
        all_contents(files, candidates.take(n)) is Err,
    decreases n,
{
    let some = candidates.take(n);
    assert(some.drop_last() =~= candidates.take(n - 1));
    assert(some.last() == candidates[n - 1]);
    if i < n - 1 {
        lemma_readable(files, candidates, i, n - 1);
    }
}

/// An integration that stopped at a path whose contents cannot be read: the
/// error, and the texts that were merged for the paths before.
#[derive(Debug)]
pub struct Broken {
    pub error: JavelinError,
    pub blobs: Vec<(String, Vec<u8>)>,
}

fn merge_texts(files: &ObjectFiles, candidates: &Vec<Candidate>, count: usize) -> (r: Vec<
    (String, Vec<u8>),
>)
    requires
        files.wf(),
        count <= candidates@.len(),
    ensures
        integration::blob_views(r@) == merged_texts(
            files@,
            candidates.deep_view().take(count as int),
        ),
{
    let ghost all = candidates.deep_view();
    let mut out: Vec<(String, Vec<u8>)> = Vec::new();
    let mut i: usize = 0;
    assert(all.take(0) =~= Seq::empty());
    assert(integration::blob_views(out@) =~= Seq::empty());
    while i < count
        invariant
            i <= count <= candidates@.len(),
            all == candidates.deep_view(),
            files.wf(),
            integration::blob_views(out@) == merged_texts(files@, all.take(i as int)),
        decreases count - i,
    {
        let ghost before = integration::blob_views(out@);
        proof {
            assert(all.take(i as int + 1).drop_last() =~= all.take(i as int));
            assert(all.take(i as int + 1).last() == candidates@[i as int].deep_view());
        }
        if let Ok(Some(contents)) = load_contents(files, &candidates[i]) {
            if let Some(merged) = integration::try_text_integration(&contents) {
                let id = objects::object_id(ObjectKind::Blob, merged.as_slice());
                let ghost pair = (id@, merged@);
                out.push((id, merged));
                assert(integration::blob_views(out@) =~= before.push(pair));
            }
        }
        i = i + 1;
    }
    out
}

fn load_all_contents(files: &ObjectFiles, candidates: &Vec<Candidate>) -> (r: std::result::Result<
    PathMap<Contents>,
    Broken,
>)
    requires
        files.wf(),
    ensures
        match all_contents(files@, candidates.deep_view()) {
            Ok(found) => r is Ok && r->Ok_0.wf() && r->Ok_0@ == found,
            Err(failure) => r is Err && r->Err_0.error@ == failure && integration::blob_views(
                r->Err_0.blobs@,
            ) == merged_texts(
                files@,
                candidates.deep_view().take(
                    readable(files@, candidates.deep_view()) as int,
                ),
            ),
        },
{
    let ghost all = candidates.deep_view();
    let mut out: PathMap<Contents> = PathMap::new();
    let mut i: usize = 0;
    assert(all.take(0) =~= Seq::empty());
    while i < candidates.len()
        invariant
            i <= candidates@.len(),
            all == candidates.deep_view(),
            files.wf(),
            out.wf(),
            all_contents(files@, all.take(i as int)) == Ok::<
                Map<Text, Contents<Seq<u8>>>,
                Failure,
            >(out@),
        decreases candidates@.len() - i,
    {
        proof {
            assert(all.take(i as int + 1).drop_last() =~= all.take(i as int));
            assert(all.take(i as int + 1).last() == candidates@[i as int].deep_view());
            assert(all[i as int] == candidates@[i as int].deep_view());
            if all_contents(files@, all.take(i as int + 1)) is Err {
                lemma_contents_failure(files@, all, i as int + 1);
                lemma_readable(files@, all, i as int, all.len() as int);
                assert(all.take(all.len() as int) =~= all);
            }
        }
        match load_contents(files, &candidates[i]) {
            Ok(Some(contents)) => {
                out.insert(candidates[i].path.clone(), contents);
            },
            Ok(None) => {},
            Err(error) => {
                let blobs = merge_texts(files, candidates, i);
                return Err(Broken { error, blobs });
            },
        }
        i = i + 1;
    }
    assert(all.take(i as int) =~= all);
    Ok(out)
}

/// Three trees, before any contents are known.
pub open spec fn bare_sides(
    base: Seq<TreeEntry<Text>>,
    target: Seq<TreeEntry<Text>>,
    private: Seq<TreeEntry<Text>>,
) -> Sides {
    Sides {
        base: model::states(base),
        target: model::states(target),
        private: model::states(private),
        contents: Map::empty(),
    }
}

/// Three trees with the contents that their integration needs.
pub open spec fn sides_outcome(
    files: FilesState,
    base: Seq<TreeEntry<Text>>,
    target: Seq<TreeEntry<Text>>,
    private: Seq<TreeEntry<Text>>,
) -> std::result::Result<Sides, Failure> {
    let bare = bare_sides(base, target, private);
    match all_contents(files, bare.candidates(ordered::sorted_keys(bare.private.dom()))) {
        Err(failure) => Err(failure),
        Ok(contents) => Ok(Sides { contents, ..bare }),
    }
}

/// The integration is that of the three sides.
pub open spec fn integrates(integration: Integration, sides: Sides) -> bool {
    &&& integration.tree@ == model::values_of(ordered::pairs_of(sides.result()))
    &&& integration.conflicts.deep_view() == sides.conflicts()
    &&& integration::blob_views(integration.blobs@) == sides.merged_blobs(
        ordered::sorted_keys(sides.all_paths()),
    )
}

/// The texts that were merged before the contents of a path could not be read.
pub open spec fn merged_before(
    files: FilesState,
    base: Seq<TreeEntry<Text>>,
    target: Seq<TreeEntry<Text>>,
    private: Seq<TreeEntry<Text>>,
) -> Seq<(Text, Seq<u8>)> {
    let bare = bare_sides(base, target, private);
    let candidates = bare.candidates(ordered::sorted_keys(bare.private.dom()));
    merged_texts(files, candidates.take(readable(files, candidates) as int))
}

/// Integrates three trees whose objects are at hand.
pub fn integrate(
    files: &ObjectFiles,
    base: &Tree,
    target: &Tree,
    private: &Tree,
) -> (r: std::result::Result<Integration, Broken>)
    requires
        files.wf(),
    ensures
        match sides_outcome(files@, base@, target@, private@) {
            Ok(sides) => r is Ok && integrates(r->Ok_0, sides),
            Err(failure) => r is Err && r->Err_0.error@ == failure && integration::blob_views(
                r->Err_0.blobs@,
            ) == merged_before(files@, base@, target@, private@),
        },
{
    let candidates = integration::merge_candidates(base, target, private);
    match load_all_contents(files, &candidates) {
        Ok(contents) => Ok(integration::integrate_trees(base, target, private, &contents)),
        Err(broken) => Err(broken),
    }
}

/// What a Refresh of a Layer has to do.
pub enum Plan {
    /// The Layer is synchronized with its target already.
    Current { target_ref: Text, target_root: Text },
    Merge { target_ref: Text, target_root: Text, sides: Sides },
    /// The contents of a path cannot be read. The texts that were merged for the
    /// paths before are kept.
    Broken { failure: Failure, blobs: Seq<(Text, Seq<u8>)> },
}

/// What a Refresh has to do for a Layer whose view is recorded in a Checkpoint.
pub open spec fn plan_outcome(
    state: StoreState,
    files: FilesState,
    layer: Layer<Text>,
    source: Checkpoint<Text>,
) -> std::result::Result<Plan, Failure> {
    match views::tree_for_ref_outcome(state, files, source.synchronized_ref) {
        Err(failure) => Err(failure),
        Ok((_, _, base)) => match files::tree_outcome(files, source.root_tree) {
            Err(failure) => Err(failure),
            Ok(private) => match target_outcome(state, files, layer) {
                Err(failure) => Err(failure),
                Ok((target_ref, target_root, target)) => if source.synchronized_ref == target_ref {
                    Ok(Plan::Current { target_ref, target_root })
                } else {
                    match sides_outcome(files, base, target, private) {
                        Err(failure) => Ok(
                            Plan::Broken {
                                failure,
                                blobs: merged_before(files, base, target, private),
                            },
                        ),
                        Ok(sides) => Ok(Plan::Merge { target_ref, target_root, sides }),
                    }
                },
            },
        },
    }
}

/// What a Refresh of a Layer has to do.
#[derive(Debug)]
pub enum RefreshPlan {
    Current { target_ref: String, target_root: String },
    Merge { target_ref: String, target_root: String, integration: Integration },
    Broken(Broken),
}

/// The plan is the one that is due.
pub open spec fn follows(plan: RefreshPlan, due: Plan) -> bool {
    match (plan, due) {
        (
            RefreshPlan::Current { target_ref, target_root },
            Plan::Current { target_ref: reference, target_root: root },
        ) => target_ref@ == reference && target_root@ == root,
        (
            RefreshPlan::Merge { target_ref, target_root, integration },
            Plan::Merge { target_ref: reference, target_root: root, sides },
        ) => target_ref@ == reference && target_root@ == root && integrates(integration, sides),
        (RefreshPlan::Broken(broken), Plan::Broken { failure, blobs }) => broken.error@ == failure
            && integration::blob_views(broken.blobs@) == blobs,
        _ => false,
    }
}

/// Plans the Refresh of a Layer whose view is recorded in a Checkpoint.
pub fn plan_refresh(store: &Store, files: &ObjectFiles, layer: &Layer, source: &Checkpoint) -> (r:
    Result<RefreshPlan>)
    requires
        files.wf(),
    ensures
        match plan_outcome(store@, files@, layer@, source@) {
            Ok(due) => r is Ok && follows(r->Ok_0, due),
            Err(failure) => r is Err && r->Err_0@ == failure,
        },
{
    let (_, _, base) = views::tree_for_ref(store, files, source.synchronized_ref.as_str())?;
    let private = files.read_tree(source.root_tree.as_str())?;
    let (target_ref, target_root, target) = target_state(store, files, layer)?;
    if text::same(source.synchronized_ref.as_str(), target_ref.as_str()) {
        return Ok(RefreshPlan::Current { target_ref, target_root });
    }
    match integrate(files, &base, &target, &private) {
        Ok(integration) => Ok(RefreshPlan::Merge { target_ref, target_root, integration }),
        Err(broken) => Ok(RefreshPlan::Broken(broken)),
    }
}

/// The failure of a Refresh that met Conflicts.
pub open spec fn conflicts_failure(layer: Layer<Text>, ids: Seq<Text>) -> Failure {
    Failure {
        details: JsonValue::object().field("layer_id"@, JsonValue::Text(layer.id)).field(
            "conflict_ids"@,
            JsonValue::Array(json::text_values(ids)),
        ),
        recovery: seq!["javelin conflict list "@ + layer.name],
        ..Failure::conflict(
            "Refresh found "@ + text::decimal(ids.len()) + " incompatible path states"@,
        )
    }
}

/// The records of blobs, under their identities.
pub open spec fn blob_records(blobs: Seq<(Text, Seq<u8>)>) -> Seq<(Text, ObjectKind, u64)> {
    Seq::new(
        blobs.len(),
        |i: int|
            (
                objects::identity(ObjectKind::Blob, blobs[i].1),
                ObjectKind::Blob,
                blobs[i].1.len() as u64,
            ),
    )
}

/// The files hold the blobs.
pub open spec fn holds_blobs(written: Seq<(String, Vec<u8>)>, blobs: Seq<(Text, Seq<u8>)>) -> bool {
    forall|i: int|
        0 <= i < blobs.len() ==> files::holds_object(
            written,
            ObjectKind::Blob,
            (#[trigger] blobs[i]).1,
        )
}

/// What a Refresh that did not succeed leaves: the error to report, and the
/// object files to write.
#[derive(Debug)]
pub struct Refusal {
    pub error: JavelinError,
    pub written: Vec<(String, Vec<u8>)>,
}

/// One of the blobs could not be compressed: those before it are stored and
/// recorded, and nothing else changed.
pub open spec fn blobs_stopped(
    before: StoreState,
    after: StoreState,
    blobs: Seq<(Text, Seq<u8>)>,
    now: Text,
    failure: Failure,
    written: Seq<(String, Vec<u8>)>,
) -> bool {
    exists|i: int|
        0 <= i < blobs.len() && #[trigger] objects::compression_failure(blobs[i].1, failure)
            && after == checkpoints::with_objects(before, blob_records(blobs.take(i)), now)
            && holds_blobs(written, blobs.take(i))
}

/// Stores and records blobs, one after the other.
fn store_blobs(
    store: &mut Store,
    blobs: &Vec<(String, Vec<u8>)>,
    written: &mut Vec<(String, Vec<u8>)>,
    now: &str,
) -> (r: Result<()>)
    requires
        old(written)@.len() == 0,
    ensures
        match r {
            Ok(_) => {
                &&& final(store)@ == checkpoints::with_objects(
                    old(store)@,
                    blob_records(integration::blob_views(blobs@)),
                    now@,
                )
                &&& holds_blobs(final(written)@, integration::blob_views(blobs@))
            },
            Err(error) => blobs_stopped(
                old(store)@,
                final(store)@,
                integration::blob_views(blobs@),
                now@,
                error@,
                final(written)@,
            ),
        },
{
    let ghost before = store@;
    let ghost all = integration::blob_views(blobs@);
    let mut i: usize = 0;
    proof {
        assert(blob_records(all.take(0)) =~= Seq::empty());
        assert(store@ =~= checkpoints::with_objects(before, blob_records(all.take(0)), now@));
    }
    while i < blobs.len()
        invariant
            i <= blobs@.len(),
            all == integration::blob_views(blobs@),
            before == old(store)@,
            store@ == checkpoints::with_objects(before, blob_records(all.take(i as int)), now@),
            written@.len() == i,
            forall|j: int|
                0 <= j < i ==> files::is_object(
                    #[trigger] written@[j],
                    ObjectKind::Blob,
                    all[j].1,
                ),
        decreases blobs@.len() - i,
    {
        let ghost records = blob_records(all.take(i as int));
        let ghost more = blob_records(all.take(i as int + 1));
        proof {
            assert(all[i as int].1 == blobs@[i as int].1@);
            assert(more.drop_last() =~= records);
            assert(holds_blobs(written@, all.take(i as int))) by {
                assert forall|j: int| 0 <= j < i implies files::holds_object(
                    written@,
                    ObjectKind::Blob,
                    (#[trigger] all.take(i as int)[j]).1,
                ) by {
                    assert(files::is_object(written@[j], ObjectKind::Blob, all[j].1));
                }
            }
        }
        let (id, file) = match store.objects.put_blob(blobs[i].1.as_slice()) {
            Ok(stored) => stored,
            Err(error) => {
                assert(objects::compression_failure(all[i as int].1, error@));
                return Err(error);
            },
        };
        store.register_object_at(
            id.as_str(),
            ObjectKind::Blob,
            blobs[i].1.len() as u64,
            now,
        );
        assert(store@ =~= checkpoints::with_objects(before, more, now@));
        written.push((id, file));
        assert(files::is_object(written@[i as int], ObjectKind::Blob, all[i as int].1));
        i = i + 1;
    }
    proof {
        assert(all.take(i as int) =~= all);
        assert forall|j: int| 0 <= j < all.len() implies files::holds_object(
            written@,
            ObjectKind::Blob,
            (#[trigger] all[j]).1,
        ) by {
            assert(files::is_object(written@[j], ObjectKind::Blob, all[j].1));
        }
    }
    Ok(())
}

/// The store went by the outcome, with every new object to write, or stopped at a
/// blob that could not be compressed.
pub open spec fn refused_or_stopped(
    before: StoreState,
    after: StoreState,
    outcome: (StoreState, Failure),
    blobs: Seq<(Text, Seq<u8>)>,
    now: Text,
    refusal: Refusal,
) -> bool {
    ||| outcome == (after, refusal.error@) && holds_blobs(refusal.written@, blobs)
    ||| blobs_stopped(before, after, blobs, now, refusal.error@, refusal.written@)
}

/// The store after a Refresh that could not read the contents of a path.
pub open spec fn broken_outcome(
    state: StoreState,
    failure: Failure,
    blobs: Seq<(Text, Seq<u8>)>,
    now: Text,
) -> (StoreState, Failure) {
    (checkpoints::with_objects(state, blob_records(blobs), now), failure)
}

/// Keeps at a given time what a Refresh merged before it could not read the
/// contents of a path.
pub fn break_refresh_at(store: &mut Store, broken: Broken, now: &str) -> (r: Refusal)
    ensures
        refused_or_stopped(
            old(store)@,
            final(store)@,
            broken_outcome(
                old(store)@,
                broken.error@,
                integration::blob_views(broken.blobs@),
                now@,
            ),
            integration::blob_views(broken.blobs@),
            now@,
            r,
        ),
{
    let mut written: Vec<(String, Vec<u8>)> = Vec::new();
    match store_blobs(store, &broken.blobs, &mut written, now) {
        Ok(()) => Refusal { error: broken.error, written },
        Err(error) => Refusal { error, written },
    }
}

/// Keeps what a Refresh merged before it could not read the contents of a path.
pub fn break_refresh(store: &mut Store, broken: Broken) -> (r: Refusal)
    ensures
        exists|now: Text|
            clock::is_stamp(now) && refused_or_stopped(
                old(store)@,
                final(store)@,
                #[trigger] broken_outcome(
                    old(store)@,
                    broken.error@,
                    integration::blob_views(broken.blobs@),
                    now,
                ),
                integration::blob_views(broken.blobs@),
                now,
                r,
            ),
{
    let now = clock::now();
    break_refresh_at(store, broken, now.as_str())
}

/// The store after a Refresh that met Conflicts: the texts that could be merged
/// are kept, and the Conflicts are recorded.
pub open spec fn refusal_outcome(
    state: StoreState,
    layer: Layer<Text>,
    target_ref: Text,
    found: Seq<ConflictInput<Text>>,
    blobs: Seq<(Text, Seq<u8>)>,
    ids: Seq<Text>,
    now: Text,
) -> (StoreState, Failure) {
    let noted = checkpoints::with_objects(state, blob_records(blobs), now);
    match conflicts::record_outcome(noted, layer.id, target_ref, found, ids, now) {
        Ok(after) => (after, conflicts_failure(layer, ids)),
        Err(failure) => (noted, failure),
    }
}

/// Records the Conflicts of a Refresh with given identities and time.
pub fn refuse_refresh_at(
    store: &mut Store,
    layer: &Layer,
    target_ref: &str,
    integration: &Integration,
    ids: &Vec<String>,
    now: &str,
) -> (r: Refusal)
    requires
        ids@.len() == integration.conflicts@.len(),
    ensures
        refused_or_stopped(
            old(store)@,
            final(store)@,
            refusal_outcome(
                old(store)@,
                layer@,
                target_ref@,
                integration.conflicts.deep_view(),
                integration::blob_views(integration.blobs@),
                ids.deep_view(),
                now@,
            ),
            integration::blob_views(integration.blobs@),
            now@,
            r,
        ),
{
    let mut written: Vec<(String, Vec<u8>)> = Vec::new();
    if let Err(error) = store_blobs(store, &integration.blobs, &mut written, now) {
        return Refusal { error, written };
    }
    let recorded = store.record_conflicts_at(
        layer.id.as_str(),
        target_ref,
        &integration.conflicts,
        ids,
        now,
    );
    if let Err(error) = recorded {
        return Refusal { error, written };
    }
    let error = JavelinError::conflict(
        text::concat3(
            "Refresh found ",
            text::number(ids.len() as u64).as_str(),
            " incompatible path states",
        ),
    ).details(
        Json::empty().with("layer_id", Json::text(layer.id.as_str())).with(
            "conflict_ids",
            Json::texts(ids),
        ),
    ).recovery(one_text(text::concat2("javelin conflict list ", layer.name.as_str())));
    Refusal { error, written }
}

/// The Layer after a Refresh, before its view is put on disk.
pub open spec fn accepted_outcome(
    state: StoreState,
    layer: Layer<Text>,
    target_ref: Text,
    entries: Seq<TreeEntry<Text>>,
    blobs: Seq<(Text, Seq<u8>)>,
    id: Text,
    now: Text,
) -> (StoreState, std::result::Result<Checkpoint<Text>, Failure>) {
    let stored = checkpoints::stored_outcome(
        state,
        layer.id,
        blob_records(blobs),
        entries,
        target_ref,
        "refresh"@,
        id,
        now,
    );
    match stored.1 {
        Err(failure) => stored,
        Ok(checkpoint) => (
            views::opened(stored.0, layer.id, checkpoint.id, now),
            Ok(checkpoint),
        ),
    }
}

/// What a Refresh stored: the new Checkpoint, what is to be put into the view,
/// and the object files to write.
#[derive(Debug)]
pub struct Refreshed {
    pub checkpoint: Checkpoint,
    pub order: ViewOrder,
    pub written: Vec<(String, Vec<u8>)>,
}

/// The store went by the outcome, with the view's order and every new object to
/// write, or stopped at an object that could not be compressed.
pub open spec fn accepted_or_refused(
    before: StoreState,
    after: StoreState,
    outcome: (StoreState, std::result::Result<Checkpoint<Text>, Failure>),
    layer: Layer<Text>,
    entries: Seq<TreeEntry<Text>>,
    blobs: Seq<(Text, Seq<u8>)>,
    now: Text,
    r: std::result::Result<Refreshed, Refusal>,
) -> bool {
    match r {
        Ok(done) => {
            &&& outcome == (after, Ok::<Checkpoint<Text>, Failure>(done.checkpoint@))
            &&& objects::encode_outcome(entries) is Ok
            &&& files::holds_object(
                done.written@,
                ObjectKind::Tree,
                objects::encode_outcome(entries)->Ok_0,
            )
            &&& holds_blobs(done.written@, blobs)
            &&& done.order@ == views::order_for(
                before.root,
                layer,
                done.checkpoint@.id,
                objects::identity(ObjectKind::Tree, objects::encode_outcome(entries)->Ok_0),
                entries,
            )
        },
        Err(refusal) => {
            ||| outcome == (after, Err::<Checkpoint<Text>, Failure>(refusal.error@))
                && holds_blobs(refusal.written@, blobs)
            ||| after == checkpoints::with_objects(before, blob_records(blobs), now)
                && checkpoints::tree_refused(entries, refusal.error@) && holds_blobs(
                refusal.written@,
                blobs,
            )
            ||| blobs_stopped(before, after, blobs, now, refusal.error@, refusal.written@)
        },
    }
}

/// Stores an integration without Conflicts as the Layer's new head, with a given
/// identity and time. The view is stale until the order is carried out.
pub fn accept_refresh_at(
    store: &mut Store,
    layer: &Layer,
    target_ref: &str,
    integration: &Integration,
    id: &str,
    now: &str,
) -> (r: std::result::Result<Refreshed, Refusal>)
    requires
        integration.conflicts@.len() == 0,
    ensures
        accepted_or_refused(
            old(store)@,
            final(store)@,
            accepted_outcome(
                old(store)@,
                layer@,
                target_ref@,
                integration.tree@,
                integration::blob_views(integration.blobs@),
                id@,
                now@,
            ),
            layer@,
            integration.tree@,
            integration::blob_views(integration.blobs@),
            now@,
            r,
        ),
{
    let ghost before = store@;
    let ghost blobs = integration::blob_views(integration.blobs@);
    let mut written: Vec<(String, Vec<u8>)> = Vec::new();
    if let Err(error) = store_blobs(store, &integration.blobs, &mut written, now) {
        return Err(Refusal { error, written });
    }
    let ghost noted = store@;
    let none: Vec<(String, ObjectKind, u64)> = Vec::new();
    proof {
        assert(layers::object_list(none@) =~= Seq::empty());
        assert(checkpoints::with_objects(noted, layers::object_list(none@), now@) =~= noted);
    }
    let stored = checkpoints::store_checkpoint_at(
        store,
        layer.id.as_str(),
        &none,
        &integration.tree,
        target_ref,
        "refresh",
        id,
        now,
    );
    let (checkpoint, file) = match stored {
        Ok(found) => found,
        Err(error) => {
            return Err(Refusal { error, written });
        },
    };
    let root = file.0.clone();
    let ghost earlier = written@;
    let ghost encoded = objects::encode_outcome(integration.tree@)->Ok_0;
    written.push(file);
    proof {
        assert(files::is_object(written@[earlier.len() as int], ObjectKind::Tree, encoded));
        assert forall|i: int| 0 <= i < blobs.len() implies files::holds_object(
            written@,
            ObjectKind::Blob,
            (#[trigger] blobs[i]).1,
        ) by {
            assert(files::holds_object(earlier, ObjectKind::Blob, blobs[i].1));
            let j = choose|j: int| #[trigger]
                files::is_object(earlier[j], ObjectKind::Blob, blobs[i].1) && 0 <= j
                    < earlier.len();
            assert(written@[j] == earlier[j]);
        }
    }
    let order = views::order_view(
        store,
        layer,
        checkpoint.id.as_str(),
        root.as_str(),
        integration.tree.clone(),
    );
    store.mark_view_at(layer.id.as_str(), checkpoint.id.as_str(), true, "materializing", now);
    Ok(Refreshed { checkpoint, order, written })
}

/// The store went the way of an integration: its Conflicts are recorded where it
/// has any, and it is the Layer's new head where it has none.
pub open spec fn settled(
    before: StoreState,
    after: StoreState,
    layer: Layer<Text>,
    target_ref: Text,
    integration: Integration,
    ids: Seq<Text>,
    id: Text,
    now: Text,
    r: std::result::Result<Refreshed, Refusal>,
) -> bool {
    let blobs = integration::blob_views(integration.blobs@);
    if integration.conflicts@.len() > 0 {
        r is Err && refused_or_stopped(
            before,
            after,
            refusal_outcome(
                before,
                layer,
                target_ref,
                integration.conflicts.deep_view(),
                blobs,
                ids,
                now,
            ),
            blobs,
            now,
            r->Err_0,
        )
    } else {
        accepted_or_refused(
            before,
            after,
            accepted_outcome(before, layer, target_ref, integration.tree@, blobs, id, now),
            layer,
            integration.tree@,
            blobs,
            now,
            r,
        )
    }
}

/// Carries an integration out with given identities and time: it is refused where
/// it has Conflicts, and accepted where it has none.
pub fn settle_refresh_at(
    store: &mut Store,
    layer: &Layer,
    target_ref: &str,
    integration: &Integration,
    ids: &Vec<String>,
    id: &str,
    now: &str,
) -> (r: std::result::Result<Refreshed, Refusal>)
    requires
        ids@.len() == integration.conflicts@.len(),
    ensures
        settled(
            old(store)@,
            final(store)@,
            layer@,
            target_ref@,
            *integration,
            ids.deep_view(),
            id@,
            now@,
            r,
        ),
{
    if integration.conflicts.len() > 0 {
        Err(refuse_refresh_at(store, layer, target_ref, integration, ids, now))
    } else {
        accept_refresh_at(store, layer, target_ref, integration, id, now)
    }
}

/// Carries an integration out.
pub fn settle_refresh(
    store: &mut Store,
    layer: &Layer,
    target_ref: &str,
    integration: &Integration,
) -> (r: std::result::Result<Refreshed, Refusal>)
    ensures
        exists|ids: Seq<Text>, id: Text, now: Text|
            clock::is_stamp(now) && ids.len() == integration.conflicts@.len()
                && clock::are_fresh(ids) && clock::is_fresh(
                id,
            ) && #[trigger] settled(
                old(store)@,
                final(store)@,
                layer@,
                target_ref@,
                *integration,
                ids,
                id,
                now,
                r,
            ),
{
    let ids = clock::new_ids(integration.conflicts.len());
    let id = clock::new_id();
    let now = clock::now();
    assert(ids.deep_view().len() == integration.conflicts@.len());
    settle_refresh_at(store, layer, target_ref, integration, &ids, id.as_str(), now.as_str())
}

/// The store after the view of a refreshed Layer is on disk, or after that
/// failed.
pub open spec fn finished_refresh(
    state: StoreState,
    layer_id: Text,
    checkpoint_id: Text,
    target_ref: Text,
    root_tree: Text,
    backend: Option<Text>,
    now: Text,
) -> StoreState {
    let closed = views::closed(state, layer_id, checkpoint_id, backend, now);
    match backend {
        None => closed,
        Some(_) => closed.with_event(
            "refresh.completed"@,
            Some("layer"@),
            Some(layer_id),
            JsonValue::object().field("checkpoint_id"@, JsonValue::Text(checkpoint_id)).field(
                "target_ref"@,
                JsonValue::Text(target_ref),
            ).field("root_tree"@, JsonValue::Text(root_tree)),
            now,
        ),
    }
}

/// Finishes a Refresh at a given time, by what became of the view's order.
pub fn finish_refresh_at(
    store: &mut Store,
    order: &ViewOrder,
    target_ref: &str,
    backend: Option<&str>,
    now: &str,
)
    ensures
        final(store)@ == finished_refresh(
            old(store)@,
            order@.layer_id,
            order@.checkpoint_id,
            target_ref@,
            order@.root_tree,
            backend.deep_view(),
            now@,
        ),
{
    views::close_view_at(
        store,
        order.layer_id.as_str(),
        order.checkpoint_id.as_str(),
        backend,
        now,
    );
    if backend.is_some() {
        let payload = Json::empty().with(
            "checkpoint_id",
            Json::text(order.checkpoint_id.as_str()),
        ).with("target_ref", Json::text(target_ref)).with(
            "root_tree",
            Json::text(order.root_tree.as_str()),
        );
        store.append_event_at(
            "refresh.completed",
            Some("layer"),
            Some(order.layer_id.as_str()),
            payload,
            now,
        );
    }
}

/// Finishes a Refresh.
pub fn finish_refresh(
    store: &mut Store,
    order: &ViewOrder,
    target_ref: &str,
    backend: Option<&str>,
)
    ensures
        exists|now: Text|
            clock::is_stamp(now) && final(store)@ == #[trigger] finished_refresh(
                old(store)@,
                order@.layer_id,
                order@.checkpoint_id,
                target_ref@,
                order@.root_tree,
                backend.deep_view(),
                now,
            ),
{
    let now = clock::now();
    finish_refresh_at(store, order, target_ref, backend, now.as_str())
}

/// The error of a view that could not be put on disk, with the way to repair
/// it.
pub fn with_repair_hint(error: JavelinError, layer_name: &str) -> (r: JavelinError)
    ensures
        r@ == (Failure { recovery: seq!["javelin repair --view "@ + layer_name@], ..error@ }),
{
    error.recovery(one_text(text::concat2("javelin repair --view ", layer_name)))
}

/// What the refresh command shows and says.
pub fn refresh_report(
    layer: &Layer,
    checkpoint: &Checkpoint,
    target_ref: &str,
    target_root: &str,
    changed: bool,
) -> (r: (Json, String))
    ensures
        r.0@ == JsonValue::object().field("layer"@, Layer::value(layer@)).field(
            "checkpoint"@,
            Checkpoint::value(checkpoint@),
        ).field("target_ref"@, JsonValue::Text(target_ref@)).field(
            "target_root"@,
            JsonValue::Text(target_root@),
        ).field("changed"@, JsonValue::Bool(changed)),
        r.1@ == "Refreshed "@ + layer@.name + " to "@ + target_ref@ + " through "@ + checkpoint@.id,
{
    let shown = Json::empty().with("layer", layer.shown()).with(
        "checkpoint",
        checkpoint.shown(),
    ).with("target_ref", Json::text(target_ref)).with(
        "target_root",
        Json::text(target_root),
    ).with("changed", Json::Bool(changed));
    let human = text::concat3(
        text::concat3(
            text::concat2("Refreshed ", layer.name.as_str()).as_str(),
            " to ",
            target_ref,
        ).as_str(),
        " through ",
        checkpoint.id.as_str(),
    );
    (shown, human)
}

/// A Refresh that meets Conflicts keeps the World, every Checkpoint and the head
/// of every Layer.
pub proof fn law_refused_refresh_keeps_heads(
    state: StoreState,
    layer_id: Text,
    target_ref: Text,
    found: Seq<ConflictInput<Text>>,
    ids: Seq<Text>,
    now: Text,
)
    ensures
        ({
            let after = conflicts::recorded_conflicts(state, layer_id, target_ref, found, ids, now);
            &&& after.world == state.world
            &&& after.versions == state.versions
            &&& after.checkpoints == state.checkpoints
            &&& after.contributions == state.contributions
            &&& after.layers.len() == state.layers.len()
            &&& forall|i: int|
                0 <= i < state.layers.len() ==> (#[trigger] after.layers[i]).id
                    == state.layers[i].id && after.layers[i].head_checkpoint
                    == state.layers[i].head_checkpoint && after.layers[i].synchronized_ref
                    == state.layers[i].synchronized_ref
        }),
{
    let marked = layers::with_status(state, layer_id, LayerStatus::Conflicted);
    tables::lemma_first(state.layers, crate::records::layer_is(layer_id));
    lemma_conflicts_keep(marked, layer_id, target_ref, found, ids, now);
}

proof fn lemma_conflicts_keep(
    state: StoreState,
    layer_id: Text,
    target_ref: Text,
    found: Seq<ConflictInput<Text>>,
    ids: Seq<Text>,
    now: Text,
)
    ensures
        ({
            let after = conflicts::with_conflicts(state, layer_id, target_ref, found, ids, now);
            &&& after.world == state.world
            &&& after.versions == state.versions
            &&& after.checkpoints == state.checkpoints
            &&& after.contributions == state.contributions
            &&& after.layers == state.layers
        }),
    decreases found.len(),
{
    if found.len() > 0 {
        lemma_conflicts_keep(
            state,
            layer_id,
            target_ref,
            found.drop_last(),
            ids,
            now,
        );
    }
}

/// A Refresh whose integration has Conflicts is refused. It keeps the World, every
/// Checkpoint and the head of every Layer, and tells of the Conflicts of a Layer
/// that is known, unless a merged text cannot be stored.
pub proof fn law_conflicts_refuse_a_refresh(
    before: StoreState,
    after: StoreState,
    layer: Layer<Text>,
    target_ref: Text,
    integration: Integration,
    ids: Seq<Text>,
    id: Text,
    now: Text,
    r: std::result::Result<Refreshed, Refusal>,
)
    requires
        integration.conflicts@.len() > 0,
        settled(before, after, layer, target_ref, integration, ids, id, now, r),
    ensures
        r is Err,
        after.world == before.world,
        after.versions == before.versions,
        after.checkpoints == before.checkpoints,
        after.contributions == before.contributions,
        after.layers.len() == before.layers.len(),
        forall|i: int|
            0 <= i < before.layers.len() ==> (#[trigger] after.layers[i]).id == before.layers[i].id
                && after.layers[i].head_checkpoint == before.layers[i].head_checkpoint
                && after.layers[i].synchronized_ref == before.layers[i].synchronized_ref,
        tables::any(before.layers, crate::records::layer_is(layer.id)) ==> r->Err_0.error@
            == conflicts_failure(layer, ids) || blobs_stopped(
            before,
            after,
            integration::blob_views(integration.blobs@),
            now,
            r->Err_0.error@,
            r->Err_0.written@,
        ),
{
    let blobs = integration::blob_views(integration.blobs@);
    let found = integration.conflicts.deep_view();
    let noted = checkpoints::with_objects(before, blob_records(blobs), now);
    assert(found.len() == integration.conflicts@.len());
    law_refused_refresh_keeps_heads(noted, layer.id, target_ref, found, ids, now);
}

/// A Layer is refreshed to where its target stands now: to the World's current
/// version, or to the head of the Layer that it targets.
pub proof fn law_refresh_goes_to_the_target(
    state: StoreState,
    files: FilesState,
    layer: Layer<Text>,
)
    requires
        target_outcome(state, files, layer) is Ok,
    ensures
        ({
            let (target_ref, target_root, tree) = target_outcome(state, files, layer)->Ok_0;
            &&& files::tree_outcome(files, target_root) == Ok::<Seq<TreeEntry<Text>>, Failure>(tree)
            &&& layer.target_kind == TargetKind::World ==> target_ref
                == state.world->Some_0.current_version && target_root
                == state.version(target_ref)->Some_0.root_tree
            &&& layer.target_kind == TargetKind::Layer ==> target_ref == state.layer(
                layer.target_id->Some_0,
            )->Some_0.head_checkpoint && target_root == state.checkpoint(
                target_ref,
            )->Some_0.root_tree
        }),
{
    if state.world is Some {
        tables::lemma_first(
            state.versions,
            crate::records::version_is(state.world->Some_0.current_version),
        );
    }
    if layer.target_id is Some {
        if let Some(parent) = state.layer(layer.target_id->Some_0) {
            tables::lemma_first(
                state.checkpoints,
                crate::records::checkpoint_is(parent.head_checkpoint),
            );
        }
    }
}

/// What is integrated: the state that the Layer was synchronized with as the
/// base, the target's state, and what the Layer holds. A Layer that is
/// synchronized with its target already has nothing to integrate.
pub proof fn law_refresh_integrates_the_three_states(
    state: StoreState,
    files: FilesState,
    layer: Layer<Text>,
    source: Checkpoint<Text>,
)
    requires
        plan_outcome(state, files, layer, source) is Ok,
    ensures
        ({
            let plan = plan_outcome(state, files, layer, source)->Ok_0;
            let base = views::tree_for_ref_outcome(state, files, source.synchronized_ref)->Ok_0.2;
            let private = files::tree_outcome(files, source.root_tree)->Ok_0;
            let (target_ref, target_root, target) = target_outcome(state, files, layer)->Ok_0;
            &&& plan is Current <==> source.synchronized_ref == target_ref
            &&& plan matches Plan::Merge { target_ref: reference, target_root: root, sides } ==> {
                &&& reference == target_ref
                &&& root == target_root
                &&& sides.base == model::states(base)
                &&& sides.target == model::states(target)
                &&& sides.private == model::states(private)
            }
        }),
{
}

/// The candidates are the paths whose contents are wanted, with their objects.
proof fn lemma_candidates(sides: Sides, items: Seq<Text>)
    ensures
        forall|k: int|
            0 <= k < sides.candidates(items).len() ==> {
                let found = #[trigger] sides.candidates(items)[k];
                &&& items.contains(found.path)
                &&& sides.wants_contents(found.path)
                &&& found.base == objects::written_id(sides.base[found.path].object_id)
                &&& found.target == objects::written_id(sides.target[found.path].object_id)
                &&& found.private == objects::written_id(sides.private[found.path].object_id)
            },
        forall|path: Text|
            items.contains(path) && sides.wants_contents(path) ==> exists|k: int|
                0 <= k < sides.candidates(items).len() && (#[trigger] sides.candidates(
                    items,
                )[k]).path == path,
    decreases items.len(),
{
    if items.len() > 0 {
        let shorter = items.drop_last();
        lemma_candidates(sides, shorter);
        let before = sides.candidates(shorter);
        let all = sides.candidates(items);
        assert forall|k: int| 0 <= k < all.len() implies {
            let found = #[trigger] all[k];
            &&& items.contains(found.path)
            &&& sides.wants_contents(found.path)
            &&& found.base == objects::written_id(sides.base[found.path].object_id)
            &&& found.target == objects::written_id(sides.target[found.path].object_id)
            &&& found.private == objects::written_id(sides.private[found.path].object_id)
        } by {
            if k < before.len() {
                let found = before[k];
                let i = choose|i: int| 0 <= i < shorter.len() && shorter[i] == found.path;
                assert(items[i] == found.path);
            } else {
                assert(items[items.len() - 1] == items.last());
            }
        }
        assert forall|path: Text| items.contains(path) && sides.wants_contents(path) implies exists|
            k: int,
        |
            0 <= k < all.len() && (#[trigger] all[k]).path == path by {
            let i = choose|i: int| 0 <= i < items.len() && items[i] == path;
            if i < shorter.len() {
                assert(shorter[i] == path);
                assert(shorter.contains(path));
                let k = choose|k: int| 0 <= k < before.len() && (#[trigger] before[k]).path == path;
                assert(all[k].path == path);
            } else {
                assert(all[all.len() - 1].path == path);
            }
        }
    }
}

/// The contents that were read are those of the candidates.
proof fn lemma_all_contents(files: FilesState, candidates: Seq<Candidate<Text>>)
    requires
        all_contents(files, candidates) is Ok,
    ensures
        forall|path: Text| #[trigger]
            all_contents(files, candidates)->Ok_0.contains_key(path) ==> exists|k: int|
                0 <= k < candidates.len() && (#[trigger] candidates[k]).path == path
                    && contents_outcome(files, candidates[k]) == Ok::<
                    Option<Contents<Seq<u8>>>,
                    Failure,
                >(Some(all_contents(files, candidates)->Ok_0[path])),
        forall|k: int|
            0 <= k < candidates.len() ==> contents_outcome(files, #[trigger] candidates[k]) is Ok && (
            contents_outcome(files, candidates[k])->Ok_0 is Some ==> all_contents(
                files,
                candidates,
            )->Ok_0.contains_key(candidates[k].path)),
    decreases candidates.len(),
{
    if candidates.len() > 0 {
        let shorter = candidates.drop_last();
        lemma_all_contents(files, shorter);
        let before = all_contents(files, shorter)->Ok_0;
        let all = all_contents(files, candidates)->Ok_0;
        assert forall|path: Text| #[trigger] all.contains_key(path) implies exists|k: int|
            0 <= k < candidates.len() && (#[trigger] candidates[k]).path == path
                && contents_outcome(files, candidates[k]) == Ok::<
                Option<Contents<Seq<u8>>>,
                Failure,
            >(Some(all[path])) by {
            let last = candidates[candidates.len() - 1];
            if last.path == path && contents_outcome(files, last)->Ok_0 is Some {
                assert(candidates[candidates.len() - 1].path == path);
            } else {
                assert(before.contains_key(path));
                let k = choose|k: int|
                    0 <= k < shorter.len() && (#[trigger] shorter[k]).path == path
                        && contents_outcome(files, shorter[k]) == Ok::<
                        Option<Contents<Seq<u8>>>,
                        Failure,
                    >(Some(before[path]));
                assert(candidates[k] == shorter[k]);
            }
        }
        assert forall|k: int| 0 <= k < candidates.len() implies contents_outcome(
            files,
            #[trigger] candidates[k],
        ) is Ok && (contents_outcome(files, candidates[k])->Ok_0 is Some ==> all.contains_key(
            candidates[k].path,
        )) by {
            if k < shorter.len() {
                assert(shorter[k] == candidates[k]);
            }
        }
    }
}

/// The contents that a path is merged from are those of its own three files: the
/// base's as the base, the target's as the target, the Layer's as the Layer's.
pub proof fn law_contents_are_those_of_the_sides(
    files: FilesState,
    base: Seq<TreeEntry<Text>>,
    target: Seq<TreeEntry<Text>>,
    private: Seq<TreeEntry<Text>>,
    path: Text,
)
    requires
        sides_outcome(files, base, target, private) is Ok,
        sides_outcome(files, base, target, private)->Ok_0.contents.contains_key(path),
    ensures
        ({
            let sides = sides_outcome(files, base, target, private)->Ok_0;
            let contents = sides.contents[path];
            let id = |entry: TreeEntry<Text>|
                if entry.object_id is Some {
                    entry.object_id->Some_0
                } else {
                    Seq::empty()
                };
            &&& sides.base.contains_key(path) && sides.target.contains_key(path)
                && sides.private.contains_key(path)
            &&& files::blob_outcome(files, id(sides.base[path])) == Ok::<Seq<u8>, Failure>(
                contents.base,
            )
            &&& files::blob_outcome(files, id(sides.target[path])) == Ok::<Seq<u8>, Failure>(
                contents.target,
            )
            &&& files::blob_outcome(files, id(sides.private[path])) == Ok::<Seq<u8>, Failure>(
                contents.private,
            )
        }),
{
    let bare = bare_sides(base, target, private);
    let items = ordered::sorted_keys(bare.private.dom());
    let candidates = bare.candidates(items);
    lemma_candidates(bare, items);
    lemma_all_contents(files, candidates);
    let all = all_contents(files, candidates)->Ok_0;
    assert(all.contains_key(path));
    let k = choose|k: int|
        0 <= k < candidates.len() && (#[trigger] candidates[k]).path == path && contents_outcome(
            files,
            candidates[k],
        ) == Ok::<Option<Contents<Seq<u8>>>, Failure>(Some(all[path]));
    assert(bare.wants_contents(path));
}

/// A path that diverged, with files of one executable bit on all sides, is given
/// its contents wherever none of its blobs is longer than the limit of one
/// mebibyte; where one is longer, it is not merged.
pub proof fn law_short_texts_are_read(
    files: FilesState,
    base: Seq<TreeEntry<Text>>,
    target: Seq<TreeEntry<Text>>,
    private: Seq<TreeEntry<Text>>,
    path: Text,
)
    requires
        sides_outcome(files, base, target, private) is Ok,
        model::states(base).contains_key(path),
        model::states(target).contains_key(path),
        model::states(private).contains_key(path),
        model::states(base)[path].kind == crate::model::EntryKind::File,
        model::states(target)[path].kind == crate::model::EntryKind::File,
        model::states(private)[path].kind == crate::model::EntryKind::File,
        model::states(base)[path].executable == model::states(target)[path].executable,
        model::states(base)[path].executable == model::states(private)[path].executable,
        model::states(target)[path] != model::states(base)[path],
        model::states(private)[path] != model::states(base)[path],
        model::states(private)[path] != model::states(target)[path],
        model::states(base)[path].object_id is Some,
        model::states(target)[path].object_id is Some,
        model::states(private)[path].object_id is Some,
    ensures
        ({
            let sides = sides_outcome(files, base, target, private)->Ok_0;
            let short = |map: Map<Text, TreeEntry<Text>>|
                files::info_outcome(files, map[path].object_id->Some_0) matches Ok((kind, length))
                    && kind == ObjectKind::Blob && length <= 1048576;
            sides.contents.contains_key(path) <==> short(model::states(base)) && short(
                model::states(target),
            ) && short(model::states(private))
        }),
{
    let bare = bare_sides(base, target, private);
    let items = ordered::sorted_keys(bare.private.dom());
    let candidates = bare.candidates(items);
    model::lemma_states_finite(private);
    ordered::lemma_sorted_keys(bare.private.dom());
    assert(bare.private.dom().contains(path));
    assert(items.contains(path));
    assert(bare.wants_contents(path));
    lemma_candidates(bare, items);
    lemma_all_contents(files, candidates);
    let all = all_contents(files, candidates)->Ok_0;
    let k = choose|k: int| 0 <= k < candidates.len() && (#[trigger] candidates[k]).path == path;
    assert(contents_outcome(files, candidates[k]) is Ok);
    if all.contains_key(path) {
        let m = choose|m: int|
            0 <= m < candidates.len() && (#[trigger] candidates[m]).path == path
                && contents_outcome(files, candidates[m]) == Ok::<
                Option<Contents<Seq<u8>>>,
                Failure,
            >(Some(all[path]));
        assert(candidates[m].base == candidates[k].base);
        assert(candidates[m].target == candidates[k].target);
        assert(candidates[m].private == candidates[k].private);
    }
}

/// A Refresh is refused where the Layer is discarded, and with the exit code of a
/// Conflict where one of its Conflicts is open; otherwise it goes on.
pub proof fn law_open_conflicts_come_first(state: StoreState, layer: Layer<Text>)
    ensures
        layer.status == LayerStatus::Discarded ==> refresh_refusal(state, layer) is Some
            && refresh_refusal(state, layer)->Some_0.exit_code == 10,
        layer.status != LayerStatus::Discarded ==> (refresh_refusal(state, layer) is Some
            <==> exists|i: int|
            0 <= i < state.conflicts.len() && (#[trigger] state.conflicts[i]).layer_id == layer.id
                && state.conflicts[i].status == "open"@),
        layer.status != LayerStatus::Discarded && refresh_refusal(state, layer) is Some
            ==> refresh_refusal(state, layer)->Some_0.exit_code == 4,
{
    let wanted = conflicts::shown(Some(layer.id), false);
    tables::lemma_kept_none(state.conflicts, wanted);
    tables::lemma_in_order_rows::<ConflictRecord>(tables::kept(state.conflicts, wanted));
    if exists|i: int|
        0 <= i < state.conflicts.len() && (#[trigger] state.conflicts[i]).layer_id == layer.id
            && state.conflicts[i].status == "open"@ {
        let i = choose|i: int|
            0 <= i < state.conflicts.len() && (#[trigger] state.conflicts[i]).layer_id == layer.id
                && state.conflicts[i].status == "open"@;
        assert(wanted(state.conflicts[i]));
    }
    if tables::kept(state.conflicts, wanted).len() > 0 {
        let i = choose|i: int|
            0 <= i < state.conflicts.len() && wanted(#[trigger] state.conflicts[i]);
        assert(state.conflicts[i].layer_id == layer.id);
    }
}

/// A Refresh that met Conflicts ends with the exit code of a Conflict, records
/// each of them for the Layer and the target it was refreshed to, and moves no
/// head.
pub proof fn law_met_conflicts_are_recorded(
    state: StoreState,
    layer: Layer<Text>,
    target_ref: Text,
    found: Seq<ConflictInput<Text>>,
    blobs: Seq<(Text, Seq<u8>)>,
    ids: Seq<Text>,
    now: Text,
)
    requires
        tables::any(state.layers, crate::records::layer_is(layer.id)),
    ensures
        ({
            let (after, failure) = refusal_outcome(
                state,
                layer,
                target_ref,
                found,
                blobs,
                ids,
                now,
            );
            &&& failure.exit_code == 4
            &&& after.conflicts.len() == state.conflicts.len() + found.len()
            &&& forall|k: int|
                0 <= k < found.len() ==> {
                    let row = after.conflicts[state.conflicts.len() + k];
                    &&& row.path == (#[trigger] found[k]).path
                    &&& row.base_entry == found[k].base
                    &&& row.target_entry == found[k].target
                    &&& row.private_entry == found[k].private
                    &&& row.layer_id == layer.id
                    &&& row.target_ref == target_ref
                    &&& row.status == "open"@
                }
        }),
{
    let noted = checkpoints::with_objects(state, blob_records(blobs), now);
    conflicts::law_conflicts_are_recorded_whole(noted, layer.id, target_ref, found, ids, now);
}

/// A Refresh without Conflicts makes the integrated tree the Layer's head,
/// synchronized with the target.
pub proof fn law_refreshed_head_holds_the_integration(
    state: StoreState,
    layer: Layer<Text>,
    target_ref: Text,
    entries: Seq<TreeEntry<Text>>,
    blobs: Seq<(Text, Seq<u8>)>,
    id: Text,
    now: Text,
)
    requires
        accepted_outcome(state, layer, target_ref, entries, blobs, id, now).1 is Ok,
    ensures
        ({
            let checkpoint = accepted_outcome(
                state,
                layer,
                target_ref,
                entries,
                blobs,
                id,
                now,
            ).1->Ok_0;
            &&& checkpoint.synchronized_ref == target_ref
            &&& checkpoint.root_tree == objects::identity(
                ObjectKind::Tree,
                objects::encode_outcome(entries)->Ok_0,
            )
        }),
{
}

/// A Refresh can be planned wherever the three states can be read.
pub proof fn law_refresh_is_owed_a_plan(
    state: StoreState,
    files: FilesState,
    layer: Layer<Text>,
    source: Checkpoint<Text>,
)
    ensures
        plan_outcome(state, files, layer, source) is Ok <==> views::tree_for_ref_outcome(
            state,
            files,
            source.synchronized_ref,
        ) is Ok && files::tree_outcome(files, source.root_tree) is Ok && target_outcome(
            state,
            files,
            layer,
        ) is Ok,
        layer.target_kind == TargetKind::World && state.current() is Some && files::tree_outcome(
            files,
            state.current()->Some_0.root_tree,
        ) is Ok ==> target_outcome(state, files, layer) is Ok,
        layer.target_kind == TargetKind::Layer && layer.target_id is Some && state.layer(
            layer.target_id->Some_0,
        ) is Some && views::head_outcome(
            state,
            files,
            state.layer(layer.target_id->Some_0)->Some_0,
        ) is Ok ==> target_outcome(state, files, layer) is Ok,
        plan_outcome(state, files, layer, source) matches Ok(Plan::Broken { failure, .. }) ==> {
            let base = views::tree_for_ref_outcome(state, files, source.synchronized_ref)->Ok_0.2;
            let private = files::tree_outcome(files, source.root_tree)->Ok_0;
            let target = target_outcome(state, files, layer)->Ok_0.2;
            sides_outcome(files, base, target, private) == Err::<Sides, Failure>(failure)
        },
{
}

/// A failed view points to its repair, and the failure is otherwise told as it
/// is.
pub proof fn law_failed_view_points_to_repair(
    error: JavelinError,
    layer_name: &str,
    told: JavelinError,
)
    requires
        call_ensures(with_repair_hint, (error, layer_name), told),
    ensures
        told@.recovery == seq!["javelin repair --view "@ + layer_name@],
        told@.code == error@.code,
        told@.message == error@.message,
        told@.exit_code == error@.exit_code,
        told@.details == error@.details,
{
}

/// A Refresh is told as completed only where the view was written, with the
/// Checkpoint, the target and the tree that it reached. History stays.
pub proof fn law_refresh_ends_with_its_view(
    state: StoreState,
    layer_id: Text,
    checkpoint_id: Text,
    target_ref: Text,
    root_tree: Text,
    backend: Option<Text>,
    now: Text,
)
    ensures
        ({
            let after = finished_refresh(
                state,
                layer_id,
                checkpoint_id,
                target_ref,
                root_tree,
                backend,
                now,
            );
            &&& backend is None ==> after.events == state.events
            &&& backend is Some ==> {
                &&& after.events.len() == state.events.len() + 1
                &&& after.events.drop_last() == state.events
                &&& after.events.last().event_type == "refresh.completed"@
                &&& after.events.last().subject_id == Some(layer_id)
                &&& after.events.last().created_at == now
                &&& after.events.last().payload == JsonValue::object().field(
                    "checkpoint_id"@,
                    JsonValue::Text(checkpoint_id),
                ).field("target_ref"@, JsonValue::Text(target_ref)).field(
                    "root_tree"@,
                    JsonValue::Text(root_tree),
                )
            }
            &&& after.layers == state.layers
            &&& after.checkpoints == state.checkpoints
            &&& after.versions == state.versions
            &&& after.views == views::closed(state, layer_id, checkpoint_id, backend, now).views
        }),
{
}

} // verus!
