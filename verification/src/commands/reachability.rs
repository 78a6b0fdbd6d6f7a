//! Which objects the World still needs.
use vstd::prelude::*;
use crate::error::{Failure, JavelinError, Result};
use crate::files;
use crate::files::{FilesState, ObjectFiles};
use crate::model::{Checkpoint, EntryKind, Layer, Tree, TreeEntry, WorldVersion};
use crate::ordered;
use crate::ordered::PathMap;
use crate::records;
use crate::records::{Attachment, ConflictRecord, ValidationRecord};
use crate::store::{Store, StoreState};
use crate::tables;
use crate::text;
use crate::text::Text;

verus! {

/// The trees and the blobs that something refers to.
#[derive(Debug)]
pub struct Reachability {
    pub roots: PathMap<()>,
    pub blobs: PathMap<()>,
}

/// The mathematical value of a [`Reachability`].
#[verifier::ext_equal]
pub struct Reached {
    pub roots: Set<Text>,
    pub blobs: Set<Text>,
}

impl View for Reachability {
    type V = Reached;

    open spec fn view(&self) -> Reached {
        Reached { roots: self.roots@.dom(), blobs: self.blobs@.dom() }
    }
}

impl Reached {
    pub open spec fn all(self) -> Set<Text> {
        self.roots.union(self.blobs)
    }
}

/// The root trees of World Versions.
pub open spec fn version_roots(versions: Seq<WorldVersion<Text>>) -> Set<Text>
    decreases versions.len(),
{
    if versions.len() == 0 {
        Set::empty()
    } else {
        version_roots(versions.drop_last()).insert(versions.last().root_tree)
    }
}

/// The root trees of the Checkpoints of Layers that exist.
pub open spec fn checkpoint_roots(
    checkpoints: Seq<Checkpoint<Text>>,
    layers: Seq<Layer<Text>>,
) -> Set<Text>
    decreases checkpoints.len(),
{
    if checkpoints.len() == 0 {
        Set::empty()
    } else {
        let before = checkpoint_roots(checkpoints.drop_last(), layers);
        if tables::any(layers, records::layer_is(checkpoints.last().layer_id)) {
            before.insert(checkpoints.last().root_tree)
        } else {
            before
        }
    }
}

/// The trees that the store refers to.
pub open spec fn roots_of(state: StoreState) -> Set<Text> {
    version_roots(state.versions).union(checkpoint_roots(state.checkpoints, state.layers))
}

/// The blob that an entry refers to, if it is sound.
pub open spec fn entry_blob(entry: TreeEntry<Text>) -> std::result::Result<Option<Text>, Failure> {
    match entry.kind {
        EntryKind::Directory => if entry.object_id is Some || entry.executable {
            Err(
                Failure::corruption(
                    "directory "@ + entry.path + " has invalid portable metadata"@,
                ),
            )
        } else {
            Ok(None)
        },
        _ => match entry.object_id {
            Some(id) => Ok(Some(id)),
            None => Err(
                Failure::corruption("tracked path "@ + entry.path + " has no blob reference"@),
            ),
        },
    }
}

/// The blobs that the entries of a tree refer to.
pub open spec fn entries_blobs(entries: Seq<TreeEntry<Text>>) -> std::result::Result<
    Set<Text>,
    Failure,
>
    decreases entries.len(),
{
    if entries.len() == 0 {
        Ok(Set::empty())
    } else {
        match entries_blobs(entries.drop_last()) {
            Err(failure) => Err(failure),
            Ok(before) => match entry_blob(entries.last()) {
                Err(failure) => Err(failure),
                Ok(None) => Ok(before),
                Ok(Some(id)) => Ok(before.insert(id)),
            },
        }
    }
}

/// The blobs that trees refer to, the trees read one after another.
pub open spec fn trees_blobs(files: FilesState, roots: Seq<Text>) -> std::result::Result<
    Set<Text>,
    Failure,
>
    decreases roots.len(),
{
    if roots.len() == 0 {
        Ok(Set::empty())
    } else {
        match trees_blobs(files, roots.drop_last()) {
            Err(failure) => Err(failure),
            Ok(before) => match files::tree_outcome(files, roots.last()) {
                Err(failure) => Err(failure),
                Ok(entries) => match entries_blobs(entries) {
                    Err(failure) => Err(failure),
                    Ok(found) => Ok(before.union(found)),
                },
            },
        }
    }
}

/// The set with an object, if there is one.
pub open spec fn with_object(blobs: Set<Text>, object: Option<Text>) -> Set<Text> {
    match object {
        Some(id) => blobs.insert(id),
        None => blobs,
    }
}

/// The outputs of validation runs.
pub open spec fn output_blobs(runs: Seq<ValidationRecord<Text>>) -> Set<Text>
    decreases runs.len(),
{
    if runs.len() == 0 {
        Set::empty()
    } else {
        with_object(
            with_object(output_blobs(runs.drop_last()), runs.last().stdout_object),
            runs.last().stderr_object,
        )
    }
}

/// The files attached to provenance sessions.
pub open spec fn attached_blobs(attachments: Seq<Attachment<Text>>) -> Set<Text>
    decreases attachments.len(),
{
    if attachments.len() == 0 {
        Set::empty()
    } else {
        with_object(attached_blobs(attachments.drop_last()), attachments.last().object_id)
    }
}

/// The set with the object of a path's state.
pub open spec fn with_state(blobs: Set<Text>, state: Option<TreeEntry<Text>>) -> Set<Text> {
    match state {
        Some(entry) => with_object(blobs, entry.object_id),
        None => blobs,
    }
}

/// The states that Conflicts keep.
pub open spec fn conflict_blobs(conflicts: Seq<ConflictRecord<Text>>) -> Set<Text>
    decreases conflicts.len(),
{
    if conflicts.len() == 0 {
        Set::empty()
    } else {
        let last = conflicts.last();
        with_state(
            with_state(
                with_state(conflict_blobs(conflicts.drop_last()), last.base_entry),
                last.target_entry,
            ),
            last.private_entry,
        )
    }
}

/// The blobs that rows of the store refer to.
pub open spec fn row_blobs(state: StoreState) -> Set<Text> {
    output_blobs(state.validation_runs).union(attached_blobs(state.attachments)).union(
        conflict_blobs(state.conflicts),
    )
}

/// What the store refers to, or why it cannot be told.
pub open spec fn reachability_outcome(state: StoreState, files: FilesState) -> std::result::Result<
    Reached,
    Failure,
> {
    match trees_blobs(files, ordered::sorted_keys(roots_of(state))) {
        Err(failure) => Err(failure),
        Ok(blobs) => Ok(
            Reached { roots: roots_of(state), blobs: blobs.union(row_blobs(state)) },
        ),
    }
}

fn add_key(set: &mut PathMap<()>, key: &str)
    requires
        old(set).wf(),
    ensures
        final(set).wf(),
        final(set)@.dom() == old(set)@.dom().insert(key@),
{
    set.insert(key.to_owned(), ());
    assert(set@.dom() =~= old(set)@.dom().insert(key@));
}

fn add_object(set: &mut PathMap<()>, object: &Option<String>)
    requires
        old(set).wf(),
    ensures
        final(set).wf(),
        final(set)@.dom() == with_object(old(set)@.dom(), object.deep_view()),
{
    if let Some(id) = object {
        add_key(set, id.as_str());
    }
}

fn add_state(set: &mut PathMap<()>, state: &Option<TreeEntry>)
    requires
        old(set).wf(),
    ensures
        final(set).wf(),
        final(set)@.dom() == with_state(old(set)@.dom(), state.deep_view()),
{
    if let Some(entry) = state {
        add_object(set, &entry.object_id);
    }
}

fn collect_roots(store: &Store) -> (r: PathMap<()>)
    ensures
        r.wf(),
        r@.dom() == roots_of(store@),
{
    let mut roots: PathMap<()> = PathMap::new();
    let ghost versions = store@.versions;
    let ghost checkpoints = store@.checkpoints;
    let ghost layers = store@.layers;
    let mut i: usize = 0;
    assert(versions.take(0) =~= Seq::empty());
    assert(roots@.dom() =~= Set::empty());
    while i < store.versions.len()
        invariant
            i <= store.versions@.len(),
            versions == store@.versions,
            roots.wf(),
            roots@.dom() == version_roots(versions.take(i as int)),
        decreases store.versions@.len() - i,
    {
        proof {
            assert(versions.take(i as int + 1).drop_last() =~= versions.take(i as int));
            assert(versions.take(i as int + 1).last() == store.versions@[i as int]@);
        }
        add_key(&mut roots, store.versions[i].root_tree.as_str());
        i = i + 1;
    }
    let mut k: usize = 0;
    proof {
        assert(versions.take(i as int) =~= versions);
        assert(checkpoints.take(0) =~= Seq::empty());
        assert(roots@.dom() =~= version_roots(versions).union(Set::empty()));
    }
    while k < store.checkpoints.len()
        invariant
            k <= store.checkpoints@.len(),
            versions == store@.versions,
            checkpoints == store@.checkpoints,
            layers == store@.layers,
            roots.wf(),
            roots@.dom() == version_roots(versions).union(
                checkpoint_roots(checkpoints.take(k as int), layers),
            ),
        decreases store.checkpoints@.len() - k,
    {
        let row = &store.checkpoints[k];
        proof {
            assert(checkpoints.take(k as int + 1).drop_last() =~= checkpoints.take(k as int));
            assert(checkpoints.take(k as int + 1).last() == row@);
        }
        if records::find_layer(&store.layers, row.layer_id.as_str()).is_some() {
            let ghost before = roots@.dom();
            add_key(&mut roots, row.root_tree.as_str());
            assert(roots@.dom() =~= version_roots(versions).union(
                checkpoint_roots(checkpoints.take(k as int), layers).insert(row@.root_tree),
            ));
        }
        k = k + 1;
    }
    assert(checkpoints.take(k as int) =~= checkpoints);
    roots
}

proof fn lemma_entries_failure(entries: Seq<TreeEntry<Text>>, i: int)
    requires
        0 <= i <= entries.len(),
        entries_blobs(entries.take(i)) is Err,
    ensures
        entries_blobs(entries) == entries_blobs(entries.take(i)),
    decreases entries.len() - i,
{
    if i < entries.len() {
        assert(entries.take(i + 1).drop_last() =~= entries.take(i));
        lemma_entries_failure(entries, i + 1);
    } else {
        assert(entries.take(i) =~= entries);
    }
}

fn tree_blobs(tree: &Tree) -> (r: Result<PathMap<()>>)
    ensures
        match entries_blobs(tree@) {
            Ok(found) => r is Ok && r->Ok_0.wf() && r->Ok_0@.dom() == found,
            Err(failure) => r is Err && r->Err_0@ == failure,
        },
{
    let ghost all = tree@;
    let mut out: PathMap<()> = PathMap::new();
    let mut i: usize = 0;
    assert(all.take(0) =~= Seq::empty());
    assert(out@.dom() =~= Set::empty());
    while i < tree.entries.len()
        invariant
            i <= tree.entries@.len(),
            all == tree@,
            out.wf(),
            entries_blobs(all.take(i as int)) == Ok::<Set<Text>, Failure>(out@.dom()),
        decreases tree.entries@.len() - i,
    {
        let entry = &tree.entries[i];
        proof {
            assert(all.take(i as int + 1).drop_last() =~= all.take(i as int));
            assert(all.take(i as int + 1).last() == entry@);
            if entries_blobs(all.take(i as int + 1)) is Err {
                lemma_entries_failure(all, i as int + 1);
            }
        }
        if entry.kind == EntryKind::Directory {
            if entry.object_id.is_some() || entry.executable {
                return Err(
                    JavelinError::corruption(
                        text::concat3(
                            "directory ",
                            entry.path.as_str(),
                            " has invalid portable metadata",
                        ),
                    ),
                );
            }
        } else {
            match &entry.object_id {
                Some(id) => {
                    add_key(&mut out, id.as_str());
                },
                None => {
                    return Err(
                        JavelinError::corruption(
                            text::concat3(
                                "tracked path ",
                                entry.path.as_str(),
                                " has no blob reference",
                            ),
                        ),
                    );
                },
            }
        }
        i = i + 1;
    }
    assert(all.take(i as int) =~= all);
    Ok(out)
}

proof fn lemma_trees_failure(files: FilesState, roots: Seq<Text>, i: int)
    requires
        0 <= i <= roots.len(),
        trees_blobs(files, roots.take(i)) is Err,
    ensures
        trees_blobs(files, roots) == trees_blobs(files, roots.take(i)),
    decreases roots.len() - i,
{
    if i < roots.len() {
        assert(roots.take(i + 1).drop_last() =~= roots.take(i));
        lemma_trees_failure(files, roots, i + 1);
    } else {
        assert(roots.take(i) =~= roots);
    }
}

/// Adds the keys of one set to another.
pub fn add_all(set: &mut PathMap<()>, other: &PathMap<()>)
    requires
        old(set).wf(),
        other.wf(),
    ensures
        final(set).wf(),
        final(set)@.dom() == old(set)@.dom().union(other@.dom()),
{
    let ghost before = set@.dom();
    let ghost pairs = other.pairs();
    let mut i: usize = 0;
    while i < other.len()
        invariant
            i <= pairs.len(),
            pairs == other.pairs(),
            set.wf(),
            forall|key: Text| #[trigger]
                set@.dom().contains(key) <==> before.contains(key) || (exists|j: int|
                    0 <= j < i && (#[trigger] pairs[j]).0 == key),
        decreases pairs.len() - i,
    {
        let ghost earlier = set@.dom();
        add_key(set, other.key_at(i).as_str());
        assert forall|key: Text| #[trigger] set@.dom().contains(key) <==> before.contains(key) || (
        exists|j: int| 0 <= j < i + 1 && (#[trigger] pairs[j]).0 == key) by {
            assert(set@.dom().contains(key) <==> earlier.contains(key) || key
                == pairs[i as int].0);
            if exists|j: int| 0 <= j < i + 1 && (#[trigger] pairs[j]).0 == key {
                let j = choose|j: int| 0 <= j < i + 1 && (#[trigger] pairs[j]).0 == key;
                assert(j == i || earlier.contains(key));
            }
        }
        i = i + 1;
    }
    assert(set@.dom() =~= before.union(other@.dom())) by {
        assert forall|key: Text| #[trigger] other@.dom().contains(key) <==> (exists|j: int|
            0 <= j < pairs.len() && (#[trigger] pairs[j]).0 == key) by {
            assert(other@.dom().contains(key) <==> ordered::has_key(pairs, key));
        }
    }
}

fn collect_tree_blobs(files: &ObjectFiles, roots: &PathMap<()>) -> (r: Result<PathMap<()>>)
    requires
        files.wf(),
        roots.wf(),
    ensures
        match trees_blobs(files@, ordered::sorted_keys(roots@.dom())) {
            Ok(found) => r is Ok && r->Ok_0.wf() && r->Ok_0@.dom() == found,
            Err(failure) => r is Err && r->Err_0@ == failure,
        },
{
    let ghost items = ordered::keys(roots.pairs());
    proof {
        assert forall|key: Text| #[trigger] roots@.dom().contains(key) <==> ordered::map_of(
            roots.pairs(),
        ).contains_key(key) by {}
        ordered::lemma_keys(roots.pairs(), roots@.dom());
    }
    let mut blobs: PathMap<()> = PathMap::new();
    let mut i: usize = 0;
    assert(items.take(0) =~= Seq::empty());
    assert(blobs@.dom() =~= Set::empty());
    while i < roots.len()
        invariant
            i <= roots.pairs().len(),
            files.wf(),
            items == ordered::keys(roots.pairs()),
            items == ordered::sorted_keys(roots@.dom()),
            blobs.wf(),
            trees_blobs(files@, items.take(i as int)) == Ok::<Set<Text>, Failure>(blobs@.dom()),
        decreases roots.pairs().len() - i,
    {
        let root = roots.key_at(i);
        proof {
            assert(items.take(i as int + 1).drop_last() =~= items.take(i as int));
            assert(items.take(i as int + 1).last() == root@);
            if trees_blobs(files@, items.take(i as int + 1)) is Err {
                lemma_trees_failure(files@, items, i as int + 1);
            }
        }
        let tree = files.read_tree(root.as_str())?;
        let found = tree_blobs(&tree)?;
        add_all(&mut blobs, &found);
        i = i + 1;
    }
    assert(items.take(i as int) =~= items);
    Ok(blobs)
}

fn add_row_blobs(store: &Store, blobs: &mut PathMap<()>)
    requires
        old(blobs).wf(),
    ensures
        final(blobs).wf(),
        final(blobs)@.dom() == old(blobs)@.dom().union(row_blobs(store@)),
{
    let mut out: PathMap<()> = PathMap::new();
    let ghost runs = store@.validation_runs;
    let mut i: usize = 0;
    assert(runs.take(0) =~= Seq::empty());
    assert(out@.dom() =~= Set::empty());
    while i < store.validation_runs.len()
        invariant
            i <= store.validation_runs@.len(),
            runs == store@.validation_runs,
            out.wf(),
            out@.dom() == output_blobs(runs.take(i as int)),
        decreases store.validation_runs@.len() - i,
    {
        proof {
            assert(runs.take(i as int + 1).drop_last() =~= runs.take(i as int));
            assert(runs.take(i as int + 1).last() == store.validation_runs@[i as int]@);
        }
        add_object(&mut out, &store.validation_runs[i].stdout_object);
        add_object(&mut out, &store.validation_runs[i].stderr_object);
        i = i + 1;
    }
    assert(runs.take(i as int) =~= runs);
    let ghost attachments = store@.attachments;
    let mut attached: PathMap<()> = PathMap::new();
    let mut k: usize = 0;
    assert(attachments.take(0) =~= Seq::empty());
    assert(attached@.dom() =~= Set::empty());
    while k < store.attachments.len()
        invariant
            k <= store.attachments@.len(),
            attachments == store@.attachments,
            attached.wf(),
            attached@.dom() == attached_blobs(attachments.take(k as int)),
        decreases store.attachments@.len() - k,
    {
        proof {
            assert(attachments.take(k as int + 1).drop_last() =~= attachments.take(k as int));
            assert(attachments.take(k as int + 1).last() == store.attachments@[k as int]@);
        }
        add_object(&mut attached, &store.attachments[k].object_id);
        k = k + 1;
    }
    assert(attachments.take(k as int) =~= attachments);
    let ghost conflicts = store@.conflicts;
    let mut kept: PathMap<()> = PathMap::new();
    let mut n: usize = 0;
    assert(conflicts.take(0) =~= Seq::empty());
    assert(kept@.dom() =~= Set::empty());
    while n < store.conflicts.len()
        invariant
            n <= store.conflicts@.len(),
            conflicts == store@.conflicts,
            kept.wf(),
            kept@.dom() == conflict_blobs(conflicts.take(n as int)),
        decreases store.conflicts@.len() - n,
    {
        proof {
            assert(conflicts.take(n as int + 1).drop_last() =~= conflicts.take(n as int));
            assert(conflicts.take(n as int + 1).last() == store.conflicts@[n as int]@);
        }
        add_state(&mut kept, &store.conflicts[n].base_entry);
        add_state(&mut kept, &store.conflicts[n].target_entry);
        add_state(&mut kept, &store.conflicts[n].private_entry);
        n = n + 1;
    }
    assert(conflicts.take(n as int) =~= conflicts);
    add_all(&mut out, &attached);
    add_all(&mut out, &kept);
    add_all(blobs, &out);
}

impl Reachability {
    pub open spec fn wf(self) -> bool {
        self.roots.wf() && self.blobs.wf()
    }

    /// Everything that is reached.
    pub fn all(&self) -> (r: PathMap<()>)
        requires
            self.wf(),
        ensures
            r.wf(),
            r@.dom() == self@.all(),
    {
        let mut out: PathMap<()> = PathMap::new();
        add_all(&mut out, &self.roots);
        add_all(&mut out, &self.blobs);
        assert(out@.dom() =~= self@.all());
        out
    }
}

/// Collects what the store refers to.
pub fn collect_reachability(store: &Store, files: &ObjectFiles) -> (r: Result<Reachability>)
    requires
        files.wf(),
    ensures
        match reachability_outcome(store@, files@) {
            Ok(reached) => r is Ok && r->Ok_0.wf() && r->Ok_0@ == reached,
            Err(failure) => r is Err && r->Err_0@ == failure,
        },
{
    let roots = collect_roots(store);
    let mut blobs = collect_tree_blobs(files, &roots)?;
    add_row_blobs(store, &mut blobs);
    Ok(Reachability { roots, blobs })
}

/// Every accepted state is reached, and so is every Checkpoint of a Layer.
pub proof fn law_history_is_reached(state: StoreState, files: FilesState, i: int)
    requires
        reachability_outcome(state, files) is Ok,
    ensures
        0 <= i < state.versions.len() ==> reachability_outcome(state, files)->Ok_0.all().contains(
            state.versions[i].root_tree,
        ),
        0 <= i < state.checkpoints.len() && tables::any(
            state.layers,
            records::layer_is(state.checkpoints[i].layer_id),
        ) ==> reachability_outcome(state, files)->Ok_0.all().contains(
            state.checkpoints[i].root_tree,
        ),
{
    if 0 <= i < state.versions.len() {
        lemma_version_root(state.versions, i);
    }
    if 0 <= i < state.checkpoints.len() {
        lemma_checkpoint_root(state.checkpoints, state.layers, i);
    }
}

/// An object, if there is one, is reached.
pub open spec fn reaches(reached: Reached, object: Option<Text>) -> bool {
    object is Some ==> reached.all().contains(object->Some_0)
}

/// The object of a path's state, if there is one, is reached.
pub open spec fn reaches_state(reached: Reached, state: Option<TreeEntry<Text>>) -> bool {
    state is Some ==> reaches(reached, state->Some_0.object_id)
}

/// What the rows of the store keep as evidence is reached: the outputs of
/// validation runs, the files of provenance sessions that were not purged, and
/// the three states of every Conflict.
pub proof fn law_evidence_is_reached(state: StoreState, files: FilesState, i: int)
    requires
        reachability_outcome(state, files) is Ok,
    ensures
        ({
            let reached = reachability_outcome(state, files)->Ok_0;
            &&& 0 <= i < state.validation_runs.len() ==> {
                &&& reaches(reached, state.validation_runs[i].stdout_object)
                &&& reaches(reached, state.validation_runs[i].stderr_object)
            }
            &&& 0 <= i < state.attachments.len() ==> reaches(
                reached,
                state.attachments[i].object_id,
            )
            &&& 0 <= i < state.conflicts.len() ==> {
                &&& reaches_state(reached, state.conflicts[i].base_entry)
                &&& reaches_state(reached, state.conflicts[i].target_entry)
                &&& reaches_state(reached, state.conflicts[i].private_entry)
            }
        }),
{
    if 0 <= i < state.validation_runs.len() {
        lemma_output_blobs(state.validation_runs, i);
    }
    if 0 <= i < state.attachments.len() {
        lemma_attached_blobs(state.attachments, i);
    }
    if 0 <= i < state.conflicts.len() {
        lemma_conflict_blobs(state.conflicts, i);
    }
}

/// The set holds an object, if there is one.
spec fn holds(blobs: Set<Text>, object: Option<Text>) -> bool {
    object is Some ==> blobs.contains(object->Some_0)
}

spec fn holds_state(blobs: Set<Text>, state: Option<TreeEntry<Text>>) -> bool {
    state is Some ==> holds(blobs, state->Some_0.object_id)
}

proof fn lemma_output_blobs(runs: Seq<ValidationRecord<Text>>, i: int)
    requires
        0 <= i < runs.len(),
    ensures
        holds(output_blobs(runs), runs[i].stdout_object),
        holds(output_blobs(runs), runs[i].stderr_object),
    decreases runs.len(),
{
    if i < runs.len() - 1 {
        lemma_output_blobs(runs.drop_last(), i);
    }
}

proof fn lemma_attached_blobs(attachments: Seq<Attachment<Text>>, i: int)
    requires
        0 <= i < attachments.len(),
    ensures
        holds(attached_blobs(attachments), attachments[i].object_id),
    decreases attachments.len(),
{
    if i < attachments.len() - 1 {
        lemma_attached_blobs(attachments.drop_last(), i);
    }
}

proof fn lemma_conflict_blobs(conflicts: Seq<ConflictRecord<Text>>, i: int)
    requires
        0 <= i < conflicts.len(),
    ensures
        holds_state(conflict_blobs(conflicts), conflicts[i].base_entry),
        holds_state(conflict_blobs(conflicts), conflicts[i].target_entry),
        holds_state(conflict_blobs(conflicts), conflicts[i].private_entry),
    decreases conflicts.len(),
{
    if i < conflicts.len() - 1 {
        lemma_conflict_blobs(conflicts.drop_last(), i);
    }
}

proof fn lemma_version_root(versions: Seq<WorldVersion<Text>>, i: int)
    requires
        0 <= i < versions.len(),
    ensures
        version_roots(versions).contains(versions[i].root_tree),
    decreases versions.len(),
{
    if i < versions.len() - 1 {
        lemma_version_root(versions.drop_last(), i);
    }
}

proof fn lemma_checkpoint_root(
    checkpoints: Seq<Checkpoint<Text>>,
    layers: Seq<Layer<Text>>,
    i: int,
)
    requires
        0 <= i < checkpoints.len(),
    ensures
        tables::any(layers, records::layer_is(checkpoints[i].layer_id)) ==> checkpoint_roots(
            checkpoints,
            layers,
        ).contains(checkpoints[i].root_tree),
    decreases checkpoints.len(),
{
    if i < checkpoints.len() - 1 {
        lemma_checkpoint_root(checkpoints.drop_last(), layers, i);
    }
}

/// Every object that a reached tree names is reached.
pub proof fn law_tree_content_is_reached(
    state: StoreState,
    files: FilesState,
    root: Text,
    i: int,
)
    requires
        reachability_outcome(state, files) is Ok,
        roots_of(state).contains(root),
        files::tree_outcome(files, root) is Ok,
        0 <= i < files::tree_outcome(files, root)->Ok_0.len(),
    ensures
        match files::tree_outcome(files, root)->Ok_0[i].object_id {
            Some(id) => reachability_outcome(state, files)->Ok_0.all().contains(id),
            None => true,
        },
{
    let items = ordered::sorted_keys(roots_of(state));
    lemma_version_roots_finite(state.versions);
    lemma_checkpoint_roots_finite(state.checkpoints, state.layers);
    ordered::lemma_sorted_keys(roots_of(state));
    assert(items.contains(root));
    let k = choose|k: int| 0 <= k < items.len() && items[k] == root;
    lemma_tree_reached(files, items, k, i);
}

proof fn lemma_version_roots_finite(versions: Seq<WorldVersion<Text>>)
    ensures
        version_roots(versions).finite(),
    decreases versions.len(),
{
    if versions.len() > 0 {
        lemma_version_roots_finite(versions.drop_last());
    }
}

proof fn lemma_checkpoint_roots_finite(
    checkpoints: Seq<Checkpoint<Text>>,
    layers: Seq<Layer<Text>>,
)
    ensures
        checkpoint_roots(checkpoints, layers).finite(),
    decreases checkpoints.len(),
{
    if checkpoints.len() > 0 {
        lemma_checkpoint_roots_finite(checkpoints.drop_last(), layers);
    }
}

proof fn lemma_tree_reached(files: FilesState, roots: Seq<Text>, k: int, i: int)
    requires
        0 <= k < roots.len(),
        trees_blobs(files, roots) is Ok,
        files::tree_outcome(files, roots[k]) is Ok,
        0 <= i < files::tree_outcome(files, roots[k])->Ok_0.len(),
    ensures
        match files::tree_outcome(files, roots[k])->Ok_0[i].object_id {
            Some(id) => trees_blobs(files, roots)->Ok_0.contains(id),
            None => true,
        },
    decreases roots.len(),
{
    if k < roots.len() - 1 {
        lemma_tree_reached(files, roots.drop_last(), k, i);
    } else {
        lemma_entry_reached(files::tree_outcome(files, roots[k])->Ok_0, i);
    }
}

proof fn lemma_entry_reached(entries: Seq<TreeEntry<Text>>, i: int)
    requires
        0 <= i < entries.len(),
        entries_blobs(entries) is Ok,
    ensures
        match entries[i].object_id {
            Some(id) => entries_blobs(entries)->Ok_0.contains(id),
            None => true,
        },
    decreases entries.len(),
{
    if i < entries.len() - 1 {
        lemma_entry_reached(entries.drop_last(), i);
    }
}

proof fn lemma_entries_finite(entries: Seq<TreeEntry<Text>>)
    ensures
        entries_blobs(entries) is Ok ==> entries_blobs(entries)->Ok_0.finite(),
    decreases entries.len(),
{
    if entries.len() > 0 {
        lemma_entries_finite(entries.drop_last());
    }
}

proof fn lemma_trees_finite(files: FilesState, roots: Seq<Text>)
    ensures
        trees_blobs(files, roots) is Ok ==> trees_blobs(files, roots)->Ok_0.finite(),
    decreases roots.len(),
{
    if roots.len() > 0 {
        lemma_trees_finite(files, roots.drop_last());
        match files::tree_outcome(files, roots.last()) {
            Ok(entries) => {
                lemma_entries_finite(entries);
            },
            Err(_) => {},
        }
    }
}

proof fn lemma_outputs_finite(runs: Seq<ValidationRecord<Text>>)
    ensures
        output_blobs(runs).finite(),
    decreases runs.len(),
{
    if runs.len() > 0 {
        lemma_outputs_finite(runs.drop_last());
    }
}

proof fn lemma_attached_finite(attachments: Seq<Attachment<Text>>)
    ensures
        attached_blobs(attachments).finite(),
    decreases attachments.len(),
{
    if attachments.len() > 0 {
        lemma_attached_finite(attachments.drop_last());
    }
}

proof fn lemma_conflicts_finite(conflicts: Seq<ConflictRecord<Text>>)
    ensures
        conflict_blobs(conflicts).finite(),
    decreases conflicts.len(),
{
    if conflicts.len() > 0 {
        lemma_conflicts_finite(conflicts.drop_last());
    }
}

/// What is reached is finite.
pub proof fn lemma_reached_finite(state: StoreState, files: FilesState)
    requires
        reachability_outcome(state, files) is Ok,
    ensures
        reachability_outcome(state, files)->Ok_0.roots.finite(),
        reachability_outcome(state, files)->Ok_0.blobs.finite(),
        reachability_outcome(state, files)->Ok_0.all().finite(),
{
    lemma_version_roots_finite(state.versions);
    lemma_checkpoint_roots_finite(state.checkpoints, state.layers);
    lemma_trees_finite(files, ordered::sorted_keys(roots_of(state)));
    lemma_outputs_finite(state.validation_runs);
    lemma_attached_finite(state.attachments);
    lemma_conflicts_finite(state.conflicts);
}

/// A tree that is reached is the root of a version, or of a Checkpoint whose
/// Layer is still there.
pub proof fn law_only_history_is_reached(state: StoreState, id: Text)
    requires
        roots_of(state).contains(id),
    ensures
        (exists|i: int|
            0 <= i < state.versions.len() && (#[trigger] state.versions[i]).root_tree == id) || (
        exists|i: int, k: int|
            0 <= i < state.checkpoints.len() && (#[trigger] state.checkpoints[i]).root_tree == id
                && 0 <= k < state.layers.len() && (#[trigger] state.layers[k]).id
                == state.checkpoints[i].layer_id),
{
    if version_roots(state.versions).contains(id) {
        lemma_version_roots_source(state.versions, id);
    } else {
        lemma_checkpoint_roots_source(state.checkpoints, state.layers, id);
        let i = choose|i: int|
            0 <= i < state.checkpoints.len() && (#[trigger] state.checkpoints[i]).root_tree == id
                && tables::any(state.layers, records::layer_is(state.checkpoints[i].layer_id));
        tables::lemma_first(state.layers, records::layer_is(state.checkpoints[i].layer_id));
        let k = tables::first(
            state.layers,
            records::layer_is(state.checkpoints[i].layer_id),
        )->Some_0;
        assert(state.layers[k].id == state.checkpoints[i].layer_id);
    }
}

proof fn lemma_version_roots_source(versions: Seq<WorldVersion<Text>>, id: Text)
    requires
        version_roots(versions).contains(id),
    ensures
        exists|i: int| 0 <= i < versions.len() && (#[trigger] versions[i]).root_tree == id,
    decreases versions.len(),
{
    let shorter = versions.drop_last();
    if versions.last().root_tree == id {
        assert(versions[versions.len() - 1].root_tree == id);
    } else {
        lemma_version_roots_source(shorter, id);
        let i = choose|i: int| 0 <= i < shorter.len() && (#[trigger] shorter[i]).root_tree == id;
        assert(versions[i].root_tree == id);
    }
}

proof fn lemma_checkpoint_roots_source(
    checkpoints: Seq<Checkpoint<Text>>,
    layers: Seq<Layer<Text>>,
    id: Text,
)
    requires
        checkpoint_roots(checkpoints, layers).contains(id),
    ensures
        exists|i: int|
            0 <= i < checkpoints.len() && (#[trigger] checkpoints[i]).root_tree == id
                && tables::any(layers, records::layer_is(checkpoints[i].layer_id)),
    decreases checkpoints.len(),
{
    let shorter = checkpoints.drop_last();
    let last = checkpoints[checkpoints.len() - 1];
    if last.root_tree == id && tables::any(layers, records::layer_is(last.layer_id)) {
        assert(checkpoints[checkpoints.len() - 1].root_tree == id);
    } else {
        lemma_checkpoint_roots_source(shorter, layers, id);
        let i = choose|i: int|
            0 <= i < shorter.len() && (#[trigger] shorter[i]).root_tree == id && tables::any(
                layers,
                records::layer_is(shorter[i].layer_id),
            );
        assert(checkpoints[i] == shorter[i]);
    }
}

/// A blob that is reached is named by an entry of a reached tree, by a run's
/// output, by an attachment, or by a state that a Conflict keeps.
pub proof fn law_only_what_is_named_is_reached(state: StoreState, files: FilesState, id: Text)
    requires
        reachability_outcome(state, files) is Ok,
        reachability_outcome(state, files)->Ok_0.blobs.contains(id),
    ensures
        ({
            ||| exists|root: Text, k: int|
                #![trigger files::tree_outcome(files, root)->Ok_0[k]]
                roots_of(state).contains(root) && files::tree_outcome(files, root) is Ok && 0 <= k
                    < files::tree_outcome(files, root)->Ok_0.len() && files::tree_outcome(
                    files,
                    root,
                )->Ok_0[k].object_id == Some(id)
            ||| exists|i: int|
                0 <= i < state.validation_runs.len() && ((#[trigger]
                state.validation_runs[i]).stdout_object == Some(id)
                    || state.validation_runs[i].stderr_object == Some(id))
            ||| exists|i: int|
                0 <= i < state.attachments.len() && (#[trigger] state.attachments[i]).object_id
                    == Some(id)
            ||| exists|i: int|
                0 <= i < state.conflicts.len() && (names((#[trigger]
                state.conflicts[i]).base_entry, id) || names(state.conflicts[i].target_entry, id)
                    || names(state.conflicts[i].private_entry, id))
        }),
{
    lemma_version_roots_finite(state.versions);
    lemma_checkpoint_roots_finite(state.checkpoints, state.layers);
    let roots = ordered::sorted_keys(roots_of(state));
    ordered::lemma_sorted_keys(roots_of(state));
    if trees_blobs(files, roots)->Ok_0.contains(id) {
        lemma_trees_source(files, roots, id);
        let (j, k) = choose|j: int, k: int|
            #![trigger files::tree_outcome(files, roots[j])->Ok_0[k]]
            0 <= j < roots.len() && files::tree_outcome(files, roots[j]) is Ok && 0 <= k
                < files::tree_outcome(files, roots[j])->Ok_0.len() && files::tree_outcome(
                files,
                roots[j],
            )->Ok_0[k].object_id == Some(id);
        assert(roots.contains(roots[j]));
        assert(roots_of(state).contains(roots[j]));
        assert(files::tree_outcome(files, roots[j])->Ok_0[k].object_id == Some(id));
    } else if output_blobs(state.validation_runs).contains(id) {
        lemma_output_source(state.validation_runs, id);
    } else if attached_blobs(state.attachments).contains(id) {
        lemma_attached_source(state.attachments, id);
    } else {
        lemma_conflict_source(state.conflicts, id);
    }
}

/// The state of a path names the object.
pub open spec fn names(state: Option<TreeEntry<Text>>, id: Text) -> bool {
    state is Some && state->Some_0.object_id == Some(id)
}

proof fn lemma_entries_source(entries: Seq<TreeEntry<Text>>, id: Text)
    requires
        entries_blobs(entries) is Ok,
        entries_blobs(entries)->Ok_0.contains(id),
    ensures
        exists|k: int| 0 <= k < entries.len() && (#[trigger] entries[k]).object_id == Some(id),
    decreases entries.len(),
{
    let shorter = entries.drop_last();
    if entry_blob(entries.last()) == Ok::<Option<Text>, Failure>(Some(id)) {
        assert(entries[entries.len() - 1].object_id == Some(id));
    } else {
        lemma_entries_source(shorter, id);
        let k = choose|k: int| 0 <= k < shorter.len() && (#[trigger] shorter[k]).object_id == Some(id);
        assert(entries[k] == shorter[k]);
    }
}

proof fn lemma_trees_source(files: FilesState, roots: Seq<Text>, id: Text)
    requires
        trees_blobs(files, roots) is Ok,
        trees_blobs(files, roots)->Ok_0.contains(id),
    ensures
        exists|j: int, k: int|
            #![trigger files::tree_outcome(files, roots[j])->Ok_0[k]]
            0 <= j < roots.len() && files::tree_outcome(files, roots[j]) is Ok && 0 <= k
                < files::tree_outcome(files, roots[j])->Ok_0.len() && files::tree_outcome(
                files,
                roots[j],
            )->Ok_0[k].object_id == Some(id),
    decreases roots.len(),
{
    let shorter = roots.drop_last();
    let last = roots.len() - 1;
    let entries = files::tree_outcome(files, roots.last())->Ok_0;
    if entries_blobs(entries)->Ok_0.contains(id) {
        lemma_entries_source(entries, id);
        let k = choose|k: int| 0 <= k < entries.len() && (#[trigger] entries[k]).object_id == Some(id);
        assert(roots[last] == roots.last());
        assert(files::tree_outcome(files, roots[last])->Ok_0[k].object_id == Some(id));
    } else {
        lemma_trees_source(files, shorter, id);
        let (j, k) = choose|j: int, k: int|
            #![trigger files::tree_outcome(files, shorter[j])->Ok_0[k]]
            0 <= j < shorter.len() && files::tree_outcome(files, shorter[j]) is Ok && 0 <= k
                < files::tree_outcome(files, shorter[j])->Ok_0.len() && files::tree_outcome(
                files,
                shorter[j],
            )->Ok_0[k].object_id == Some(id);
        assert(roots[j] == shorter[j]);
        assert(files::tree_outcome(files, roots[j])->Ok_0[k].object_id == Some(id));
    }
}

proof fn lemma_output_source(runs: Seq<ValidationRecord<Text>>, id: Text)
    requires
        output_blobs(runs).contains(id),
    ensures
        exists|i: int|
            0 <= i < runs.len() && ((#[trigger] runs[i]).stdout_object == Some(id)
                || runs[i].stderr_object == Some(id)),
    decreases runs.len(),
{
    let shorter = runs.drop_last();
    let last = runs[runs.len() - 1];
    if last.stdout_object == Some(id) || last.stderr_object == Some(id) {
        assert(runs[runs.len() - 1].stdout_object == Some(id) || runs[runs.len() - 1].stderr_object
            == Some(id));
    } else {
        lemma_output_source(shorter, id);
        let i = choose|i: int|
            0 <= i < shorter.len() && ((#[trigger] shorter[i]).stdout_object == Some(id)
                || shorter[i].stderr_object == Some(id));
        assert(runs[i] == shorter[i]);
    }
}

proof fn lemma_attached_source(attachments: Seq<Attachment<Text>>, id: Text)
    requires
        attached_blobs(attachments).contains(id),
    ensures
        exists|i: int|
            0 <= i < attachments.len() && (#[trigger] attachments[i]).object_id == Some(id),
    decreases attachments.len(),
{
    let shorter = attachments.drop_last();
    if attachments.last().object_id == Some(id) {
        assert(attachments[attachments.len() - 1].object_id == Some(id));
    } else {
        lemma_attached_source(shorter, id);
        let i = choose|i: int| 0 <= i < shorter.len() && (#[trigger] shorter[i]).object_id == Some(id);
        assert(attachments[i] == shorter[i]);
    }
}

proof fn lemma_conflict_source(conflicts: Seq<ConflictRecord<Text>>, id: Text)
    requires
        conflict_blobs(conflicts).contains(id),
    ensures
        exists|i: int|
            0 <= i < conflicts.len() && (names((#[trigger] conflicts[i]).base_entry, id) || names(
                conflicts[i].target_entry,
                id,
            ) || names(conflicts[i].private_entry, id)),
    decreases conflicts.len(),
{
    let shorter = conflicts.drop_last();
    let last = conflicts[conflicts.len() - 1];
    if names(last.base_entry, id) || names(last.target_entry, id) || names(
        last.private_entry,
        id,
    ) {
        assert(conflicts[conflicts.len() - 1] == last);
    } else {
        lemma_conflict_source(shorter, id);
        let i = choose|i: int|
            0 <= i < shorter.len() && (names((#[trigger] shorter[i]).base_entry, id) || names(
                shorter[i].target_entry,
                id,
            ) || names(shorter[i].private_entry, id));
        assert(conflicts[i] == shorter[i]);
    }
}

/// An entry is sound where a directory has neither an object nor an executable
/// bit and everything else has an object; an unsound one is told as corruption.
pub proof fn law_entries_are_sound(entry: TreeEntry<Text>)
    ensures
        entry_blob(entry) is Ok <==> (if entry.kind == EntryKind::Directory {
            entry.object_id is None && !entry.executable
        } else {
            entry.object_id is Some
        }),
        entry_blob(entry) matches Ok(found) ==> found == entry.object_id,
        entry_blob(entry) is Err ==> entry_blob(entry)->Err_0.exit_code == 7,
{
}

} // verus!
