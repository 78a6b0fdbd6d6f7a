//! Managed views: what is put where, and what the store says of it.
use vstd::prelude::*;
use crate::clock;
use crate::error::{Failure, Result};
use crate::files;
use crate::files::{FilesState, ObjectFiles};
use crate::model::{Checkpoint, Layer, Tree, TreeEntry, ViewMarker};
use crate::store;
use crate::store::{layers, Store, StoreState};
use crate::text;
use crate::text::Text;

verus! {

/// The marker of a Layer's view.
pub open spec fn marker_of(root: Text, layer_id: Text) -> ViewMarker<Text> {
    ViewMarker { format: 1, project: root, layer_id }
}

/// The marker of a Layer's view. The view of the Local Layer is the project
/// itself and has none.
pub open spec fn marker_for(root: Text, layer_id: Text) -> Option<ViewMarker<Text>> {
    if layer_id == "local"@ {
        None
    } else {
        Some(marker_of(root, layer_id))
    }
}

/// The Layer that a command is about: the one that was asked for, or the one in
/// whose view the command runs.
pub open spec fn selected_outcome(
    state: StoreState,
    context_layer: Text,
    requested: Option<Text>,
) -> std::result::Result<Layer<Text>, Failure> {
    store::layer_outcome(
        state,
        match requested {
            Some(name) => name,
            None => context_layer,
        },
    )
}

/// Finds the Layer that a command is about.
pub fn selected_layer(store: &Store, context_layer: &str, requested: Option<&str>) -> (r: Result<
    Layer,
>)
    ensures
        match selected_outcome(store@, context_layer@, requested.deep_view()) {
            Ok(layer) => r is Ok && r->Ok_0@ == layer,
            Err(failure) => r is Err && r->Err_0@ == failure,
        },
{
    match requested {
        Some(name) => store.layer(name),
        None => store.layer(context_layer),
    }
}

/// What is to be put into a view.
#[derive(Debug)]
pub struct ViewOrder {
    pub layer_id: String,
    pub checkpoint_id: String,
    pub root_tree: String,
    pub tree: Tree,
    pub destination: String,
    pub marker: Option<ViewMarker>,
}

/// The mathematical value of a [`ViewOrder`].
#[verifier::ext_equal]
pub struct Order {
    pub layer_id: Text,
    pub checkpoint_id: Text,
    pub root_tree: Text,
    pub tree: Seq<TreeEntry<Text>>,
    pub destination: Text,
    pub marker: Option<ViewMarker<Text>>,
}

pub open spec fn marker_view(marker: Option<ViewMarker>) -> Option<ViewMarker<Text>> {
    match marker {
        Some(found) => Some(found@),
        None => None,
    }
}

impl View for ViewOrder {
    type V = Order;

    open spec fn view(&self) -> Order {
        Order {
            layer_id: self.layer_id@,
            checkpoint_id: self.checkpoint_id@,
            root_tree: self.root_tree@,
            tree: self.tree@,
            destination: self.destination@,
            marker: marker_view(self.marker),
        }
    }
}

/// The order to put a tree into a Layer's view.
pub open spec fn order_for(
    root: Text,
    layer: Layer<Text>,
    checkpoint_id: Text,
    root_tree: Text,
    tree: Seq<TreeEntry<Text>>,
) -> Order {
    Order {
        layer_id: layer.id,
        checkpoint_id,
        root_tree,
        tree,
        destination: layer.view_path,
        marker: marker_for(root, layer.id),
    }
}

/// Orders a tree into a Layer's view.
pub fn order_view(
    store: &Store,
    layer: &Layer,
    checkpoint_id: &str,
    root_tree: &str,
    tree: Tree,
) -> (r: ViewOrder)
    ensures
        r@ == order_for(store@.root, layer@, checkpoint_id@, root_tree@, tree@),
{
    let marker = if text::same(layer.id.as_str(), "local") {
        None
    } else {
        Some(
            ViewMarker {
                format: 1,
                project: store.root.clone(),
                layer_id: layer.id.clone(),
            },
        )
    };
    ViewOrder {
        layer_id: layer.id.clone(),
        checkpoint_id: checkpoint_id.to_owned(),
        root_tree: root_tree.to_owned(),
        tree,
        destination: layer.view_path.clone(),
        marker,
    }
}

/// The order to put a tree into the view of a named Layer, which has a marker.
pub open spec fn marked_order_for(
    root: Text,
    layer: Layer<Text>,
    checkpoint_id: Text,
    root_tree: Text,
    tree: Seq<TreeEntry<Text>>,
) -> Order {
    Order {
        marker: Some(marker_of(root, layer.id)),
        ..order_for(root, layer, checkpoint_id, root_tree, tree)
    }
}

/// Orders a tree into the view of a named Layer.
pub fn order_marked_view(
    store: &Store,
    layer: &Layer,
    checkpoint_id: &str,
    root_tree: &str,
    tree: Tree,
) -> (r: ViewOrder)
    ensures
        r@ == marked_order_for(store@.root, layer@, checkpoint_id@, root_tree@, tree@),
{
    let order = order_view(store, layer, checkpoint_id, root_tree, tree);
    ViewOrder {
        marker: Some(
            ViewMarker {
                format: 1,
                project: store.root.clone(),
                layer_id: layer.id.clone(),
            },
        ),
        ..order
    }
}

pub open spec fn order_option(order: Option<ViewOrder>) -> Option<Order> {
    match order {
        Some(found) => Some(found@),
        None => None,
    }
}

/// A view while a tree is put into it.
pub open spec fn opened(state: StoreState, layer_id: Text, checkpoint_id: Text, now: Text) -> StoreState {
    layers::marked_view(state, layer_id, checkpoint_id, true, "materializing"@, now)
}

/// A view after a tree was put into it by a backend, or after that failed.
pub open spec fn closed(
    state: StoreState,
    layer_id: Text,
    checkpoint_id: Text,
    backend: Option<Text>,
    now: Text,
) -> StoreState {
    match backend {
        Some(name) => layers::marked_view(state, layer_id, checkpoint_id, false, name, now),
        None => layers::marked_view(
            state,
            layer_id,
            checkpoint_id,
            true,
            "repair_required"@,
            now,
        ),
    }
}

/// Records at a given time what became of an order: the backend that carried
/// it out, or none where it failed.
pub fn close_view_at(
    store: &mut Store,
    layer_id: &str,
    checkpoint_id: &str,
    backend: Option<&str>,
    now: &str,
)
    ensures
        final(store)@ == closed(
            old(store)@,
            layer_id@,
            checkpoint_id@,
            backend.deep_view(),
            now@,
        ),
{
    match backend {
        Some(name) => store.mark_view_at(layer_id, checkpoint_id, false, name, now),
        None => store.mark_view_at(layer_id, checkpoint_id, true, "repair_required", now),
    }
}

/// Records what became of an order.
pub fn close_view(
    store: &mut Store,
    layer_id: &str,
    checkpoint_id: &str,
    backend: Option<&str>,
)
    ensures
        exists|now: Text|
            clock::is_stamp(now) && final(store)@ == #[trigger] closed(
                old(store)@,
                layer_id@,
                checkpoint_id@,
                backend.deep_view(),
                now,
            ),
{
    let now = clock::now();
    close_view_at(store, layer_id, checkpoint_id, backend, now.as_str())
}

/// What a Layer's view should hold: its head and the head's tree.
pub open spec fn head_outcome(state: StoreState, files: FilesState, layer: Layer<Text>) -> std::result::Result<
    (Checkpoint<Text>, Seq<TreeEntry<Text>>),
    Failure,
> {
    match store::checkpoint_outcome(state, layer.head_checkpoint) {
        Err(failure) => Err(failure),
        Ok(head) => match files::tree_outcome(files, head.root_tree) {
            Err(failure) => Err(failure),
            Ok(tree) => Ok((head, tree)),
        },
    }
}

/// The head of a Layer and its tree.
pub fn head_and_tree(store: &Store, files: &ObjectFiles, layer: &Layer) -> (r: Result<
    (Checkpoint, Tree),
>)
    requires
        files.wf(),
    ensures
        match head_outcome(store@, files@, layer@) {
            Ok(found) => r is Ok && r->Ok_0.0@ == found.0 && r->Ok_0.1@ == found.1,
            Err(failure) => r is Err && r->Err_0@ == failure,
        },
{
    let head = store.layer_head(layer)?;
    let tree = files.read_tree(head.root_tree.as_str())?;
    Ok((head, tree))
}

/// The state, the root and the tree that a reference stands for.
pub open spec fn tree_for_ref_outcome(
    state: StoreState,
    files: FilesState,
    reference: Text,
) -> std::result::Result<(Text, Text, Seq<TreeEntry<Text>>), Failure> {
    match store::resolve_outcome(state, reference) {
        Err(failure) => Err(failure),
        Ok((resolved, root)) => match files::tree_outcome(files, root) {
            Err(failure) => Err(failure),
            Ok(tree) => Ok((resolved, root, tree)),
        },
    }
}

/// The state, the root and the tree that a reference stands for.
pub fn tree_for_ref(store: &Store, files: &ObjectFiles, reference: &str) -> (r: Result<
    (String, String, Tree),
>)
    requires
        files.wf(),
    ensures
        match tree_for_ref_outcome(store@, files@, reference@) {
            Ok(found) => r is Ok && r->Ok_0.0@ == found.0 && r->Ok_0.1@ == found.1
                && r->Ok_0.2@ == found.2,
            Err(failure) => r is Err && r->Err_0@ == failure,
        },
{
    let (resolved, root) = store.resolve_ref(reference)?;
    let tree = files.read_tree(root.as_str())?;
    Ok((resolved, root, tree))
}

/// The view of the Local Layer is the project itself and carries no marker; that
/// of every other Layer carries one that names the project and the Layer.
pub proof fn law_marker_names_its_layer(root: Text, layer_id: Text)
    ensures
        layer_id == "local"@ ==> marker_for(root, layer_id) is None,
        layer_id != "local"@ ==> marker_for(root, layer_id) is Some && marker_for(
            root,
            layer_id,
        )->Some_0.layer_id == layer_id && marker_for(root, layer_id)->Some_0.project == root
            && marker_for(root, layer_id)->Some_0.format == 1,
        marker_of(root, layer_id).layer_id == layer_id,
        marker_of(root, layer_id).project == root,
{
}

/// An order puts the tree of a Checkpoint into the view of its Layer, and
/// nowhere else.
pub proof fn law_order_goes_to_the_layers_view(
    root: Text,
    layer: Layer<Text>,
    checkpoint_id: Text,
    root_tree: Text,
    tree: Seq<TreeEntry<Text>>,
)
    ensures
        ({
            let plain = order_for(root, layer, checkpoint_id, root_tree, tree);
            let marked = marked_order_for(root, layer, checkpoint_id, root_tree, tree);
            &&& plain.layer_id == layer.id && marked.layer_id == layer.id
            &&& plain.destination == layer.view_path && marked.destination == layer.view_path
            &&& plain.checkpoint_id == checkpoint_id && marked.checkpoint_id == checkpoint_id
            &&& plain.root_tree == root_tree && marked.root_tree == root_tree
            &&& plain.tree == tree && marked.tree == tree
            &&& plain.marker is None <==> layer.id == "local"@
            &&& marked.marker is Some && marked.marker->Some_0.layer_id == layer.id
        }),
{
}

/// A view is stale from the moment a tree is put into it until that is done, and
/// stays so where it failed. No other view is touched.
pub proof fn law_view_is_stale_until_done(
    state: StoreState,
    layer_id: Text,
    checkpoint_id: Text,
    backend: Option<Text>,
    now: Text,
    i: int,
)
    requires
        0 <= i < state.views.len(),
        state.views[i].layer_id == layer_id,
        forall|j: int| 0 <= j < i ==> (#[trigger] state.views[j]).layer_id != layer_id,
    ensures
        opened(state, layer_id, checkpoint_id, now).views[i].stale,
        opened(state, layer_id, checkpoint_id, now).views[i].materialized_ref == checkpoint_id,
        closed(state, layer_id, checkpoint_id, backend, now).views[i].stale <==> backend is None,
        closed(state, layer_id, checkpoint_id, backend, now).views[i].materialized_ref
            == checkpoint_id,
        backend is Some ==> closed(
            state,
            layer_id,
            checkpoint_id,
            backend,
            now,
        ).views[i].backend == backend->Some_0,
        backend is None ==> closed(
            state,
            layer_id,
            checkpoint_id,
            backend,
            now,
        ).views[i].backend == "repair_required"@,
        forall|k: int|
            0 <= k < state.views.len() && k != i ==> #[trigger] opened(
                state,
                layer_id,
                checkpoint_id,
                now,
            ).views[k] == state.views[k] && closed(
                state,
                layer_id,
                checkpoint_id,
                backend,
                now,
            ).views[k] == state.views[k],
        opened(state, layer_id, checkpoint_id, now).layers == state.layers,
        opened(state, layer_id, checkpoint_id, now).checkpoints == state.checkpoints,
{
    crate::tables::lemma_first_at(state.views, crate::records::view_is(layer_id), i);
}

/// A command is about the Layer that it was told, and where it was told none,
/// about the one in whose view it runs.
pub proof fn law_request_goes_before_place(
    state: StoreState,
    context_layer: Text,
    requested: Option<Text>,
)
    ensures
        requested is Some ==> selected_outcome(state, context_layer, requested)
            == store::layer_outcome(state, requested->Some_0),
        requested is None ==> selected_outcome(state, context_layer, requested)
            == store::layer_outcome(state, context_layer),
{
}

} // verus!
