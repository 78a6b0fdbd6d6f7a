//! Discard: a Private Layer is put aside, and later recovered or purged.
use vstd::prelude::*;
use crate::clock;
use crate::commands::views;
use crate::commands::views::{Order, ViewOrder};
use crate::config;
use crate::config::Config;
use crate::error::{Failure, JavelinError, Result};
use crate::files;
use crate::files::{FilesState, ObjectFiles};
use crate::model::{Checkpoint, Layer, LayerStatus, TargetKind};
use crate::paths;
use crate::records;
use crate::store;
use crate::store::{layers, Store, StoreState};
use crate::tables;
use crate::text;
use crate::text::Text;

verus! {

/// Whether a Layer is reached from another by going from Layer to target. The
/// walk has been at the Layers in `seen`, none of them twice.
pub open spec fn cycle_outcome(
    state: StoreState,
    child: Text,
    current: Text,
    seen: Seq<Text>,
) -> std::result::Result<bool, Failure>
    decreases 2 * state.layers.len() + 3 - seen.len(),
{
    if current == child {
        Ok(true)
    } else if seen.contains(current) || seen.len() > 2 * state.layers.len() + 2 {
        Err(Failure::corruption("existing Private Layer target cycle"@))
    } else {
        match store::layer_outcome(state, current) {
            Err(failure) => Err(failure),
            Ok(layer) => if layer.target_kind == TargetKind::Layer && layer.target_id is Some {
                cycle_outcome(state, child, layer.target_id->Some_0, seen.push(current))
            } else {
                Ok(false)
            },
        }
    }
}

/// Whether making a Layer the target of another would close a cycle.
pub fn reparent_would_cycle(store: &Store, child_id: &str, target_id: &str) -> (r: Result<bool>)
    ensures
        match cycle_outcome(store@, child_id@, target_id@, Seq::empty()) {
            Ok(found) => r is Ok && r->Ok_0 == found,
            Err(failure) => r is Err && r->Err_0@ == failure,
        },
{
    let limit: usize = store.layers.len();
    let mut seen: Vec<String> = Vec::new();
    let mut current = target_id.to_owned();
    assert(seen.deep_view() =~= Seq::empty());
    loop
        invariant
            limit == store@.layers.len(),
            seen@.len() <= 2 * limit + 3,
            cycle_outcome(store@, child_id@, target_id@, Seq::empty()) == cycle_outcome(
                store@,
                child_id@,
                current@,
                seen.deep_view(),
            ),
        decreases 2 * limit + 4 - seen@.len(),
    {
        if text::same(current.as_str(), child_id) {
            return Ok(true);
        }
        assert(seen.deep_view().len() == seen@.len());
        if text::list_contains(&seen, current.as_str()) || (seen.len() > 0 && (seen.len() - 1) / 2
            > limit) {
            return Err(JavelinError::corruption("existing Private Layer target cycle".to_owned()));
        }
        let layer = store.layer(current.as_str())?;
        if layer.target_kind != TargetKind::Layer {
            return Ok(false);
        }
        match layer.target_id {
            None => {
                return Ok(false);
            },
            Some(next) => {
                let ghost before = seen.deep_view();
                let ghost at = current@;
                seen.push(current);
                assert(seen.deep_view() =~= before.push(at));
                current = next;
            },
        }
    }
}

/// Where children of a discarded Layer go.
#[derive(Debug)]
#[verifier::ext_equal]
pub struct NewTarget<S = String> {
    pub kind: TargetKind,
    pub id: Option<S>,
}

impl DeepView for NewTarget {
    type V = NewTarget<Text>;

    open spec fn deep_view(&self) -> NewTarget<Text> {
        NewTarget { kind: self.kind, id: self.id.deep_view() }
    }
}

/// The target that a Layer's children are to get.
pub open spec fn new_target_outcome(
    state: StoreState,
    layer: Layer<Text>,
    target: Text,
) -> std::result::Result<NewTarget<Text>, Failure> {
    if target == "world"@ {
        Ok(NewTarget { kind: TargetKind::World, id: None })
    } else if text::has_prefix(target, "layer:"@) {
        match store::layer_outcome(state, target.skip(6)) {
            Err(failure) => Err(failure),
            Ok(found) => if found.id == layer.id {
                Err(
                    Failure::policy(
                        "child Layers cannot be reparented to the Layer being discarded"@,
                    ),
                )
            } else {
                Ok(NewTarget { kind: TargetKind::Layer, id: Some(found.id) })
            },
        }
    } else {
        Err(Failure::invalid("--reparent must be world or layer:LAYER"@))
    }
}

fn find_new_target(store: &Store, layer: &Layer, target: &str) -> (r: Result<NewTarget>)
    ensures
        match new_target_outcome(store@, layer@, target@) {
            Ok(found) => r is Ok && r->Ok_0.deep_view() == found,
            Err(failure) => r is Err && r->Err_0@ == failure,
        },
{
    if text::same(target, "world") {
        return Ok(NewTarget { kind: TargetKind::World, id: None });
    }
    if text::starts_with(target, "layer:") {
        proof {
            reveal_strlit("layer:");
        }
        let length: usize = target.unicode_len();
        let name = target.substring_char(6, length);
        assert(target@.subrange(6, length as int) =~= target@.skip(6));
        let found = store.layer(name)?;
        if text::same(found.id.as_str(), layer.id.as_str()) {
            return Err(
                JavelinError::policy(
                    "child Layers cannot be reparented to the Layer being discarded".to_owned(),
                ),
            );
        }
        return Ok(NewTarget { kind: TargetKind::Layer, id: Some(found.id) });
    }
    Err(JavelinError::invalid("--reparent must be world or layer:LAYER".to_owned()))
}

/// Why a Layer cannot get a target, if it cannot: a cycle would arise.
pub open spec fn cycle_check(state: StoreState, target_id: Text, target: Text) -> spec_fn(
    Layer<Text>,
) -> Option<Failure> {
    |child: Layer<Text>|
        match cycle_outcome(state, child.id, target_id, Seq::empty()) {
            Err(failure) => Some(failure),
            Ok(true) => Some(
                Failure::policy(
                    "reparenting "@ + child.name + " to "@ + target
                        + " would create a Layer cycle"@,
                ),
            ),
            Ok(false) => None,
        }
}

fn check_cycles(store: &Store, children: &Vec<Layer>, target_id: &str, target: &str) -> (r: Result<
    (),
>)
    ensures
        match tables::first_failure(
            children.deep_view(),
            cycle_check(store@, target_id@, target@),
        ) {
            Some(failure) => r is Err && r->Err_0@ == failure,
            None => r is Ok,
        },
{
    let ghost all = children.deep_view();
    let ghost check = cycle_check(store@, target_id@, target@);
    let mut i: usize = 0;
    assert(all.take(0) =~= Seq::empty());
    while i < children.len()
        invariant
            i <= children@.len(),
            all == children.deep_view(),
            check == cycle_check(store@, target_id@, target@),
            tables::first_failure(all.take(i as int), check) is None,
        decreases children@.len() - i,
    {
        let child = &children[i];
        proof {
            assert(all.take(i as int + 1).drop_last() =~= all.take(i as int));
            assert(all.take(i as int + 1).last() == child@);
            if tables::first_failure(all.take(i as int + 1), check) is Some {
                tables::lemma_first_failure(all, check, i as int + 1);
            }
        }
        if reparent_would_cycle(store, child.id.as_str(), target_id)? {
            return Err(
                JavelinError::policy(
                    text::concat2(
                        text::concat3(
                            text::concat2("reparenting ", child.name.as_str()).as_str(),
                            " to ",
                            target,
                        ).as_str(),
                        " would create a Layer cycle",
                    ),
                ),
            );
        }
        i = i + 1;
    }
    assert(all.take(i as int) =~= all);
    Ok(())
}

/// The store after Layers get another target, one after another, and what
/// stopped it, if something did.
pub open spec fn all_reparented(
    state: StoreState,
    children: Seq<Layer<Text>>,
    target: NewTarget<Text>,
    now: Text,
) -> (StoreState, Option<Failure>)
    decreases children.len(),
{
    if children.len() == 0 {
        (state, None)
    } else {
        let before = all_reparented(state, children.drop_last(), target, now);
        match before.1 {
            Some(_) => before,
            None => match layers::reparent_outcome(
                before.0,
                children.last().id,
                target.kind.name(),
                target.id,
                now,
            ) {
                Ok(after) => (after, None),
                Err(failure) => (before.0, Some(failure)),
            },
        }
    }
}

proof fn lemma_reparent_stops(
    state: StoreState,
    children: Seq<Layer<Text>>,
    target: NewTarget<Text>,
    now: Text,
    i: int,
)
    requires
        0 <= i <= children.len(),
        all_reparented(state, children.take(i), target, now).1 is Some,
    ensures
        all_reparented(state, children, target, now) == all_reparented(
            state,
            children.take(i),
            target,
            now,
        ),
    decreases children.len() - i,
{
    if i < children.len() {
        assert(children.take(i + 1).drop_last() =~= children.take(i));
        lemma_reparent_stops(state, children, target, now, i + 1);
    } else {
        assert(children.take(i) =~= children);
    }
}

fn borrowed(value: &Option<String>) -> (r: Option<&str>)
    ensures
        r.deep_view() == value.deep_view(),
{
    match value {
        Some(content) => Some(content.as_str()),
        None => None,
    }
}

fn reparent_all(store: &mut Store, children: &Vec<Layer>, target: &NewTarget, now: &str) -> (r:
    Result<()>)
    ensures
        ({
            let outcome = all_reparented(
                old(store)@,
                children.deep_view(),
                target.deep_view(),
                now@,
            );
            &&& final(store)@ == outcome.0
            &&& match outcome.1 {
                Some(failure) => r is Err && r->Err_0@ == failure,
                None => r is Ok,
            }
        }),
{
    let ghost state = store@;
    let ghost all = children.deep_view();
    let mut i: usize = 0;
    assert(all.take(0) =~= Seq::empty());
    while i < children.len()
        invariant
            i <= children@.len(),
            all == children.deep_view(),
            state == old(store)@,
            all_reparented(state, all.take(i as int), target.deep_view(), now@) == (
                store@,
                None::<Failure>,
            ),
        decreases children@.len() - i,
    {
        proof {
            assert(all.take(i as int + 1).drop_last() =~= all.take(i as int));
            assert(all.take(i as int + 1).last() == children@[i as int]@);
            if all_reparented(state, all.take(i as int + 1), target.deep_view(), now@).1 is Some {
                lemma_reparent_stops(state, all, target.deep_view(), now@, i as int + 1);
            }
        }
        store.reparent_layer_at(
            children[i].id.as_str(),
            target.kind.as_str(),
            borrowed(&target.id),
            now,
        )?;
        i = i + 1;
    }
    assert(all.take(i as int) =~= all);
    Ok(())
}

/// What becomes of views on disk.
#[derive(Debug)]
#[verifier::ext_equal]
pub enum ViewMove<S = String> {
    /// The view of a Layer is kept aside.
    Retain { layer_id: S, view_path: S },
    /// What was kept of a Layer's view goes.
    Remove { layer_id: S },
}

impl DeepView for ViewMove {
    type V = ViewMove<Text>;

    open spec fn deep_view(&self) -> ViewMove<Text> {
        match *self {
            ViewMove::Retain { layer_id, view_path } => ViewMove::Retain {
                layer_id: layer_id@,
                view_path: view_path@,
            },
            ViewMove::Remove { layer_id } => ViewMove::Remove { layer_id: layer_id@ },
        }
    }
}

/// Where the view of a discarded Layer is kept.
pub fn trash_path(metadata: &str, layer_id: &str) -> (r: String)
    ensures
        r@ == paths::joined_path(paths::joined_path(metadata@, "trash"@), layer_id@),
{
    paths::join_path(paths::join_path(metadata, "trash").as_str(), layer_id)
}

/// How far the discard of Layers came.
#[verifier::ext_equal]
pub struct Cascade {
    pub state: StoreState,
    pub moves: Seq<ViewMove<Text>>,
    pub failure: Option<Failure>,
}

/// The terms of a discard.
#[derive(Debug)]
#[verifier::ext_equal]
pub struct DiscardTerms<S = String> {
    pub purge: bool,
    pub purge_after: S,
    pub now: S,
}

impl DeepView for DiscardTerms {
    type V = DiscardTerms<Text>;

    open spec fn deep_view(&self) -> DiscardTerms<Text> {
        DiscardTerms {
            purge: self.purge,
            purge_after: self.purge_after@,
            now: self.now@,
        }
    }
}

/// The Layers that a discard of their parent covers.
pub open spec fn children_of(state: StoreState, parent: Text, purge: bool) -> Seq<Layer<Text>> {
    tables::in_order::<Layer>(tables::kept(state.layers, store::child_of(parent, purge)))
}

/// The discard of one Layer, whose view is retained.
pub open spec fn discard_step(before: Cascade, layer: Layer<Text>, terms: DiscardTerms<Text>) -> Cascade {
    match layers::record_discard_outcome(before.state, layer.id, terms.purge_after, terms.now) {
        Ok(after) => Cascade {
            state: after,
            moves: before.moves.push(
                ViewMove::Retain { layer_id: layer.id, view_path: layer.view_path },
            ),
            failure: None,
        },
        Err(failure) => Cascade { failure: Some(failure), ..before },
    }
}

/// A child whose own children are done with: it is discarded unless it was,
/// and purged where that is asked for.
pub open spec fn child_done(before: Cascade, child: Layer<Text>, terms: DiscardTerms<Text>) -> Cascade {
    let discarded = if child.status != LayerStatus::Discarded {
        discard_step(before, child, terms)
    } else {
        before
    };
    if discarded.failure is Some {
        discarded
    } else if terms.purge {
        match layers::purge_outcome(discarded.state, child.id) {
            Ok(after) => Cascade {
                state: after,
                moves: discarded.moves.push(ViewMove::Remove { layer_id: child.id }),
                failure: None,
            },
            Err(failure) => Cascade { failure: Some(failure), ..discarded },
        }
    } else {
        discarded
    }
}

/// The discard of Layers with all that is below them, the deepest first. No
/// chain of Layers is deeper than there are Layers.
pub open spec fn cascade(
    state: StoreState,
    children: Seq<Layer<Text>>,
    terms: DiscardTerms<Text>,
    moves: Seq<ViewMove<Text>>,
    depth: nat,
) -> Cascade
    decreases depth, children.len(),
{
    if children.len() == 0 {
        Cascade { state, moves, failure: None }
    } else {
        let before = cascade(state, children.drop_last(), terms, moves, depth);
        let child = children.last();
        if before.failure is Some {
            before
        } else if depth == 0 {
            Cascade {
                failure: Some(Failure::corruption("existing Private Layer target cycle"@)),
                ..before
            }
        } else {
            let below = cascade(
                before.state,
                children_of(before.state, child.id, terms.purge),
                terms,
                before.moves,
                (depth - 1) as nat,
            );
            if below.failure is Some {
                below
            } else {
                child_done(below, child, terms)
            }
        }
    }
}

proof fn lemma_cascade_stops(
    state: StoreState,
    children: Seq<Layer<Text>>,
    terms: DiscardTerms<Text>,
    moves: Seq<ViewMove<Text>>,
    depth: nat,
    i: int,
)
    requires
        0 <= i <= children.len(),
        cascade(state, children.take(i), terms, moves, depth).failure is Some,
    ensures
        cascade(state, children, terms, moves, depth) == cascade(
            state,
            children.take(i),
            terms,
            moves,
            depth,
        ),
    decreases children.len() - i,
{
    if i < children.len() {
        assert(children.take(i + 1).drop_last() =~= children.take(i));
        lemma_cascade_stops(state, children, terms, moves, depth, i + 1);
    } else {
        assert(children.take(i) =~= children);
    }
}

fn retain(moves: &mut Vec<ViewMove>, layer: &Layer)
    ensures
        final(moves).deep_view() == old(moves).deep_view().push(
            ViewMove::Retain { layer_id: layer@.id, view_path: layer@.view_path },
        ),
{
    let ghost before = moves.deep_view();
    let step = ViewMove::Retain {
        layer_id: layer.id.clone(),
        view_path: layer.view_path.clone(),
    };
    let ghost value = step.deep_view();
    moves.push(step);
    assert(moves.deep_view() =~= before.push(value));
}

fn remove(moves: &mut Vec<ViewMove>, layer: &Layer)
    ensures
        final(moves).deep_view() == old(moves).deep_view().push(
            ViewMove::Remove { layer_id: layer@.id },
        ),
{
    let ghost before = moves.deep_view();
    let step = ViewMove::Remove { layer_id: layer.id.clone() };
    let ghost value = step.deep_view();
    moves.push(step);
    assert(moves.deep_view() =~= before.push(value));
}

fn finish_child(
    store: &mut Store,
    child: &Layer,
    terms: &DiscardTerms,
    moves: &mut Vec<ViewMove>,
) -> (r: Result<()>)
    ensures
        ({
            let outcome = child_done(
                Cascade {
                    state: old(store)@,
                    moves: old(moves).deep_view(),
                    failure: None,
                },
                child@,
                terms.deep_view(),
            );
            &&& final(store)@ == outcome.state
            &&& final(moves).deep_view() == outcome.moves
            &&& match outcome.failure {
                Some(failure) => r is Err && r->Err_0@ == failure,
                None => r is Ok,
            }
        }),
{
    if child.status != LayerStatus::Discarded {
        store.record_discard_at(
            child.id.as_str(),
            terms.purge_after.as_str(),
            terms.now.as_str(),
        )?;
        retain(moves, child);
    }
    if terms.purge {
        store.purge_layer(child.id.as_str())?;
        remove(moves, child);
    }
    Ok(())
}

fn children_to_discard(store: &Store, parent: &str, purge: bool) -> (r: Vec<Layer>)
    ensures
        r.deep_view() == children_of(store@, parent@, purge),
{
    if purge {
        store.all_children(parent)
    } else {
        store.active_children(parent)
    }
}

/// Discards Layers with all that is below them, the deepest first.
pub fn cascade_discard(
    store: &mut Store,
    children: &Vec<Layer>,
    terms: &DiscardTerms,
    moves: &mut Vec<ViewMove>,
    depth: usize,
) -> (r: Result<()>)
    ensures
        ({
            let outcome = cascade(
                old(store)@,
                children.deep_view(),
                terms.deep_view(),
                old(moves).deep_view(),
                depth as nat,
            );
            &&& final(store)@ == outcome.state
            &&& final(moves).deep_view() == outcome.moves
            &&& match outcome.failure {
                Some(failure) => r is Err && r->Err_0@ == failure,
                None => r is Ok,
            }
        }),
    decreases depth,
{
    let ghost state = store@;
    let ghost first_moves = moves.deep_view();
    let ghost all = children.deep_view();
    let ghost due = terms.deep_view();
    let mut i: usize = 0;
    assert(all.take(0) =~= Seq::empty());
    while i < children.len()
        invariant
            i <= children@.len(),
            all == children.deep_view(),
            due == terms.deep_view(),
            state == old(store)@,
            first_moves == old(moves).deep_view(),
            cascade(state, all.take(i as int), due, first_moves, depth as nat) == (Cascade {
                state: store@,
                moves: moves.deep_view(),
                failure: None,
            }),
        decreases children@.len() - i,
    {
        let child = &children[i];
        proof {
            assert(all.take(i as int + 1).drop_last() =~= all.take(i as int));
            assert(all.take(i as int + 1).last() == child@);
            if cascade(
                state,
                all.take(i as int + 1),
                due,
                first_moves,
                depth as nat,
            ).failure is Some {
                lemma_cascade_stops(state, all, due, first_moves, depth as nat, i as int + 1);
            }
        }
        if depth == 0 {
            return Err(
                JavelinError::corruption("existing Private Layer target cycle".to_owned()),
            );
        }
        let below = children_to_discard(store, child.id.as_str(), terms.purge);
        cascade_discard(store, &below, terms, moves, depth - 1)?;
        finish_child(store, child, terms, moves)?;
        i = i + 1;
    }
    assert(all.take(i as int) =~= all);
    Ok(())
}

/// Why the children of a Layer stand in the way of its discard, if they do.
pub open spec fn children_refusal(
    layer: Layer<Text>,
    children: Seq<Layer<Text>>,
    cascades: bool,
    reparent: Option<Text>,
) -> Option<Failure> {
    if children.len() > 0 && !cascades && reparent is None {
        Some(
            Failure::policy(
                "Private Layer "@ + layer.name + " has "@ + text::decimal(children.len())
                    + " active children; use --cascade or --reparent"@,
            ),
        )
    } else {
        None
    }
}

/// The store after the children of a Layer that is to be discarded get another
/// target, where that is asked for.
pub open spec fn children_moved(
    state: StoreState,
    layer: Layer<Text>,
    children: Seq<Layer<Text>>,
    reparent: Option<Text>,
    now: Text,
) -> (StoreState, Option<Failure>) {
    match reparent {
        None => (state, None),
        Some(target) => match new_target_outcome(state, layer, target) {
            Err(failure) => (state, Some(failure)),
            Ok(found) => {
                let refusal = match found.id {
                    Some(id) => tables::first_failure(children, cycle_check(state, id, target)),
                    None => None,
                };
                match refusal {
                    Some(failure) => (state, Some(failure)),
                    None => all_reparented(state, children, found, now),
                }
            },
        },
    }
}

/// The discard of a named Layer.
pub open spec fn discard_outcome(
    state: StoreState,
    layer: Layer<Text>,
    cascades: bool,
    reparent: Option<Text>,
    terms: DiscardTerms<Text>,
) -> Cascade {
    let children = children_of(state, layer.id, false);
    let moved = children_moved(state, layer, children, reparent, terms.now);
    if children_refusal(layer, children, cascades, reparent) is Some {
        Cascade {
            state,
            moves: Seq::empty(),
            failure: children_refusal(layer, children, cascades, reparent),
        }
    } else if moved.1 is Some {
        Cascade { state: moved.0, moves: Seq::empty(), failure: moved.1 }
    } else {
        let below = if cascades {
            cascade(
                moved.0,
                children_of(moved.0, layer.id, terms.purge),
                terms,
                Seq::empty(),
                moved.0.layers.len(),
            )
        } else {
            Cascade { state: moved.0, moves: Seq::empty(), failure: None }
        };
        if below.failure is Some {
            below
        } else {
            let done = discard_step(below, layer, terms);
            if done.failure is Some {
                done
            } else if terms.purge {
                match layers::purge_outcome(done.state, layer.id) {
                    Ok(after) => Cascade { state: after, ..done },
                    Err(failure) => Cascade { failure: Some(failure), ..done },
                }
            } else {
                done
            }
        }
    }
}

fn move_children(
    store: &mut Store,
    layer: &Layer,
    children: &Vec<Layer>,
    reparent: Option<&str>,
    now: &str,
) -> (r: Result<()>)
    ensures
        ({
            let outcome = children_moved(
                old(store)@,
                layer@,
                children.deep_view(),
                reparent.deep_view(),
                now@,
            );
            &&& final(store)@ == outcome.0
            &&& match outcome.1 {
                Some(failure) => r is Err && r->Err_0@ == failure,
                None => r is Ok,
            }
        }),
{
    match reparent {
        None => Ok(()),
        Some(target) => {
            let found = find_new_target(store, layer, target)?;
            if let Some(id) = &found.id {
                check_cycles(store, children, id.as_str(), target)?;
            }
            reparent_all(store, children, &found, now)
        },
    }
}

/// Discards a named Layer on given terms, and gives what becomes of the views
/// on disk. What was done before a failure stays done.
pub fn discard_at(
    store: &mut Store,
    layer: &Layer,
    cascades: bool,
    reparent: Option<&str>,
    terms: &DiscardTerms,
    moves: &mut Vec<ViewMove>,
) -> (r: Result<()>)
    requires
        old(moves)@.len() == 0,
    ensures
        ({
            let outcome = discard_outcome(
                old(store)@,
                layer@,
                cascades,
                reparent.deep_view(),
                terms.deep_view(),
            );
            &&& final(store)@ == outcome.state
            &&& final(moves).deep_view() == outcome.moves
            &&& match outcome.failure {
                Some(failure) => r is Err && r->Err_0@ == failure,
                None => r is Ok,
            }
        }),
{
    assert(moves.deep_view() =~= Seq::<ViewMove<Text>>::empty());
    let children = store.active_children(layer.id.as_str());
    if children.len() > 0 && !cascades && reparent.is_none() {
        return Err(
            JavelinError::policy(
                text::concat3(
                    text::concat3("Private Layer ", layer.name.as_str(), " has ").as_str(),
                    text::number(children.len() as u64).as_str(),
                    " active children; use --cascade or --reparent",
                ),
            ),
        );
    }
    move_children(store, layer, &children, reparent, terms.now.as_str())?;
    if cascades {
        let below = children_to_discard(store, layer.id.as_str(), terms.purge);
        let depth: usize = store.layers.len();
        cascade_discard(store, &below, terms, moves, depth)?;
    }
    store.record_discard_at(
        layer.id.as_str(),
        terms.purge_after.as_str(),
        terms.now.as_str(),
    )?;
    retain(moves, layer);
    if terms.purge {
        store.purge_layer(layer.id.as_str())?;
    }
    Ok(())
}

/// The discard of a named Layer that is kept for a number of days.
pub open spec fn discard_for_outcome(
    state: StoreState,
    layer: Layer<Text>,
    cascades: bool,
    reparent: Option<Text>,
    purge: bool,
    days: u64,
    now: Text,
) -> Cascade {
    match config::days_from(now, days as int, "retention.discarded_days"@) {
        Err(failure) => Cascade { state, moves: Seq::empty(), failure: Some(failure) },
        Ok(purge_after) => discard_outcome(
            state,
            layer,
            cascades,
            reparent,
            DiscardTerms { purge, purge_after, now },
        ),
    }
}

/// Discards a named Layer at a given time, and gives what becomes of the views on
/// disk. It can be purged after a number of days.
pub fn discard_for(
    store: &mut Store,
    layer: &Layer,
    cascades: bool,
    reparent: Option<&str>,
    purge: bool,
    days: u64,
    now: String,
    moves: &mut Vec<ViewMove>,
) -> (r: Result<()>)
    requires
        old(moves)@.len() == 0,
    ensures
        ({
            let outcome = discard_for_outcome(
                old(store)@,
                layer@,
                cascades,
                reparent.deep_view(),
                purge,
                days,
                now@,
            );
            &&& final(store)@ == outcome.state
            &&& final(moves).deep_view() == outcome.moves
            &&& match outcome.failure {
                Some(failure) => r is Err && r->Err_0@ == failure,
                None => r is Ok,
            }
        }),
{
    assert(moves.deep_view() =~= Seq::<ViewMove<Text>>::empty());
    let purge_after = config::days_after(now.as_str(), days, "retention.discarded_days")?;
    let terms = DiscardTerms { purge, purge_after, now };
    discard_at(store, layer, cascades, reparent, &terms, moves)
}

/// Discards a named Layer, and gives what becomes of the views on disk. It can be
/// purged after the configured number of days.
pub fn discard(
    store: &mut Store,
    layer: &Layer,
    cascades: bool,
    reparent: Option<&str>,
    purge: bool,
    config: &Config,
    moves: &mut Vec<ViewMove>,
) -> (r: Result<()>)
    requires
        old(moves)@.len() == 0,
    ensures
        exists|now: Text|
            {
                let outcome = #[trigger] discard_for_outcome(
                    old(store)@,
                    layer@,
                    cascades,
                    reparent.deep_view(),
                    purge,
                    config.retention.discarded_days,
                    now,
                );
                &&& clock::is_stamp(now)
                &&& final(store)@ == outcome.state
                &&& final(moves).deep_view() == outcome.moves
                &&& match outcome.failure {
                    Some(failure) => r is Err && r->Err_0@ == failure,
                    None => r is Ok,
                }
            },
{
    let now = clock::now();
    discard_for(
        store,
        layer,
        cascades,
        reparent,
        purge,
        config.retention.discarded_days,
        now,
        moves,
    )
}

/// What discarding the changes of the Local Layer gives: its view is to hold
/// the current version of the World.
pub open spec fn discard_local_outcome(
    state: StoreState,
    files: FilesState,
    layer: Layer<Text>,
    id: Text,
    now: Text,
) -> std::result::Result<(StoreState, Checkpoint<Text>, Order), Failure> {
    match store::current_outcome(state) {
        Err(failure) => Err(failure),
        Ok(world) => match files::tree_outcome(files, world.root_tree) {
            Err(failure) => Err(failure),
            Ok(tree) => match layers::append_checkpoint_outcome(
                state,
                layer.id,
                world.root_tree,
                world.id,
                "discard"@,
                id,
                now,
            ) {
                Err(failure) => Err(failure),
                Ok((after, checkpoint)) => Ok(
                    (
                        views::opened(after, layer.id, checkpoint.id, now),
                        checkpoint,
                        Order {
                            layer_id: layer.id,
                            checkpoint_id: checkpoint.id,
                            root_tree: world.root_tree,
                            tree,
                            destination: state.root,
                            marker: None,
                        },
                    ),
                ),
            },
        },
    }
}

/// Discards the changes of the Local Layer, with a given identity and time.
pub fn discard_local_at(
    store: &mut Store,
    files: &ObjectFiles,
    layer: &Layer,
    id: &str,
    now: &str,
) -> (r: Result<(Checkpoint, ViewOrder)>)
    requires
        files.wf(),
    ensures
        match discard_local_outcome(old(store)@, files@, layer@, id@, now@) {
            Ok((state, checkpoint, order)) => r is Ok && r->Ok_0.0@ == checkpoint && r->Ok_0.1@
                == order && final(store)@ == state,
            Err(failure) => r is Err && r->Err_0@ == failure && final(store)@ == old(store)@,
        },
{
    let world = store.current_world()?;
    let tree = files.read_tree(world.root_tree.as_str())?;
    let checkpoint = store.append_checkpoint_at(
        layer.id.as_str(),
        world.root_tree.as_str(),
        world.id.as_str(),
        "discard",
        id,
        now,
    )?;
    let order = ViewOrder {
        layer_id: layer.id.clone(),
        checkpoint_id: checkpoint.id.clone(),
        root_tree: world.root_tree,
        tree,
        destination: store.root.clone(),
        marker: None,
    };
    store.mark_view_at(layer.id.as_str(), checkpoint.id.as_str(), true, "materializing", now);
    Ok((checkpoint, order))
}

/// Discards the changes of the Local Layer.
pub fn discard_local(store: &mut Store, files: &ObjectFiles, layer: &Layer) -> (r: Result<
    (Checkpoint, ViewOrder),
>)
    requires
        files.wf(),
    ensures
        exists|id: Text, now: Text|
            clock::is_stamp(now) && clock::is_fresh(id)
                && match #[trigger] discard_local_outcome(old(store)@, files@, layer@, id, now) {
                Ok((state, checkpoint, order)) => r is Ok && r->Ok_0.0@ == checkpoint
                    && r->Ok_0.1@ == order && final(store)@ == state,
                Err(failure) => r is Err && r->Err_0@ == failure && final(store)@ == old(store)@,
            },
{
    let id = clock::new_id();
    let now = clock::now();
    discard_local_at(store, files, layer, id.as_str(), now.as_str())
}

/// A discarded Layer.
pub open spec fn is_discarded() -> spec_fn(Layer<Text>) -> bool {
    |layer: Layer<Text>| layer.status == LayerStatus::Discarded
}

/// The discarded Layers, in order.
pub fn discarded_layers(store: &Store) -> (r: Vec<Layer>)
    ensures
        r.deep_view() == tables::kept(
            tables::in_order::<Layer>(tables::kept(store@.layers, store::listed(true))),
            is_discarded(),
        ),
{
    let rows = store.layers(true);
    let ghost all = rows.deep_view();
    let mut out: Vec<Layer> = Vec::new();
    let mut i: usize = 0;
    assert(all.take(0) =~= Seq::empty());
    assert(out.deep_view() =~= Seq::empty());
    while i < rows.len()
        invariant
            i <= rows@.len(),
            all == rows.deep_view(),
            out.deep_view() == tables::kept(all.take(i as int), is_discarded()),
        decreases rows@.len() - i,
    {
        let ghost before = out.deep_view();
        proof {
            assert(all.take(i as int + 1).drop_last() =~= all.take(i as int));
            assert(all.take(i as int + 1).last() == rows@[i as int]@);
        }
        if rows[i].status == LayerStatus::Discarded {
            let row = rows[i].clone();
            let ghost value = row@;
            out.push(row);
            assert(out.deep_view() =~= before.push(value));
        }
        i = i + 1;
    }
    assert(all.take(i as int) =~= all);
    out
}

/// What the recovery of a Layer begins with: the Layer, and what its view is to
/// hold where the view was not kept.
pub open spec fn recovery_outcome(
    state: StoreState,
    files: FilesState,
    name: Text,
    view_kept: bool,
) -> std::result::Result<(Layer<Text>, Option<Order>), Failure> {
    match store::layer_outcome(state, name) {
        Err(failure) => Err(failure),
        Ok(layer) => if layer.status != LayerStatus::Discarded {
            Err(Failure::invalid("Private Layer is not discarded"@))
        } else if view_kept {
            Ok((layer, None))
        } else {
            match views::head_outcome(state, files, layer) {
                Err(failure) => Err(failure),
                Ok((head, tree)) => Ok(
                    (
                        layer,
                        Some(
                            views::marked_order_for(
                                state.root,
                                layer,
                                head.id,
                                head.root_tree,
                                tree,
                            ),
                        ),
                    ),
                ),
            }
        },
    }
}

/// Plans the recovery of a discarded Layer.
pub fn plan_recovery(store: &Store, files: &ObjectFiles, name: &str, view_kept: bool) -> (r: Result<
    (Layer, Option<ViewOrder>),
>)
    requires
        files.wf(),
    ensures
        match recovery_outcome(store@, files@, name@, view_kept) {
            Ok((layer, order)) => r is Ok && r->Ok_0.0@ == layer && views::order_option(
                r->Ok_0.1,
            ) == order,
            Err(failure) => r is Err && r->Err_0@ == failure,
        },
{
    let layer = store.layer(name)?;
    if layer.status != LayerStatus::Discarded {
        return Err(JavelinError::invalid("Private Layer is not discarded".to_owned()));
    }
    if view_kept {
        return Ok((layer, None));
    }
    let (head, tree) = views::head_and_tree(store, files, &layer)?;
    let order = views::order_marked_view(
        store,
        &layer,
        head.id.as_str(),
        head.root_tree.as_str(),
        tree,
    );
    Ok((layer, Some(order)))
}

/// Purges a discarded Layer and gives it as it was.
pub fn purge_discarded(store: &mut Store, name: &str) -> (r: Result<Layer>)
    ensures
        match store::layer_outcome(old(store)@, name@) {
            Err(failure) => r is Err && r->Err_0@ == failure && final(store)@ == old(store)@,
            Ok(layer) => match layers::purge_outcome(old(store)@, layer.id) {
                Ok(state) => r is Ok && r->Ok_0@ == layer && final(store)@ == state,
                Err(failure) => r is Err && r->Err_0@ == failure && final(store)@ == old(store)@,
            },
        },
{
    let layer = store.layer(name)?;
    store.purge_layer(layer.id.as_str())?;
    Ok(layer)
}

/// What the discard of a named Layer leaves as it is.
pub open spec fn keeps_accepted(before: StoreState, after: StoreState) -> bool {
    &&& after.world == before.world
    &&& after.versions == before.versions
    &&& after.contributions.len() == before.contributions.len()
}

proof fn lemma_reparent_keeps(
    state: StoreState,
    children: Seq<Layer<Text>>,
    target: NewTarget<Text>,
    now: Text,
)
    ensures
        keeps_accepted(state, all_reparented(state, children, target, now).0),
    decreases children.len(),
{
    if children.len() > 0 {
        lemma_reparent_keeps(state, children.drop_last(), target, now);
    }
}

proof fn lemma_cascade_keeps(
    state: StoreState,
    children: Seq<Layer<Text>>,
    terms: DiscardTerms<Text>,
    moves: Seq<ViewMove<Text>>,
    depth: nat,
)
    ensures
        keeps_accepted(state, cascade(state, children, terms, moves, depth).state),
    decreases depth, children.len(),
{
    if children.len() > 0 {
        lemma_cascade_keeps(state, children.drop_last(), terms, moves, depth);
        let before = cascade(state, children.drop_last(), terms, moves, depth);
        if before.failure is None && depth > 0 {
            lemma_cascade_keeps(
                before.state,
                children_of(before.state, children.last().id, terms.purge),
                terms,
                before.moves,
                (depth - 1) as nat,
            );
        }
    }
}

/// A discard, whatever becomes of it, keeps the World, its history and every
/// Contribution.
pub proof fn law_discard_keeps_world(
    state: StoreState,
    layer: Layer<Text>,
    cascades: bool,
    reparent: Option<Text>,
    terms: DiscardTerms<Text>,
)
    ensures
        keeps_accepted(state, discard_outcome(state, layer, cascades, reparent, terms).state),
{
    let children = children_of(state, layer.id, false);
    let moved = children_moved(state, layer, children, reparent, terms.now);
    match reparent {
        Some(target) => match new_target_outcome(state, layer, target) {
            Ok(found) => {
                lemma_reparent_keeps(state, children, found, terms.now);
            },
            Err(_) => {},
        },
        None => {},
    }
    assert(keeps_accepted(state, moved.0));
    lemma_cascade_keeps(
        moved.0,
        children_of(moved.0, layer.id, terms.purge),
        terms,
        Seq::empty(),
        moved.0.layers.len(),
    );
}

/// A Layer with active children is never discarded without a word on what
/// becomes of them.
pub proof fn law_children_are_never_orphaned(
    state: StoreState,
    layer: Layer<Text>,
    terms: DiscardTerms<Text>,
)
    requires
        children_of(state, layer.id, false).len() > 0,
    ensures
        discard_outcome(state, layer, false, None, terms).failure is Some,
        discard_outcome(state, layer, false, None, terms).failure->Some_0.exit_code == 10,
        discard_outcome(state, layer, false, None, terms).state == state,
{
}

/// What is discarded without a purge can be recovered: recovering the Layer
/// makes it active again with the head that it had.
pub proof fn law_recovery_undoes_discard(
    state: StoreState,
    layer_id: Text,
    purge_after: Text,
    now: Text,
    later: Text,
)
    requires
        tables::first(state.layers, records::layer_is(layer_id)) is Some,
    ensures
        ({
            let i = tables::first(state.layers, records::layer_is(layer_id))->Some_0;
            let discarded = layers::discarded_layer(state, layer_id, purge_after, now);
            let after = layers::recovered_layer(discarded, layer_id, later);
            &&& after.layers == state.layers.update(
                i,
                Layer { status: LayerStatus::Active, ..state.layers[i] },
            )
            &&& after.checkpoints == state.checkpoints
            &&& after.versions == state.versions
            &&& after.world == state.world
        }),
{
    let i = tables::first(state.layers, records::layer_is(layer_id))->Some_0;
    let discarded = layers::discarded_layer(state, layer_id, purge_after, now);
    tables::lemma_first(state.layers, records::layer_is(layer_id));
    assert forall|j: int| 0 <= j < i implies !records::layer_is(layer_id)(
        #[trigger] discarded.layers[j],
    ) by {
        assert(discarded.layers[j] == state.layers[j]);
    }
    tables::lemma_first_at(discarded.layers, records::layer_is(layer_id), i);
    let after = layers::recovered_layer(discarded, layer_id, later);
    assert(after.layers =~= state.layers.update(
        i,
        Layer { status: LayerStatus::Active, ..state.layers[i] },
    ));
}

/// A discarded Layer is kept for its days: its retention is over at a time
/// exactly where that is not before the end of the days.
pub proof fn law_discarded_layer_is_retained(
    state: StoreState,
    layer_id: Text,
    days: u64,
    purge_after: Text,
    now: Text,
    cutoff: Text,
)
    requires
        config::days_from(now, days as int, "retention.discarded_days"@) == Ok::<Text, Failure>(
            purge_after,
        ),
        layers::record_discard_outcome(state, layer_id, purge_after, now) is Ok,
    ensures
        ({
            let after = layers::record_discard_outcome(state, layer_id, purge_after, now)->Ok_0;
            let kept = tables::find(after.discards, records::discard_is(layer_id));
            &&& kept is Some
            &&& kept->Some_0.purge_after == crate::clock::later(now, days * 86400)->Some_0
            &&& layers::retention_over(cutoff)(kept->Some_0) == !text::text_less(
                cutoff,
                purge_after,
            )
        }),
{
    let after = layers::record_discard_outcome(state, layer_id, purge_after, now)->Ok_0;
    let wanted = records::discard_is(layer_id);
    tables::lemma_first(state.discards, wanted);
    match tables::first(state.discards, wanted) {
        Some(i) => {
            assert forall|j: int| 0 <= j < i implies !wanted(#[trigger] after.discards[j]) by {
                assert(after.discards[j] == state.discards[j]);
            }
            tables::lemma_first_at(after.discards, wanted, i);
        },
        None => {
            let n = state.discards.len() as int;
            assert forall|j: int| 0 <= j < n implies !wanted(#[trigger] after.discards[j]) by {
                assert(after.discards[j] == state.discards[j]);
            }
            tables::lemma_first_at(after.discards, wanted, n);
        },
    }
}

/// Every target is the identity of a Layer.
pub open spec fn targets_exist(state: StoreState) -> bool {
    forall|i: int|
        0 <= i < state.layers.len() && (#[trigger] state.layers[i]).target_id is Some
            ==> tables::any(state.layers, records::layer_is(state.layers[i].target_id->Some_0))
}

/// Going from Layer to target, in no more than a number of steps, ends at the
/// World.
pub open spec fn reaches_world(state: StoreState, current: Text, steps: nat) -> bool
    decreases steps,
{
    match state.layer(current) {
        None => false,
        Some(layer) => if layer.target_kind == TargetKind::Layer && layer.target_id is Some {
            steps > 0 && reaches_world(state, layer.target_id->Some_0, (steps - 1) as nat)
        } else {
            true
        },
    }
}

proof fn lemma_same_walk(
    state: StoreState,
    after: StoreState,
    place: int,
    moved: Layer<Text>,
    current: Text,
    seen: Seq<Text>,
)
    requires
        targets_exist(state),
        0 <= place < state.layers.len(),
        moved.id == state.layers[place].id,
        moved.name == state.layers[place].name,
        after.layers == state.layers.update(place, moved),
        tables::any(state.layers, records::layer_is(current)),
        seen.len() <= 2 * state.layers.len() + 3,
        cycle_outcome(state, moved.id, current, seen) == Ok::<bool, Failure>(false),
    ensures
        reaches_world(after, current, (2 * state.layers.len() + 3 - seen.len()) as nat),
    decreases 2 * state.layers.len() + 3 - seen.len(),
{
    tables::lemma_first(state.layers, records::layer_is(current));
    let i = tables::first(state.layers, records::layer_is(current))->Some_0;
    assert(state.layers[i].id == current && current != moved.id);
    assert forall|j: int| 0 <= j < i implies !records::layer_is(current)(
        #[trigger] after.layers[j],
    ) by {
        assert(!records::layer_is(current)(state.layers[j]));
    }
    tables::lemma_first_at(after.layers, records::layer_is(current), i);
    assert(after.layer(current) == state.layer(current));
    let layer = state.layers[i];
    if layer.target_kind == TargetKind::Layer && layer.target_id is Some {
        lemma_same_walk(
            state,
            after,
            place,
            moved,
            layer.target_id->Some_0,
            seen.push(current),
        );
    }
}

/// Whatever target a Layer gets, every target is the identity of a Layer still.
pub proof fn law_reparenting_keeps_targets(
    state: StoreState,
    layer_id: Text,
    target_kind: Text,
    target_id: Option<Text>,
    now: Text,
)
    requires
        targets_exist(state),
        layers::reparent_outcome(state, layer_id, target_kind, target_id, now) is Ok,
    ensures
        targets_exist(
            layers::reparent_outcome(state, layer_id, target_kind, target_id, now)->Ok_0,
        ),
{
    let after = layers::reparent_outcome(state, layer_id, target_kind, target_id, now)->Ok_0;
    tables::lemma_first(state.layers, records::layer_is(layer_id));
    assert forall|i: int|
        0 <= i < after.layers.len() && (#[trigger] after.layers[i]).target_id
            is Some implies tables::any(
        after.layers,
        records::layer_is(after.layers[i].target_id->Some_0),
    ) by {
        let target = after.layers[i].target_id->Some_0;
        assert(tables::any(state.layers, records::layer_is(target))) by {
            if after.layers[i].target_id != target_id {
                assert(after.layers[i] == state.layers[i]);
            }
        }
        tables::lemma_first(state.layers, records::layer_is(target));
        let k = tables::first(state.layers, records::layer_is(target))->Some_0;
        assert(after.layers[k].id == state.layers[k].id);
        tables::lemma_any(after.layers, records::layer_is(target), k);
    }
}

/// A Layer that gets another target after the check for cycles still reaches
/// the World from target to target.
pub proof fn law_reparenting_closes_no_cycle(
    state: StoreState,
    child: Text,
    target: Text,
    now: Text,
)
    requires
        targets_exist(state),
        cycle_outcome(state, child, target, Seq::empty()) == Ok::<bool, Failure>(false),
        layers::reparent_outcome(state, child, "layer"@, Some(target), now) is Ok,
    ensures
        reaches_world(
            layers::reparent_outcome(state, child, "layer"@, Some(target), now)->Ok_0,
            child,
            2 * state.layers.len() + 4,
        ),
{
    let after = layers::reparent_outcome(state, child, "layer"@, Some(target), now)->Ok_0;
    tables::lemma_first(state.layers, records::layer_is(child));
    let place = tables::first(state.layers, records::layer_is(child))->Some_0;
    let moved = after.layers[place];
    lemma_same_walk(state, after, place, moved, target, Seq::empty());
    assert forall|j: int| 0 <= j < place implies !records::layer_is(child)(
        #[trigger] after.layers[j],
    ) by {
        assert(!records::layer_is(child)(state.layers[j]));
    }
    tables::lemma_first_at(after.layers, records::layer_is(child), place);
    assert(after.layer(child) == Some(moved));
    if moved.target_kind == TargetKind::Layer {
        assert(reaches_world(after, target, 2 * state.layers.len() + 3));
    }
}

/// No two Layers have one identity.
pub open spec fn unique_layers(state: StoreState) -> bool {
    forall|i: int, j: int|
        0 <= i < state.layers.len() && 0 <= j < state.layers.len() && (#[trigger]
        state.layers[i]).id == (#[trigger] state.layers[j]).id ==> i == j
}

/// The Layers are the same but for their status, and what was discarded still
/// is.
pub open spec fn only_discards(before: StoreState, after: StoreState) -> bool {
    &&& after.layers.len() == before.layers.len()
    &&& forall|i: int|
        0 <= i < before.layers.len() ==> (#[trigger] after.layers[i]) == (Layer {
            status: after.layers[i].status,
            ..before.layers[i]
        })
    &&& forall|i: int|
        0 <= i < before.layers.len() && before.layers[i].status == LayerStatus::Discarded ==> (
        #[trigger] after.layers[i]).status == LayerStatus::Discarded
}

/// A Layer that targets another.
pub open spec fn targets(layer: Layer<Text>, id: Text) -> bool {
    layer.target_kind == TargetKind::Layer && layer.target_id == Some(id)
}

/// Every Layer that targets one which was discarded meanwhile is discarded too.
pub open spec fn leaves_no_child(before: StoreState, after: StoreState) -> bool {
    forall|i: int, j: int|
        0 <= i < after.layers.len() && 0 <= j < after.layers.len() && before.layers[j].status
            != LayerStatus::Discarded && (#[trigger] after.layers[j]).status
            == LayerStatus::Discarded && targets(#[trigger] after.layers[i], after.layers[j].id)
            ==> after.layers[i].status == LayerStatus::Discarded
}

/// All rows of a Layer are discarded.
pub open spec fn gone(state: StoreState, id: Text) -> bool {
    forall|i: int|
        0 <= i < state.layers.len() && (#[trigger] state.layers[i]).id == id
            ==> state.layers[i].status == LayerStatus::Discarded
}

/// The open children of a Layer are the Layers that target it and are not
/// discarded.
proof fn lemma_open_children(state: StoreState, parent: Text)
    ensures
        forall|k: int|
            0 <= k < children_of(state, parent, false).len() ==> state.layers.contains(
                #[trigger] children_of(state, parent, false)[k],
            ) && targets(children_of(state, parent, false)[k], parent),
        forall|i: int|
            0 <= i < state.layers.len() && targets(#[trigger] state.layers[i], parent)
                && state.layers[i].status != LayerStatus::Discarded ==> children_of(
                state,
                parent,
                false,
            ).contains(state.layers[i]),
{
    let wanted = store::child_of(parent, false);
    let kept = tables::kept(state.layers, wanted);
    tables::lemma_kept(state.layers, wanted);
    tables::lemma_in_order_rows::<Layer>(kept);
    let all = children_of(state, parent, false);
    assert forall|k: int| 0 <= k < all.len() implies state.layers.contains(#[trigger] all[k])
        && targets(all[k], parent) by {
        assert(all.contains(all[k]));
        assert(kept.contains(all[k]));
    }
    assert forall|i: int|
        0 <= i < state.layers.len() && targets(#[trigger] state.layers[i], parent)
            && state.layers[i].status != LayerStatus::Discarded implies all.contains(
        state.layers[i],
    ) by {
        assert(state.layers.contains(state.layers[i]));
        assert(kept.contains(state.layers[i]));
    }
}

/// One Layer more is discarded after all its children were.
proof fn lemma_discard_after_children(
    start: StoreState,
    before: StoreState,
    below: StoreState,
    layer: Layer<Text>,
    purge_after: Text,
    now: Text,
)
    requires
        unique_layers(start),
        only_discards(start, before),
        leaves_no_child(start, before),
        only_discards(before, below),
        leaves_no_child(before, below),
        forall|c: int|
            0 <= c < children_of(before, layer.id, false).len() ==> gone(
                below,
                (#[trigger] children_of(before, layer.id, false)[c]).id,
            ),
        layers::record_discard_outcome(below, layer.id, purge_after, now) is Ok,
    ensures
        ({
            let after = layers::record_discard_outcome(below, layer.id, purge_after, now)->Ok_0;
            &&& unique_layers(after)
            &&& only_discards(start, after)
            &&& leaves_no_child(start, after)
            &&& gone(after, layer.id)
            &&& forall|i: int|
                0 <= i < after.layers.len() && targets(#[trigger] after.layers[i], layer.id)
                    ==> after.layers[i].status == LayerStatus::Discarded
        }),
{
    let after = layers::record_discard_outcome(below, layer.id, purge_after, now)->Ok_0;
    tables::lemma_first(below.layers, records::layer_is(layer.id));
    let k = tables::first(below.layers, records::layer_is(layer.id))->Some_0;
    assert forall|j: int| 0 <= j < k implies (#[trigger] below.layers[j]).id != layer.id by {
        assert(!records::layer_is(layer.id)(below.layers[j]));
    }
    layers::law_discard_marks_one_layer(below, layer.id, purge_after, now, k);
    assert forall|i: int| 0 <= i < start.layers.len() implies (#[trigger] after.layers[i]) == (
    Layer { status: after.layers[i].status, ..start.layers[i] }) && before.layers[i] == (Layer {
        status: before.layers[i].status,
        ..start.layers[i]
    }) && below.layers[i] == (Layer { status: below.layers[i].status, ..start.layers[i] }) by {
        assert(before.layers[i] == (Layer { status: before.layers[i].status, ..start.layers[i] }));
        assert(below.layers[i] == (Layer { status: below.layers[i].status, ..before.layers[i] }));
    }
    assert forall|i: int, j: int|
        0 <= i < after.layers.len() && 0 <= j < after.layers.len() && (#[trigger]
        after.layers[i]).id == (#[trigger] after.layers[j]).id implies i == j by {
        assert(start.layers[i].id == start.layers[j].id);
    }
    assert forall|i: int|
        0 <= i < start.layers.len() && start.layers[i].status == LayerStatus::Discarded implies (
    #[trigger] after.layers[i]).status == LayerStatus::Discarded by {
        assert(before.layers[i].status == LayerStatus::Discarded);
        assert(below.layers[i].status == LayerStatus::Discarded);
    }
    lemma_open_children(before, layer.id);
    let children = children_of(before, layer.id, false);
    assert forall|i: int|
        0 <= i < after.layers.len() && targets(
            #[trigger] after.layers[i],
            layer.id,
        ) implies after.layers[i].status == LayerStatus::Discarded by {
        assert(before.layers[i] == (Layer { status: before.layers[i].status, ..start.layers[i] }));
        assert(targets(before.layers[i], layer.id));
        if before.layers[i].status == LayerStatus::Discarded {
            assert(below.layers[i].status == LayerStatus::Discarded);
        } else {
            assert(children.contains(before.layers[i]));
            let c = choose|c: int| 0 <= c < children.len() && children[c] == before.layers[i];
            assert(gone(below, children[c].id));
            assert(below.layers[i].id == before.layers[i].id);
            assert(below.layers[i].status == LayerStatus::Discarded);
        }
    }
    assert forall|i: int|
        0 <= i < after.layers.len() && (#[trigger] after.layers[i]).id
            == layer.id implies after.layers[i].status == LayerStatus::Discarded by {
        assert(after.layers[k].id == layer.id);
    }
    assert forall|i: int, j: int|
        0 <= i < after.layers.len() && 0 <= j < after.layers.len() && start.layers[j].status
            != LayerStatus::Discarded && (#[trigger] after.layers[j]).status
            == LayerStatus::Discarded && targets(
            #[trigger] after.layers[i],
            after.layers[j].id,
        ) implies after.layers[i].status == LayerStatus::Discarded by {
        assert(targets(before.layers[i], before.layers[j].id));
        assert(targets(below.layers[i], below.layers[j].id));
        if before.layers[j].status == LayerStatus::Discarded {
            assert(before.layers[i].status == LayerStatus::Discarded);
            assert(below.layers[i].status == LayerStatus::Discarded);
        } else if below.layers[j].status == LayerStatus::Discarded {
            assert(below.layers[i].status == LayerStatus::Discarded);
        } else {
            assert(j == k);
        }
    }
}

proof fn lemma_cascade_discards(
    state: StoreState,
    children: Seq<Layer<Text>>,
    terms: DiscardTerms<Text>,
    moves: Seq<ViewMove<Text>>,
    depth: nat,
)
    requires
        !terms.purge,
        unique_layers(state),
        cascade(state, children, terms, moves, depth).failure is None,
        forall|c: int| 0 <= c < children.len() ==> state.layers.contains(#[trigger] children[c]),
    ensures
        ({
            let after = cascade(state, children, terms, moves, depth).state;
            &&& unique_layers(after)
            &&& only_discards(state, after)
            &&& leaves_no_child(state, after)
            &&& forall|c: int| 0 <= c < children.len() ==> gone(after, (#[trigger] children[c]).id)
        }),
    decreases depth, children.len(),
{
    if children.len() > 0 {
        let shorter = children.drop_last();
        let child = children.last();
        assert(children[children.len() - 1] == child);
        assert forall|c: int| 0 <= c < shorter.len() implies state.layers.contains(
            #[trigger] shorter[c],
        ) by {
            assert(shorter[c] == children[c]);
        }
        lemma_cascade_discards(state, shorter, terms, moves, depth);
        let before = cascade(state, shorter, terms, moves, depth);
        lemma_open_children(before.state, child.id);
        let inner = children_of(before.state, child.id, false);
        lemma_cascade_discards(before.state, inner, terms, before.moves, (depth - 1) as nat);
        let below = cascade(before.state, inner, terms, before.moves, (depth - 1) as nat);
        let after = cascade(state, children, terms, moves, depth).state;
        if child.status != LayerStatus::Discarded {
            lemma_discard_after_children(
                state,
                before.state,
                below.state,
                child,
                terms.purge_after,
                terms.now,
            );
            assert forall|c: int| 0 <= c < children.len() implies gone(
                after,
                (#[trigger] children[c]).id,
            ) by {
                if c < shorter.len() {
                    assert(shorter[c] == children[c]);
                    assert(gone(before.state, shorter[c].id));
                    lemma_gone_stays(before.state, below.state, shorter[c].id);
                    lemma_gone_after_mark(
                        below.state,
                        child.id,
                        terms.purge_after,
                        terms.now,
                        shorter[c].id,
                    );
                }
            }
        } else {
            lemma_only_discards_chain(state, before.state, below.state);
            assert forall|c: int| 0 <= c < children.len() implies gone(
                after,
                (#[trigger] children[c]).id,
            ) by {
                if c < shorter.len() {
                    assert(shorter[c] == children[c]);
                    lemma_gone_stays(before.state, below.state, shorter[c].id);
                } else {
                    let m = choose|m: int| 0 <= m < state.layers.len() && state.layers[m] == child;
                    assert forall|i: int|
                        0 <= i < after.layers.len() && (#[trigger] after.layers[i]).id
                            == child.id implies after.layers[i].status == LayerStatus::Discarded by {
                        assert(before.state.layers[i].id == state.layers[i].id);
                        assert(state.layers[i].id == state.layers[m].id);
                    }
                }
            }
        }
    }
}

proof fn lemma_gone_stays(before: StoreState, after: StoreState, id: Text)
    requires
        only_discards(before, after),
        gone(before, id),
    ensures
        gone(after, id),
{
    assert forall|i: int|
        0 <= i < after.layers.len() && (#[trigger] after.layers[i]).id
            == id implies after.layers[i].status == LayerStatus::Discarded by {
        assert(before.layers[i].id == id);
    }
}

proof fn lemma_gone_after_mark(
    before: StoreState,
    layer_id: Text,
    purge_after: Text,
    now: Text,
    id: Text,
)
    requires
        layers::record_discard_outcome(before, layer_id, purge_after, now) is Ok,
        gone(before, id),
    ensures
        gone(layers::record_discard_outcome(before, layer_id, purge_after, now)->Ok_0, id),
{
    let after = layers::record_discard_outcome(before, layer_id, purge_after, now)->Ok_0;
    tables::lemma_first(before.layers, records::layer_is(layer_id));
    assert forall|i: int|
        0 <= i < after.layers.len() && (#[trigger] after.layers[i]).id
            == id implies after.layers[i].status == LayerStatus::Discarded by {
        assert(before.layers[i].id == id);
    }
}

proof fn lemma_only_discards_chain(a: StoreState, b: StoreState, c: StoreState)
    requires
        unique_layers(a),
        only_discards(a, b),
        leaves_no_child(a, b),
        only_discards(b, c),
        leaves_no_child(b, c),
    ensures
        unique_layers(c),
        only_discards(a, c),
        leaves_no_child(a, c),
{
    assert forall|i: int| 0 <= i < a.layers.len() implies (#[trigger] c.layers[i]) == (Layer {
        status: c.layers[i].status,
        ..a.layers[i]
    }) && b.layers[i] == (Layer { status: b.layers[i].status, ..a.layers[i] }) by {
        assert(b.layers[i] == (Layer { status: b.layers[i].status, ..a.layers[i] }));
    }
    assert forall|i: int|
        0 <= i < a.layers.len() && a.layers[i].status == LayerStatus::Discarded implies (
    #[trigger] c.layers[i]).status == LayerStatus::Discarded by {
        assert(b.layers[i].status == LayerStatus::Discarded);
    }
    assert forall|i: int, j: int|
        0 <= i < c.layers.len() && 0 <= j < c.layers.len() && (#[trigger] c.layers[i]).id == (
        #[trigger] c.layers[j]).id implies i == j by {
        assert(a.layers[i].id == a.layers[j].id);
    }
    assert forall|i: int, j: int|
        0 <= i < c.layers.len() && 0 <= j < c.layers.len() && a.layers[j].status
            != LayerStatus::Discarded && (#[trigger] c.layers[j]).status == LayerStatus::Discarded
            && targets(#[trigger] c.layers[i], c.layers[j].id) implies c.layers[i].status
        == LayerStatus::Discarded by {
        assert(targets(b.layers[i], b.layers[j].id));
        if b.layers[j].status == LayerStatus::Discarded {
            assert(b.layers[i].status == LayerStatus::Discarded);
        }
    }
}

/// A discard that cascades leaves no open Layer behind that targets a discarded
/// one: the Layer itself is discarded, and with it every Layer below it, however
/// deep. Nothing else of any Layer changes.
pub proof fn law_cascade_leaves_no_child(
    state: StoreState,
    layer: Layer<Text>,
    terms: DiscardTerms<Text>,
    i: int,
)
    requires
        unique_layers(state),
        !terms.purge,
        discard_outcome(state, layer, true, None, terms).failure is None,
        0 <= i < state.layers.len(),
    ensures
        ({
            let after = discard_outcome(state, layer, true, None, terms).state;
            &&& only_discards(state, after)
            &&& state.layers[i].id == layer.id ==> after.layers[i].status == LayerStatus::Discarded
            &&& after.layers[i].status != LayerStatus::Discarded && after.layers[i].target_kind
                == TargetKind::Layer ==> forall|j: int|
                0 <= j < after.layers.len() && Some((#[trigger] after.layers[j]).id)
                    == after.layers[i].target_id && state.layers[j].status
                    != LayerStatus::Discarded ==> after.layers[j].status != LayerStatus::Discarded
        }),
{
    let children = children_of(state, layer.id, false);
    lemma_open_children(state, layer.id);
    lemma_cascade_discards(state, children, terms, Seq::empty(), state.layers.len());
    let below = cascade(state, children, terms, Seq::empty(), state.layers.len());
    lemma_discard_after_children(
        state,
        state,
        below.state,
        layer,
        terms.purge_after,
        terms.now,
    );
    let after = discard_outcome(state, layer, true, None, terms).state;
    assert(after.layers[i].id == state.layers[i].id);
    if after.layers[i].status != LayerStatus::Discarded && after.layers[i].target_kind
        == TargetKind::Layer {
        assert forall|j: int|
            0 <= j < after.layers.len() && Some((#[trigger] after.layers[j]).id)
                == after.layers[i].target_id && state.layers[j].status
                != LayerStatus::Discarded implies after.layers[j].status
            != LayerStatus::Discarded by {
            assert(targets(after.layers[i], after.layers[j].id));
        }
    }
}

/// A discard without children changes the status of the Layer alone, and its
/// view is kept aside.
pub proof fn law_plain_discard_takes_one_layer(
    state: StoreState,
    layer: Layer<Text>,
    terms: DiscardTerms<Text>,
    i: int,
)
    requires
        !terms.purge,
        discard_outcome(state, layer, false, None, terms).failure is None,
        0 <= i < state.layers.len(),
        state.layers[i].id == layer.id,
        forall|j: int| 0 <= j < i ==> (#[trigger] state.layers[j]).id != layer.id,
    ensures
        ({
            let done = discard_outcome(state, layer, false, None, terms);
            &&& done.state.layers == state.layers.update(
                i,
                Layer { status: LayerStatus::Discarded, ..state.layers[i] },
            )
            &&& done.state.checkpoints == state.checkpoints
            &&& done.moves == seq![
                ViewMove::Retain { layer_id: layer.id, view_path: layer.view_path },
            ]
            &&& forall|k: int|
                0 <= k < state.layers.len() && targets(#[trigger] state.layers[k], layer.id)
                    ==> state.layers[k].status == LayerStatus::Discarded
        }),
{
    layers::law_discard_marks_one_layer(state, layer.id, terms.purge_after, terms.now, i);
    lemma_open_children(state, layer.id);
    let done = discard_outcome(state, layer, false, None, terms);
    assert(done.moves =~= seq![
        ViewMove::Retain { layer_id: layer.id, view_path: layer.view_path },
    ]);
    let children = children_of(state, layer.id, false);
    assert(children.len() == 0);
    assert forall|k: int|
        0 <= k < state.layers.len() && targets(
            #[trigger] state.layers[k],
            layer.id,
        ) implies state.layers[k].status == LayerStatus::Discarded by {
        if state.layers[k].status != LayerStatus::Discarded {
            assert(children.contains(state.layers[k]));
        }
    }
}

/// Layers that get another target get it, and nothing else of any Layer changes.
proof fn lemma_all_reparented(
    state: StoreState,
    children: Seq<Layer<Text>>,
    target: NewTarget<Text>,
    now: Text,
)
    requires
        unique_layers(state),
        all_reparented(state, children, target, now).1 is None,
    ensures
        ({
            let after = all_reparented(state, children, target, now).0;
            &&& after.layers.len() == state.layers.len()
            &&& forall|i: int|
                0 <= i < state.layers.len() ==> (#[trigger] after.layers[i]) == (Layer {
                    target_kind: after.layers[i].target_kind,
                    target_id: after.layers[i].target_id,
                    ..state.layers[i]
                })
            &&& forall|i: int|
                0 <= i < state.layers.len() ==> ((#[trigger] after.layers[i]).target_kind
                    == target.kind && after.layers[i].target_id == target.id) || after.layers[i]
                    == state.layers[i]
            &&& forall|i: int, c: int|
                0 <= i < state.layers.len() && 0 <= c < children.len() && (#[trigger]
                after.layers[i]).id == (#[trigger] children[c]).id ==> after.layers[i].target_kind
                    == target.kind && after.layers[i].target_id == target.id
        }),
    decreases children.len(),
{
    if children.len() > 0 {
        reveal_strlit("world");
        reveal_strlit("layer");
        assert("world"@[0] == 'w' && "layer"@[0] == 'l');
        let shorter = children.drop_last();
        lemma_all_reparented(state, shorter, target, now);
        let before = all_reparented(state, shorter, target, now).0;
        let after = all_reparented(state, children, target, now).0;
        let id = children.last().id;
        tables::lemma_first(before.layers, records::layer_is(id));
        let k = tables::first(before.layers, records::layer_is(id))->Some_0;
        assert(after.layers == before.layers.update(
            k,
            Layer { target_kind: target.kind, target_id: target.id, ..before.layers[k] },
        ));
        assert forall|i: int, c: int|
            0 <= i < state.layers.len() && 0 <= c < children.len() && (#[trigger]
            after.layers[i]).id == (#[trigger] children[c]).id implies after.layers[i].target_kind
            == target.kind && after.layers[i].target_id == target.id by {
            assert(before.layers[i].id == state.layers[i].id);
            assert(before.layers[k].id == state.layers[k].id);
            if i != k {
                if c < shorter.len() {
                    assert(shorter[c] == children[c]);
                    assert(before.layers[i].id == shorter[c].id);
                } else {
                    assert(state.layers[i].id == state.layers[k].id);
                }
            }
        }
    }
}

/// A discard that gives the children another target leaves none of them with
/// the discarded one: no open Layer targets it afterwards.
pub proof fn law_reparented_children_leave_the_layer(
    state: StoreState,
    layer: Layer<Text>,
    target: Text,
    terms: DiscardTerms<Text>,
    i: int,
)
    requires
        unique_layers(state),
        !terms.purge,
        discard_outcome(state, layer, false, Some(target), terms).failure is None,
        0 <= i < state.layers.len(),
    ensures
        ({
            let after = discard_outcome(state, layer, false, Some(target), terms).state;
            &&& after.layers.len() == state.layers.len()
            &&& state.layers[i].id == layer.id ==> after.layers[i].status == LayerStatus::Discarded
            &&& state.layers[i].id != layer.id ==> after.layers[i].status == state.layers[i].status
            &&& after.layers[i].status != LayerStatus::Discarded ==> !targets(
                after.layers[i],
                layer.id,
            )
            &&& !targets(state.layers[i], layer.id) ==> after.layers[i].target_id
                == state.layers[i].target_id && after.layers[i].target_kind
                == state.layers[i].target_kind
        }),
{
    let children = children_of(state, layer.id, false);
    let found = new_target_outcome(state, layer, target)->Ok_0;
    lemma_open_children(state, layer.id);
    lemma_all_reparented(state, children, found, terms.now);
    let moved = all_reparented(state, children, found, terms.now).0;
    let after = discard_outcome(state, layer, false, Some(target), terms).state;
    tables::lemma_first(moved.layers, records::layer_is(layer.id));
    let k = tables::first(moved.layers, records::layer_is(layer.id))->Some_0;
    assert forall|j: int| 0 <= j < k implies (#[trigger] moved.layers[j]).id != layer.id by {
        assert(!records::layer_is(layer.id)(moved.layers[j]));
    }
    layers::law_discard_marks_one_layer(moved, layer.id, terms.purge_after, terms.now, k);
    assert(moved.layers[i].id == state.layers[i].id);
    assert(moved.layers[k].id == state.layers[k].id);
    if state.layers[i].id == layer.id {
        assert(state.layers[i].id == state.layers[k].id);
        assert(i == k);
    }
    assert(!(found.kind == TargetKind::Layer && found.id == Some(layer.id)));
    if targets(state.layers[i], layer.id) && state.layers[i].status != LayerStatus::Discarded {
        assert(children.contains(state.layers[i]));
        let c = choose|c: int| 0 <= c < children.len() && children[c] == state.layers[i];
        assert(moved.layers[i].id == children[c].id);
    }
    if !targets(state.layers[i], layer.id) {
        lemma_others_keep_their_target(state, children, found, terms.now, i, layer.id);
    }
}

proof fn lemma_others_keep_their_target(
    state: StoreState,
    children: Seq<Layer<Text>>,
    target: NewTarget<Text>,
    now: Text,
    i: int,
    parent: Text,
)
    requires
        unique_layers(state),
        all_reparented(state, children, target, now).1 is None,
        0 <= i < state.layers.len(),
        !targets(state.layers[i], parent),
        forall|c: int|
            0 <= c < children.len() ==> state.layers.contains(#[trigger] children[c]) && targets(
                children[c],
                parent,
            ),
    ensures
        all_reparented(state, children, target, now).0.layers[i] == state.layers[i],
    decreases children.len(),
{
    if children.len() > 0 {
        let shorter = children.drop_last();
        assert forall|c: int| 0 <= c < shorter.len() implies state.layers.contains(
            #[trigger] shorter[c],
        ) && targets(shorter[c], parent) by {
            assert(shorter[c] == children[c]);
        }
        lemma_others_keep_their_target(state, shorter, target, now, i, parent);
        lemma_all_reparented(state, shorter, target, now);
        let before = all_reparented(state, shorter, target, now).0;
        let child = children[children.len() - 1];
        tables::lemma_first(before.layers, records::layer_is(child.id));
        let k = tables::first(before.layers, records::layer_is(child.id))->Some_0;
        let m = choose|m: int| 0 <= m < state.layers.len() && state.layers[m] == child;
        assert(before.layers[k].id == state.layers[k].id);
        assert(state.layers[k].id == state.layers[m].id);
        assert(k == m);
        assert(targets(state.layers[m], parent));
    }
}

/// Discarding the changes of the Local Layer brings it back to the World's
/// current version, and its view to that version's tree.
pub proof fn law_local_discard_returns_to_the_world(
    state: StoreState,
    files: FilesState,
    layer: Layer<Text>,
    id: Text,
    now: Text,
)
    requires
        discard_local_outcome(state, files, layer, id, now) is Ok,
    ensures
        ({
            let (after, checkpoint, order) = discard_local_outcome(
                state,
                files,
                layer,
                id,
                now,
            )->Ok_0;
            let world = state.version(state.world->Some_0.current_version)->Some_0;
            &&& checkpoint.root_tree == world.root_tree
            &&& checkpoint.synchronized_ref == state.world->Some_0.current_version
            &&& order.root_tree == world.root_tree
            &&& order.destination == state.root
            &&& files::tree_outcome(files, world.root_tree)->Ok_0 == order.tree
            &&& after.world == state.world
            &&& after.versions == state.versions
        }),
{
    tables::lemma_first(
        state.versions,
        records::version_is(state.world->Some_0.current_version),
    );
}

/// Only a discarded Layer is recovered; where its view was not kept, the view
/// gets what the Layer's head holds.
pub proof fn law_recovery_brings_the_head_back(
    state: StoreState,
    files: FilesState,
    name: Text,
    view_kept: bool,
)
    requires
        recovery_outcome(state, files, name, view_kept) is Ok,
    ensures
        ({
            let (layer, order) = recovery_outcome(state, files, name, view_kept)->Ok_0;
            &&& state.layer(name) == Some(layer)
            &&& layer.status == LayerStatus::Discarded
            &&& order is None <==> view_kept
            &&& order is Some ==> {
                &&& order->Some_0.destination == layer.view_path
                &&& order->Some_0.root_tree == state.checkpoint(
                    layer.head_checkpoint,
                )->Some_0.root_tree
                &&& files::tree_outcome(files, order->Some_0.root_tree)->Ok_0 == order->Some_0.tree
                &&& order->Some_0.marker is Some
            }
        }),
{
}

/// A discard is owed to a Layer that is known and has no open children; and the
/// target of children can be the World, or any known Layer but the discarded one.
pub proof fn law_discard_is_owed(
    state: StoreState,
    layer: Layer<Text>,
    terms: DiscardTerms<Text>,
    target: Text,
)
    ensures
        !terms.purge && (exists|i: int|
            0 <= i < state.layers.len() && (#[trigger] state.layers[i]).id == layer.id) && (forall|
            i: int,
        |
            0 <= i < state.layers.len() && targets(#[trigger] state.layers[i], layer.id)
                ==> state.layers[i].status == LayerStatus::Discarded) ==> discard_outcome(
            state,
            layer,
            false,
            None,
            terms,
        ).failure is None,
        new_target_outcome(state, layer, "world"@) == Ok::<NewTarget<Text>, Failure>(
            NewTarget { kind: TargetKind::World, id: None },
        ),
        target != "world"@ && text::has_prefix(target, "layer:"@) && state.layer(target.skip(6))
            is Some && state.layer(target.skip(6))->Some_0.id != layer.id ==> new_target_outcome(
            state,
            layer,
            target,
        ) == Ok::<NewTarget<Text>, Failure>(
            NewTarget {
                kind: TargetKind::Layer,
                id: Some(state.layer(target.skip(6))->Some_0.id),
            },
        ),
        target != "world"@ && text::has_prefix(target, "layer:"@) && state.layer(target.skip(6))
            is Some && state.layer(target.skip(6))->Some_0.id == layer.id ==> new_target_outcome(
            state,
            layer,
            target,
        ) is Err && new_target_outcome(state, layer, target)->Err_0.exit_code == 10,
        target != "world"@ && !text::has_prefix(target, "layer:"@) ==> new_target_outcome(
            state,
            layer,
            target,
        ) is Err && new_target_outcome(state, layer, target)->Err_0.exit_code == 2,
{
    lemma_open_children(state, layer.id);
    let children = children_of(state, layer.id, false);
    tables::lemma_first(state.layers, records::layer_is(layer.id));
    if children.len() > 0 && (forall|i: int|
        0 <= i < state.layers.len() && targets(#[trigger] state.layers[i], layer.id)
            ==> state.layers[i].status == LayerStatus::Discarded) {
        let wanted = store::child_of(layer.id, false);
        tables::lemma_kept(state.layers, wanted);
        tables::lemma_in_order_rows::<Layer>(tables::kept(state.layers, wanted));
        assert(children.contains(children[0]));
        let i = choose|i: int| 0 <= i < state.layers.len() && state.layers[i] == children[0];
        assert(targets(state.layers[i], layer.id));
    }
}

/// A discarded Layer can be purged after the days given to it: that many days of
/// 86400 seconds after it is discarded. Days that lead out of the calendar
/// discard nothing.
pub proof fn law_discard_lasts_its_days(
    state: StoreState,
    layer: Layer<Text>,
    cascades: bool,
    reparent: Option<Text>,
    purge: bool,
    days: u64,
    now: Text,
)
    requires
        days <= 100000000000,
    ensures
        ({
            let outcome = discard_for_outcome(
                state,
                layer,
                cascades,
                reparent,
                purge,
                days,
                now,
            );
            let end = clock::later(now, days * 86400);
            &&& end is Some ==> outcome == discard_outcome(
                state,
                layer,
                cascades,
                reparent,
                DiscardTerms { purge, purge_after: end->Some_0, now },
            )
            &&& end is None ==> outcome.failure is Some && outcome.state == state
                && outcome.moves.len() == 0
        }),
{
}

/// The discarded Layers are those whose status says so.
pub proof fn law_discarded_layers_are_listed(store: Store, told: Vec<Layer>, layer: Layer<Text>)
    requires
        call_ensures(discarded_layers, (&store,), told),
    ensures
        told.deep_view().contains(layer) <==> store@.layers.contains(layer) && layer.status
            == LayerStatus::Discarded,
{
    let all = tables::kept(store@.layers, store::listed(true));
    tables::lemma_kept(store@.layers, store::listed(true));
    tables::lemma_in_order_rows::<Layer>(all);
    tables::lemma_kept(tables::in_order::<Layer>(all), is_discarded());
}

/// A Layer cannot become the target of itself, nor of the Layer that it targets:
/// either would close a cycle.
pub proof fn law_short_cycles_are_seen(state: StoreState, child: Text, target: Text)
    ensures
        cycle_outcome(state, child, child, Seq::empty()) == Ok::<bool, Failure>(true),
        state.layer(target) is Some && state.layer(target)->Some_0.target_kind == TargetKind::Layer
            && state.layer(target)->Some_0.target_id == Some(child) ==> cycle_outcome(
            state,
            child,
            target,
            Seq::empty(),
        ) == Ok::<bool, Failure>(true),
        child != target && state.layer(target) is Some && state.layer(target)->Some_0.target_kind
            == TargetKind::World ==> cycle_outcome(state, child, target, Seq::empty()) == Ok::<
            bool,
            Failure,
        >(false),
{
    reveal_with_fuel(cycle_outcome, 2);
}

} // verus!
