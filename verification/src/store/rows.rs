//! Removing rows, and changing many at once.
use vstd::prelude::*;
use crate::model::{Checkpoint, Layer, LayerStatus};
use crate::records::{
    Claim,
    ConflictRecord,
    Contribution,
    DiscardRecord,
    ObjectRecord,
    ProvenanceEvent,
    ProvenanceLink,
    QueueEntry,
    Session,
    ViewRecord,
};
use crate::tables;
use crate::text;
use crate::text::Text;

verus! {

pub open spec fn not_layer(id: Text) -> spec_fn(Layer<Text>) -> bool {
    |row: Layer<Text>| row.id != id
}

pub fn drop_layer(rows: &mut Vec<Layer>, id: &str)
    ensures
        final(rows).deep_view() == tables::kept(old(rows).deep_view(), not_layer(id@)),
{
    let ghost all = rows.deep_view();
    let mut out: Vec<Layer> = Vec::new();
    let mut i: usize = 0;
    assert(all.take(0) =~= Seq::empty());
    assert(out.deep_view() =~= Seq::empty());
    while i < rows.len()
        invariant
            i <= rows@.len(),
            all == rows.deep_view(),
            out.deep_view() == tables::kept(all.take(i as int), not_layer(id@)),
        decreases rows@.len() - i,
    {
        let ghost before = out.deep_view();
        proof {
            assert(all.take(i as int + 1).drop_last() =~= all.take(i as int));
            assert(all.take(i as int + 1).last() == rows@[i as int]@);
        }
        if !text::same(rows[i].id.as_str(), id) {
            out.push(rows[i].clone());
            assert(out.deep_view() =~= before.push(rows@[i as int]@));
        }
        i = i + 1;
    }
    assert(all.take(i as int) =~= all);
    *rows = out;
}

pub open spec fn not_layer_checkpoints(layer_id: Text) -> spec_fn(Checkpoint<Text>) -> bool {
    |row: Checkpoint<Text>| row.layer_id != layer_id
}

pub fn drop_layer_checkpoints(rows: &mut Vec<Checkpoint>, layer_id: &str)
    ensures
        final(rows).deep_view() == tables::kept(old(rows).deep_view(), not_layer_checkpoints(layer_id@)),
{
    let ghost all = rows.deep_view();
    let mut out: Vec<Checkpoint> = Vec::new();
    let mut i: usize = 0;
    assert(all.take(0) =~= Seq::empty());
    assert(out.deep_view() =~= Seq::empty());
    while i < rows.len()
        invariant
            i <= rows@.len(),
            all == rows.deep_view(),
            out.deep_view() == tables::kept(all.take(i as int), not_layer_checkpoints(layer_id@)),
        decreases rows@.len() - i,
    {
        let ghost before = out.deep_view();
        proof {
            assert(all.take(i as int + 1).drop_last() =~= all.take(i as int));
            assert(all.take(i as int + 1).last() == rows@[i as int]@);
        }
        if !text::same(rows[i].layer_id.as_str(), layer_id) {
            out.push(rows[i].clone());
            assert(out.deep_view() =~= before.push(rows@[i as int]@));
        }
        i = i + 1;
    }
    assert(all.take(i as int) =~= all);
    *rows = out;
}

pub open spec fn not_layer_conflicts(layer_id: Text) -> spec_fn(ConflictRecord<Text>) -> bool {
    |row: ConflictRecord<Text>| row.layer_id != layer_id
}

pub fn drop_layer_conflicts(rows: &mut Vec<ConflictRecord>, layer_id: &str)
    ensures
        final(rows).deep_view() == tables::kept(old(rows).deep_view(), not_layer_conflicts(layer_id@)),
{
    let ghost all = rows.deep_view();
    let mut out: Vec<ConflictRecord> = Vec::new();
    let mut i: usize = 0;
    assert(all.take(0) =~= Seq::empty());
    assert(out.deep_view() =~= Seq::empty());
    while i < rows.len()
        invariant
            i <= rows@.len(),
            all == rows.deep_view(),
            out.deep_view() == tables::kept(all.take(i as int), not_layer_conflicts(layer_id@)),
        decreases rows@.len() - i,
    {
        let ghost before = out.deep_view();
        proof {
            assert(all.take(i as int + 1).drop_last() =~= all.take(i as int));
            assert(all.take(i as int + 1).last() == rows@[i as int]@);
        }
        if !text::same(rows[i].layer_id.as_str(), layer_id) {
            out.push(rows[i].clone());
            assert(out.deep_view() =~= before.push(rows@[i as int]@));
        }
        i = i + 1;
    }
    assert(all.take(i as int) =~= all);
    *rows = out;
}

pub open spec fn not_layer_claims(layer_id: Text) -> spec_fn(Claim<Text>) -> bool {
    |row: Claim<Text>| row.layer_id != layer_id
}

pub fn drop_layer_claims(rows: &mut Vec<Claim>, layer_id: &str)
    ensures
        final(rows).deep_view() == tables::kept(old(rows).deep_view(), not_layer_claims(layer_id@)),
{
    let ghost all = rows.deep_view();
    let mut out: Vec<Claim> = Vec::new();
    let mut i: usize = 0;
    assert(all.take(0) =~= Seq::empty());
    assert(out.deep_view() =~= Seq::empty());
    while i < rows.len()
        invariant
            i <= rows@.len(),
            all == rows.deep_view(),
            out.deep_view() == tables::kept(all.take(i as int), not_layer_claims(layer_id@)),
        decreases rows@.len() - i,
    {
        let ghost before = out.deep_view();
        proof {
            assert(all.take(i as int + 1).drop_last() =~= all.take(i as int));
            assert(all.take(i as int + 1).last() == rows@[i as int]@);
        }
        if !text::same(rows[i].layer_id.as_str(), layer_id) {
            out.push(rows[i].clone());
            assert(out.deep_view() =~= before.push(rows@[i as int]@));
        }
        i = i + 1;
    }
    assert(all.take(i as int) =~= all);
    *rows = out;
}

pub open spec fn not_layer_view(layer_id: Text) -> spec_fn(ViewRecord<Text>) -> bool {
    |row: ViewRecord<Text>| row.layer_id != layer_id
}

pub fn drop_layer_view(rows: &mut Vec<ViewRecord>, layer_id: &str)
    ensures
        final(rows).deep_view() == tables::kept(old(rows).deep_view(), not_layer_view(layer_id@)),
{
    let ghost all = rows.deep_view();
    let mut out: Vec<ViewRecord> = Vec::new();
    let mut i: usize = 0;
    assert(all.take(0) =~= Seq::empty());
    assert(out.deep_view() =~= Seq::empty());
    while i < rows.len()
        invariant
            i <= rows@.len(),
            all == rows.deep_view(),
            out.deep_view() == tables::kept(all.take(i as int), not_layer_view(layer_id@)),
        decreases rows@.len() - i,
    {
        let ghost before = out.deep_view();
        proof {
            assert(all.take(i as int + 1).drop_last() =~= all.take(i as int));
            assert(all.take(i as int + 1).last() == rows@[i as int]@);
        }
        if !text::same(rows[i].layer_id.as_str(), layer_id) {
            out.push(rows[i].clone());
            assert(out.deep_view() =~= before.push(rows@[i as int]@));
        }
        i = i + 1;
    }
    assert(all.take(i as int) =~= all);
    *rows = out;
}

pub open spec fn not_layer_discard(layer_id: Text) -> spec_fn(DiscardRecord<Text>) -> bool {
    |row: DiscardRecord<Text>| row.layer_id != layer_id
}

pub fn drop_layer_discard(rows: &mut Vec<DiscardRecord>, layer_id: &str)
    ensures
        final(rows).deep_view() == tables::kept(old(rows).deep_view(), not_layer_discard(layer_id@)),
{
    let ghost all = rows.deep_view();
    let mut out: Vec<DiscardRecord> = Vec::new();
    let mut i: usize = 0;
    assert(all.take(0) =~= Seq::empty());
    assert(out.deep_view() =~= Seq::empty());
    while i < rows.len()
        invariant
            i <= rows@.len(),
            all == rows.deep_view(),
            out.deep_view() == tables::kept(all.take(i as int), not_layer_discard(layer_id@)),
        decreases rows@.len() - i,
    {
        let ghost before = out.deep_view();
        proof {
            assert(all.take(i as int + 1).drop_last() =~= all.take(i as int));
            assert(all.take(i as int + 1).last() == rows@[i as int]@);
        }
        if !text::same(rows[i].layer_id.as_str(), layer_id) {
            out.push(rows[i].clone());
            assert(out.deep_view() =~= before.push(rows@[i as int]@));
        }
        i = i + 1;
    }
    assert(all.take(i as int) =~= all);
    *rows = out;
}

pub open spec fn not_object(id: Text) -> spec_fn(ObjectRecord<Text>) -> bool {
    |row: ObjectRecord<Text>| row.id != id
}

pub fn drop_object(rows: &mut Vec<ObjectRecord>, id: &str)
    ensures
        final(rows).deep_view() == tables::kept(old(rows).deep_view(), not_object(id@)),
{
    let ghost all = rows.deep_view();
    let mut out: Vec<ObjectRecord> = Vec::new();
    let mut i: usize = 0;
    assert(all.take(0) =~= Seq::empty());
    assert(out.deep_view() =~= Seq::empty());
    while i < rows.len()
        invariant
            i <= rows@.len(),
            all == rows.deep_view(),
            out.deep_view() == tables::kept(all.take(i as int), not_object(id@)),
        decreases rows@.len() - i,
    {
        let ghost before = out.deep_view();
        proof {
            assert(all.take(i as int + 1).drop_last() =~= all.take(i as int));
            assert(all.take(i as int + 1).last() == rows@[i as int]@);
        }
        if !text::same(rows[i].id.as_str(), id) {
            out.push(rows[i].clone());
            assert(out.deep_view() =~= before.push(rows@[i as int]@));
        }
        i = i + 1;
    }
    assert(all.take(i as int) =~= all);
    *rows = out;
}

pub open spec fn not_queue_entry(request_id: Text) -> spec_fn(QueueEntry<Text>) -> bool {
    |row: QueueEntry<Text>| row.request_id != request_id
}

pub fn drop_queue_entry(rows: &mut Vec<QueueEntry>, request_id: &str)
    ensures
        final(rows).deep_view() == tables::kept(old(rows).deep_view(), not_queue_entry(request_id@)),
{
    let ghost all = rows.deep_view();
    let mut out: Vec<QueueEntry> = Vec::new();
    let mut i: usize = 0;
    assert(all.take(0) =~= Seq::empty());
    assert(out.deep_view() =~= Seq::empty());
    while i < rows.len()
        invariant
            i <= rows@.len(),
            all == rows.deep_view(),
            out.deep_view() == tables::kept(all.take(i as int), not_queue_entry(request_id@)),
        decreases rows@.len() - i,
    {
        let ghost before = out.deep_view();
        proof {
            assert(all.take(i as int + 1).drop_last() =~= all.take(i as int));
            assert(all.take(i as int + 1).last() == rows@[i as int]@);
        }
        if !text::same(rows[i].request_id.as_str(), request_id) {
            out.push(rows[i].clone());
            assert(out.deep_view() =~= before.push(rows@[i as int]@));
        }
        i = i + 1;
    }
    assert(all.take(i as int) =~= all);
    *rows = out;
}

/// Every view but that of one Layer made stale.
pub open spec fn stale_views_change(kept: Text, now: Text) -> spec_fn(ViewRecord<Text>) -> ViewRecord<Text> {
    |view: ViewRecord<Text>|
        if view.layer_id != kept { ViewRecord { stale: true, updated_at: now, ..view } } else { view }
}

pub fn stale_views(rows: &mut Vec<ViewRecord>, kept: &str, now: &str)
    ensures
        final(rows).deep_view() == tables::changed(old(rows).deep_view(), stale_views_change(kept@, now@)),
{
    let ghost all = rows.deep_view();
    let mut i: usize = 0;
    while i < rows.len()
        invariant
            i <= rows@.len(),
            rows@.len() == all.len(),
            forall|j: int| 0 <= j < i ==> (#[trigger] rows@[j])@ == stale_views_change(kept@, now@)(all[j]),
            forall|j: int| i <= j < all.len() ==> (#[trigger] rows@[j])@ == all[j],
        decreases rows@.len() - i,
    {
        let mut row = rows[i].clone();
        assert(row@ == all[i as int]);
        if !text::same(row.layer_id.as_str(), kept) {
            row.stale = true;
            row.updated_at = now.to_owned();
        }
        assert(row@ == stale_views_change(kept@, now@)(all[i as int]));
        rows.set(i, row);
        i = i + 1;
    }
    assert(rows.deep_view() =~= tables::changed(all, stale_views_change(kept@, now@)));
}

/// The view of a Layer made stale.
pub open spec fn stale_view_change(layer_id: Text, now: Text) -> spec_fn(ViewRecord<Text>) -> ViewRecord<Text> {
    |view: ViewRecord<Text>|
        if view.layer_id == layer_id { ViewRecord { stale: true, updated_at: now, ..view } } else { view }
}

pub fn stale_view(rows: &mut Vec<ViewRecord>, layer_id: &str, now: &str)
    ensures
        final(rows).deep_view() == tables::changed(old(rows).deep_view(), stale_view_change(layer_id@, now@)),
{
    let ghost all = rows.deep_view();
    let mut i: usize = 0;
    while i < rows.len()
        invariant
            i <= rows@.len(),
            rows@.len() == all.len(),
            forall|j: int| 0 <= j < i ==> (#[trigger] rows@[j])@ == stale_view_change(layer_id@, now@)(all[j]),
            forall|j: int| i <= j < all.len() ==> (#[trigger] rows@[j])@ == all[j],
        decreases rows@.len() - i,
    {
        let mut row = rows[i].clone();
        assert(row@ == all[i as int]);
        if text::same(row.layer_id.as_str(), layer_id) {
            row.stale = true;
            row.updated_at = now.to_owned();
        }
        assert(row@ == stale_view_change(layer_id@, now@)(all[i as int]));
        rows.set(i, row);
        i = i + 1;
    }
    assert(rows.deep_view() =~= tables::changed(all, stale_view_change(layer_id@, now@)));
}

/// The sessions of a Layer, no longer tied to it.
pub open spec fn detach_sessions_change(layer_id: Text) -> spec_fn(Session<Text>) -> Session<Text> {
    |session: Session<Text>|
        if session.layer_id == Some(layer_id) { Session { layer_id: None, ..session } } else { session }
}

pub fn detach_sessions(rows: &mut Vec<Session>, layer_id: &str)
    ensures
        final(rows).deep_view() == tables::changed(old(rows).deep_view(), detach_sessions_change(layer_id@)),
{
    let ghost all = rows.deep_view();
    let mut i: usize = 0;
    while i < rows.len()
        invariant
            i <= rows@.len(),
            rows@.len() == all.len(),
            forall|j: int| 0 <= j < i ==> (#[trigger] rows@[j])@ == detach_sessions_change(layer_id@)(all[j]),
            forall|j: int| i <= j < all.len() ==> (#[trigger] rows@[j])@ == all[j],
        decreases rows@.len() - i,
    {
        let mut row = rows[i].clone();
        assert(row@ == all[i as int]);
        if is_text(&row.layer_id, layer_id) {
            row.layer_id = None;
        }
        assert(row@ == detach_sessions_change(layer_id@)(all[i as int]));
        rows.set(i, row);
        i = i + 1;
    }
    assert(rows.deep_view() =~= tables::changed(all, detach_sessions_change(layer_id@)));
}

/// The provenance events of a Layer, no longer tied to it.
pub open spec fn detach_events_change(layer_id: Text) -> spec_fn(ProvenanceEvent<Text>) -> ProvenanceEvent<Text> {
    |event: ProvenanceEvent<Text>|
        if event.layer_id == Some(layer_id) { ProvenanceEvent { layer_id: None, ..event } } else { event }
}

pub fn detach_events(rows: &mut Vec<ProvenanceEvent>, layer_id: &str)
    ensures
        final(rows).deep_view() == tables::changed(old(rows).deep_view(), detach_events_change(layer_id@)),
{
    let ghost all = rows.deep_view();
    let mut i: usize = 0;
    while i < rows.len()
        invariant
            i <= rows@.len(),
            rows@.len() == all.len(),
            forall|j: int| 0 <= j < i ==> (#[trigger] rows@[j])@ == detach_events_change(layer_id@)(all[j]),
            forall|j: int| i <= j < all.len() ==> (#[trigger] rows@[j])@ == all[j],
        decreases rows@.len() - i,
    {
        let mut row = rows[i].clone();
        assert(row@ == all[i as int]);
        if is_text(&row.layer_id, layer_id) {
            row.layer_id = None;
        }
        assert(row@ == detach_events_change(layer_id@)(all[i as int]));
        rows.set(i, row);
        i = i + 1;
    }
    assert(rows.deep_view() =~= tables::changed(all, detach_events_change(layer_id@)));
}

/// The Claims whose time is over, released.
pub open spec fn expire_claims_change(cutoff: Text) -> spec_fn(Claim<Text>) -> Claim<Text> {
    |claim: Claim<Text>|
        if claim.released_at is None && !text::text_less(cutoff, claim.expires_at) { Claim { released_at: Some(cutoff), ..claim } } else { claim }
}

pub fn expire_claims(rows: &mut Vec<Claim>, cutoff: &str)
    ensures
        final(rows).deep_view() == tables::changed(old(rows).deep_view(), expire_claims_change(cutoff@)),
{
    let ghost all = rows.deep_view();
    let mut i: usize = 0;
    while i < rows.len()
        invariant
            i <= rows@.len(),
            rows@.len() == all.len(),
            forall|j: int| 0 <= j < i ==> (#[trigger] rows@[j])@ == expire_claims_change(cutoff@)(all[j]),
            forall|j: int| i <= j < all.len() ==> (#[trigger] rows@[j])@ == all[j],
        decreases rows@.len() - i,
    {
        let mut row = rows[i].clone();
        assert(row@ == all[i as int]);
        if row.released_at.is_none() && !text::less(cutoff, row.expires_at.as_str()) {
            row.released_at = Some(cutoff.to_owned());
        }
        assert(row@ == expire_claims_change(cutoff@)(all[i as int]));
        rows.set(i, row);
        i = i + 1;
    }
    assert(rows.deep_view() =~= tables::changed(all, expire_claims_change(cutoff@)));
}

/// The Layers in the middle of a Publish, active again.
pub open spec fn reactivate_publishing_change() -> spec_fn(Layer<Text>) -> Layer<Text> {
    |layer: Layer<Text>|
        if layer.status == LayerStatus::Publishing { Layer { status: LayerStatus::Active, ..layer } } else { layer }
}

pub fn reactivate_publishing(rows: &mut Vec<Layer>)
    ensures
        final(rows).deep_view() == tables::changed(old(rows).deep_view(), reactivate_publishing_change()),
{
    let ghost all = rows.deep_view();
    let mut i: usize = 0;
    while i < rows.len()
        invariant
            i <= rows@.len(),
            rows@.len() == all.len(),
            forall|j: int| 0 <= j < i ==> (#[trigger] rows@[j])@ == reactivate_publishing_change()(all[j]),
            forall|j: int| i <= j < all.len() ==> (#[trigger] rows@[j])@ == all[j],
        decreases rows@.len() - i,
    {
        let mut row = rows[i].clone();
        assert(row@ == all[i as int]);
        if row.status == LayerStatus::Publishing {
            row.status = LayerStatus::Active;
        }
        assert(row@ == reactivate_publishing_change()(all[i as int]));
        rows.set(i, row);
        i = i + 1;
    }
    assert(rows.deep_view() =~= tables::changed(all, reactivate_publishing_change()));
}

fn is_text(value: &Option<String>, wanted: &str) -> (r: bool)
    ensures
        r == (value.deep_view() == Some(wanted@)),
{
    match value {
        Some(content) => text::same(content.as_str(), wanted),
        None => false,
    }
}

/// A Checkpoint of a Layer, by its ID.
pub open spec fn checkpoint_of(layer_id: Text, id: Text) -> spec_fn(Checkpoint<Text>) -> bool {
    |row: Checkpoint<Text>| row.id == id && row.layer_id == layer_id
}

/// The Checkpoint is one of the Layer's.
pub fn is_checkpoint_of(rows: &Vec<Checkpoint>, layer_id: &str, id: &str) -> (r: bool)
    ensures
        r == tables::any(rows.deep_view(), checkpoint_of(layer_id@, id@)),
{
    let ghost all = rows.deep_view();
    let mut i: usize = 0;
    while i < rows.len()
        invariant
            i <= rows@.len(),
            all == rows.deep_view(),
            forall|j: int| 0 <= j < i ==> !checkpoint_of(layer_id@, id@)(#[trigger] all[j]),
        decreases rows@.len() - i,
    {
        assert(all[i as int] == rows@[i as int]@);
        if text::same(rows[i].id.as_str(), id) && text::same(rows[i].layer_id.as_str(), layer_id) {
            proof {
                tables::lemma_any(all, checkpoint_of(layer_id@, id@), i as int);
            }
            return true;
        }
        i = i + 1;
    }
    proof {
        tables::lemma_first_none(all, checkpoint_of(layer_id@, id@));
    }
    false
}

/// A Contribution without its Layer and the Layer's Checkpoints.
pub open spec fn detach_contribution(
    checkpoints: Seq<Checkpoint<Text>>,
    layer_id: Text,
) -> spec_fn(Contribution<Text>) -> Contribution<Text> {
    |row: Contribution<Text>|
        Contribution {
            source_layer: if row.source_layer == Some(layer_id) {
                None
            } else {
                row.source_layer
            },
            source_checkpoint: match row.source_checkpoint {
                Some(id) => if tables::any(checkpoints, checkpoint_of(layer_id, id)) {
                    None
                } else {
                    Some(id)
                },
                None => None,
            },
            ..row
        }
}

pub fn detach_contributions(
    rows: &mut Vec<Contribution>,
    checkpoints: &Vec<Checkpoint>,
    layer_id: &str,
)
    ensures
        final(rows).deep_view() == tables::changed(
            old(rows).deep_view(),
            detach_contribution(checkpoints.deep_view(), layer_id@),
        ),
{
    let ghost all = rows.deep_view();
    let ghost change = detach_contribution(checkpoints.deep_view(), layer_id@);
    let mut i: usize = 0;
    while i < rows.len()
        invariant
            i <= rows@.len(),
            rows@.len() == all.len(),
            change == detach_contribution(checkpoints.deep_view(), layer_id@),
            forall|j: int| 0 <= j < i ==> (#[trigger] rows@[j])@ == change(all[j]),
            forall|j: int| i <= j < all.len() ==> (#[trigger] rows@[j])@ == all[j],
        decreases rows@.len() - i,
    {
        let mut row = rows[i].clone();
        assert(row@ == all[i as int]);
        if is_text(&row.source_layer, layer_id) {
            row.source_layer = None;
        }
        let gone = match &row.source_checkpoint {
            Some(id) => is_checkpoint_of(checkpoints, layer_id, id.as_str()),
            None => false,
        };
        if gone {
            row.source_checkpoint = None;
        }
        assert(row@ == change(all[i as int]));
        rows.set(i, row);
        i = i + 1;
    }
    assert(rows.deep_view() =~= tables::changed(all, change));
}

/// A link whose Checkpoint is none of the Layer's.
pub open spec fn link_stays(
    checkpoints: Seq<Checkpoint<Text>>,
    layer_id: Text,
) -> spec_fn(ProvenanceLink<Text>) -> bool {
    |row: ProvenanceLink<Text>| !tables::any(checkpoints, checkpoint_of(layer_id, row.owner))
}

pub fn drop_checkpoint_links(
    rows: &mut Vec<ProvenanceLink>,
    checkpoints: &Vec<Checkpoint>,
    layer_id: &str,
)
    ensures
        final(rows).deep_view() == tables::kept(
            old(rows).deep_view(),
            link_stays(checkpoints.deep_view(), layer_id@),
        ),
{
    let ghost all = rows.deep_view();
    let ghost wanted = link_stays(checkpoints.deep_view(), layer_id@);
    let mut out: Vec<ProvenanceLink> = Vec::new();
    let mut i: usize = 0;
    assert(all.take(0) =~= Seq::empty());
    assert(out.deep_view() =~= Seq::empty());
    while i < rows.len()
        invariant
            i <= rows@.len(),
            all == rows.deep_view(),
            wanted == link_stays(checkpoints.deep_view(), layer_id@),
            out.deep_view() == tables::kept(all.take(i as int), wanted),
        decreases rows@.len() - i,
    {
        let ghost before = out.deep_view();
        proof {
            assert(all.take(i as int + 1).drop_last() =~= all.take(i as int));
            assert(all.take(i as int + 1).last() == rows@[i as int]@);
        }
        if !is_checkpoint_of(checkpoints, layer_id, rows[i].owner.as_str()) {
            out.push(rows[i].clone());
            assert(out.deep_view() =~= before.push(rows@[i as int]@));
        }
        i = i + 1;
    }
    assert(all.take(i as int) =~= all);
    *rows = out;
}

/// A session of a Layer; only an active one, if so asked.
pub open spec fn session_of(layer_id: Text, active: bool) -> spec_fn(Session<Text>) -> bool {
    |row: Session<Text>| row.layer_id == Some(layer_id) && (!active || row.status == "active"@)
}

/// A link from an owner to each of a Layer's sessions.
pub open spec fn session_links(
    sessions: Seq<Session<Text>>,
    owner: Text,
    layer_id: Text,
    active: bool,
) -> Seq<ProvenanceLink<Text>> {
    let found = tables::kept(sessions, session_of(layer_id, active));
    Seq::new(found.len(), |i: int| ProvenanceLink { owner, session_id: found[i].id })
}

pub fn link_sessions(
    links: &mut Vec<ProvenanceLink>,
    sessions: &Vec<Session>,
    owner: &str,
    layer_id: &str,
    active: bool,
)
    ensures
        final(links).deep_view() == old(links).deep_view() + session_links(
            sessions.deep_view(),
            owner@,
            layer_id@,
            active,
        ),
{
    let ghost all = sessions.deep_view();
    let ghost start = links.deep_view();
    let mut i: usize = 0;
    proof {
        assert(all.take(0) =~= Seq::empty());
        assert(start + session_links(all.take(0), owner@, layer_id@, active) =~= start);
    }
    while i < sessions.len()
        invariant
            i <= sessions@.len(),
            all == sessions.deep_view(),
            links.deep_view() == start + session_links(
                all.take(i as int),
                owner@,
                layer_id@,
                active,
            ),
        decreases sessions@.len() - i,
    {
        let ghost before = links.deep_view();
        let session = &sessions[i];
        proof {
            assert(all.take(i as int + 1).drop_last() =~= all.take(i as int));
            assert(all.take(i as int + 1).last() == session@);
        }
        if is_text(&session.layer_id, layer_id) && (!active || text::same(
            session.status.as_str(),
            "active",
        )) {
            let link = ProvenanceLink { owner: owner.to_owned(), session_id: session.id.clone() };
            let ghost row = link@;
            links.push(link);
            proof {
                assert(links.deep_view() =~= before.push(row));
                assert(session_links(all.take(i as int + 1), owner@, layer_id@, active)
                    =~= session_links(all.take(i as int), owner@, layer_id@, active).push(row));
                assert(links.deep_view() =~= start + session_links(
                    all.take(i as int + 1),
                    owner@,
                    layer_id@,
                    active,
                ));
            }
        }
        i = i + 1;
    }
    assert(all.take(i as int) =~= all);
}

} // verus!
