//! The records of a World: trees and their entries, Private Layers,
//! Checkpoints, World Versions and changes.
//!
//! A record is generic over the text it holds. Code uses it over `String`;
//! contracts speak of the same record over mathematical text.
use vstd::prelude::*;
use crate::ordered;
use crate::ordered::PathMap;
use crate::text;
use crate::text::Text;

verus! {

#[derive(Debug, Clone, Copy, PartialEq, Eq, Structural)]
pub enum EntryKind {
    File,
    Directory,
    Symlink,
}

#[verifier::ext_equal]
#[derive(Debug, PartialEq, Eq)]
pub struct TreeEntry<S = String> {
    pub path: S,
    pub kind: EntryKind,
    pub object_id: Option<S>,
    pub executable: bool,
}

impl View for TreeEntry {
    type V = TreeEntry<Text>;

    open spec fn view(&self) -> TreeEntry<Text> {
        TreeEntry {
            path: self.path@,
            kind: self.kind,
            object_id: self.object_id.deep_view(),
            executable: self.executable,
        }
    }
}

impl DeepView for TreeEntry {
    type V = TreeEntry<Text>;

    open spec fn deep_view(&self) -> TreeEntry<Text> {
        self@
    }
}

impl Clone for TreeEntry {
    fn clone(&self) -> (r: Self)
        ensures
            r@ == self@,
    {
        TreeEntry {
            path: self.path.clone(),
            kind: self.kind,
            object_id: text::copy_option(&self.object_id),
            executable: self.executable,
        }
    }
}

impl TreeEntry {
    /// All fields are the same.
    pub fn same(&self, other: &TreeEntry) -> (r: bool)
        ensures
            r == (self@ == other@),
    {
        self.path == other.path && self.kind == other.kind && text::same_option(
            &self.object_id,
            &other.object_id,
        ) && self.executable == other.executable
    }
}

/// Two path states are the same: both absent, or the same entry.
pub fn same_state(a: Option<&TreeEntry>, b: Option<&TreeEntry>) -> (r: bool)
    ensures
        r == (a.deep_view() == b.deep_view()),
{
    match (a, b) {
        (Some(x), Some(y)) => x.same(y),
        (None, None) => true,
        _ => false,
    }
}

pub fn copy_state(a: Option<&TreeEntry>) -> (r: Option<TreeEntry>)
    ensures
        r.deep_view() == a.deep_view(),
{
    match a {
        Some(entry) => Some(entry.clone()),
        None => None,
    }
}

#[derive(Debug, Default, PartialEq, Eq)]
pub struct Tree {
    pub entries: Vec<TreeEntry>,
}

impl View for Tree {
    type V = Seq<TreeEntry<Text>>;

    open spec fn view(&self) -> Seq<TreeEntry<Text>> {
        self.entries.deep_view()
    }
}

/// The state of each path that the entries name; of two entries with one path
/// the later counts.
pub open spec fn states(entries: Seq<TreeEntry<Text>>) -> Map<Text, TreeEntry<Text>>
    decreases entries.len(),
{
    if entries.len() == 0 {
        Map::empty()
    } else {
        states(entries.drop_last()).insert(entries.last().path, entries.last())
    }
}

/// The state of a path: an entry, or absent.
pub open spec fn state_at(map: Map<Text, TreeEntry<Text>>, path: Text) -> Option<TreeEntry<Text>> {
    if map.contains_key(path) {
        Some(map[path])
    } else {
        None
    }
}

/// The entries come in strictly ascending order of their paths.
pub open spec fn sorted(entries: Seq<TreeEntry<Text>>) -> bool {
    forall|i: int, j: int|
        0 <= i < j < entries.len() ==> text::text_less(
            #[trigger] entries[i].path,
            #[trigger] entries[j].path,
        )
}

/// The values of the pairs, in order.
pub open spec fn values_of(pairs: Seq<(Text, TreeEntry<Text>)>) -> Seq<TreeEntry<Text>> {
    Seq::new(pairs.len(), |i: int| pairs[i].1)
}

/// What the entries say of a path, in one look.
pub proof fn lemma_states(entries: Seq<TreeEntry<Text>>)
    ensures
        forall|path: Text| #[trigger]
            states(entries).contains_key(path) <==> exists|i: int|
                0 <= i < entries.len() && (#[trigger] entries[i]).path == path,
        forall|path: Text|
            states(entries).contains_key(path) ==> (#[trigger] states(entries)[path]).path == path
                && entries.contains(states(entries)[path]),
        forall|i: int| 0 <= i < entries.len() ==> states(entries).contains_key((#[trigger] entries[i]).path),
    decreases entries.len(),
{
    if entries.len() > 0 {
        let shorter = entries.drop_last();
        lemma_states(shorter);
        assert forall|path: Text| #[trigger] states(entries).contains_key(path) <==> exists|i: int|
            0 <= i < entries.len() && (#[trigger] entries[i]).path == path by {
            if states(shorter).contains_key(path) {
                let i = choose|i: int| 0 <= i < shorter.len() && (#[trigger] shorter[i]).path == path;
                assert(entries[i].path == path);
            }
            if path == entries.last().path {
                assert(entries[entries.len() - 1].path == path);
            }
            if exists|i: int| 0 <= i < entries.len() && (#[trigger] entries[i]).path == path {
                let i = choose|i: int| 0 <= i < entries.len() && (#[trigger] entries[i]).path == path;
                if i < entries.len() - 1 {
                    assert(shorter[i].path == path);
                }
            }
        }
        assert forall|path: Text| states(entries).contains_key(path) implies (
        #[trigger] states(entries)[path]).path == path && entries.contains(
            states(entries)[path],
        ) by {
            if path == entries.last().path {
                assert(entries[entries.len() - 1] == states(entries)[path]);
            } else {
                assert(states(shorter).contains_key(path));
                let e = states(shorter)[path];
                assert(shorter.contains(e));
                let i = choose|i: int| 0 <= i < shorter.len() && shorter[i] == e;
                assert(entries[i] == e);
            }
        }
    }
}

/// Sorted entries give each of their paths the entry that names it.
pub proof fn lemma_states_sorted(entries: Seq<TreeEntry<Text>>)
    requires
        sorted(entries),
    ensures
        forall|i: int|
            0 <= i < entries.len() ==> states(entries)[(#[trigger] entries[i]).path] == entries[i],
{
    lemma_states(entries);
    assert forall|i: int| 0 <= i < entries.len() implies states(entries)[(
    #[trigger] entries[i]).path] == entries[i] by {
        let e = states(entries)[entries[i].path];
        assert(states(entries).contains_key(entries[i].path));
        assert(entries.contains(e));
        let j = choose|j: int| 0 <= j < entries.len() && entries[j] == e;
        text::lemma_text_less_irreflexive(e.path);
        if j < i {
            assert(text::text_less(entries[j].path, entries[i].path));
        } else if i < j {
            assert(text::text_less(entries[i].path, entries[j].path));
        }
    }
}

/// Sorted entries are the only sorted entries with their path states.
pub proof fn lemma_sorted_unique(a: Seq<TreeEntry<Text>>, b: Seq<TreeEntry<Text>>)
    requires
        sorted(a),
        sorted(b),
        states(a) == states(b),
    ensures
        a == b,
{
    let pa = paired(a);
    let pb = paired(b);
    lemma_paired(a);
    lemma_paired(b);
    ordered::lemma_ascending_unique(pa, pb);
    assert(a =~= values_of(pa));
    assert(b =~= values_of(pb));
}

/// The entries, each beside its path.
pub open spec fn paired(entries: Seq<TreeEntry<Text>>) -> Seq<(Text, TreeEntry<Text>)> {
    Seq::new(entries.len(), |i: int| (entries[i].path, entries[i]))
}

pub proof fn lemma_paired(entries: Seq<TreeEntry<Text>>)
    requires
        sorted(entries),
    ensures
        ordered::ascending(paired(entries)),
        ordered::map_of(paired(entries)) == states(entries),
{
    let pairs = paired(entries);
    lemma_states(entries);
    lemma_states_sorted(entries);
    ordered::lemma_position_all(pairs);
    assert(ordered::map_of(pairs) =~= states(entries)) by {
        assert forall|k: Text| #[trigger] ordered::map_of(pairs).contains_key(k) <==> states(
            entries,
        ).contains_key(k) by {
            if ordered::has_key(pairs, k) {
                let i = ordered::position(pairs, k);
                assert(entries[i].path == k);
            }
            if states(entries).contains_key(k) {
                let i = choose|i: int| 0 <= i < entries.len() && (#[trigger] entries[i]).path == k;
                assert(pairs[i].0 == k);
            }
        }
        assert forall|k: Text| #[trigger] ordered::map_of(pairs).contains_key(k) implies ordered::map_of(
            pairs,
        )[k] == states(entries)[k] by {
            let i = ordered::position(pairs, k);
            ordered::lemma_position(pairs, i);
            assert(entries[i].path == k);
        }
    }
}

/// The entries with the path states of `entries`, each path once, in order.
pub open spec fn normal_form(entries: Seq<TreeEntry<Text>>) -> Seq<TreeEntry<Text>> {
    choose|form: Seq<TreeEntry<Text>>| sorted(form) && #[trigger] states(form) == states(entries)
}

/// Ascending pairs that spell the path states of entries hold the normal form.
pub proof fn lemma_normal_form(
    pairs: Seq<(Text, TreeEntry<Text>)>,
    entries: Seq<TreeEntry<Text>>,
)
    requires
        ordered::ascending(pairs),
        ordered::map_of(pairs) == states(entries),
    ensures
        sorted(values_of(pairs)),
        states(values_of(pairs)) == states(entries),
        normal_form(entries) == values_of(pairs),
{
    let form = values_of(pairs);
    ordered::lemma_position_all(pairs);
    lemma_states(entries);
    assert forall|i: int| 0 <= i < pairs.len() implies (#[trigger] pairs[i]).1.path
        == pairs[i].0 by {
        assert(states(entries).contains_key(pairs[i].0));
        assert(states(entries)[pairs[i].0].path == pairs[i].0);
    }
    assert(sorted(form)) by {
        assert forall|i: int, j: int| 0 <= i < j < form.len() implies text::text_less(
            #[trigger] form[i].path,
            #[trigger] form[j].path,
        ) by {
            assert(text::text_less(pairs[i].0, pairs[j].0));
        }
    }
    lemma_paired(form);
    assert(paired(form) =~= pairs);
    lemma_sorted_unique(normal_form(entries), form);
}

/// Sorted entries are their own normal form.
pub proof fn lemma_normal_form_sorted(entries: Seq<TreeEntry<Text>>)
    requires
        sorted(entries),
    ensures
        normal_form(entries) == entries,
{
    assert(sorted(entries) && states(entries) == states(entries));
    lemma_sorted_unique(normal_form(entries), entries);
}

/// Entries name finitely many paths.
pub proof fn lemma_states_finite(entries: Seq<TreeEntry<Text>>)
    ensures
        states(entries).dom().finite(),
    decreases entries.len(),
{
    if entries.len() > 0 {
        lemma_states_finite(entries.drop_last());
        let before = states(entries.drop_last());
        assert(states(entries).dom() =~= before.dom().insert(entries.last().path));
    } else {
        assert(states(entries).dom() =~= Set::empty());
    }
}

/// All entries have a normal form, which is sorted and gives each path the same
/// state.
pub proof fn lemma_normal_form_exists(entries: Seq<TreeEntry<Text>>)
    ensures
        sorted(normal_form(entries)),
        states(normal_form(entries)) == states(entries),
{
    lemma_states_finite(entries);
    ordered::lemma_pairs(states(entries));
    lemma_normal_form(ordered::pairs_of(states(entries)), entries);
}

impl Tree {
    /// The state of each path of the tree.
    pub fn map(&self) -> (r: PathMap<TreeEntry>)
        ensures
            r.wf(),
            r@ == states(self@),
            values_of(r.pairs()) == normal_form(self@),
    {
        let mut out: PathMap<TreeEntry> = PathMap::new();
        let mut i: usize = 0;
        let ghost all = self@;
        assert(all.take(0) =~= Seq::empty());
        while i < self.entries.len()
            invariant
                i <= self.entries@.len(),
                all == self@,
                out.wf(),
                out@ == states(all.take(i as int)),
            decreases self.entries@.len() - i,
        {
            proof {
                assert(all.take(i as int + 1).drop_last() =~= all.take(i as int));
                assert(all.take(i as int + 1).last() == self.entries@[i as int]@);
            }
            let entry = self.entries[i].clone();
            out.insert(self.entries[i].path.clone(), entry);
            i = i + 1;
        }
        assert(all.take(i as int) =~= all);
        proof {
            lemma_normal_form(out.pairs(), all);
        }
        out
    }

    /// The entries of a map, in the order of its keys.
    pub fn from_map(map: PathMap<TreeEntry>) -> (r: Self)
        ensures
            r@ == values_of(map.pairs()),
    {
        let mut entries: Vec<TreeEntry> = Vec::new();
        let mut i: usize = 0;
        while i < map.len()
            invariant
                i <= map.pairs().len(),
                entries@.len() == i,
                forall|j: int| 0 <= j < i ==> (#[trigger] entries@[j])@ == map.pairs()[j].1,
            decreases map.pairs().len() - i,
        {
            entries.push(map.value_at(i).clone());
            i = i + 1;
        }
        assert(entries.deep_view() =~= values_of(map.pairs()));
        Tree { entries }
    }

    /// The tree without entries.
    pub fn empty() -> (r: Self)
        ensures
            r@ == Seq::<TreeEntry<Text>>::empty(),
    {
        let entries: Vec<TreeEntry> = Vec::new();
        assert(entries.deep_view() =~= Seq::empty());
        Tree { entries }
    }
}

impl Clone for Tree {
    fn clone(&self) -> (r: Self)
        ensures
            r@ == self@,
    {
        let mut entries: Vec<TreeEntry> = Vec::new();
        let mut i: usize = 0;
        while i < self.entries.len()
            invariant
                i <= self.entries@.len(),
                entries@.len() == i,
                forall|j: int| 0 <= j < i ==> (#[trigger] entries@[j])@ == self.entries@[j]@,
            decreases self.entries@.len() - i,
        {
            entries.push(self.entries[i].clone());
            i = i + 1;
        }
        assert(entries.deep_view() =~= self.entries.deep_view());
        Tree { entries }
    }
}

#[verifier::ext_equal]
#[derive(Debug, PartialEq, Eq)]
pub struct ViewMarker<S = String> {
    pub format: u8,
    pub project: S,
    pub layer_id: S,
}

impl View for ViewMarker {
    type V = ViewMarker<Text>;

    open spec fn view(&self) -> ViewMarker<Text> {
        ViewMarker { format: self.format, project: self.project@, layer_id: self.layer_id@ }
    }
}

#[verifier::ext_equal]
#[derive(Debug, PartialEq, Eq)]
pub struct Layer<S = String> {
    pub id: S,
    pub name: S,
    pub origin_ref: S,
    pub synchronized_ref: S,
    pub head_checkpoint: S,
    pub target_kind: TargetKind,
    pub target_id: Option<S>,
    pub status: LayerStatus,
    pub view_path: S,
    pub created_at: S,
}

impl View for Layer {
    type V = Layer<Text>;

    open spec fn view(&self) -> Layer<Text> {
        Layer {
            id: self.id@,
            name: self.name@,
            origin_ref: self.origin_ref@,
            synchronized_ref: self.synchronized_ref@,
            head_checkpoint: self.head_checkpoint@,
            target_kind: self.target_kind,
            target_id: self.target_id.deep_view(),
            status: self.status,
            view_path: self.view_path@,
            created_at: self.created_at@,
        }
    }
}

impl DeepView for Layer {
    type V = Layer<Text>;

    open spec fn deep_view(&self) -> Layer<Text> {
        self@
    }
}

impl Clone for Layer {
    fn clone(&self) -> (r: Self)
        ensures
            r@ == self@,
    {
        Layer {
            id: self.id.clone(),
            name: self.name.clone(),
            origin_ref: self.origin_ref.clone(),
            synchronized_ref: self.synchronized_ref.clone(),
            head_checkpoint: self.head_checkpoint.clone(),
            target_kind: self.target_kind,
            target_id: text::copy_option(&self.target_id),
            status: self.status,
            view_path: self.view_path.clone(),
            created_at: self.created_at.clone(),
        }
    }
}

#[derive(Debug, Clone, Copy, PartialEq, Eq, Structural)]
pub enum TargetKind {
    World,
    Layer,
}

impl TargetKind {
    pub open spec fn name(self) -> Text {
        match self {
            TargetKind::World => "world"@,
            TargetKind::Layer => "layer"@,
        }
    }

    pub fn as_str(self) -> (r: &'static str)
        ensures
            r@ == self.name(),
    {
        match self {
            TargetKind::World => "world",
            TargetKind::Layer => "layer",
        }
    }

    /// The target kind with a name.
    pub fn from_str(value: &str) -> (r: Result<TargetKind, String>)
        ensures
            match r {
                Ok(kind) => kind.name() == value@,
                Err(message) => message@ == "invalid Layer target kind "@ + text::quoted(value@)
                    && forall|kind: TargetKind| kind.name() != value@,
            },
    {
        if text::same(value, "world") {
            Ok(TargetKind::World)
        } else if text::same(value, "layer") {
            Ok(TargetKind::Layer)
        } else {
            Err(text::concat2("invalid Layer target kind ", text::quote(value).as_str()))
        }
    }
}

#[derive(Debug, Clone, Copy, PartialEq, Eq, Structural)]
pub enum LayerStatus {
    Active,
    Conflicted,
    Publishing,
    Discarded,
}

impl LayerStatus {
    pub open spec fn name(self) -> Text {
        match self {
            LayerStatus::Active => "active"@,
            LayerStatus::Conflicted => "conflicted"@,
            LayerStatus::Publishing => "publishing"@,
            LayerStatus::Discarded => "discarded"@,
        }
    }

    pub fn as_str(self) -> (r: &'static str)
        ensures
            r@ == self.name(),
    {
        match self {
            LayerStatus::Active => "active",
            LayerStatus::Conflicted => "conflicted",
            LayerStatus::Publishing => "publishing",
            LayerStatus::Discarded => "discarded",
        }
    }

    /// The status with a name.
    pub fn from_str(value: &str) -> (r: Result<LayerStatus, String>)
        ensures
            match r {
                Ok(status) => status.name() == value@,
                Err(message) => message@ == "invalid Layer status "@ + text::quoted(value@)
                    && forall|status: LayerStatus| status.name() != value@,
            },
    {
        if text::same(value, "active") {
            Ok(LayerStatus::Active)
        } else if text::same(value, "conflicted") {
            Ok(LayerStatus::Conflicted)
        } else if text::same(value, "publishing") {
            Ok(LayerStatus::Publishing)
        } else if text::same(value, "discarded") {
            Ok(LayerStatus::Discarded)
        } else {
            Err(text::concat2("invalid Layer status ", text::quote(value).as_str()))
        }
    }
}

#[verifier::ext_equal]
#[derive(Debug, PartialEq, Eq)]
pub struct Checkpoint<S = String> {
    pub id: S,
    pub layer_id: S,
    pub sequence: i64,
    pub previous_checkpoint: Option<S>,
    pub root_tree: S,
    pub synchronized_ref: S,
    pub reason: S,
    pub created_at: S,
}

impl View for Checkpoint {
    type V = Checkpoint<Text>;

    open spec fn view(&self) -> Checkpoint<Text> {
        Checkpoint {
            id: self.id@,
            layer_id: self.layer_id@,
            sequence: self.sequence,
            previous_checkpoint: self.previous_checkpoint.deep_view(),
            root_tree: self.root_tree@,
            synchronized_ref: self.synchronized_ref@,
            reason: self.reason@,
            created_at: self.created_at@,
        }
    }
}

impl DeepView for Checkpoint {
    type V = Checkpoint<Text>;

    open spec fn deep_view(&self) -> Checkpoint<Text> {
        self@
    }
}

impl Clone for Checkpoint {
    fn clone(&self) -> (r: Self)
        ensures
            r@ == self@,
    {
        Checkpoint {
            id: self.id.clone(),
            layer_id: self.layer_id.clone(),
            sequence: self.sequence,
            previous_checkpoint: text::copy_option(&self.previous_checkpoint),
            root_tree: self.root_tree.clone(),
            synchronized_ref: self.synchronized_ref.clone(),
            reason: self.reason.clone(),
            created_at: self.created_at.clone(),
        }
    }
}

#[verifier::ext_equal]
#[derive(Debug, PartialEq, Eq)]
pub struct WorldVersion<S = String> {
    pub id: S,
    pub sequence: i64,
    pub parent_version: Option<S>,
    pub root_tree: S,
    pub accepted_contribution: Option<S>,
    pub created_at: S,
}

impl View for WorldVersion {
    type V = WorldVersion<Text>;

    open spec fn view(&self) -> WorldVersion<Text> {
        WorldVersion {
            id: self.id@,
            sequence: self.sequence,
            parent_version: self.parent_version.deep_view(),
            root_tree: self.root_tree@,
            accepted_contribution: self.accepted_contribution.deep_view(),
            created_at: self.created_at@,
        }
    }
}

impl DeepView for WorldVersion {
    type V = WorldVersion<Text>;

    open spec fn deep_view(&self) -> WorldVersion<Text> {
        self@
    }
}

impl Clone for WorldVersion {
    fn clone(&self) -> (r: Self)
        ensures
            r@ == self@,
    {
        WorldVersion {
            id: self.id.clone(),
            sequence: self.sequence,
            parent_version: text::copy_option(&self.parent_version),
            root_tree: self.root_tree.clone(),
            accepted_contribution: text::copy_option(&self.accepted_contribution),
            created_at: self.created_at.clone(),
        }
    }
}

#[derive(Debug, Clone, Copy, PartialEq, Eq, Structural)]
pub enum ChangeKind {
    Add,
    Modify,
    Delete,
    Type,
    Mode,
}

#[verifier::ext_equal]
#[derive(Debug, PartialEq, Eq)]
pub struct Change<S = String> {
    pub path: S,
    pub change: ChangeKind,
    pub old: Option<TreeEntry<S>>,
    pub new: Option<TreeEntry<S>>,
}

impl View for Change {
    type V = Change<Text>;

    open spec fn view(&self) -> Change<Text> {
        Change {
            path: self.path@,
            change: self.change,
            old: self.old.deep_view(),
            new: self.new.deep_view(),
        }
    }
}

impl DeepView for Change {
    type V = Change<Text>;

    open spec fn deep_view(&self) -> Change<Text> {
        self@
    }
}

/// A map from paths to entries of those paths is what its entries say.
pub proof fn lemma_states_of_values(map: Map<Text, TreeEntry<Text>>)
    requires
        map.dom().finite(),
        forall|path: Text| #[trigger] map.contains_key(path) ==> map[path].path == path,
    ensures
        states(values_of(ordered::pairs_of(map))) == map,
        sorted(values_of(ordered::pairs_of(map))),
{
    ordered::lemma_pairs(map);
    let pairs = ordered::pairs_of(map);
    let form = values_of(pairs);
    ordered::lemma_position_all(pairs);
    assert forall|i: int| 0 <= i < pairs.len() implies (#[trigger] pairs[i]).1.path
        == pairs[i].0 by {
        assert(map.contains_key(pairs[i].0));
    }
    assert forall|i: int, j: int| 0 <= i < j < form.len() implies text::text_less(
        #[trigger] form[i].path,
        #[trigger] form[j].path,
    ) by {
        assert(text::text_less(pairs[i].0, pairs[j].0));
    }
    lemma_paired(form);
    assert(paired(form) =~= pairs);
}

} // verus!
