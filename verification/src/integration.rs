//! Three-way integration: what becomes of each path when a Private Layer is
//! brought up to its target.
use vstd::prelude::*;
use vstd::utf8::*;
use crate::bytes;
use crate::model;
use crate::model::{EntryKind, Tree, TreeEntry};
use crate::objects;
use crate::objects::ObjectKind;
use crate::ordered;
use crate::ordered::PathMap;
use crate::text;
use crate::text::Text;
use crate::view;

verus! {

/// The longest text, in bytes, that is integrated line by line or shown as a
/// patch.
pub const TEXT_DIFF_LIMIT: u64 = 1048576;

/// A path whose states cannot be integrated, with all three states.
#[verifier::ext_equal]
#[derive(Debug)]
pub struct ConflictInput<S = String> {
    pub path: S,
    pub conflict_type: S,
    pub base: Option<TreeEntry<S>>,
    pub target: Option<TreeEntry<S>>,
    pub private: Option<TreeEntry<S>>,
}

impl View for ConflictInput {
    type V = ConflictInput<Text>;

    open spec fn view(&self) -> ConflictInput<Text> {
        ConflictInput {
            path: self.path@,
            conflict_type: self.conflict_type@,
            base: self.base.deep_view(),
            target: self.target.deep_view(),
            private: self.private.deep_view(),
        }
    }
}

impl DeepView for ConflictInput {
    type V = ConflictInput<Text>;

    open spec fn deep_view(&self) -> ConflictInput<Text> {
        self@
    }
}

#[derive(Debug, Clone, Copy, PartialEq, Eq, Structural)]
pub enum ConflictKind {
    Case,
    CreateCreate,
    DeleteModify,
    ModifyDelete,
    Type,
    Mode,
    ModifyModify,
    PathState,
}

/// The kind of conflict that three path states make.
pub open spec fn conflict_kind(
    base: Option<TreeEntry<Text>>,
    target: Option<TreeEntry<Text>>,
    private: Option<TreeEntry<Text>>,
) -> ConflictKind {
    match (base, target, private) {
        (None, Some(_), Some(_)) => ConflictKind::CreateCreate,
        (Some(_), None, Some(_)) => ConflictKind::DeleteModify,
        (Some(_), Some(_), None) => ConflictKind::ModifyDelete,
        (Some(b), Some(t), Some(p)) => if b.kind != t.kind || b.kind != p.kind {
            ConflictKind::Type
        } else if t.executable != p.executable {
            ConflictKind::Mode
        } else {
            ConflictKind::ModifyModify
        },
        _ => ConflictKind::PathState,
    }
}

impl ConflictKind {
    pub open spec fn name(self) -> Text {
        match self {
            ConflictKind::Case => "case"@,
            ConflictKind::CreateCreate => "create_create"@,
            ConflictKind::DeleteModify => "delete_modify"@,
            ConflictKind::ModifyDelete => "modify_delete"@,
            ConflictKind::Type => "type"@,
            ConflictKind::Mode => "mode"@,
            ConflictKind::ModifyModify => "modify_modify"@,
            ConflictKind::PathState => "path_state"@,
        }
    }

    pub fn as_str(self) -> (r: &'static str)
        ensures
            r@ == self.name(),
    {
        match self {
            ConflictKind::Case => "case",
            ConflictKind::CreateCreate => "create_create",
            ConflictKind::DeleteModify => "delete_modify",
            ConflictKind::ModifyDelete => "modify_delete",
            ConflictKind::Type => "type",
            ConflictKind::Mode => "mode",
            ConflictKind::ModifyModify => "modify_modify",
            ConflictKind::PathState => "path_state",
        }
    }

    pub fn classify(
        base: Option<&TreeEntry>,
        target: Option<&TreeEntry>,
        private: Option<&TreeEntry>,
    ) -> (r: ConflictKind)
        ensures
            r == conflict_kind(base.deep_view(), target.deep_view(), private.deep_view()),
    {
        match (base, target, private) {
            (None, Some(_), Some(_)) => ConflictKind::CreateCreate,
            (Some(_), None, Some(_)) => ConflictKind::DeleteModify,
            (Some(_), Some(_), None) => ConflictKind::ModifyDelete,
            (Some(b), Some(t), Some(p)) => {
                if b.kind != t.kind || b.kind != p.kind {
                    ConflictKind::Type
                } else if t.executable != p.executable {
                    ConflictKind::Mode
                } else {
                    ConflictKind::ModifyModify
                }
            },
            _ => ConflictKind::PathState,
        }
    }
}

/// The contents of a path's blob on the three sides.
#[derive(Debug)]
pub struct Contents<B = Vec<u8>> {
    pub base: B,
    pub target: B,
    pub private: B,
}

impl DeepView for Contents {
    type V = Contents<Seq<u8>>;

    open spec fn deep_view(&self) -> Contents<Seq<u8>> {
        Contents { base: self.base@, target: self.target@, private: self.private@ }
    }
}

/// The line-by-line merge of two texts with a common ancestor, if it succeeds.
pub uninterp spec fn merged_text(ancestor: Text, ours: Text, theirs: Text) -> Option<Text>;

/// `diffy::merge`. The contract only names the merged text.
#[verifier::external_body]
pub(crate) fn merge_text(ancestor: &str, ours: &str, theirs: &str) -> (r: Option<String>)
    ensures
        r.deep_view() == merged_text(ancestor@, ours@, theirs@),
{
    match diffy::merge(ancestor, ours, theirs) {
        Ok(merged) => Some(merged),
        Err(_) => None,
    }
}

/// All three states are files with the same executable bit.
pub open spec fn text_candidate(
    base: Option<TreeEntry<Text>>,
    target: Option<TreeEntry<Text>>,
    private: Option<TreeEntry<Text>>,
) -> bool {
    match (base, target, private) {
        (Some(b), Some(t), Some(p)) => b.kind == EntryKind::File && t.kind == EntryKind::File
            && p.kind == EntryKind::File && b.executable == t.executable && b.executable
            == p.executable,
        _ => false,
    }
}

/// The text of a blob that can be merged: UTF-8 without a zero byte.
pub open spec fn mergeable(content: Seq<u8>) -> Option<Text> {
    if content.contains(0u8) {
        None
    } else {
        bytes::utf8_text(content)
    }
}

/// The merged content of a path, if its texts can be merged.
pub open spec fn text_integration(contents: Contents<Seq<u8>>) -> Option<Seq<u8>> {
    match (
        mergeable(contents.base),
        mergeable(contents.target),
        mergeable(contents.private),
    ) {
        (Some(base), Some(target), Some(private)) => match merged_text(base, private, target) {
            Some(merged) => Some(encode_utf8(merged)),
            None => None,
        },
        _ => None,
    }
}

/// What becomes of a path.
pub enum Integrated {
    /// One of the given states.
    State(Option<TreeEntry<Text>>),
    /// A merged text, with its content.
    Merged(TreeEntry<Text>, Seq<u8>),
    Conflicted,
}

/// What becomes of a path with three states. A side that kept the base gives
/// way to the other; sides that agree are taken; what is left is merged as
/// text where the contents are known and allow it.
pub open spec fn integrated(
    base: Option<TreeEntry<Text>>,
    target: Option<TreeEntry<Text>>,
    private: Option<TreeEntry<Text>>,
    contents: Option<Contents<Seq<u8>>>,
) -> Integrated {
    if target == base {
        Integrated::State(private)
    } else if private == base || private == target {
        Integrated::State(target)
    } else if text_candidate(base, target, private) && contents is Some && text_integration(
        contents->Some_0,
    ) is Some {
        let content = text_integration(contents->Some_0)->Some_0;
        Integrated::Merged(
            TreeEntry {
                path: private->Some_0.path,
                kind: EntryKind::File,
                object_id: Some(objects::identity(ObjectKind::Blob, content)),
                executable: private->Some_0.executable,
            },
            content,
        )
    } else {
        Integrated::Conflicted
    }
}

/// Three trees, and the contents of the blobs that are to be merged.
#[verifier::ext_equal]
pub struct Sides {
    pub base: Map<Text, TreeEntry<Text>>,
    pub target: Map<Text, TreeEntry<Text>>,
    pub private: Map<Text, TreeEntry<Text>>,
    pub contents: Map<Text, Contents<Seq<u8>>>,
}

impl Sides {
    /// What becomes of a path.
    pub open spec fn at(self, path: Text) -> Integrated {
        integrated(
            model::state_at(self.base, path),
            model::state_at(self.target, path),
            model::state_at(self.private, path),
            if self.contents.contains_key(path) {
                Some(self.contents[path])
            } else {
                None
            },
        )
    }

    /// The state of a path in the integrated tree.
    pub open spec fn state(self, path: Text) -> Option<TreeEntry<Text>> {
        match self.at(path) {
            Integrated::State(state) => state,
            Integrated::Merged(entry, _) => Some(entry),
            Integrated::Conflicted => None,
        }
    }

    /// The integrated tree.
    pub open spec fn result(self) -> Map<Text, TreeEntry<Text>> {
        Map::new(|path: Text| self.state(path) is Some, |path: Text| self.state(path)->Some_0)
    }

    /// Every path that one of the sides has.
    pub open spec fn all_paths(self) -> Set<Text> {
        self.base.dom() + self.target.dom() + self.private.dom()
    }

    /// The conflict at a path.
    pub open spec fn conflict(self, path: Text, kind: ConflictKind) -> ConflictInput<Text> {
        ConflictInput {
            path,
            conflict_type: kind.name(),
            base: model::state_at(self.base, path),
            target: model::state_at(self.target, path),
            private: model::state_at(self.private, path),
        }
    }

    /// The kind of conflict that the three states of a path make.
    pub open spec fn kind_at(self, path: Text) -> ConflictKind {
        conflict_kind(
            model::state_at(self.base, path),
            model::state_at(self.target, path),
            model::state_at(self.private, path),
        )
    }

    /// The conflicts among the paths.
    pub open spec fn path_conflicts(self, items: Seq<Text>) -> Seq<ConflictInput<Text>>
        decreases items.len(),
    {
        if items.len() == 0 {
            Seq::empty()
        } else {
            let before = self.path_conflicts(items.drop_last());
            if self.at(items.last()) is Conflicted {
                before.push(self.conflict(items.last(), self.kind_at(items.last())))
            } else {
                before
            }
        }
    }

    /// The blobs that were merged at the paths.
    pub open spec fn merged_blobs(self, items: Seq<Text>) -> Seq<(Text, Seq<u8>)>
        decreases items.len(),
    {
        if items.len() == 0 {
            Seq::empty()
        } else {
            let before = self.merged_blobs(items.drop_last());
            match self.at(items.last()) {
                Integrated::Merged(_, content) => before.push(
                    (objects::identity(ObjectKind::Blob, content), content),
                ),
                _ => before,
            }
        }
    }

    /// The path differs from another of the integrated tree in case alone.
    pub open spec fn case_clash(self, path: Text) -> bool {
        exists|other: Text|
            self.result().contains_key(other) && #[trigger] view::clash(other, path)
    }

    /// The case conflicts among the paths.
    pub open spec fn case_conflicts(self, items: Seq<Text>) -> Seq<ConflictInput<Text>>
        decreases items.len(),
    {
        if items.len() == 0 {
            Seq::empty()
        } else {
            let before = self.case_conflicts(items.drop_last());
            if self.case_clash(items.last()) {
                before.push(self.conflict(items.last(), ConflictKind::Case))
            } else {
                before
            }
        }
    }

    /// All conflicts: those of path states, then those of case, each in the
    /// order of the paths.
    pub open spec fn conflicts(self) -> Seq<ConflictInput<Text>> {
        self.path_conflicts(ordered::sorted_keys(self.all_paths())) + self.case_conflicts(
            ordered::sorted_keys(self.result().dom()),
        )
    }
}

/// What integration gives: the tree, the conflicts, and the new blobs with
/// their identities.
#[derive(Debug)]
pub struct Integration {
    pub tree: Tree,
    pub conflicts: Vec<ConflictInput>,
    pub blobs: Vec<(String, Vec<u8>)>,
}

/// A blob that is short enough to be merged as text.
pub fn is_text_sized(kind: ObjectKind, length: u64) -> (r: bool)
    ensures
        r == (kind == ObjectKind::Blob && length <= TEXT_DIFF_LIMIT),
{
    kind == ObjectKind::Blob && length <= TEXT_DIFF_LIMIT
}

fn is_text_candidate(
    base: Option<&TreeEntry>,
    target: Option<&TreeEntry>,
    private: Option<&TreeEntry>,
) -> (r: bool)
    ensures
        r == text_candidate(base.deep_view(), target.deep_view(), private.deep_view()),
{
    match (base, target, private) {
        (Some(b), Some(t), Some(p)) => b.kind == EntryKind::File && t.kind == EntryKind::File
            && p.kind == EntryKind::File && b.executable == t.executable && b.executable
            == p.executable,
        _ => false,
    }
}

/// The states of the path cannot be integrated without its contents, and
/// perhaps with them.
pub fn needs_contents(
    base: Option<&TreeEntry>,
    target: Option<&TreeEntry>,
    private: Option<&TreeEntry>,
) -> (r: bool)
    ensures
        r == (target.deep_view() != base.deep_view() && private.deep_view() != base.deep_view()
            && private.deep_view() != target.deep_view() && text_candidate(
            base.deep_view(),
            target.deep_view(),
            private.deep_view(),
        )),
{
    !model::same_state(target, base) && !model::same_state(private, base) && !model::same_state(
        private,
        target,
    ) && is_text_candidate(base, target, private)
}

fn mergeable_text(content: &Vec<u8>) -> (r: Option<String>)
    ensures
        r.deep_view() == mergeable(content@),
{
    if bytes::has_zero(content.as_slice()) {
        None
    } else {
        bytes::text_from_utf8(content.as_slice())
    }
}

/// Merges the contents of a path, if they are texts that can be merged.
pub fn try_text_integration(contents: &Contents) -> (r: Option<Vec<u8>>)
    ensures
        match text_integration(contents.deep_view()) {
            Some(merged) => r is Some && r->Some_0@ == merged,
            None => r is None,
        },
{
    let base = match mergeable_text(&contents.base) {
        Some(content) => content,
        None => {
            return None;
        },
    };
    let target = match mergeable_text(&contents.target) {
        Some(content) => content,
        None => {
            return None;
        },
    };
    let private = match mergeable_text(&contents.private) {
        Some(content) => content,
        None => {
            return None;
        },
    };
    match merge_text(base.as_str(), private.as_str(), target.as_str()) {
        Some(merged) => {
            let mut out: Vec<u8> = Vec::new();
            bytes::append(&mut out, merged.as_str().as_bytes());
            assert(out@ =~= encode_utf8(merged@));
            Some(out)
        },
        None => None,
    }
}

/// What becomes of a path, in code.
enum Outcome {
    State(Option<TreeEntry>),
    Merged(TreeEntry, Vec<u8>),
    Conflicted,
}

fn integrate_path(
    base: Option<&TreeEntry>,
    target: Option<&TreeEntry>,
    private: Option<&TreeEntry>,
    contents: Option<&Contents>,
) -> (r: Outcome)
    ensures
        match integrated(
            base.deep_view(),
            target.deep_view(),
            private.deep_view(),
            contents.deep_view(),
        ) {
            Integrated::State(state) => r is State && r->State_0.deep_view() == state,
            Integrated::Merged(entry, content) => r is Merged && r->Merged_0@ == entry
                && r->Merged_1@ == content,
            Integrated::Conflicted => r is Conflicted,
        },
{
    if model::same_state(target, base) {
        return Outcome::State(model::copy_state(private));
    }
    if model::same_state(private, base) || model::same_state(private, target) {
        return Outcome::State(model::copy_state(target));
    }
    if is_text_candidate(base, target, private) {
        if let (Some(sides), Some(own)) = (contents, private) {
            if let Some(content) = try_text_integration(sides) {
                let object_id = objects::object_id(ObjectKind::Blob, content.as_slice());
                return Outcome::Merged(
                    TreeEntry {
                        path: own.path.clone(),
                        kind: EntryKind::File,
                        object_id: Some(object_id),
                        executable: own.executable,
                    },
                    content,
                );
            }
        }
    }
    Outcome::Conflicted
}

/// The blobs and their contents.
pub open spec fn blob_views(blobs: Seq<(String, Vec<u8>)>) -> Seq<(Text, Seq<u8>)> {
    Seq::new(blobs.len(), |i: int| (blobs[i].0@, blobs[i].1@))
}

fn conflict_of(
    path: &String,
    kind: ConflictKind,
    base: Option<&TreeEntry>,
    target: Option<&TreeEntry>,
    private: Option<&TreeEntry>,
) -> (r: ConflictInput)
    ensures
        r@ == (ConflictInput {
            path: path@,
            conflict_type: kind.name(),
            base: base.deep_view(),
            target: target.deep_view(),
            private: private.deep_view(),
        }),
{
    ConflictInput {
        path: path.clone(),
        conflict_type: kind.as_str().to_owned(),
        base: model::copy_state(base),
        target: model::copy_state(target),
        private: model::copy_state(private),
    }
}

/// The map's keys before a place lead to the integrated tree so far.
spec fn result_to(sides: Sides, items: Seq<Text>) -> Map<Text, TreeEntry<Text>> {
    Map::new(
        |path: Text| items.contains(path) && sides.state(path) is Some,
        |path: Text| sides.state(path)->Some_0,
    )
}

/// Integrates a Private Layer's tree with its target's, path by path. The
/// contents are those of the paths that [`needs_contents`] asks for and whose
/// blobs are short enough.
pub fn integrate_trees(
    base: &Tree,
    target: &Tree,
    private: &Tree,
    contents: &PathMap<Contents>,
) -> (r: Integration)
    requires
        contents.wf(),
    ensures
        ({
            let sides = Sides {
                base: model::states(base@),
                target: model::states(target@),
                private: model::states(private@),
                contents: contents@,
            };
            &&& r.tree@ == model::values_of(ordered::pairs_of(sides.result()))
            &&& r.conflicts.deep_view() == sides.conflicts()
            &&& blob_views(r.blobs@) == sides.merged_blobs(
                ordered::sorted_keys(sides.all_paths()),
            )
        }),
{
    let base_map = base.map();
    let target_map = target.map();
    let private_map = private.map();
    let ghost sides = Sides {
        base: model::states(base@),
        target: model::states(target@),
        private: model::states(private@),
        contents: contents@,
    };
    let mut all = view::all_paths(&base_map, &target_map);
    view::add_paths(&mut all, &private_map);
    let ghost items = ordered::keys(all.pairs());
    proof {
        assert forall|key: Text| #[trigger] sides.all_paths().contains(key) <==> ordered::map_of(
            all.pairs(),
        ).contains_key(key) by {
            assert(all@.contains_key(key) <==> sides.base.contains_key(key)
                || sides.target.contains_key(key) || sides.private.contains_key(key));
        }
        ordered::lemma_keys(all.pairs(), sides.all_paths());
    }
    let mut result: PathMap<TreeEntry> = PathMap::new();
    let mut conflicts: Vec<ConflictInput> = Vec::new();
    let mut blobs: Vec<(String, Vec<u8>)> = Vec::new();
    let mut i: usize = 0;
    proof {
        assert(items.take(0) =~= Seq::empty());
        assert(conflicts.deep_view() =~= Seq::empty());
        assert(blob_views(blobs@) =~= Seq::empty());
        assert(result@ =~= result_to(sides, items.take(0)));
    }
    while i < all.len()
        invariant
            i <= all.pairs().len(),
            items == ordered::keys(all.pairs()),
            base_map.wf(),
            target_map.wf(),
            private_map.wf(),
            contents.wf(),
            base_map@ == sides.base,
            target_map@ == sides.target,
            private_map@ == sides.private,
            contents@ == sides.contents,
            result.wf(),
            result@ == result_to(sides, items.take(i as int)),
            conflicts.deep_view() == sides.path_conflicts(items.take(i as int)),
            blob_views(blobs@) == sides.merged_blobs(items.take(i as int)),
        decreases all.pairs().len() - i,
    {
        let path = all.key_at(i);
        let ghost before = items.take(i as int);
        let ghost now = items.take(i as int + 1);
        let ghost result_before = result@;
        let ghost conflicts_before = conflicts.deep_view();
        let ghost blobs_before = blob_views(blobs@);
        proof {
            assert(items[i as int] == path@);
            assert(now.drop_last() =~= before);
            assert(now.last() == path@);
        }
        let base_entry = base_map.get(path.as_str());
        let target_entry = target_map.get(path.as_str());
        let private_entry = private_map.get(path.as_str());
        let known = contents.get(path.as_str());
        proof {
            assert(base_entry.deep_view() == model::state_at(sides.base, path@));
            assert(target_entry.deep_view() == model::state_at(sides.target, path@));
            assert(private_entry.deep_view() == model::state_at(sides.private, path@));
        }
        match integrate_path(base_entry, target_entry, private_entry, known) {
            Outcome::State(state) => {
                if let Some(entry) = state {
                    result.insert(path.clone(), entry);
                }
            },
            Outcome::Merged(entry, content) => {
                let id = objects::object_id(ObjectKind::Blob, content.as_slice());
                let ghost pair = (id@, content@);
                blobs.push((id, content));
                assert(blob_views(blobs@) =~= blobs_before.push(pair));
                result.insert(path.clone(), entry);
            },
            Outcome::Conflicted => {
                let kind = ConflictKind::classify(base_entry, target_entry, private_entry);
                let conflict = conflict_of(path, kind, base_entry, target_entry, private_entry);
                assert(conflict@ == sides.conflict(path@, sides.kind_at(path@)));
                conflicts.push(conflict);
                assert(conflicts.deep_view() =~= conflicts_before.push(
                    sides.conflict(path@, sides.kind_at(path@)),
                ));
            },
        }
        proof {
            lemma_result_step(sides, before, path@);
            assert(before.push(path@) =~= now);
            if sides.state(path@) is None {
                assert(result@ =~= result_to(sides, now));
            }
        }
        i = i + 1;
    }
    proof {
        assert(items.take(i as int) =~= items);
        lemma_result_complete(sides, items);
        ordered::lemma_pairs_of(result.pairs());
        ordered::lemma_keys(result.pairs(), sides.result().dom());
    }
    add_case_conflicts(Ghost(sides), &result, &base_map, &target_map, &private_map, &mut conflicts);
    let tree = Tree::from_map(result);
    Integration { tree, conflicts, blobs }
}

proof fn lemma_result_step(sides: Sides, before: Seq<Text>, path: Text)
    ensures
        sides.state(path) is Some ==> result_to(sides, before.push(path)) == result_to(
            sides,
            before,
        ).insert(path, sides.state(path)->Some_0),
        sides.state(path) is None ==> result_to(sides, before.push(path)) == result_to(
            sides,
            before,
        ),
{
    let now = before.push(path);
    assert forall|other: Text| now.contains(other) <==> before.contains(other) || other == path by {
        if before.contains(other) {
            let i = choose|i: int| 0 <= i < before.len() && before[i] == other;
            assert(now[i] == other);
        }
        if other == path {
            assert(now[before.len() as int] == other);
        }
        if now.contains(other) && other != path {
            let i = choose|i: int| 0 <= i < now.len() && now[i] == other;
            assert(before[i] == other);
        }
    }
    if sides.state(path) is Some {
        assert(result_to(sides, now) =~= result_to(sides, before).insert(
            path,
            sides.state(path)->Some_0,
        ));
    } else {
        assert(result_to(sides, now) =~= result_to(sides, before));
    }
}

/// No path that no side has is in the integrated tree.
proof fn lemma_result_complete(sides: Sides, items: Seq<Text>)
    requires
        forall|key: Text| #[trigger] items.contains(key) <==> sides.all_paths().contains(key),
    ensures
        result_to(sides, items) == sides.result(),
{
    assert(result_to(sides, items) =~= sides.result()) by {
        assert forall|path: Text| #[trigger] sides.result().contains_key(path) implies items.contains(
            path,
        ) by {
            if !sides.all_paths().contains(path) {
                assert(model::state_at(sides.base, path) is None);
                assert(model::state_at(sides.target, path) is None);
                assert(model::state_at(sides.private, path) is None);
            }
        }
    }
}

/// The last path before a place with each lower-case form.
spec fn folds(folded: Map<Text, Text>, items: Seq<Text>) -> bool {
    &&& forall|i: int|
        0 <= i < items.len() ==> folded.contains_key(text::lowercased(#[trigger] items[i]))
    &&& forall|key: Text|
        folded.contains_key(key) ==> items.contains(#[trigger] folded[key]) && text::lowercased(
            folded[key],
        ) == key
}

/// The paths that clash with another, given all paths in order.
fn clashing_paths(result: &PathMap<TreeEntry>) -> (r: PathMap<()>)
    requires
        result.wf(),
    ensures
        r.wf(),
        forall|path: Text| #[trigger]
            r@.contains_key(path) <==> result@.contains_key(path) && exists|other: Text|
                result@.contains_key(other) && #[trigger] view::clash(other, path),
{
    let ghost items = ordered::keys(result.pairs());
    proof {
        ordered::lemma_keys(result.pairs(), result@.dom());
    }
    let mut folded: PathMap<String> = PathMap::new();
    let mut out: PathMap<()> = PathMap::new();
    let mut i: usize = 0;
    while i < result.len()
        invariant
            i <= result.pairs().len(),
            result.wf(),
            items == ordered::keys(result.pairs()),
            ordered::ascending_keys(items),
            folded.wf(),
            out.wf(),
            folds(folded@, items.take(i as int)),
            forall|path: Text| #[trigger]
                out@.contains_key(path) <==> items.take(i as int).contains(path) && exists|j: int|
                    0 <= j < i && #[trigger] view::clash(items[j], path),
        decreases result.pairs().len() - i,
    {
        let path = result.key_at(i);
        let key = text::lowercase(path.as_str());
        let ghost before = items.take(i as int);
        let ghost now = items.take(i as int + 1);
        let ghost out_before = out@;
        let ghost folded_before = folded@;
        proof {
            assert(items[i as int] == path@);
            assert(now =~= before.push(path@));
        }
        let mut hit = false;
        if let Some(previous) = folded.get(key.as_str()) {
            hit = true;
            let earlier = previous.clone();
            out.insert(earlier, ());
            out.insert(path.clone(), ());
        }
        folded.insert(key, path.clone());
        proof {
            assert forall|other: Text| now.contains(other) <==> before.contains(other) || other
                == path@ by {
                if before.contains(other) {
                    let j = choose|j: int| 0 <= j < before.len() && before[j] == other;
                    assert(now[j] == other);
                }
                if other == path@ {
                    assert(now[i as int] == other);
                }
                if now.contains(other) && other != path@ {
                    let j = choose|j: int| 0 <= j < now.len() && now[j] == other;
                    assert(before[j] == other);
                }
            }
            assert(folds(folded@, now)) by {
                assert forall|j: int| 0 <= j < now.len() implies folded@.contains_key(
                    text::lowercased(#[trigger] now[j]),
                ) by {
                    if j < i {
                        assert(before[j] == now[j]);
                    }
                }
                assert forall|k: Text| folded@.contains_key(k) implies now.contains(
                    #[trigger] folded@[k],
                ) && text::lowercased(folded@[k]) == k by {
                    if k != key@ {
                        assert(folded_before.contains_key(k));
                        assert(before.contains(folded_before[k]));
                    }
                }
            }
            assert forall|other: Text| #[trigger]
                out@.contains_key(other) <==> now.contains(other) && exists|j: int|
                    0 <= j < i + 1 && #[trigger] view::clash(items[j], other) by {
                assert(out_before.contains_key(other) <==> before.contains(other) && exists|j: int|
                    0 <= j < i && #[trigger] view::clash(items[j], other));
                if out@.contains_key(other) && !out_before.contains_key(other) {
                    assert(hit);
                    let q = folded_before[key@];
                    assert(before.contains(q));
                    let m = choose|m: int| 0 <= m < before.len() && before[m] == q;
                    assert(items[m] == q);
                    assert(text::text_less(items[m], items[i as int]));
                    text::lemma_text_less_irreflexive(path@);
                    assert(view::clash(items[m], path@));
                    assert(view::clash(items[i as int], q));
                }
                if now.contains(other) && exists|j: int|
                    0 <= j < i + 1 && #[trigger] view::clash(items[j], other) {
                    let j = choose|j: int|
                        0 <= j < i + 1 && #[trigger] view::clash(items[j], other);
                    if other == path@ {
                        assert(j < i);
                        assert(before[j] == items[j]);
                        assert(folded_before.contains_key(key@));
                    } else if j == i {
                        let m = choose|m: int| 0 <= m < before.len() && before[m] == other;
                        assert(folded_before.contains_key(text::lowercased(before[m])));
                        assert(folded_before.contains_key(key@));
                        let q = folded_before[key@];
                        if other != q {
                            assert(before.contains(q));
                            let n = choose|n: int| 0 <= n < before.len() && before[n] == q;
                            assert(items[n] == q);
                            assert(view::clash(items[n], other));
                        }
                    }
                }
            }
        }
        i = i + 1;
    }
    proof {
        assert(items.take(i as int) =~= items);
        assert forall|path: Text| #[trigger]
            out@.contains_key(path) <==> result@.contains_key(path) && exists|other: Text|
                result@.contains_key(other) && #[trigger] view::clash(other, path) by {
            if exists|j: int| 0 <= j < items.len() && #[trigger] view::clash(items[j], path) {
                let j = choose|j: int| 0 <= j < items.len() && #[trigger] view::clash(items[j], path);
                assert(items.contains(items[j]));
            }
            if exists|other: Text| result@.contains_key(other) && #[trigger] view::clash(other, path) {
                let other = choose|other: Text|
                    result@.contains_key(other) && #[trigger] view::clash(other, path);
                assert(items.contains(other));
                let j = choose|j: int| 0 <= j < items.len() && items[j] == other;
                assert(view::clash(items[j], path));
            }
        }
    }
    out
}

/// Adds the case conflicts of the integrated tree.
fn add_case_conflicts(
    Ghost(sides): Ghost<Sides>,
    result: &PathMap<TreeEntry>,
    base_map: &PathMap<TreeEntry>,
    target_map: &PathMap<TreeEntry>,
    private_map: &PathMap<TreeEntry>,
    conflicts: &mut Vec<ConflictInput>,
)
    requires
        result.wf(),
        base_map.wf(),
        target_map.wf(),
        private_map.wf(),
        result@ == sides.result(),
        base_map@ == sides.base,
        target_map@ == sides.target,
        private_map@ == sides.private,
    ensures
        final(conflicts).deep_view() == old(conflicts).deep_view() + sides.case_conflicts(
            ordered::keys(result.pairs()),
        ),
{
    let clashing = clashing_paths(result);
    let ghost items = ordered::keys(result.pairs());
    let ghost start = conflicts.deep_view();
    let mut i: usize = 0;
    proof {
        assert(items.take(0) =~= Seq::empty());
        assert(start + sides.case_conflicts(items.take(0)) =~= start);
    }
    while i < result.len()
        invariant
            i <= result.pairs().len(),
            items == ordered::keys(result.pairs()),
            result.wf(),
            clashing.wf(),
            base_map.wf(),
            target_map.wf(),
            private_map.wf(),
            result@ == sides.result(),
            base_map@ == sides.base,
            target_map@ == sides.target,
            private_map@ == sides.private,
            forall|path: Text| #[trigger]
                clashing@.contains_key(path) <==> result@.contains_key(path) && exists|other: Text|
                    result@.contains_key(other) && #[trigger] view::clash(other, path),
            conflicts.deep_view() == start + sides.case_conflicts(items.take(i as int)),
        decreases result.pairs().len() - i,
    {
        let path = result.key_at(i);
        let ghost before = conflicts.deep_view();
        proof {
            assert(items[i as int] == path@);
            assert(items.take(i as int + 1).drop_last() =~= items.take(i as int));
            assert(items.take(i as int + 1).last() == path@);
            ordered::lemma_position(result.pairs(), i as int);
            assert(result@.contains_key(path@));
        }
        if clashing.contains(path.as_str()) {
            let base_entry = base_map.get(path.as_str());
            let target_entry = target_map.get(path.as_str());
            let private_entry = private_map.get(path.as_str());
            proof {
                assert(base_entry.deep_view() == model::state_at(sides.base, path@));
                assert(target_entry.deep_view() == model::state_at(sides.target, path@));
                assert(private_entry.deep_view() == model::state_at(sides.private, path@));
            }
            let conflict = conflict_of(
                path,
                ConflictKind::Case,
                base_entry,
                target_entry,
                private_entry,
            );
            conflicts.push(conflict);
            assert(conflicts.deep_view() =~= before.push(sides.conflict(path@, ConflictKind::Case)));
            assert(conflicts.deep_view() =~= start + sides.case_conflicts(
                items.take(i as int + 1),
            ));
        }
        i = i + 1;
    }
    assert(items.take(i as int) =~= items);
}

/// A path that needs its contents, with the object of each side.
#[derive(Debug)]
#[verifier::ext_equal]
pub struct Candidate<S = String> {
    pub path: S,
    pub base: S,
    pub target: S,
    pub private: S,
}

impl DeepView for Candidate {
    type V = Candidate<Text>;

    open spec fn deep_view(&self) -> Candidate<Text> {
        Candidate {
            path: self.path@,
            base: self.base@,
            target: self.target@,
            private: self.private@,
        }
    }
}

impl Sides {
    /// The path can only be integrated as text.
    pub open spec fn wants_contents(self, path: Text) -> bool {
        let base = model::state_at(self.base, path);
        let target = model::state_at(self.target, path);
        let private = model::state_at(self.private, path);
        target != base && private != base && private != target && text_candidate(
            base,
            target,
            private,
        )
    }

    pub open spec fn candidates(self, items: Seq<Text>) -> Seq<Candidate<Text>>
        decreases items.len(),
    {
        if items.len() == 0 {
            Seq::empty()
        } else {
            let before = self.candidates(items.drop_last());
            let path = items.last();
            if self.wants_contents(path) {
                before.push(
                    Candidate {
                        path,
                        base: objects::written_id(self.base[path].object_id),
                        target: objects::written_id(self.target[path].object_id),
                        private: objects::written_id(self.private[path].object_id),
                    },
                )
            } else {
                before
            }
        }
    }
}

fn id_or_empty(entry: &TreeEntry) -> (r: String)
    ensures
        r@ == objects::written_id(entry@.object_id),
{
    match &entry.object_id {
        Some(id) => id.clone(),
        None => String::new(),
    }
}

/// The paths whose contents integration needs.
pub fn merge_candidates(base: &Tree, target: &Tree, private: &Tree) -> (r: Vec<Candidate>)
    ensures
        ({
            let sides = Sides {
                base: model::states(base@),
                target: model::states(target@),
                private: model::states(private@),
                contents: Map::empty(),
            };
            r.deep_view() == sides.candidates(ordered::sorted_keys(sides.private.dom()))
        }),
{
    let base_map = base.map();
    let target_map = target.map();
    let private_map = private.map();
    let ghost sides = Sides {
        base: model::states(base@),
        target: model::states(target@),
        private: model::states(private@),
        contents: Map::empty(),
    };
    let ghost items = ordered::keys(private_map.pairs());
    let mut out: Vec<Candidate> = Vec::new();
    let mut i: usize = 0;
    proof {
        ordered::lemma_keys(private_map.pairs(), sides.private.dom());
        assert(items.take(0) =~= Seq::empty());
        assert(out.deep_view() =~= Seq::empty());
    }
    while i < private_map.len()
        invariant
            i <= private_map.pairs().len(),
            items == ordered::keys(private_map.pairs()),
            base_map.wf(),
            target_map.wf(),
            private_map.wf(),
            base_map@ == sides.base,
            target_map@ == sides.target,
            private_map@ == sides.private,
            out.deep_view() == sides.candidates(items.take(i as int)),
        decreases private_map.pairs().len() - i,
    {
        let path = private_map.key_at(i);
        let ghost before = out.deep_view();
        proof {
            assert(items[i as int] == path@);
            assert(items.take(i as int + 1).drop_last() =~= items.take(i as int));
            assert(items.take(i as int + 1).last() == path@);
        }
        let base_entry = base_map.get(path.as_str());
        let target_entry = target_map.get(path.as_str());
        let private_entry = private_map.get(path.as_str());
        proof {
            assert(base_entry.deep_view() == model::state_at(sides.base, path@));
            assert(target_entry.deep_view() == model::state_at(sides.target, path@));
            assert(private_entry.deep_view() == model::state_at(sides.private, path@));
        }
        if needs_contents(base_entry, target_entry, private_entry) {
            if let (Some(b), Some(t), Some(p)) = (base_entry, target_entry, private_entry) {
                let candidate = Candidate {
                    path: path.clone(),
                    base: id_or_empty(b),
                    target: id_or_empty(t),
                    private: id_or_empty(p),
                };
                let ghost found = candidate.deep_view();
                out.push(candidate);
                assert(out.deep_view() =~= before.push(found));
            }
        }
        i = i + 1;
    }
    assert(items.take(i as int) =~= items);
    out
}

/// A path that only the Private Layer changed keeps the private state.
pub proof fn law_private_change_is_kept(sides: Sides, path: Text)
    requires
        model::state_at(sides.target, path) == model::state_at(sides.base, path),
    ensures
        sides.at(path) == Integrated::State(model::state_at(sides.private, path)),
        model::state_at(sides.result(), path) == model::state_at(sides.private, path),
{
}

/// A path that only the target changed takes the target's state.
pub proof fn law_target_change_is_taken(sides: Sides, path: Text)
    requires
        model::state_at(sides.private, path) == model::state_at(sides.base, path),
    ensures
        model::state_at(sides.result(), path) == model::state_at(sides.target, path),
        sides.at(path) is State,
{
}

/// A path that both sides brought to the same state has that state.
pub proof fn law_agreement_is_taken(sides: Sides, path: Text)
    requires
        model::state_at(sides.private, path) == model::state_at(sides.target, path),
    ensures
        model::state_at(sides.result(), path) == model::state_at(sides.target, path),
        sides.at(path) is State,
{
}

/// A path with a conflict is left out of the integrated tree, and the conflict
/// keeps its three states.
pub proof fn law_conflict_keeps_every_state(sides: Sides, items: Seq<Text>, path: Text)
    requires
        items.contains(path),
        sides.at(path) is Conflicted,
    ensures
        !sides.result().contains_key(path),
        sides.path_conflicts(items).contains(sides.conflict(path, sides.kind_at(path))),
        model::state_at(sides.private, path) != model::state_at(sides.base, path),
        model::state_at(sides.target, path) != model::state_at(sides.base, path),
    decreases items.len(),
{
    let shorter = items.drop_last();
    let before = sides.path_conflicts(shorter);
    let all = sides.path_conflicts(items);
    let wanted = sides.conflict(path, sides.kind_at(path));
    if items.last() == path {
        assert(all[before.len() as int] == wanted);
    } else {
        let i = choose|i: int| 0 <= i < items.len() && items[i] == path;
        assert(shorter[i] == path);
        law_conflict_keeps_every_state(sides, shorter, path);
        let k = choose|k: int| 0 <= k < before.len() && before[k] == wanted;
        assert(all[k] == wanted);
    }
}

/// Only a path that both sides changed, and differently, can conflict.
proof fn lemma_conflicts_need_change(sides: Sides, items: Seq<Text>)
    ensures
        forall|i: int|
            0 <= i < sides.path_conflicts(items).len() ==> sides.at(
                (#[trigger] sides.path_conflicts(items)[i]).path,
            ) is Conflicted,
    decreases items.len(),
{
    if items.len() > 0 {
        lemma_conflicts_need_change(sides, items.drop_last());
    }
}

/// A Private Layer that changed nothing is brought to its target's tree,
/// without a conflict of path states.
pub proof fn law_unchanged_layer_becomes_target(sides: Sides, items: Seq<Text>)
    requires
        sides.private == sides.base,
    ensures
        sides.result() == sides.target,
        sides.path_conflicts(items).len() == 0,
{
    assert(sides.result() =~= sides.target) by {
        assert forall|path: Text| #[trigger] sides.result().contains_key(path)
            <==> sides.target.contains_key(path) by {
            law_target_change_is_taken(sides, path);
        }
        assert forall|path: Text| #[trigger] sides.result().contains_key(path) implies sides.result()[path]
            == sides.target[path] by {
            law_target_change_is_taken(sides, path);
        }
    }
    lemma_conflicts_need_change(sides, items);
    if sides.path_conflicts(items).len() > 0 {
        let path = sides.path_conflicts(items)[0].path;
        law_target_change_is_taken(sides, path);
    }
}

/// Integrating with a target that did not move changes nothing.
pub proof fn law_unmoved_target_keeps_layer(sides: Sides, items: Seq<Text>)
    requires
        sides.target == sides.base,
    ensures
        sides.result() == sides.private,
        sides.path_conflicts(items).len() == 0,
{
    assert(sides.result() =~= sides.private) by {
        assert forall|path: Text| #[trigger] sides.result().contains_key(path)
            <==> sides.private.contains_key(path) by {
            law_private_change_is_kept(sides, path);
        }
        assert forall|path: Text| #[trigger] sides.result().contains_key(path) implies sides.result()[path]
            == sides.private[path] by {
            law_private_change_is_kept(sides, path);
        }
    }
    lemma_conflicts_need_change(sides, items);
    if sides.path_conflicts(items).len() > 0 {
        let path = sides.path_conflicts(items)[0].path;
        law_private_change_is_kept(sides, path);
    }
}

/// An integration without conflicts has no two paths that differ in case
/// alone.
pub proof fn law_no_conflict_no_case_clash(sides: Sides, items: Seq<Text>, a: Text, b: Text)
    requires
        forall|key: Text| #[trigger] items.contains(key) <==> sides.result().contains_key(key),
        sides.case_conflicts(items).len() == 0,
        sides.result().contains_key(a),
        sides.result().contains_key(b),
    ensures
        !view::clash(a, b),
{
    if view::clash(a, b) {
        assert(sides.case_clash(b));
        assert(items.contains(b));
        lemma_case_conflict_found(sides, items, b);
    }
}

proof fn lemma_case_conflict_found(sides: Sides, items: Seq<Text>, path: Text)
    requires
        items.contains(path),
        sides.case_clash(path),
    ensures
        sides.case_conflicts(items).len() > 0,
    decreases items.len(),
{
    if items.last() != path {
        let i = choose|i: int| 0 <= i < items.len() && items[i] == path;
        assert(items.drop_last()[i] == path);
        lemma_case_conflict_found(sides, items.drop_last(), path);
    }
}

/// A side's state is taken only where the other side has nothing to say: the
/// target kept the base, the Layer kept the base, or both agree. Everywhere
/// else the path is merged as text or is a conflict, and where one of the three
/// states is missing nothing can be merged.
pub proof fn law_divergence_is_never_decided(sides: Sides, path: Text)
    ensures
        ({
            let base = model::state_at(sides.base, path);
            let target = model::state_at(sides.target, path);
            let private = model::state_at(sides.private, path);
            let diverged = target != base && private != base && private != target;
            &&& sides.at(path) is State <==> !diverged
            &&& sides.at(path) matches Integrated::State(state) ==> {
                ||| target == base && state == private
                ||| private == base && state == target
                ||| private == target && state == target
            }
            &&& diverged && (base is None || target is None || private is None)
                ==> sides.at(path) is Conflicted
            &&& sides.at(path) is Conflicted ==> !sides.result().contains_key(path)
        }),
{
}

/// A path is merged exactly where its three states diverge, are files with one
/// executable bit, have known contents that are texts without a zero byte, and
/// the texts merge. The merged file has the Layer's path and bit, and its object
/// is that of the merged text.
pub proof fn law_only_texts_are_merged(sides: Sides, path: Text)
    ensures
        ({
            let base = model::state_at(sides.base, path);
            let target = model::state_at(sides.target, path);
            let private = model::state_at(sides.private, path);
            let contents = sides.contents[path];
            let merged = merged_text(
                decode_utf8(contents.base),
                decode_utf8(contents.private),
                decode_utf8(contents.target),
            );
            &&& sides.at(path) is Merged <==> {
                &&& target != base
                &&& private != base
                &&& private != target
                &&& base is Some
                &&& target is Some
                &&& private is Some
                &&& base->Some_0.kind == EntryKind::File
                &&& target->Some_0.kind == EntryKind::File
                &&& private->Some_0.kind == EntryKind::File
                &&& target->Some_0.executable == base->Some_0.executable
                &&& private->Some_0.executable == base->Some_0.executable
                &&& sides.contents.contains_key(path)
                &&& !contents.base.contains(0u8)
                &&& !contents.target.contains(0u8)
                &&& !contents.private.contains(0u8)
                &&& valid_utf8(contents.base)
                &&& valid_utf8(contents.target)
                &&& valid_utf8(contents.private)
                &&& merged is Some
            }
            &&& sides.at(path) matches Integrated::Merged(entry, content) ==> {
                &&& content == encode_utf8(merged->Some_0)
                &&& entry.path == private->Some_0.path
                &&& entry.kind == EntryKind::File
                &&& entry.executable == private->Some_0.executable
                &&& entry.object_id == Some(objects::identity(ObjectKind::Blob, content))
                &&& sides.result().contains_key(path)
                &&& sides.result()[path] == entry
            }
        }),
{
}

/// The paths of the integrated tree are among those of the three sides.
proof fn lemma_result_within(sides: Sides)
    requires
        sides.base.dom().finite(),
        sides.target.dom().finite(),
        sides.private.dom().finite(),
    ensures
        sides.all_paths().finite(),
        sides.result().dom().finite(),
        sides.result().dom().subset_of(sides.all_paths()),
{
    assert forall|path: Text| #[trigger] sides.result().dom().contains(path) implies
        sides.all_paths().contains(path) by {
        if !sides.all_paths().contains(path) {
            assert(model::state_at(sides.base, path) is None);
            assert(model::state_at(sides.target, path) is None);
            assert(model::state_at(sides.private, path) is None);
        }
    }
    vstd::set_lib::lemma_len_subset(sides.result().dom(), sides.all_paths());
}

/// What each conflict among the paths says.
proof fn lemma_path_conflicts(sides: Sides, items: Seq<Text>)
    ensures
        forall|i: int|
            0 <= i < sides.path_conflicts(items).len() ==> {
                let found = #[trigger] sides.path_conflicts(items)[i];
                &&& items.contains(found.path)
                &&& sides.at(found.path) is Conflicted
                &&& found == sides.conflict(found.path, sides.kind_at(found.path))
            },
    decreases items.len(),
{
    if items.len() > 0 {
        let shorter = items.drop_last();
        lemma_path_conflicts(sides, shorter);
        assert forall|i: int| 0 <= i < sides.path_conflicts(items).len() implies {
            let found = #[trigger] sides.path_conflicts(items)[i];
            &&& items.contains(found.path)
            &&& sides.at(found.path) is Conflicted
            &&& found == sides.conflict(found.path, sides.kind_at(found.path))
        } by {
            let before = sides.path_conflicts(shorter);
            if i < before.len() {
                let found = before[i];
                let k = choose|k: int| 0 <= k < shorter.len() && shorter[k] == found.path;
                assert(items[k] == found.path);
            } else {
                assert(items[items.len() - 1] == items.last());
            }
        }
    }
}

/// What each case conflict among the paths says.
proof fn lemma_case_conflicts(sides: Sides, items: Seq<Text>)
    ensures
        forall|i: int|
            0 <= i < sides.case_conflicts(items).len() ==> {
                let found = #[trigger] sides.case_conflicts(items)[i];
                &&& items.contains(found.path)
                &&& sides.case_clash(found.path)
                &&& found == sides.conflict(found.path, ConflictKind::Case)
            },
    decreases items.len(),
{
    if items.len() > 0 {
        let shorter = items.drop_last();
        lemma_case_conflicts(sides, shorter);
        assert forall|i: int| 0 <= i < sides.case_conflicts(items).len() implies {
            let found = #[trigger] sides.case_conflicts(items)[i];
            &&& items.contains(found.path)
            &&& sides.case_clash(found.path)
            &&& found == sides.conflict(found.path, ConflictKind::Case)
        } by {
            let before = sides.case_conflicts(shorter);
            if i < before.len() {
                let found = before[i];
                let k = choose|k: int| 0 <= k < shorter.len() && shorter[k] == found.path;
                assert(items[k] == found.path);
            } else {
                assert(items[items.len() - 1] == items.last());
            }
        }
    }
}

/// A path that clashes is among the case conflicts.
proof fn lemma_case_conflict_listed(sides: Sides, items: Seq<Text>, path: Text)
    requires
        items.contains(path),
        sides.case_clash(path),
    ensures
        sides.case_conflicts(items).contains(sides.conflict(path, ConflictKind::Case)),
    decreases items.len(),
{
    let shorter = items.drop_last();
    let before = sides.case_conflicts(shorter);
    let all = sides.case_conflicts(items);
    let wanted = sides.conflict(path, ConflictKind::Case);
    if items.last() == path {
        assert(all[before.len() as int] == wanted);
    } else {
        let i = choose|i: int| 0 <= i < items.len() && items[i] == path;
        assert(shorter[i] == path);
        lemma_case_conflict_listed(sides, shorter, path);
        let k = choose|k: int| 0 <= k < before.len() && before[k] == wanted;
        assert(all[k] == wanted);
    }
}

/// Every path that is neither decided nor merged is reported, with its three
/// states and the name of what happened: both sides created it, one deleted
/// what the other changed, or both changed its type, its mode or its content.
pub proof fn law_every_divergence_is_reported(sides: Sides, path: Text)
    requires
        sides.base.dom().finite(),
        sides.target.dom().finite(),
        sides.private.dom().finite(),
        sides.at(path) is Conflicted,
    ensures
        ({
            let base = model::state_at(sides.base, path);
            let target = model::state_at(sides.target, path);
            let private = model::state_at(sides.private, path);
            sides.conflicts().contains(
                ConflictInput {
                    path,
                    conflict_type: if base is None {
                        "create_create"@
                    } else if target is None {
                        "delete_modify"@
                    } else if private is None {
                        "modify_delete"@
                    } else if target->Some_0.kind != base->Some_0.kind || private->Some_0.kind
                        != base->Some_0.kind {
                        "type"@
                    } else if target->Some_0.executable != private->Some_0.executable {
                        "mode"@
                    } else {
                        "modify_modify"@
                    },
                    base,
                    target,
                    private,
                },
            )
        }),
{
    lemma_result_within(sides);
    ordered::lemma_sorted_keys(sides.all_paths());
    let items = ordered::sorted_keys(sides.all_paths());
    if !sides.all_paths().contains(path) {
        assert(model::state_at(sides.base, path) is None);
        assert(model::state_at(sides.target, path) is None);
        assert(model::state_at(sides.private, path) is None);
    }
    assert(items.contains(path));
    law_conflict_keeps_every_state(sides, items, path);
    let listed = sides.path_conflicts(items);
    let wanted = sides.conflict(path, sides.kind_at(path));
    let i = choose|i: int| 0 <= i < listed.len() && listed[i] == wanted;
    assert(sides.conflicts()[i] == wanted);
}

/// Nothing else is reported: a reported path either diverged and was not
/// merged, or is in the integrated tree together with another path that is the
/// same in lower case. A report always tells the three states of its path.
pub proof fn law_only_divergence_is_reported(sides: Sides, i: int)
    requires
        sides.base.dom().finite(),
        sides.target.dom().finite(),
        sides.private.dom().finite(),
        0 <= i < sides.conflicts().len(),
    ensures
        ({
            let found = sides.conflicts()[i];
            let base = model::state_at(sides.base, found.path);
            let target = model::state_at(sides.target, found.path);
            let private = model::state_at(sides.private, found.path);
            &&& found.base == base
            &&& found.target == target
            &&& found.private == private
            &&& {
                ||| target != base && private != base && private != target
                    && !sides.result().contains_key(found.path)
                ||| found.conflict_type == "case"@ && sides.result().contains_key(found.path)
                    && exists|other: Text|
                    #[trigger] sides.result().contains_key(other) && other != found.path
                        && text::lowercased(other) == text::lowercased(found.path)
            }
        }),
{
    lemma_result_within(sides);
    ordered::lemma_sorted_keys(sides.all_paths());
    ordered::lemma_sorted_keys(sides.result().dom());
    let items = ordered::sorted_keys(sides.all_paths());
    let kept = ordered::sorted_keys(sides.result().dom());
    lemma_path_conflicts(sides, items);
    lemma_case_conflicts(sides, kept);
    let found = sides.conflicts()[i];
    let listed = sides.path_conflicts(items);
    if i < listed.len() {
        assert(listed[i] == found);
        law_conflict_keeps_every_state(sides, items, found.path);
    } else {
        assert(sides.case_conflicts(kept)[i - listed.len()] == found);
        assert(kept.contains(found.path));
        assert(sides.result().dom().contains(found.path));
        let other = choose|other: Text|
            sides.result().contains_key(other) && #[trigger] view::clash(other, found.path);
        assert(sides.result().contains_key(other));
    }
}

/// Two paths of the integrated tree that are the same in lower case are both
/// reported.
pub proof fn law_every_case_clash_is_reported(sides: Sides, a: Text, b: Text)
    requires
        sides.base.dom().finite(),
        sides.target.dom().finite(),
        sides.private.dom().finite(),
        sides.result().contains_key(a),
        sides.result().contains_key(b),
        a != b,
        text::lowercased(a) == text::lowercased(b),
    ensures
        forall|path: Text|
            path == a || path == b ==> #[trigger] sides.conflicts().contains(
                ConflictInput {
                    path,
                    conflict_type: "case"@,
                    base: model::state_at(sides.base, path),
                    target: model::state_at(sides.target, path),
                    private: model::state_at(sides.private, path),
                },
            ),
{
    lemma_result_within(sides);
    ordered::lemma_sorted_keys(sides.all_paths());
    ordered::lemma_sorted_keys(sides.result().dom());
    let items = ordered::sorted_keys(sides.all_paths());
    let kept = ordered::sorted_keys(sides.result().dom());
    assert(view::clash(a, b) && view::clash(b, a));
    assert forall|path: Text| path == a || path == b implies #[trigger] sides.conflicts().contains(
        ConflictInput {
            path,
            conflict_type: "case"@,
            base: model::state_at(sides.base, path),
            target: model::state_at(sides.target, path),
            private: model::state_at(sides.private, path),
        },
    ) by {
        assert(sides.result().dom().contains(path));
        assert(kept.contains(path));
        assert(sides.case_clash(path));
        lemma_case_conflict_listed(sides, kept, path);
        let wanted = sides.conflict(path, ConflictKind::Case);
        let listed = sides.case_conflicts(kept);
        let k = choose|k: int| 0 <= k < listed.len() && listed[k] == wanted;
        assert(sides.conflicts()[sides.path_conflicts(items).len() + k] == wanted);
    }
}

/// The content of every merged path is among the blobs to write, under its
/// identity.
pub proof fn law_merged_content_is_kept(sides: Sides, items: Seq<Text>, path: Text)
    requires
        items.contains(path),
        sides.at(path) is Merged,
    ensures
        sides.merged_blobs(items).contains(
            (sides.at(path)->Merged_0.object_id->Some_0, sides.at(path)->Merged_1),
        ),
    decreases items.len(),
{
    let shorter = items.drop_last();
    let before = sides.merged_blobs(shorter);
    let all = sides.merged_blobs(items);
    let wanted = (sides.at(path)->Merged_0.object_id->Some_0, sides.at(path)->Merged_1);
    if items.last() == path {
        assert(all[before.len() as int] == wanted);
    } else {
        let i = choose|i: int| 0 <= i < items.len() && items[i] == path;
        assert(shorter[i] == path);
        law_merged_content_is_kept(sides, shorter, path);
        let k = choose|k: int| 0 <= k < before.len() && before[k] == wanted;
        assert(all[k] == wanted);
    }
}

/// Files of up to a mebibyte are compared as texts; longer ones and what is no
/// file are not.
pub proof fn law_texts_are_of_a_mebibyte(kind: ObjectKind, length: u64, r: bool)
    requires
        call_ensures(is_text_sized, (kind, length), r),
    ensures
        r ==> kind == ObjectKind::Blob && length <= 1024 * 1024,
        kind == ObjectKind::Blob && length <= 1024 * 1024 ==> r,
{
}

} // verus!
