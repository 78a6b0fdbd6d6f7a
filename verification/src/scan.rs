//! What a walk of a managed view amounts to: the tree that it holds, the stamp
//! by which it is found unchanged, and what is cleared before it is rewritten.
use vstd::prelude::*;
use vstd::utf8::*;
use crate::bytes;
use crate::config;
use crate::config::{IgnorePolicy, RuleText};
use crate::error::{Failure, JavelinError, Result};
use crate::model;
use crate::model::{EntryKind, Tree, TreeEntry};
use crate::objects;
use crate::objects::ObjectKind;
use crate::ordered::PathMap;
use crate::paths;
use crate::text;
use crate::text::Text;
use crate::view;
use crate::view::ScanResult;

verus! {

/// What stands at a path of a view. What the policy ignores need not be read.
#[derive(Debug)]
pub enum Found<S = String> {
    Unread { directory: bool },
    File { object_id: S, length: u64, executable: bool },
    Symlink { object_id: S, length: u64 },
    Directory,
    Other,
}

/// An entry of a walk. The path is absent where it is not UTF-8.
#[derive(Debug)]
pub struct ViewItem<S = String> {
    pub relative: Option<S>,
    pub found: Found<S>,
}

impl DeepView for Found {
    type V = Found<Text>;

    open spec fn deep_view(&self) -> Found<Text> {
        match self {
            Found::Unread { directory } => Found::Unread { directory: *directory },
            Found::File { object_id, length, executable } => Found::File {
                object_id: object_id@,
                length: *length,
                executable: *executable,
            },
            Found::Symlink { object_id, length } => Found::Symlink {
                object_id: object_id@,
                length: *length,
            },
            Found::Directory => Found::Directory,
            Found::Other => Found::Other,
        }
    }
}

impl DeepView for ViewItem {
    type V = ViewItem<Text>;

    open spec fn deep_view(&self) -> ViewItem<Text> {
        ViewItem { relative: self.relative.deep_view(), found: self.found.deep_view() }
    }
}

/// Some name of the path is reserved, so a walk does not enter it.
pub open spec fn pruned(path: Text) -> bool {
    exists|i: int|
        0 <= i < paths::normal_names(paths::components(path)).len() && paths::reserved_name(
            #[trigger] paths::normal_names(paths::components(path))[i],
        )
}

/// A walk does not enter the path.
pub fn is_pruned(path: &str) -> (r: bool)
    ensures
        r == pruned(path@),
{
    let names = paths::all_names(path);
    let ghost all = paths::normal_names(paths::components(path@));
    let mut i: usize = 0;
    while i < names.len()
        invariant
            i <= names@.len(),
            all == names.deep_view(),
            all == paths::normal_names(paths::components(path@)),
            forall|j: int| 0 <= j < i ==> !paths::reserved_name(#[trigger] all[j]),
        decreases names@.len() - i,
    {
        assert(all[i as int] == names@[i as int]@);
        if paths::is_reserved_name(names[i].as_str()) {
            return true;
        }
        i = i + 1;
    }
    false
}

/// What an entry of a walk amounts to.
#[derive(Debug, PartialEq, Eq)]
pub enum ItemOutcome<S = String> {
    Pruned,
    Ignored { path: S, rule: S },
    Held { entry: TreeEntry<S>, length: Option<u64> },
}

impl<S> Found<S> {
    pub open spec fn is_directory(self) -> bool {
        match self {
            Found::Unread { directory } => directory,
            Found::Directory => true,
            _ => false,
        }
    }
}

impl DeepView for ItemOutcome {
    type V = ItemOutcome<Text>;

    open spec fn deep_view(&self) -> ItemOutcome<Text> {
        match self {
            ItemOutcome::Pruned => ItemOutcome::Pruned,
            ItemOutcome::Ignored { path, rule } => ItemOutcome::Ignored { path: path@, rule: rule@ },
            ItemOutcome::Held { entry, length } => ItemOutcome::Held {
                entry: entry@,
                length: *length,
            },
        }
    }
}

/// What stands at a tracked path.
pub open spec fn tracked_outcome(path: Text, found: Found<Text>) -> std::result::Result<
    ItemOutcome<Text>,
    Failure,
> {
    match found {
        Found::Unread { .. } => Err(Failure::corruption("unread view entry "@ + path)),
        Found::Other => Err(Failure::unsupported("unsupported filesystem entry "@ + path)),
        Found::Directory => Ok(
            ItemOutcome::Held {
                entry: TreeEntry {
                    path,
                    kind: EntryKind::Directory,
                    object_id: None,
                    executable: false,
                },
                length: None,
            },
        ),
        Found::File { object_id, length, executable } => Ok(
            ItemOutcome::Held {
                entry: TreeEntry {
                    path,
                    kind: EntryKind::File,
                    object_id: Some(object_id),
                    executable,
                },
                length: Some(length),
            },
        ),
        Found::Symlink { object_id, length } => Ok(
            ItemOutcome::Held {
                entry: TreeEntry {
                    path,
                    kind: EntryKind::Symlink,
                    object_id: Some(object_id),
                    executable: false,
                },
                length: Some(length),
            },
        ),
    }
}

pub open spec fn item_outcome(rules: Seq<RuleText>, item: ViewItem<Text>) -> std::result::Result<
    ItemOutcome<Text>,
    Failure,
> {
    match item.relative {
        None => Err(Failure::unsupported("non-UTF-8 paths are unsupported"@)),
        Some(path) => if pruned(path) {
            Ok(ItemOutcome::Pruned)
        } else {
            match paths::path_failure(path) {
                Some(failure) => Err(failure),
                None => match config::decision_of(rules, path, item.found.is_directory()) {
                    Some((true, rule)) => Ok(ItemOutcome::Ignored { path, rule }),
                    _ => tracked_outcome(path, item.found),
                },
            }
        },
    }
}

fn track(path: &String, found: &Found) -> (r: Result<ItemOutcome>)
    ensures
        match tracked_outcome(path@, found.deep_view()) {
            Ok(outcome) => r is Ok && r->Ok_0.deep_view() == outcome,
            Err(failure) => r is Err && r->Err_0@ == failure,
        },
{
    match found {
        Found::Unread { .. } => Err(
            JavelinError::corruption(text::concat2("unread view entry ", path.as_str())),
        ),
        Found::Other => Err(
            JavelinError::unsupported(
                text::concat2("unsupported filesystem entry ", path.as_str()),
            ),
        ),
        Found::Directory => Ok(
            ItemOutcome::Held {
                entry: TreeEntry {
                    path: path.clone(),
                    kind: EntryKind::Directory,
                    object_id: None,
                    executable: false,
                },
                length: None,
            },
        ),
        Found::File { object_id, length, executable } => Ok(
            ItemOutcome::Held {
                entry: TreeEntry {
                    path: path.clone(),
                    kind: EntryKind::File,
                    object_id: Some(object_id.clone()),
                    executable: *executable,
                },
                length: Some(*length),
            },
        ),
        Found::Symlink { object_id, length } => Ok(
            ItemOutcome::Held {
                entry: TreeEntry {
                    path: path.clone(),
                    kind: EntryKind::Symlink,
                    object_id: Some(object_id.clone()),
                    executable: false,
                },
                length: Some(*length),
            },
        ),
    }
}

/// Decides on one entry of a walk.
pub fn inspect_item(policy: &IgnorePolicy, item: &ViewItem) -> (r: Result<ItemOutcome>)
    requires
        policy.wf(),
    ensures
        match item_outcome(policy.rules(), item.deep_view()) {
            Ok(outcome) => r is Ok && r->Ok_0.deep_view() == outcome,
            Err(failure) => r is Err && r->Err_0@ == failure,
        },
{
    let path = match &item.relative {
        Some(path) => path,
        None => {
            return Err(JavelinError::unsupported("non-UTF-8 paths are unsupported".to_owned()));
        },
    };
    if is_pruned(path.as_str()) {
        return Ok(ItemOutcome::Pruned);
    }
    paths::validate_relative(path.as_str())?;
    let is_directory = match &item.found {
        Found::Unread { directory } => *directory,
        Found::Directory => true,
        _ => false,
    };
    if let Some((ignored, rule)) = policy.decision(path.as_str(), is_directory) {
        if ignored {
            return Ok(ItemOutcome::Ignored { path: path.clone(), rule });
        }
    }
    track(path, &item.found)
}

/// What a walk has found so far.
#[verifier::ext_equal]
pub struct Walk {
    pub entries: Seq<TreeEntry<Text>>,
    pub ignored: Seq<(Text, Text)>,
    pub objects: Seq<(Text, ObjectKind, u64)>,
}

impl Walk {
    /// The walk with one more entry.
    pub open spec fn with(self, outcome: ItemOutcome<Text>) -> Walk {
        match outcome {
            ItemOutcome::Pruned => self,
            ItemOutcome::Ignored { path, rule } => Walk {
                ignored: self.ignored.push((path, rule)),
                ..self
            },
            ItemOutcome::Held { entry, length } => Walk {
                entries: self.entries.push(entry),
                objects: match (entry.object_id, length) {
                    (Some(id), Some(size)) => self.objects.push((id, ObjectKind::Blob, size)),
                    _ => self.objects,
                },
                ..self
            },
        }
    }
}

/// What the entries of a walk amount to, or the failure of the first bad one.
pub open spec fn walk_outcome(rules: Seq<RuleText>, items: Seq<ViewItem<Text>>) -> std::result::Result<
    Walk,
    Failure,
>
    decreases items.len(),
{
    if items.len() == 0 {
        Ok(Walk { entries: Seq::empty(), ignored: Seq::empty(), objects: Seq::empty() })
    } else {
        match walk_outcome(rules, items.drop_last()) {
            Err(failure) => Err(failure),
            Ok(walk) => match item_outcome(rules, items.last()) {
                Err(failure) => Err(failure),
                Ok(outcome) => Ok(walk.with(outcome)),
            },
        }
    }
}

proof fn lemma_walk_failure_stays(rules: Seq<RuleText>, items: Seq<ViewItem<Text>>, n: int)
    requires
        0 <= n <= items.len(),
        walk_outcome(rules, items.take(n)) is Err,
    ensures
        walk_outcome(rules, items) == walk_outcome(rules, items.take(n)),
    decreases items.len() - n,
{
    if n == items.len() {
        assert(items.take(n) =~= items);
    } else {
        assert(items.take(n + 1).drop_last() =~= items.take(n));
        lemma_walk_failure_stays(rules, items, n + 1);
    }
}

/// The result of a scan: the tree in order, what was ignored and by which
/// rule, and the objects of the tracked files and links.
pub open spec fn scan_outcome(rules: Seq<RuleText>, items: Seq<ViewItem<Text>>) -> std::result::Result<
    Walk,
    Failure,
> {
    match walk_outcome(rules, items) {
        Err(failure) => Err(failure),
        Ok(walk) => {
            let form = model::normal_form(walk.entries);
            match view::collision_failure(form) {
                Some(failure) => Err(failure),
                None => Ok(Walk { entries: form, ..walk }),
            }
        },
    }
}

/// The tree that a walk of a view amounts to.
pub fn scan_view(policy: &IgnorePolicy, items: &Vec<ViewItem>) -> (r: Result<ScanResult>)
    requires
        policy.wf(),
    ensures
        match scan_outcome(policy.rules(), items.deep_view()) {
            Err(failure) => r is Err && r->Err_0@ == failure,
            Ok(walk) => r is Ok && r->Ok_0.tree@ == walk.entries && r->Ok_0.ignored.deep_view()
                == walk.ignored && r->Ok_0.object_records() == walk.objects,
        },
{
    let ghost all = items.deep_view();
    let mut map: PathMap<TreeEntry> = PathMap::new();
    let ghost mut entries: Seq<TreeEntry<Text>> = Seq::empty();
    let mut result = ScanResult { tree: Tree::empty(), ignored: Vec::new(), objects: Vec::new() };
    let mut i: usize = 0;
    proof {
        assert(all.take(0) =~= Seq::empty());
        assert(result.ignored.deep_view() =~= Seq::empty());
        assert(result.object_records() =~= Seq::empty());
    }
    while i < items.len()
        invariant
            i <= items@.len(),
            policy.wf(),
            all == items.deep_view(),
            map.wf(),
            map@ == model::states(entries),
            walk_outcome(policy.rules(), all.take(i as int)) == Ok::<Walk, Failure>(
                Walk {
                    entries,
                    ignored: result.ignored.deep_view(),
                    objects: result.object_records(),
                },
            ),
        decreases items@.len() - i,
    {
        proof {
            assert(all.take(i as int + 1).drop_last() =~= all.take(i as int));
            assert(all.take(i as int + 1).last() == items@[i as int].deep_view());
        }
        let ghost before = Walk {
            entries,
            ignored: result.ignored.deep_view(),
            objects: result.object_records(),
        };
        match inspect_item(policy, &items[i]) {
            Err(error) => {
                proof {
                    lemma_walk_failure_stays(policy.rules(), all, i as int + 1);
                }
                return Err(error);
            },
            Ok(outcome) => {
                let ghost seen = outcome.deep_view();
                match outcome {
                    ItemOutcome::Pruned => {},
                    ItemOutcome::Ignored { path, rule } => {
                        result.ignored.push((path, rule));
                        assert(result.ignored.deep_view() =~= before.ignored.push((path@, rule@)));
                    },
                    ItemOutcome::Held { entry, length } => {
                        if let (Some(id), Some(size)) = (&entry.object_id, length) {
                            result.objects.push((id.clone(), ObjectKind::Blob, size));
                            assert(result.object_records() =~= before.objects.push(
                                (id@, ObjectKind::Blob, size),
                            ));
                        }
                        proof {
                            entries = entries.push(entry@);
                            assert(entries.drop_last() =~= before.entries);
                        }
                        map.insert(entry.path.clone(), entry);
                    },
                }
                assert(before.with(seen) == Walk {
                    entries,
                    ignored: result.ignored.deep_view(),
                    objects: result.object_records(),
                });
            },
        }
        i = i + 1;
    }
    proof {
        assert(all.take(i as int) =~= all);
        model::lemma_normal_form(map.pairs(), entries);
    }
    result.tree = Tree::from_map(map);
    view::detect_case_collisions(&result.tree.entries)?;
    Ok(result)
}

/// An entry of a walk, as far as it tells whether a view changed.
#[derive(Debug)]
pub struct StampItem<S = String, B = Vec<u8>> {
    pub relative: Option<S>,
    pub length: u64,
    pub seconds: u64,
    pub nanoseconds: u32,
    pub kind: EntryKind,
    pub mode: Option<u32>,
    pub link_target: B,
}

impl DeepView for StampItem {
    type V = StampItem<Text, Seq<u8>>;

    open spec fn deep_view(&self) -> StampItem<Text, Seq<u8>> {
        StampItem {
            relative: self.relative.deep_view(),
            length: self.length,
            seconds: self.seconds,
            nanoseconds: self.nanoseconds,
            kind: self.kind,
            mode: self.mode,
            link_target: self.link_target@,
        }
    }
}

/// What an entry adds to the bytes that the stamp is the hash of.
pub open spec fn stamp_bytes(item: StampItem<Text, Seq<u8>>, path: Text) -> Seq<u8> {
    encode_utf8(path) + seq![0u8] + bytes::big_endian(item.length as nat, 8) + bytes::big_endian(
        item.seconds as nat,
        8,
    ) + bytes::big_endian(item.nanoseconds as nat, 4) + seq![objects::entry_kind_byte(item.kind)] + (
    match item.mode {
        Some(mode) => bytes::big_endian(mode as nat, 4),
        None => Seq::empty(),
    }) + item.link_target
}

pub open spec fn stamp_outcome(items: Seq<StampItem<Text, Seq<u8>>>) -> std::result::Result<
    Seq<u8>,
    Failure,
>
    decreases items.len(),
{
    if items.len() == 0 {
        Ok(Seq::empty())
    } else {
        match stamp_outcome(items.drop_last()) {
            Err(failure) => Err(failure),
            Ok(before) => match items.last().relative {
                None => Err(Failure::unsupported("non-UTF-8 paths are unsupported"@)),
                Some(path) => if pruned(path) {
                    Ok(before)
                } else {
                    match paths::path_failure(path) {
                        Some(failure) => Err(failure),
                        None => Ok(before + stamp_bytes(items.last(), path)),
                    }
                },
            },
        }
    }
}

proof fn lemma_stamp_failure_stays(items: Seq<StampItem<Text, Seq<u8>>>, n: int)
    requires
        0 <= n <= items.len(),
        stamp_outcome(items.take(n)) is Err,
    ensures
        stamp_outcome(items) == stamp_outcome(items.take(n)),
    decreases items.len() - n,
{
    if n == items.len() {
        assert(items.take(n) =~= items);
    } else {
        assert(items.take(n + 1).drop_last() =~= items.take(n));
        lemma_stamp_failure_stays(items, n + 1);
    }
}

fn push_stamp(out: &mut Vec<u8>, item: &StampItem, path: &str)
    ensures
        final(out)@ == old(out)@ + stamp_bytes(item.deep_view(), path@),
{
    bytes::append(out, path.as_bytes());
    out.push(0);
    bytes::append(out, bytes::number_bytes(item.length, 8).as_slice());
    bytes::append(out, bytes::number_bytes(item.seconds, 8).as_slice());
    bytes::append(out, bytes::number_bytes(item.nanoseconds as u64, 4).as_slice());
    out.push(
        match item.kind {
            EntryKind::File => 1,
            EntryKind::Directory => 2,
            EntryKind::Symlink => 3,
        },
    );
    if let Some(mode) = item.mode {
        bytes::append(out, bytes::number_bytes(mode as u64, 4).as_slice());
    }
    bytes::append(out, item.link_target.as_slice());
    assert(out@ =~= old(out)@ + stamp_bytes(item.deep_view(), path@));
}

/// The stamp of a view: two walks that find the same have the same stamp.
pub fn view_stamp(items: &Vec<StampItem>) -> (r: Result<String>)
    ensures
        match stamp_outcome(items.deep_view()) {
            Err(failure) => r is Err && r->Err_0@ == failure,
            Ok(content) => r is Ok && r->Ok_0@ == objects::blake3_hex(content),
        },
{
    let ghost all = items.deep_view();
    let mut content: Vec<u8> = Vec::new();
    let mut i: usize = 0;
    assert(all.take(0) =~= Seq::empty());
    while i < items.len()
        invariant
            i <= items@.len(),
            all == items.deep_view(),
            stamp_outcome(all.take(i as int)) == Ok::<Seq<u8>, Failure>(content@),
        decreases items@.len() - i,
    {
        let item = &items[i];
        proof {
            assert(all.take(i as int + 1).drop_last() =~= all.take(i as int));
            assert(all.take(i as int + 1).last() == items@[i as int].deep_view());
        }
        let path = match &item.relative {
            Some(path) => path,
            None => {
                proof {
                    lemma_stamp_failure_stays(all, i as int + 1);
                }
                return Err(JavelinError::unsupported("non-UTF-8 paths are unsupported".to_owned()));
            },
        };
        if !is_pruned(path.as_str()) {
            match paths::validate_relative(path.as_str()) {
                Ok(()) => {},
                Err(error) => {
                    proof {
                        lemma_stamp_failure_stays(all, i as int + 1);
                    }
                    return Err(error);
                },
            }
            push_stamp(&mut content, item, path.as_str());
        }
        i = i + 1;
    }
    assert(all.take(i as int) =~= all);
    Ok(objects::blake3_of(content.as_slice()))
}

/// A path of a view that clearing leaves alone: reserved, or ignored by the
/// policy.
pub open spec fn shielded(rules: Seq<RuleText>, item: (Text, bool)) -> bool {
    pruned(item.0) || config::ignored_by(rules, item.0, item.1)
}

/// `path` stands below the directory.
pub open spec fn below(path: Text, directory: Text) -> bool {
    text::has_prefix(path, directory + "/"@)
}

/// Whether a path stands below a directory.
pub fn is_below(path: &str, directory: &str) -> (r: bool)
    ensures
        r == below(path@, directory@),
{
    text::starts_with(path, text::concat2(directory, "/").as_str())
}

/// Clearing removes the item: it is not shielded and holds nothing that is.
pub open spec fn removable(rules: Seq<RuleText>, items: Seq<(Text, bool)>, i: int) -> bool {
    &&& !shielded(rules, items[i])
    &&& forall|j: int|
        0 <= j < items.len() && shielded(rules, #[trigger] items[j]) ==> !below(
            items[j].0,
            items[i].0,
        )
}

/// The removable paths from a place on, last first.
pub open spec fn cleared_from(rules: Seq<RuleText>, items: Seq<(Text, bool)>, from: int) -> Seq<Text>
    decreases items.len() - from,
{
    if from >= items.len() {
        Seq::empty()
    } else {
        let after = cleared_from(rules, items, from + 1);
        if removable(rules, items, from) {
            after.push(items[from].0)
        } else {
            after
        }
    }
}

fn is_shielded(policy: &IgnorePolicy, path: &str, is_directory: bool) -> (r: bool)
    requires
        policy.wf(),
    ensures
        r == shielded(policy.rules(), (path@, is_directory)),
{
    is_pruned(path) || policy.ignored(path, is_directory)
}

/// The paths to remove before a view is rewritten, what a directory holds
/// before the directory. Reserved and ignored content stays.
pub fn paths_to_clear(policy: &IgnorePolicy, items: &Vec<(String, bool)>) -> (r: Vec<String>)
    requires
        policy.wf(),
    ensures
        r.deep_view() == cleared_from(policy.rules(), items.deep_view(), 0),
{
    let ghost all = items.deep_view();
    let ghost rules = policy.rules();
    let kept = shielded_places(policy, items);
    let mut out: Vec<String> = Vec::new();
    let mut i: usize = items.len();
    assert(out.deep_view() =~= Seq::empty());
    while i > 0
        invariant
            i <= items@.len(),
            policy.wf(),
            rules == policy.rules(),
            all == items.deep_view(),
            are_shielded_places(rules, all, kept@, all.len() as int),
            out.deep_view() == cleared_from(rules, all, i as int),
        decreases i,
    {
        let at: usize = i - 1;
        let path = &items[at].0;
        let ghost earlier = out.deep_view();
        assert(all[at as int].0 == path@);
        if is_removable(policy, items, &kept, at) {
            out.push(path.clone());
            assert(out.deep_view() =~= earlier.push(path@));
        }
        i = at;
    }
    out
}

/// The places before `end` whose items are shielded.
spec fn are_shielded_places(
    rules: Seq<RuleText>,
    items: Seq<(Text, bool)>,
    places: Seq<usize>,
    end: int,
) -> bool {
    &&& forall|k: int|
        0 <= k < places.len() ==> (#[trigger] places[k]) < end && shielded(
            rules,
            items[places[k] as int],
        )
    &&& forall|j: int|
        0 <= j < end && shielded(rules, #[trigger] items[j]) ==> places.contains(j as usize)
}

fn shielded_places(policy: &IgnorePolicy, items: &Vec<(String, bool)>) -> (r: Vec<usize>)
    requires
        policy.wf(),
    ensures
        are_shielded_places(
            policy.rules(),
            items.deep_view(),
            r@,
            items.deep_view().len() as int,
        ),
{
    let ghost all = items.deep_view();
    let ghost rules = policy.rules();
    let mut out: Vec<usize> = Vec::new();
    let mut i: usize = 0;
    while i < items.len()
        invariant
            i <= items@.len(),
            policy.wf(),
            rules == policy.rules(),
            all == items.deep_view(),
            are_shielded_places(rules, all, out@, i as int),
        decreases items@.len() - i,
    {
        assert(all[i as int] == (items@[i as int].0@, items@[i as int].1));
        let ghost before = out@;
        if is_shielded(policy, items[i].0.as_str(), items[i].1) {
            out.push(i);
            proof {
                assert(out@[before.len() as int] == i);
                assert forall|j: int| 0 <= j < i + 1 && shielded(
                    rules,
                    #[trigger] all[j],
                ) implies out@.contains(j as usize) by {
                    if j < i {
                        let k = choose|k: int| 0 <= k < before.len() && before[k] == j as usize;
                        assert(out@[k] == j as usize);
                    }
                }
            }
        }
        i = i + 1;
    }
    out
}

fn is_removable(
    policy: &IgnorePolicy,
    items: &Vec<(String, bool)>,
    kept: &Vec<usize>,
    at: usize,
) -> (r: bool)
    requires
        policy.wf(),
        at < items@.len(),
        are_shielded_places(
            policy.rules(),
            items.deep_view(),
            kept@,
            items.deep_view().len() as int,
        ),
    ensures
        r == removable(policy.rules(), items.deep_view(), at as int),
{
    let ghost all = items.deep_view();
    let ghost rules = policy.rules();
    assert(all[at as int] == (items@[at as int].0@, items@[at as int].1));
    if is_shielded(policy, items[at].0.as_str(), items[at].1) {
        return false;
    }
    let prefix = text::concat2(items[at].0.as_str(), "/");
    let mut k: usize = 0;
    while k < kept.len()
        invariant
            k <= kept@.len(),
            at < items@.len(),
            rules == policy.rules(),
            all == items.deep_view(),
            all[at as int].0 == items@[at as int].0@,
            prefix@ == all[at as int].0 + "/"@,
            are_shielded_places(rules, all, kept@, all.len() as int),
            forall|j: int|
                0 <= j < k ==> !below(all[(#[trigger] kept@[j]) as int].0, all[at as int].0),
        decreases kept@.len() - k,
    {
        let place: usize = kept[k];
        assert(all[place as int].0 == items@[place as int].0@);
        if text::starts_with(items[place].0.as_str(), prefix.as_str()) {
            assert(shielded(rules, all[place as int]));
            return false;
        }
        k = k + 1;
    }
    proof {
        assert forall|j: int| 0 <= j < all.len() && shielded(
            rules,
            #[trigger] all[j],
        ) implies !below(all[j].0, all[at as int].0) by {
            assert(j < items.len());
            let k = choose|k: int| 0 <= k < kept@.len() && kept@[k] == j as usize;
            assert(!below(all[kept@[k] as int].0, all[at as int].0));
        }
    }
    true
}

/// What a scan makes of an entry. A reserved name anywhere in its path hides
/// it; a path that a tree may not hold, or that is no text, is refused; the
/// tracking policy may leave it out, and says by which rule; and whatever is
/// left is held as what it is.
pub proof fn law_entry_is_held_as_it_is(rules: Seq<RuleText>, item: ViewItem<Text>)
    ensures
        item.relative is None ==> item_outcome(rules, item) is Err && item_outcome(
            rules,
            item,
        )->Err_0.exit_code == 9,
        item_outcome(rules, item) matches Ok(ItemOutcome::Held { entry, length }) ==> {
            &&& item.relative == Some(entry.path)
            &&& paths::path_failure(entry.path) is None
            &&& !config::ignored_by(rules, entry.path, item.found is Directory)
            &&& item.found matches Found::File { object_id, length: size, executable } ==> {
                &&& entry.kind == EntryKind::File
                &&& entry.object_id == Some(object_id)
                &&& entry.executable == executable
                &&& length == Some(size)
            }
            &&& item.found matches Found::Symlink { object_id, length: size } ==> {
                &&& entry.kind == EntryKind::Symlink
                &&& entry.object_id == Some(object_id)
                &&& !entry.executable
                &&& length == Some(size)
            }
            &&& item.found is Directory ==> {
                &&& entry.kind == EntryKind::Directory
                &&& entry.object_id is None
                &&& !entry.executable
                &&& length is None
            }
            &&& item.found is File || item.found is Symlink || item.found is Directory
        },
        item_outcome(rules, item) matches Ok(ItemOutcome::Ignored { path, rule }) ==> {
            &&& item.relative == Some(path)
            &&& config::decision_of(
                rules,
                path,
                item.found is Directory || item.found == (Found::<Text>::Unread {
                    directory: true,
                }),
            ) == Some((true, rule))
        },
        item_outcome(rules, item) matches Ok(ItemOutcome::Pruned) ==> exists|i: int|
            0 <= i < paths::normal_names(paths::components(item.relative->Some_0)).len()
                && paths::reserved_name(
                #[trigger] paths::normal_names(paths::components(item.relative->Some_0))[i],
            ),
        item.relative is Some && !pruned(item.relative->Some_0) && paths::path_failure(
            item.relative->Some_0,
        ) is None && !config::ignored_by(
            rules,
            item.relative->Some_0,
            item.found is Directory || item.found == (Found::<Text>::Unread { directory: true }),
        ) && (item.found is File || item.found is Symlink || item.found is Directory)
            ==> item_outcome(rules, item) matches Ok(ItemOutcome::Held { .. }),
        item_outcome(rules, item) is Err && item.found is Other ==> item_outcome(
            rules,
            item,
        )->Err_0.exit_code == 9,
{
}

/// Nothing is lost and nothing is made up by a walk: its entries are the held
/// ones, in order, what it ignored is told with the rule, and every tracked
/// file and link has its object.
pub proof fn law_walk_is_complete(rules: Seq<RuleText>, items: Seq<ViewItem<Text>>)
    requires
        walk_outcome(rules, items) is Ok,
    ensures
        ({
            let walk = walk_outcome(rules, items)->Ok_0;
            &&& forall|i: int|
                0 <= i < items.len() ==> item_outcome(rules, #[trigger] items[i]) is Ok
            &&& forall|i: int|
                0 <= i < items.len() ==> (item_outcome(rules, #[trigger] items[i]) matches Ok(
                    ItemOutcome::Held { entry, length },
                ) ==> walk.entries.contains(entry) && (entry.object_id is Some && length is Some
                    ==> walk.objects.contains(
                    (entry.object_id->Some_0, ObjectKind::Blob, length->Some_0),
                )))
            &&& forall|i: int|
                0 <= i < items.len() ==> (item_outcome(rules, #[trigger] items[i]) matches Ok(
                    ItemOutcome::Ignored { path, rule },
                ) ==> walk.ignored.contains((path, rule)))
            &&& forall|k: int|
                0 <= k < walk.entries.len() ==> exists|i: int|
                    0 <= i < items.len() && (item_outcome(rules, #[trigger] items[i]) matches Ok(
                        ItemOutcome::Held { entry, .. },
                    ) && entry == #[trigger] walk.entries[k])
        }),
    decreases items.len(),
{
    let walk = walk_outcome(rules, items)->Ok_0;
    if items.len() > 0 {
        let shorter = items.drop_last();
        law_walk_is_complete(rules, shorter);
        let before = walk_outcome(rules, shorter)->Ok_0;
        let last = item_outcome(rules, items.last())->Ok_0;
        assert(items[items.len() - 1] == items.last());
        assert(forall|i: int| 0 <= i < shorter.len() ==> shorter[i] == #[trigger] items[i]);
        assert forall|i: int| 0 <= i < items.len() implies (item_outcome(
            rules,
            #[trigger] items[i],
        ) matches Ok(ItemOutcome::Held { entry, length }) ==> walk.entries.contains(entry) && (
        entry.object_id is Some && length is Some ==> walk.objects.contains(
            (entry.object_id->Some_0, ObjectKind::Blob, length->Some_0),
        ))) by {
            if let Ok(ItemOutcome::Held { entry, length }) = item_outcome(rules, items[i]) {
                if i < shorter.len() {
                    assert(item_outcome(rules, shorter[i]) is Ok);
                    let k = choose|k: int| 0 <= k < before.entries.len() && before.entries[k] == entry;
                    assert(walk.entries[k] == entry);
                    if entry.object_id is Some && length is Some {
                        let object = (entry.object_id->Some_0, ObjectKind::Blob, length->Some_0);
                        let m = choose|m: int|
                            0 <= m < before.objects.len() && before.objects[m] == object;
                        assert(walk.objects[m] == object);
                    }
                } else {
                    assert(walk.entries[walk.entries.len() - 1] == entry);
                    if entry.object_id is Some && length is Some {
                        assert(walk.objects[walk.objects.len() - 1] == (
                            entry.object_id->Some_0,
                            ObjectKind::Blob,
                            length->Some_0,
                        ));
                    }
                }
            }
        }
        assert forall|i: int| 0 <= i < items.len() implies (item_outcome(
            rules,
            #[trigger] items[i],
        ) matches Ok(ItemOutcome::Ignored { path, rule }) ==> walk.ignored.contains(
            (path, rule),
        )) by {
            if let Ok(ItemOutcome::Ignored { path, rule }) = item_outcome(rules, items[i]) {
                if i < shorter.len() {
                    assert(item_outcome(rules, shorter[i]) is Ok);
                    let k = choose|k: int|
                        0 <= k < before.ignored.len() && before.ignored[k] == (path, rule);
                    assert(walk.ignored[k] == (path, rule));
                } else {
                    assert(walk.ignored[walk.ignored.len() - 1] == (path, rule));
                }
            }
        }
        assert forall|k: int| 0 <= k < walk.entries.len() implies exists|i: int|
            0 <= i < items.len() && (item_outcome(rules, #[trigger] items[i]) matches Ok(
                ItemOutcome::Held { entry, .. },
            ) && entry == #[trigger] walk.entries[k]) by {
            if k < before.entries.len() {
                assert(before.entries[k] == walk.entries[k]);
                let i = choose|i: int|
                    0 <= i < shorter.len() && (item_outcome(rules, #[trigger] shorter[i]) matches Ok(
                        ItemOutcome::Held { entry, .. },
                    ) && entry == before.entries[k]);
                assert(items[i] == shorter[i]);
            } else {
                assert(last is Held);
                assert(items[items.len() - 1] == items.last());
            }
        }
    }
}

/// A scan gives every held path the state it was found in, and tracks no other
/// path: an item that is held gives its path a state of the tree, and every
/// entry of the tree was found. No two paths of the tree are the same in lower
/// case.
pub proof fn law_scan_holds_what_was_found(
    rules: Seq<RuleText>,
    items: Seq<ViewItem<Text>>,
    path: Text,
)
    requires
        scan_outcome(rules, items) is Ok,
    ensures
        ({
            let tree = model::states(scan_outcome(rules, items)->Ok_0.entries);
            &&& tree.contains_key(path) ==> exists|i: int|
                0 <= i < items.len() && (item_outcome(rules, #[trigger] items[i]) matches Ok(
                    ItemOutcome::Held { entry, .. },
                ) && entry == tree[path])
            &&& (exists|i: int|
                0 <= i < items.len() && (item_outcome(rules, #[trigger] items[i]) matches Ok(
                    ItemOutcome::Held { entry, .. },
                ) && entry.path == path)) ==> tree.contains_key(path)
        }),
{
    let walk = walk_outcome(rules, items)->Ok_0;
    law_walk_is_complete(rules, items);
    model::lemma_normal_form_exists(walk.entries);
    model::lemma_states(walk.entries);
    let tree = model::states(scan_outcome(rules, items)->Ok_0.entries);
    if tree.contains_key(path) {
        assert(walk.entries.contains(tree[path]));
        let k = choose|k: int| 0 <= k < walk.entries.len() && walk.entries[k] == tree[path];
        assert(exists|i: int|
            0 <= i < items.len() && (item_outcome(rules, #[trigger] items[i]) matches Ok(
                ItemOutcome::Held { entry, .. },
            ) && entry == #[trigger] walk.entries[k]));
    }
    if exists|i: int|
        0 <= i < items.len() && (item_outcome(rules, #[trigger] items[i]) matches Ok(
            ItemOutcome::Held { entry, .. },
        ) && entry.path == path) {
        let i = choose|i: int|
            0 <= i < items.len() && (item_outcome(rules, #[trigger] items[i]) matches Ok(
                ItemOutcome::Held { entry, .. },
            ) && entry.path == path);
        let entry = item_outcome(rules, items[i])->Ok_0->entry;
        assert(walk.entries.contains(entry));
        let k = choose|k: int| 0 <= k < walk.entries.len() && walk.entries[k] == entry;
        assert(walk.entries[k].path == path);
    }
}

/// Two entries at one path that differ in length, time, kind, mode or link
/// target add different bytes to a stamp.
pub proof fn law_stamp_tells_entries_apart(
    a: StampItem<Text, Seq<u8>>,
    b: StampItem<Text, Seq<u8>>,
    path: Text,
)
    requires
        stamp_bytes(a, path) == stamp_bytes(b, path),
        a.mode is Some <==> b.mode is Some,
    ensures
        a.length == b.length,
        a.seconds == b.seconds,
        a.nanoseconds == b.nanoseconds,
        a.kind == b.kind,
        a.mode == b.mode,
        a.link_target == b.link_target,
{
    let x = stamp_bytes(a, path);
    let y = stamp_bytes(b, path);
    let n = encode_utf8(path).len() as int + 1;
    bytes::lemma_limits();
    lemma_stamp_places(a, path);
    lemma_stamp_places(b, path);
    bytes::lemma_big_endian_round_trip(a.length as nat, 8);
    bytes::lemma_big_endian_round_trip(b.length as nat, 8);
    bytes::lemma_big_endian_round_trip(a.seconds as nat, 8);
    bytes::lemma_big_endian_round_trip(b.seconds as nat, 8);
    bytes::lemma_big_endian_round_trip(a.nanoseconds as nat, 4);
    bytes::lemma_big_endian_round_trip(b.nanoseconds as nat, 4);
    assert(x[n + 20] == y[n + 20]);
    if a.mode is Some {
        bytes::lemma_big_endian_round_trip(a.mode->Some_0 as nat, 4);
        bytes::lemma_big_endian_round_trip(b.mode->Some_0 as nat, 4);
    }
}

/// Where the parts of an entry stand in its bytes.
proof fn lemma_stamp_places(item: StampItem<Text, Seq<u8>>, path: Text)
    ensures
        ({
            let all = stamp_bytes(item, path);
            let n = encode_utf8(path).len() as int + 1;
            &&& all.len() >= n + 21
            &&& all.subrange(n, n + 8) == bytes::big_endian(item.length as nat, 8)
            &&& all.subrange(n + 8, n + 16) == bytes::big_endian(item.seconds as nat, 8)
            &&& all.subrange(n + 16, n + 20) == bytes::big_endian(item.nanoseconds as nat, 4)
            &&& all[n + 20] == (match item.kind {
                EntryKind::File => 1u8,
                EntryKind::Directory => 2u8,
                EntryKind::Symlink => 3u8,
            })
            &&& item.mode is Some ==> all.len() >= n + 25 && all.subrange(n + 21, n + 25)
                == bytes::big_endian(item.mode->Some_0 as nat, 4) && all.skip(n + 25)
                == item.link_target
            &&& item.mode is None ==> all.skip(n + 21) == item.link_target
        }),
{
    let all = stamp_bytes(item, path);
    let n = encode_utf8(path).len() as int + 1;
    bytes::lemma_big_endian_len(item.length as nat, 8);
    bytes::lemma_big_endian_len(item.seconds as nat, 8);
    bytes::lemma_big_endian_len(item.nanoseconds as nat, 4);
    if item.mode is Some {
        bytes::lemma_big_endian_len(item.mode->Some_0 as nat, 4);
        assert(all.subrange(n + 21, n + 25) =~= bytes::big_endian(item.mode->Some_0 as nat, 4));
        assert(all.skip(n + 25) =~= item.link_target);
    } else {
        assert(all.skip(n + 21) =~= item.link_target);
    }
    assert(all.subrange(n, n + 8) =~= bytes::big_endian(item.length as nat, 8));
    assert(all.subrange(n + 8, n + 16) =~= bytes::big_endian(item.seconds as nat, 8));
    assert(all.subrange(n + 16, n + 20) =~= bytes::big_endian(item.nanoseconds as nat, 4));
}

/// Clearing a view removes exactly what is neither reserved nor ignored and
/// holds nothing that is, so that no ignored file is lost with its directory.
pub proof fn law_clearing_spares_what_is_ignored(
    rules: Seq<RuleText>,
    items: Seq<(Text, bool)>,
    from: int,
    path: Text,
)
    requires
        0 <= from <= items.len(),
    ensures
        cleared_from(rules, items, from).contains(path) <==> exists|i: int|
            from <= i < items.len() && (#[trigger] items[i]).0 == path && !pruned(path)
                && !config::ignored_by(rules, path, items[i].1) && forall|j: int|
                0 <= j < items.len() && (pruned((#[trigger] items[j]).0) || config::ignored_by(
                    rules,
                    items[j].0,
                    items[j].1,
                )) ==> !text::has_prefix(items[j].0, path + "/"@),
    decreases items.len() - from,
{
    let all = cleared_from(rules, items, from);
    if from < items.len() {
        let after = cleared_from(rules, items, from + 1);
        law_clearing_spares_what_is_ignored(rules, items, from + 1, path);
        if all.contains(path) {
            let k = choose|k: int| 0 <= k < all.len() && all[k] == path;
            if k < after.len() {
                assert(after[k] == path);
            } else {
                assert(items[from].0 == path);
                assert(removable(rules, items, from));
                assert forall|j: int|
                    0 <= j < items.len() && (pruned((#[trigger] items[j]).0) || config::ignored_by(
                        rules,
                        items[j].0,
                        items[j].1,
                    )) implies !text::has_prefix(items[j].0, path + "/"@) by {
                    assert(shielded(rules, items[j]));
                }
            }
        }
        if after.contains(path) {
            let k = choose|k: int| 0 <= k < after.len() && after[k] == path;
            assert(all[k] == path);
        }
        if items[from].0 == path && removable(rules, items, from) {
            assert(all[all.len() - 1] == path);
        }
        if exists|i: int|
            from <= i < items.len() && (#[trigger] items[i]).0 == path && !pruned(path)
                && !config::ignored_by(rules, path, items[i].1) && forall|j: int|
                0 <= j < items.len() && (pruned((#[trigger] items[j]).0) || config::ignored_by(
                    rules,
                    items[j].0,
                    items[j].1,
                )) ==> !text::has_prefix(items[j].0, path + "/"@) {
            let i = choose|i: int|
                from <= i < items.len() && (#[trigger] items[i]).0 == path && !pruned(path)
                    && !config::ignored_by(rules, path, items[i].1) && forall|j: int|
                    0 <= j < items.len() && (pruned((#[trigger] items[j]).0) || config::ignored_by(
                        rules,
                        items[j].0,
                        items[j].1,
                    )) ==> !text::has_prefix(items[j].0, path + "/"@);
            if i == from {
                assert(removable(rules, items, from));
                assert(all[all.len() - 1] == path);
            }
        }
    }
}

/// A walk is owed wherever each of its entries can be taken, and a scan wherever
/// moreover no two of the held paths are the same in lower case.
pub proof fn law_scan_is_owed(rules: Seq<RuleText>, items: Seq<ViewItem<Text>>)
    requires
        forall|i: int| 0 <= i < items.len() ==> item_outcome(rules, #[trigger] items[i]) is Ok,
    ensures
        walk_outcome(rules, items) is Ok,
        scan_outcome(rules, items) is Ok <==> view::collision_failure(
            model::normal_form(walk_outcome(rules, items)->Ok_0.entries),
        ) is None,
        scan_outcome(rules, items) matches Ok(scan) ==> scan.ignored == walk_outcome(
            rules,
            items,
        )->Ok_0.ignored && scan.objects == walk_outcome(rules, items)->Ok_0.objects,
    decreases items.len(),
{
    if items.len() > 0 {
        let shorter = items.drop_last();
        assert forall|i: int| 0 <= i < shorter.len() implies item_outcome(
            rules,
            #[trigger] shorter[i],
        ) is Ok by {
            assert(shorter[i] == items[i]);
        }
        law_scan_is_owed(rules, shorter);
        assert(items[items.len() - 1] == items.last());
    }
}

/// A stamp holds, in order, what each entry of a view adds to it, and nothing of
/// the entries that a walk does not enter.
pub proof fn law_stamp_is_of_every_entry(
    items: Seq<StampItem<Text, Seq<u8>>>,
    next: StampItem<Text, Seq<u8>>,
)
    requires
        stamp_outcome(items) is Ok,
    ensures
        ({
            let before = stamp_outcome(items)->Ok_0;
            let after = stamp_outcome(items.push(next));
            &&& next.relative is None ==> after is Err
            &&& next.relative is Some && pruned(next.relative->Some_0) ==> after == Ok::<
                Seq<u8>,
                Failure,
            >(before)
            &&& next.relative is Some && !pruned(next.relative->Some_0) ==> (after is Ok
                <==> paths::path_failure(next.relative->Some_0) is None)
            &&& next.relative is Some && !pruned(next.relative->Some_0) && after is Ok
                ==> after->Ok_0 == before + stamp_bytes(next, next.relative->Some_0)
        }),
{
    assert(items.push(next).drop_last() =~= items);
}

} // verus!
