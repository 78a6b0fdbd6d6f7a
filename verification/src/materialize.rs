//! What is written when a tree is materialized: the steps in order, each below
//! the destination and none through a symbolic link.
use vstd::prelude::*;
use crate::bytes;
use crate::error::{Failure, JavelinError, Result};
use crate::model::{EntryKind, Tree, TreeEntry};
use crate::paths;
use crate::paths::Component;
use crate::text;
use crate::text::Text;
use crate::view;

verus! {

/// Where components lead from a directory, given by its names below the root
/// of the tree; nowhere if they leave the tree.
pub open spec fn resolved(start: Seq<Text>, items: Seq<Component<Text>>) -> Option<Seq<Text>>
    decreases items.len(),
{
    if items.len() == 0 {
        Some(start)
    } else {
        match resolved(start, items.drop_last()) {
            None => None,
            Some(names) => match items.last() {
                Component::CurDir => Some(names),
                Component::ParentDir => if names.len() == 0 {
                    None
                } else {
                    Some(names.drop_last())
                },
                Component::Normal(name) => Some(names.push(name)),
                Component::RootDir => None,
            },
        }
    }
}

/// The names of the directory that holds the path.
pub open spec fn directory_names(path: Text) -> Seq<Text> {
    let items = paths::components(path);
    if items.len() == 0 {
        Seq::empty()
    } else {
        paths::normal_names(items.drop_last())
    }
}

/// The entries hold a directory at the path.
pub open spec fn has_directory(entries: Seq<TreeEntry<Text>>, path: Text) -> bool {
    exists|i: int|
        0 <= i < entries.len() && (#[trigger] entries[i]).path == path && entries[i].kind
            == EntryKind::Directory
}

/// The target of a link is a directory of the tree.
pub open spec fn leads_to_directory(
    entries: Seq<TreeEntry<Text>>,
    link_path: Text,
    target: Seq<u8>,
) -> bool {
    match bytes::utf8_text(target) {
        None => false,
        Some(path) => match resolved(directory_names(link_path), paths::components(path)) {
            None => false,
            Some(names) => has_directory(entries, text::joined(names, "/"@)),
        },
    }
}

proof fn lemma_resolved_none_stays(start: Seq<Text>, items: Seq<Component<Text>>, n: int)
    requires
        0 <= n <= items.len(),
        resolved(start, items.take(n)) is None,
    ensures
        resolved(start, items) is None,
    decreases items.len() - n,
{
    if n == items.len() {
        assert(items.take(n) =~= items);
    } else {
        assert(items.take(n + 1).drop_last() =~= items.take(n));
        lemma_resolved_none_stays(start, items, n + 1);
    }
}

fn resolve(start: Vec<String>, items: &Vec<Component>) -> (r: Option<Vec<String>>)
    ensures
        match resolved(start.deep_view(), items.deep_view()) {
            Some(names) => r is Some && r->Some_0.deep_view() == names,
            None => r is None,
        },
{
    let ghost from = start.deep_view();
    let ghost all = items.deep_view();
    let mut names = start;
    let mut i: usize = 0;
    assert(all.take(0) =~= Seq::empty());
    while i < items.len()
        invariant
            i <= items@.len(),
            all == items.deep_view(),
            from == start.deep_view(),
            resolved(from, all.take(i as int)) == Some(names.deep_view()),
        decreases items@.len() - i,
    {
        proof {
            assert(all.take(i as int + 1).drop_last() =~= all.take(i as int));
            assert(all.take(i as int + 1).last() == items@[i as int].deep_view());
        }
        let ghost before = names.deep_view();
        match &items[i] {
            Component::CurDir => {},
            Component::ParentDir => {
                if names.len() == 0 {
                    proof {
                        lemma_resolved_none_stays(from, all, i as int + 1);
                    }
                    return None;
                }
                names.pop();
                assert(names.deep_view() =~= before.drop_last());
            },
            Component::Normal(name) => {
                names.push(name.clone());
                assert(names.deep_view() =~= before.push(name@));
            },
            Component::RootDir => {
                proof {
                    lemma_resolved_none_stays(from, all, i as int + 1);
                }
                return None;
            },
        }
        i = i + 1;
    }
    assert(all.take(i as int) =~= all);
    Some(names)
}

/// Whether the target of a link is a directory of the tree, which decides what
/// kind of link some systems need.
pub fn symlink_target_is_directory(tree: &Tree, link_path: &str, target: &[u8]) -> (r: bool)
    ensures
        r == leads_to_directory(tree@, link_path@, target@),
{
    let target_path = match bytes::text_from_utf8(target) {
        Some(path) => path,
        None => {
            return false;
        },
    };
    let mut link = paths::components_of(link_path);
    let ghost whole = link.deep_view();
    if link.len() > 0 {
        link.pop();
        assert(link.deep_view() =~= whole.drop_last());
    }
    let start = paths::names_in(&link);
    proof {
        if whole.len() == 0 {
            assert(link.deep_view() =~= Seq::empty());
        }
    }
    let names = match resolve(start, &paths::components_of(target_path.as_str())) {
        Some(names) => names,
        None => {
            return false;
        },
    };
    let path = text::join(&names, "/");
    let mut i: usize = 0;
    while i < tree.entries.len()
        invariant
            i <= tree.entries@.len(),
            leads_to_directory(tree@, link_path@, target@) == has_directory(tree@, path@),
            forall|j: int|
                0 <= j < i ==> !((#[trigger] tree@[j]).path == path@ && tree@[j].kind
                    == EntryKind::Directory),
        decreases tree.entries@.len() - i,
    {
        assert(tree@[i as int] == tree.entries@[i as int]@);
        if tree.entries[i].path == path && tree.entries[i].kind == EntryKind::Directory {
            return true;
        }
        i = i + 1;
    }
    false
}

/// A step of a materialization.
#[derive(Debug, PartialEq, Eq)]
#[verifier::ext_equal]
pub enum Step<S = String> {
    /// Makes a directory and those above it.
    Directory { path: S },
    /// Copies a file of a materialized root.
    Copy { from: S, path: S, executable: bool },
    /// Writes the content of a blob.
    Blob { path: S, object_id: S, executable: bool },
    /// Makes a symbolic link with the content of a blob as its target.
    Link { path: S, object_id: S },
}

impl<S> Step<S> {
    pub open spec fn target(self) -> S {
        match self {
            Step::Directory { path } => path,
            Step::Copy { path, .. } => path,
            Step::Blob { path, .. } => path,
            Step::Link { path, .. } => path,
        }
    }
}

impl DeepView for Step {
    type V = Step<Text>;

    open spec fn deep_view(&self) -> Step<Text> {
        match self {
            Step::Directory { path } => Step::Directory { path: path@ },
            Step::Copy { from, path, executable } => Step::Copy {
                from: from@,
                path: path@,
                executable: *executable,
            },
            Step::Blob { path, object_id, executable } => Step::Blob {
                path: path@,
                object_id: object_id@,
                executable: *executable,
            },
            Step::Link { path, object_id } => Step::Link { path: path@, object_id: object_id@ },
        }
    }
}

/// Where a path stands below a directory.
pub open spec fn placed(directory: Text, path: Text) -> Text {
    let names = paths::normal_names(paths::components(path));
    paths::descended(directory, names, names.len() as int)
}

/// The step for an entry. Files come from a materialized root where there is
/// one, and from their blobs where there is none.
pub open spec fn step_outcome(
    source: Option<Text>,
    destination: Text,
    entry: TreeEntry<Text>,
) -> std::result::Result<Step<Text>, Failure> {
    let path = placed(destination, entry.path);
    match entry.kind {
        EntryKind::Directory => Ok(Step::Directory { path }),
        EntryKind::File => match source {
            Some(root) => Ok(
                Step::Copy { from: placed(root, entry.path), path, executable: entry.executable },
            ),
            None => match entry.object_id {
                Some(object_id) => Ok(
                    Step::Blob { path, object_id, executable: entry.executable },
                ),
                None => Err(Failure::corruption("file "@ + entry.path + " has no blob"@)),
            },
        },
        EntryKind::Symlink => match entry.object_id {
            Some(object_id) => Ok(Step::Link { path, object_id }),
            None => Err(Failure::corruption("symlink "@ + entry.path + " has no target"@)),
        },
    }
}

/// The way to the path leads through one of the links.
pub open spec fn through_link(destination: Text, path: Text, links: Seq<Text>) -> bool {
    exists|i: int|
        0 <= i < paths::parents(destination, path).len() && links.contains(
            #[trigger] paths::parents(destination, path)[i],
        )
}

/// The steps for entries, and the links that then stand below the destination.
pub open spec fn plan_outcome(
    source: Option<Text>,
    destination: Text,
    links: Seq<Text>,
    entries: Seq<TreeEntry<Text>>,
) -> std::result::Result<(Seq<Step<Text>>, Seq<Text>), Failure>
    decreases entries.len(),
{
    if entries.len() == 0 {
        Ok((Seq::empty(), links))
    } else {
        match plan_outcome(source, destination, links, entries.drop_last()) {
            Err(failure) => Err(failure),
            Ok((steps, seen)) => {
                let entry = entries.last();
                match paths::join_failure(entry.path) {
                    Some(failure) => Err(failure),
                    None => if through_link(destination, entry.path, seen) {
                        Err(
                            Failure::unsupported(
                                "symlink parent rejected for "@ + text::quoted(entry.path),
                            ),
                        )
                    } else {
                        match step_outcome(source, destination, entry) {
                            Err(failure) => Err(failure),
                            Ok(step) => Ok(
                                (
                                    steps.push(step),
                                    if entry.kind == EntryKind::Symlink {
                                        seen.push(step.target())
                                    } else {
                                        seen
                                    },
                                ),
                            ),
                        }
                    },
                }
            },
        }
    }
}

proof fn lemma_plan_failure_stays(
    source: Option<Text>,
    destination: Text,
    links: Seq<Text>,
    entries: Seq<TreeEntry<Text>>,
    n: int,
)
    requires
        0 <= n <= entries.len(),
        plan_outcome(source, destination, links, entries.take(n)) is Err,
    ensures
        plan_outcome(source, destination, links, entries) == plan_outcome(
            source,
            destination,
            links,
            entries.take(n),
        ),
    decreases entries.len() - n,
{
    if n == entries.len() {
        assert(entries.take(n) =~= entries);
    } else {
        assert(entries.take(n + 1).drop_last() =~= entries.take(n));
        lemma_plan_failure_stays(source, destination, links, entries, n + 1);
    }
}

fn step_for(source: &Option<String>, destination: &str, entry: &TreeEntry, path: String) -> (r:
    Result<Step>)
    requires
        paths::join_failure(entry@.path) is None,
        path@ == placed(destination@, entry@.path),
    ensures
        match step_outcome(source.deep_view(), destination@, entry@) {
            Err(failure) => r is Err && r->Err_0@ == failure,
            Ok(step) => r is Ok && r->Ok_0.deep_view() == step,
        },
{
    match entry.kind {
        EntryKind::Directory => Ok(Step::Directory { path }),
        EntryKind::File => match source {
            Some(root) => {
                let none: Vec<String> = Vec::new();
                proof {
                    assert(none.deep_view() =~= Seq::empty());
                }
                let from = paths::safe_join(root.as_str(), entry.path.as_str(), &none)?;
                Ok(Step::Copy { from, path, executable: entry.executable })
            },
            None => match &entry.object_id {
                Some(object_id) => Ok(
                    Step::Blob { path, object_id: object_id.clone(), executable: entry.executable },
                ),
                None => Err(
                    JavelinError::corruption(
                        text::concat3("file ", entry.path.as_str(), " has no blob"),
                    ),
                ),
            },
        },
        EntryKind::Symlink => match &entry.object_id {
            Some(object_id) => Ok(Step::Link { path, object_id: object_id.clone() }),
            None => Err(
                JavelinError::corruption(
                    text::concat3("symlink ", entry.path.as_str(), " has no target"),
                ),
            ),
        },
    }
}

/// The steps that write a tree. `links` names the symbolic links that already
/// stand below the destination.
pub fn plan(source: &Option<String>, destination: &str, links: Vec<String>, tree: &Tree) -> (r:
    Result<Vec<Step>>)
    ensures
        match plan_outcome(source.deep_view(), destination@, links.deep_view(), tree@) {
            Err(failure) => r is Err && r->Err_0@ == failure,
            Ok((steps, _)) => r is Ok && r->Ok_0.deep_view() == steps,
        },
{
    let ghost start = links.deep_view();
    let ghost from = source.deep_view();
    let ghost all = tree@;
    let mut seen = links;
    let mut steps: Vec<Step> = Vec::new();
    let mut i: usize = 0;
    assert(all.take(0) =~= Seq::empty());
    assert(steps.deep_view() =~= Seq::empty());
    while i < tree.entries.len()
        invariant
            i <= tree.entries@.len(),
            all == tree@,
            from == source.deep_view(),
            start == links.deep_view(),
            plan_outcome(from, destination@, start, all.take(i as int)) == Ok::<
                (Seq<Step<Text>>, Seq<Text>),
                Failure,
            >((steps.deep_view(), seen.deep_view())),
        decreases tree.entries@.len() - i,
    {
        let entry = &tree.entries[i];
        proof {
            assert(all.take(i as int + 1).drop_last() =~= all.take(i as int));
            assert(all.take(i as int + 1).last() == entry@);
        }
        let ghost steps_before = steps.deep_view();
        let ghost seen_before = seen.deep_view();
        let path = match paths::safe_join(destination, entry.path.as_str(), &seen) {
            Ok(path) => path,
            Err(error) => {
                proof {
                    lemma_plan_failure_stays(from, destination@, start, all, i as int + 1);
                }
                return Err(error);
            },
        };
        let target = path.clone();
        match step_for(source, destination, entry, path) {
            Ok(step) => {
                steps.push(step);
                assert(steps.deep_view() =~= steps_before.push(step.deep_view()));
            },
            Err(error) => {
                proof {
                    lemma_plan_failure_stays(from, destination@, start, all, i as int + 1);
                }
                return Err(error);
            },
        }
        if entry.kind == EntryKind::Symlink {
            seen.push(target);
            assert(seen.deep_view() =~= seen_before.push(target@));
        }
        i = i + 1;
    }
    assert(all.take(i as int) =~= all);
    Ok(steps)
}

/// The steps that write a view from the materialized copy of its root tree.
pub fn materialize_tree_from_cache(
    tree: &Tree,
    root_id: &str,
    metadata: &str,
    destination: &str,
    links: Vec<String>,
) -> (r: Result<Vec<Step>>)
    ensures
        match plan_outcome(
            Some(paths::joined_path(paths::joined_path(metadata@, "materialized"@), root_id@)),
            destination@,
            links.deep_view(),
            tree@,
        ) {
            Err(failure) => r is Err && r->Err_0@ == failure,
            Ok((steps, _)) => r is Ok && r->Ok_0.deep_view() == steps,
        },
{
    plan(&Some(view::managed_cache_path(metadata, root_id)), destination, links, tree)
}

/// The steps that write the materialized copy of a root tree itself.
pub fn populate_snapshot(tree: &Tree, destination: &str) -> (r: Result<Vec<Step>>)
    ensures
        match plan_outcome(None, destination@, Seq::empty(), tree@) {
            Err(failure) => r is Err && r->Err_0@ == failure,
            Ok((steps, _)) => r is Ok && r->Ok_0.deep_view() == steps,
        },
{
    let links: Vec<String> = Vec::new();
    assert(links.deep_view() =~= Seq::empty());
    plan(&None, destination, links, tree)
}

/// One step an entry, each at the entry's own place below the destination, and
/// none on a way through a link that stood there or that an earlier step made.
pub proof fn law_plan_is_contained(
    source: Option<Text>,
    destination: Text,
    links: Seq<Text>,
    entries: Seq<TreeEntry<Text>>,
)
    requires
        plan_outcome(source, destination, links, entries) is Ok,
    ensures
        ({
            let (steps, seen) = plan_outcome(source, destination, links, entries)->Ok_0;
            &&& steps.len() == entries.len()
            &&& forall|i: int|
                0 <= i < steps.len() ==> (#[trigger] steps[i]).target() == placed(
                    destination,
                    entries[i].path,
                ) && text::has_prefix(steps[i].target(), destination)
            &&& forall|i: int|
                0 <= i < steps.len() ==> !through_link(
                    destination,
                    (#[trigger] entries[i]).path,
                    links,
                )
            &&& forall|i: int, j: int|
                0 <= i < j < steps.len() && (#[trigger] steps[i]) is Link ==> !paths::parents(
                    destination,
                    (#[trigger] entries[j]).path,
                ).contains(steps[i].target())
            &&& forall|link: Text| links.contains(link) ==> #[trigger] seen.contains(link)
            &&& forall|i: int|
                0 <= i < steps.len() && (#[trigger] steps[i]) is Link ==> seen.contains(
                    steps[i].target(),
                )
        }),
    decreases entries.len(),
{
    if entries.len() > 0 {
        let shorter = entries.drop_last();
        law_plan_is_contained(source, destination, links, shorter);
        let (before, known) = plan_outcome(source, destination, links, shorter)->Ok_0;
        let (steps, seen) = plan_outcome(source, destination, links, entries)->Ok_0;
        let last = entries.len() - 1;
        let entry = entries[last];
        assert(entry == entries.last());
        let step = steps[last];
        let names = paths::normal_names(paths::components(entry.path));
        paths::lemma_joined_below(destination, names, names.len() as int);
        assert(step.target() == placed(destination, entry.path));
        assert(forall|i: int| 0 <= i < last ==> steps[i] == before[i] && shorter[i] == entries[i]);
        assert forall|link: Text| links.contains(link) implies #[trigger] seen.contains(link) by {
            assert(known.contains(link));
            let k = choose|k: int| 0 <= k < known.len() && known[k] == link;
            assert(seen[k] == link);
        }
        assert forall|i: int| 0 <= i < steps.len() && (
        #[trigger] steps[i]) is Link implies seen.contains(steps[i].target()) by {
            if i < last {
                assert(known.contains(before[i].target()));
                let k = choose|k: int| 0 <= k < known.len() && known[k] == before[i].target();
                assert(seen[k] == steps[i].target());
            } else {
                assert(entry.kind == EntryKind::Symlink);
                assert(seen[known.len() as int] == step.target());
            }
        }
        assert(!through_link(destination, entry.path, known));
        assert(!through_link(destination, entry.path, links)) by {
            if through_link(destination, entry.path, links) {
                let i = choose|i: int|
                    0 <= i < paths::parents(destination, entry.path).len() && links.contains(
                        #[trigger] paths::parents(destination, entry.path)[i],
                    );
                assert(known.contains(paths::parents(destination, entry.path)[i]));
            }
        }
        assert forall|i: int, j: int| 0 <= i < j < steps.len() && (
        #[trigger] steps[i]) is Link implies !paths::parents(
            destination,
            (#[trigger] entries[j]).path,
        ).contains(steps[i].target()) by {
            if j == last {
                assert(known.contains(before[i].target()));
                let way = paths::parents(destination, entry.path);
                if way.contains(steps[i].target()) {
                    let k = choose|k: int| 0 <= k < way.len() && way[k] == steps[i].target();
                    assert(known.contains(way[k]));
                }
            } else {
                assert(before[i] is Link);
                assert(shorter[j] == entries[j]);
            }
        }
    }
}

/// Each step makes of an entry what the entry is: a directory, a file with the
/// entry's content and executable bit, or a link with the entry's target. A file
/// comes from the given root where there is one and from its blob otherwise.
pub proof fn law_step_makes_the_entry(
    source: Option<Text>,
    destination: Text,
    entry: TreeEntry<Text>,
)
    ensures
        ({
            let step = step_outcome(source, destination, entry);
            let path = placed(destination, entry.path);
            &&& entry.kind == EntryKind::Directory ==> step == Ok::<Step<Text>, Failure>(
                Step::Directory { path },
            )
            &&& entry.kind == EntryKind::Symlink && entry.object_id is Some ==> step == Ok::<
                Step<Text>,
                Failure,
            >(Step::Link { path, object_id: entry.object_id->Some_0 })
            &&& entry.kind == EntryKind::File && source is None && entry.object_id is Some ==> step
                == Ok::<Step<Text>, Failure>(
                Step::Blob {
                    path,
                    object_id: entry.object_id->Some_0,
                    executable: entry.executable,
                },
            )
            &&& entry.kind == EntryKind::File && source is Some ==> step == Ok::<
                Step<Text>,
                Failure,
            >(
                Step::Copy {
                    from: placed(source->Some_0, entry.path),
                    path,
                    executable: entry.executable,
                },
            )
            &&& entry.object_id is None && (entry.kind == EntryKind::Symlink || entry.kind
                == EntryKind::File && source is None) ==> step is Err && step->Err_0.exit_code == 7
        }),
{
}

/// A link that climbs out of the tree leads nowhere in it, nor does one that
/// starts at the root; a step up undoes a step down.
pub proof fn law_links_stay_in_the_tree(
    start: Seq<Text>,
    items: Seq<Component<Text>>,
    name: Text,
)
    ensures
        resolved(Seq::empty(), seq![Component::ParentDir]) is None,
        resolved(start, items.push(Component::RootDir)) is None,
        resolved(start, items.push(Component::Normal(name)).push(Component::ParentDir))
            == resolved(start, items),
        resolved(start, items.push(Component::CurDir)) == resolved(start, items),
        resolved(start, items) is Some ==> resolved(start, items.push(Component::Normal(name)))
            == Some(resolved(start, items)->Some_0.push(name)),
        resolved(start, items) is None ==> resolved(start, items.push(Component::Normal(name)))
            is None,
{
    let climb = seq![Component::<Text>::ParentDir];
    assert(climb.drop_last() =~= Seq::empty());
    assert(resolved(Seq::empty(), climb.drop_last()) == Some(Seq::<Text>::empty()));
    assert(climb.last() == Component::<Text>::ParentDir);
    assert(items.push(Component::RootDir).drop_last() =~= items);
    assert(items.push(Component::CurDir).drop_last() =~= items);
    let down = items.push(Component::Normal(name));
    assert(down.drop_last() =~= items);
    assert(down.push(Component::ParentDir).drop_last() =~= down);
    if let Some(names) = resolved(start, items) {
        assert(names.push(name).drop_last() =~= names);
    }
}

/// A plain path is put below a directory letter for letter.
pub proof fn law_entry_is_put_at_its_path(directory: Text, path: Text)
    requires
        directory.len() > 0,
        directory.last() != '/',
        paths::plain(path),
    ensures
        placed(directory, path) == directory + "/"@ + path,
{
    paths::law_plain_path_stands_below(directory, path);
}

/// A link leads to a directory exactly where its target is text and, followed
/// from the directory that holds the link, ends at a directory of the tree.
pub proof fn law_link_is_followed_from_where_it_stands(
    entries: Seq<TreeEntry<Text>>,
    link_path: Text,
    target: Seq<u8>,
)
    ensures
        leads_to_directory(entries, link_path, target) ==> {
            let names = resolved(
                directory_names(link_path),
                paths::components(vstd::utf8::decode_utf8(target)),
            );
            &&& vstd::utf8::valid_utf8(target)
            &&& names is Some
            &&& exists|i: int|
                0 <= i < entries.len() && (#[trigger] entries[i]).kind == EntryKind::Directory
                    && entries[i].path == text::joined(names->Some_0, "/"@)
        },
        !vstd::utf8::valid_utf8(target) ==> !leads_to_directory(entries, link_path, target),
        vstd::utf8::valid_utf8(target) && paths::absolute(vstd::utf8::decode_utf8(target))
            ==> !leads_to_directory(entries, link_path, target),
{
    if vstd::utf8::valid_utf8(target) {
        let path = vstd::utf8::decode_utf8(target);
        let items = paths::components(path);
        if leads_to_directory(entries, link_path, target) {
            let names = resolved(directory_names(link_path), items)->Some_0;
            let i = choose|i: int|
                0 <= i < entries.len() && (#[trigger] entries[i]).path == text::joined(
                    names,
                    "/"@,
                ) && entries[i].kind == EntryKind::Directory;
            assert(entries[i].kind == EntryKind::Directory);
        }
        if paths::absolute(path) {
            assert(items[0] == Component::<Text>::RootDir);
            assert(items.take(1).drop_last() =~= Seq::empty());
            assert(items.take(1).last() == Component::<Text>::RootDir);
            assert(resolved(directory_names(link_path), items.take(1)) is None);
            lemma_resolved_none_stays(directory_names(link_path), items, 1);
        }
    }
}

/// The directory that holds a path is the path without its last name.
pub proof fn law_directory_is_the_path_without_its_name(path: Text)
    requires
        paths::plain(path),
        paths::components(path).len() > 0,
        paths::components(path).last() is Normal,
    ensures
        directory_names(path) == paths::normal_names(paths::components(path)).drop_last(),
{
    let items = paths::components(path);
    let before = paths::normal_names(items.drop_last());
    assert(paths::normal_names(items) == before.push(items.last()->Normal_0));
    assert(paths::normal_names(items).drop_last() =~= before);
}

/// A tree can be put on disk wherever each of its paths may stand below the
/// destination, no way leads through a link, and files and links have their
/// objects.
pub proof fn law_plan_is_owed(
    source: Option<Text>,
    destination: Text,
    entries: Seq<TreeEntry<Text>>,
)
    requires
        forall|i: int|
            0 <= i < entries.len() ==> paths::join_failure((#[trigger] entries[i]).path) is None
                && entries[i].kind != EntryKind::Symlink && (entries[i].kind == EntryKind::File
                && source is None ==> entries[i].object_id is Some),
    ensures
        plan_outcome(source, destination, Seq::empty(), entries) is Ok,
        plan_outcome(source, destination, Seq::empty(), entries)->Ok_0.1.len() == 0,
    decreases entries.len(),
{
    if entries.len() > 0 {
        let shorter = entries.drop_last();
        assert forall|i: int| 0 <= i < shorter.len() implies paths::join_failure(
            (#[trigger] shorter[i]).path,
        ) is None && shorter[i].kind != EntryKind::Symlink && (shorter[i].kind == EntryKind::File
            && source is None ==> shorter[i].object_id is Some) by {
            assert(shorter[i] == entries[i]);
        }
        law_plan_is_owed(source, destination, shorter);
        assert(entries[entries.len() - 1] == entries.last());
        let seen = plan_outcome(source, destination, Seq::empty(), shorter)->Ok_0.1;
        assert(!through_link(destination, entries.last().path, seen));
    }
}

} // verus!
