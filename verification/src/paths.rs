//! Relative paths: which ones a tree may hold, and where they stand in a view.
use vstd::prelude::*;
use crate::error::{Failure, JavelinError, Result};
use crate::model::{Layer, ViewMarker};
use crate::text;
use crate::text::Text;

verus! {

/// Where a command was called: the World, its metadata, and the Layer whose
/// view surrounds the working directory.
#[verifier::ext_equal]
#[derive(Debug)]
pub struct ProjectContext<S = String> {
    pub root: S,
    pub metadata: S,
    pub layer_id: S,
    pub view: S,
}

impl View for ProjectContext {
    type V = ProjectContext<Text>;

    open spec fn view(&self) -> ProjectContext<Text> {
        ProjectContext {
            root: self.root@,
            metadata: self.metadata@,
            layer_id: self.layer_id@,
            view: self.view@,
        }
    }
}

/// A component of a path with separators `/`.
#[derive(Debug, PartialEq, Eq)]
pub enum Component<S = String> {
    RootDir,
    CurDir,
    ParentDir,
    Normal(S),
}

/// What the parts of a path before `end` stand for: an empty part for nothing,
/// `.` for the current directory at the start and for nothing later.
pub open spec fn components_to(parts: Seq<Text>, end: int) -> Seq<Component<Text>>
    decreases end,
{
    if end <= 0 {
        Seq::empty()
    } else {
        let before = components_to(parts, end - 1);
        let part = parts[end - 1];
        if part.len() == 0 {
            before
        } else if part == "."@ {
            if end == 1 {
                before.push(Component::CurDir)
            } else {
                before
            }
        } else if part == ".."@ {
            before.push(Component::ParentDir)
        } else {
            before.push(Component::Normal(part))
        }
    }
}

/// The path starts at the root directory.
pub open spec fn absolute(path: Text) -> bool {
    path.len() > 0 && path[0] == '/'
}

/// The components of a path.
pub open spec fn components(path: Text) -> Seq<Component<Text>> {
    let parts = text::split(path, '/');
    if absolute(path) {
        seq![Component::RootDir] + components_to(parts, parts.len() as int)
    } else {
        components_to(parts, parts.len() as int)
    }
}

/// The names among the components.
pub open spec fn normal_names(items: Seq<Component<Text>>) -> Seq<Text>
    decreases items.len(),
{
    if items.len() == 0 {
        Seq::empty()
    } else {
        let before = normal_names(items.drop_last());
        match items.last() {
            Component::Normal(name) => before.push(name),
            _ => before,
        }
    }
}

impl DeepView for Component {
    type V = Component<Text>;

    open spec fn deep_view(&self) -> Component<Text> {
        match self {
            Component::RootDir => Component::RootDir,
            Component::CurDir => Component::CurDir,
            Component::ParentDir => Component::ParentDir,
            Component::Normal(name) => Component::Normal(name@),
        }
    }
}

/// Splits a path into its components.
pub fn components_of(path: &str) -> (r: Vec<Component>)
    ensures
        r.deep_view() == components(path@),
{
    let parts = text::split_on(path, '/');
    let ghost all = parts.deep_view();
    let mut out: Vec<Component> = Vec::new();
    let ghost start: Seq<Component<Text>> = Seq::empty();
    let chars = text::chars_of(path);
    if chars.len() > 0 && chars[0] == '/' {
        out.push(Component::RootDir);
        proof {
            start = seq![Component::RootDir];
        }
    }
    assert(out.deep_view() =~= start + components_to(all, 0));
    let mut i: usize = 0;
    while i < parts.len()
        invariant
            i <= parts@.len(),
            all == parts.deep_view(),
            out.deep_view() == start + components_to(all, i as int),
        decreases parts@.len() - i,
    {
        let part = parts[i].as_str();
        let ghost before = out.deep_view();
        assert(all[i as int] == part@);
        if part.is_empty() {
        } else if text::same(part, ".") {
            if i == 0 {
                out.push(Component::CurDir);
                assert(out.deep_view() =~= before.push(Component::CurDir));
            }
        } else if text::same(part, "..") {
            out.push(Component::ParentDir);
            assert(out.deep_view() =~= before.push(Component::ParentDir));
        } else {
            out.push(Component::Normal(part.to_owned()));
            assert(out.deep_view() =~= before.push(Component::Normal(part@)));
        }
        i = i + 1;
        assert(out.deep_view() =~= start + components_to(all, i as int));
    }
    assert(!absolute(path@) ==> start + components_to(all, all.len() as int) =~= components(path@));
    out
}

/// A name that no tree holds: Javelin's own metadata and the directories of
/// other version control systems, whatever the case of its letters.
pub open spec fn reserved_name(name: Text) -> bool {
    ||| text::same_but_case(name, ".javelin"@)
    ||| text::same_but_case(name, ".javelin-view"@)
    ||| text::same_but_case(name, ".git"@)
    ||| text::same_but_case(name, ".hg"@)
    ||| text::same_but_case(name, ".svn"@)
}

pub fn is_reserved_name(name: &str) -> (r: bool)
    ensures
        r == reserved_name(name@),
{
    text::same_ignoring_case(name, ".javelin") || text::same_ignoring_case(name, ".javelin-view")
        || text::same_ignoring_case(name, ".git") || text::same_ignoring_case(name, ".hg")
        || text::same_ignoring_case(name, ".svn")
}

/// The first name of the path is reserved.
pub open spec fn reserved(path: Text) -> bool {
    let names = normal_names(components(path));
    names.len() > 0 && reserved_name(names[0])
}

/// The first name of a path.
fn first_name(path: &str) -> (r: Option<String>)
    ensures
        r.deep_view() == if normal_names(components(path@)).len() > 0 {
            Some(normal_names(components(path@))[0])
        } else {
            None
        },
{
    let items = components_of(path);
    let ghost all = items.deep_view();
    let mut i: usize = 0;
    assert(all.take(0) =~= Seq::empty());
    while i < items.len()
        invariant
            i <= items@.len(),
            all == items.deep_view(),
            all == components(path@),
            normal_names(all.take(i as int)).len() == 0,
        decreases items@.len() - i,
    {
        proof {
            assert(all.take(i as int + 1).drop_last() =~= all.take(i as int));
            assert(all.take(i as int + 1).last() == items@[i as int].deep_view());
        }
        if let Component::Normal(name) = &items[i] {
            proof {
                assert(normal_names(all.take(i as int + 1)) =~= seq![name@]);
                lemma_normal_names_prefix(all, i as int + 1);
            }
            return Some(name.clone());
        }
        i = i + 1;
    }
    assert(all.take(i as int) =~= all);
    None
}

/// The names of a prefix of the components come first.
proof fn lemma_normal_names_prefix(items: Seq<Component<Text>>, n: int)
    requires
        0 <= n <= items.len(),
    ensures
        normal_names(items.take(n)).len() <= normal_names(items).len(),
        forall|i: int|
            0 <= i < normal_names(items.take(n)).len() ==> normal_names(items)[i] == normal_names(
                items.take(n),
            )[i],
    decreases items.len() - n,
{
    if n == items.len() {
        assert(items.take(n) =~= items);
    } else {
        assert(items.take(n + 1).drop_last() =~= items.take(n));
        lemma_normal_names_prefix(items, n + 1);
    }
}

/// The path, or a single file name, is reserved.
pub fn is_reserved_path(path: &str) -> (r: bool)
    ensures
        r == reserved(path@),
{
    match first_name(path) {
        Some(name) => is_reserved_name(name.as_str()),
        None => false,
    }
}

/// Some part of the path is the parent directory.
pub open spec fn has_parent(path: Text) -> bool {
    components(path).contains(Component::ParentDir)
}

/// Why a tree may not hold a path, if it may not.
pub open spec fn path_failure(path: Text) -> Option<Failure> {
    if path.len() == 0 || path.contains('\0') || path.contains('\\') {
        Some(Failure::unsupported("unsafe or unsupported path "@ + text::quoted(path)))
    } else if absolute(path) || has_parent(path) || reserved(path) {
        Some(Failure::unsupported("unsafe path "@ + text::quoted(path)))
    } else {
        None
    }
}

fn has_parent_part(path: &str) -> (r: bool)
    ensures
        r == has_parent(path@),
{
    let items = components_of(path);
    let mut i: usize = 0;
    while i < items.len()
        invariant
            i <= items@.len(),
            items.deep_view() == components(path@),
            forall|j: int| 0 <= j < i ==> !((#[trigger] items@[j]) is ParentDir),
        decreases items@.len() - i,
    {
        if let Component::ParentDir = &items[i] {
            assert(components(path@)[i as int] == Component::<Text>::ParentDir);
            return true;
        }
        i = i + 1;
    }
    assert forall|j: int| 0 <= j < components(path@).len() implies components(path@)[j]
        != Component::<Text>::ParentDir by {
        assert(!(items@[j] is ParentDir));
    }
    false
}

/// Accepts a path exactly when a tree may hold it.
pub fn validate_relative(path: &str) -> (r: Result<()>)
    ensures
        match path_failure(path@) {
            Some(failure) => r is Err && r->Err_0@ == failure,
            None => r is Ok,
        },
{
    if path.is_empty() || text::has_char(path, '\0') || text::has_char(path, '\\') {
        return Err(
            JavelinError::unsupported(
                text::concat2("unsafe or unsupported path ", text::quote(path).as_str()),
            ),
        );
    }
    let chars = text::chars_of(path);
    if chars[0] == '/' || has_parent_part(path) || is_reserved_path(path) {
        return Err(
            JavelinError::unsupported(
                text::concat2("unsafe path ", text::quote(path).as_str()),
            ),
        );
    }
    Ok(())
}

/// A directory followed by a name, with one separator between them.
pub open spec fn joined_path(directory: Text, name: Text) -> Text {
    if directory.len() == 0 || directory.last() == '/' {
        directory + name
    } else {
        directory + "/"@ + name
    }
}

pub fn join_path(directory: &str, name: &str) -> (r: String)
    ensures
        r@ == joined_path(directory@, name@),
{
    let chars = text::chars_of(directory);
    if chars.len() == 0 || chars[chars.len() - 1] == '/' {
        text::concat2(directory, name)
    } else {
        text::concat3(directory, "/", name)
    }
}

/// A directory followed by the first `end` names.
pub open spec fn descended(root: Text, names: Seq<Text>, end: int) -> Text
    decreases end,
{
    if end <= 0 {
        root
    } else {
        joined_path(descended(root, names, end - 1), names[end - 1])
    }
}

/// All components are names.
pub open spec fn all_normal(items: Seq<Component<Text>>) -> bool {
    normal_names(items).len() == items.len()
}

/// The names of a path that consists of names.
fn names_of(path: &str) -> (r: Option<Vec<String>>)
    ensures
        match r {
            Some(names) => all_normal(components(path@)) && names.deep_view() == normal_names(
                components(path@),
            ),
            None => !all_normal(components(path@)),
        },
{
    let items = components_of(path);
    let ghost all = items.deep_view();
    let mut names: Vec<String> = Vec::new();
    let mut i: usize = 0;
    assert(all.take(0) =~= Seq::empty());
    assert(names.deep_view() =~= Seq::empty());
    while i < items.len()
        invariant
            i <= items@.len(),
            all == items.deep_view(),
            all == components(path@),
            names.deep_view() == normal_names(all.take(i as int)),
            names@.len() == i,
        decreases items@.len() - i,
    {
        proof {
            assert(all.take(i as int + 1).drop_last() =~= all.take(i as int));
            assert(all.take(i as int + 1).last() == items@[i as int].deep_view());
        }
        match &items[i] {
            Component::Normal(name) => {
                let ghost before = names.deep_view();
                names.push(name.clone());
                assert(names.deep_view() =~= before.push(name@));
            },
            _ => {
                proof {
                    lemma_count_from(all, i as int + 1);
                }
                return None;
            },
        }
        i = i + 1;
    }
    assert(all.take(i as int) =~= all);
    Some(names)
}

/// The names of a path, whatever else stands between them.
pub fn all_names(path: &str) -> (r: Vec<String>)
    ensures
        r.deep_view() == normal_names(components(path@)),
{
    names_in(&components_of(path))
}

/// The names among components.
pub fn names_in(items: &Vec<Component>) -> (r: Vec<String>)
    ensures
        r.deep_view() == normal_names(items.deep_view()),
{
    let ghost all = items.deep_view();
    let mut names: Vec<String> = Vec::new();
    let mut i: usize = 0;
    assert(all.take(0) =~= Seq::empty());
    assert(names.deep_view() =~= Seq::empty());
    while i < items.len()
        invariant
            i <= items@.len(),
            all == items.deep_view(),
            names.deep_view() == normal_names(all.take(i as int)),
        decreases items@.len() - i,
    {
        proof {
            assert(all.take(i as int + 1).drop_last() =~= all.take(i as int));
            assert(all.take(i as int + 1).last() == items@[i as int].deep_view());
        }
        if let Component::Normal(name) = &items[i] {
            let ghost before = names.deep_view();
            names.push(name.clone());
            assert(names.deep_view() =~= before.push(name@));
        }
        i = i + 1;
    }
    assert(all.take(i as int) =~= all);
    names
}

/// A missing name is never made up for.
proof fn lemma_count_from(items: Seq<Component<Text>>, n: int)
    requires
        0 <= n <= items.len(),
    ensures
        normal_names(items).len() - normal_names(items.take(n)).len() <= items.len() - n,
    decreases items.len() - n,
{
    if n == items.len() {
        assert(items.take(n) =~= items);
    } else {
        assert(items.take(n + 1).drop_last() =~= items.take(n));
        lemma_count_from(items, n + 1);
    }
}

/// The directories that a joined path leads through.
pub open spec fn parents(root: Text, relative: Text) -> Seq<Text> {
    let names = normal_names(components(relative));
    Seq::new((names.len() - 1) as nat, |i: int| descended(root, names, i + 1))
}

/// The directories that [`safe_join`] leads through, which a caller looks up
/// to see which of them are symbolic links.
pub fn parent_paths(root: &str, relative: &str) -> (r: Result<Vec<String>>)
    ensures
        match join_failure(relative@) {
            Some(failure) => r is Err && r->Err_0@ == failure,
            None => r is Ok && r->Ok_0.deep_view() == parents(root@, relative@),
        },
{
    validate_relative(relative)?;
    let names = match names_of(relative) {
        Some(names) => names,
        None => {
            return Err(
                JavelinError::unsupported(
                    text::concat2("unsafe path ", text::quote(relative).as_str()),
                ),
            );
        },
    };
    let mut out: Vec<String> = Vec::new();
    let mut current = root.to_owned();
    let mut i: usize = 0;
    proof {
        lemma_names_nonempty(relative@);
    }
    while i < names.len() - 1
        invariant
            0 < names@.len(),
            i + 1 <= names@.len(),
            names.deep_view() == normal_names(components(relative@)),
            current@ == descended(root@, names.deep_view(), i as int),
            out@.len() == i,
            forall|j: int|
                0 <= j < i ==> (#[trigger] out@[j])@ == descended(root@, names.deep_view(), j + 1),
        decreases names@.len() - i,
    {
        current = join_path(current.as_str(), names[i].as_str());
        out.push(current.clone());
        i = i + 1;
    }
    assert(out.deep_view() =~= parents(root@, relative@));
    Ok(out)
}

/// Why no path can be joined to a directory, if none can.
pub open spec fn join_failure(relative: Text) -> Option<Failure> {
    match path_failure(relative) {
        Some(failure) => Some(failure),
        None => if all_normal(components(relative)) {
            None
        } else {
            Some(Failure::unsupported("unsafe path "@ + text::quoted(relative)))
        },
    }
}

/// A path that is not empty and does not start at the root has a component.
proof fn lemma_names_nonempty(path: Text)
    requires
        path.len() > 0,
        !absolute(path),
        all_normal(components(path)),
    ensures
        normal_names(components(path)).len() > 0,
{
    let parts = text::split(path, '/');
    lemma_first_part(path);
    lemma_components_grow(parts, 1);
    assert(components_to(parts, 0) =~= Seq::<Component<Text>>::empty());
    assert(components_to(parts, 1).len() == 1);
}

proof fn lemma_components_grow(parts: Seq<Text>, n: int)
    requires
        0 <= n <= parts.len(),
    ensures
        components_to(parts, n).len() <= components_to(parts, parts.len() as int).len(),
    decreases parts.len() - n,
{
    if n < parts.len() {
        lemma_components_grow(parts, n + 1);
    }
}

/// The first part of a path that does not start with a separator is not empty.
proof fn lemma_first_part(path: Text)
    requires
        path.len() > 0,
        path[0] != '/',
    ensures
        text::split(path, '/').len() > 0,
        text::split(path, '/')[0].len() > 0,
    decreases path.len(),
{
    let shorter = path.drop_last();
    text::lemma_split_nonempty(shorter, '/');
    if path.len() == 1 {
        assert(text::split(shorter, '/') =~= seq![Seq::<char>::empty()]);
        assert(path.last() != '/');
    } else {
        lemma_first_part(shorter);
    }
}

/// Joins a relative path to a directory. No directory on the way may be a
/// symbolic link: `links` names those that are.
pub fn safe_join(root: &str, relative: &str, links: &Vec<String>) -> (r: Result<String>)
    ensures
        match join_failure(relative@) {
            Some(failure) => r is Err && r->Err_0@ == failure,
            None => if exists|i: int|
                0 <= i < parents(root@, relative@).len() && links.deep_view().contains(
                    #[trigger] parents(root@, relative@)[i],
                ) {
                r is Err && r->Err_0@ == Failure::unsupported(
                    "symlink parent rejected for "@ + text::quoted(relative@),
                )
            } else {
                let names = normal_names(components(relative@));
                r is Ok && r->Ok_0@ == descended(root@, names, names.len() as int)
            },
        },
{
    let on_the_way = parent_paths(root, relative)?;
    let ghost all = parents(root@, relative@);
    let mut i: usize = 0;
    while i < on_the_way.len()
        invariant
            i <= on_the_way@.len(),
            all == on_the_way.deep_view(),
            all == parents(root@, relative@),
            join_failure(relative@) is None,
            forall|j: int| 0 <= j < i ==> !links.deep_view().contains(#[trigger] all[j]),
        decreases on_the_way@.len() - i,
    {
        assert(all[i as int] == on_the_way@[i as int]@);
        if text::list_contains(links, on_the_way[i].as_str()) {
            return Err(
                JavelinError::unsupported(
                    text::concat2(
                        "symlink parent rejected for ",
                        text::quote(relative).as_str(),
                    ),
                ),
            );
        }
        i = i + 1;
    }
    proof {
        lemma_names_nonempty(relative@);
    }
    match names_of(relative) {
        Some(names) => {
            let mut current = root.to_owned();
            let mut k: usize = 0;
            while k < names.len()
                invariant
                    k <= names@.len(),
                    current@ == descended(root@, names.deep_view(), k as int),
                decreases names@.len() - k,
            {
                current = join_path(current.as_str(), names[k].as_str());
                k = k + 1;
            }
            Ok(current)
        },
        None => Err(
            JavelinError::unsupported(
                text::concat2("unsafe path ", text::quote(relative).as_str()),
            ),
        ),
    }
}

/// A path that a tree may hold, joined to a directory, stays below it: what
/// follows the directory is made of the path's own names alone.
pub proof fn lemma_joined_below(root: Text, names: Seq<Text>, end: int)
    requires
        0 <= end <= names.len(),
    ensures
        text::has_prefix(descended(root, names, end), root),
    decreases end,
{
    if end == 0 {
        assert(root.take(root.len() as int) =~= root);
    } else {
        lemma_joined_below(root, names, end - 1);
        let before = descended(root, names, end - 1);
        let after = descended(root, names, end);
        assert(after.take(root.len() as int) =~= before.take(root.len() as int));
    }
}

/// A directory above the one that a search starts in, and what stands in it.
pub struct Ancestor {
    pub directory: String,
    /// A view marker.
    pub marked: bool,
    /// The metadata of a World.
    pub has_store: bool,
}

/// Some directory has a view marker or the metadata of a World.
pub open spec fn has_world(ancestors: Seq<Ancestor>) -> bool {
    exists|i: int|
        0 <= i < ancestors.len() && ((#[trigger] ancestors[i]).marked || ancestors[i].has_store)
}

/// Finds the nearest directory that a command works in, among the one that it
/// starts in and those above, nearest first. A view marker counts before the
/// metadata beside it.
pub fn discover(start: &str, ancestors: &Vec<Ancestor>) -> (r: Result<usize>)
    ensures
        match r {
            Ok(at) => {
                &&& at < ancestors@.len()
                &&& ancestors@[at as int].marked || ancestors@[at as int].has_store
                &&& forall|i: int|
                    0 <= i < at ==> !(#[trigger] ancestors@[i]).marked && !ancestors@[i].has_store
            },
            Err(error) => {
                &&& error@ == Failure::no_world(start@)
                &&& forall|i: int|
                    0 <= i < ancestors@.len() ==> !(#[trigger] ancestors@[i]).marked
                        && !ancestors@[i].has_store
            },
        },
        r is Ok <==> has_world(ancestors@),
{
    let mut i: usize = 0;
    while i < ancestors.len()
        invariant
            i <= ancestors@.len(),
            forall|j: int|
                0 <= j < i ==> !(#[trigger] ancestors@[j]).marked && !ancestors@[j].has_store,
        decreases ancestors@.len() - i,
    {
        if ancestors[i].marked || ancestors[i].has_store {
            return Ok(i);
        }
        i = i + 1;
    }
    Err(JavelinError::no_world(start))
}

/// The context of a directory that holds a World's metadata.
pub fn world_context(directory: &str) -> (r: ProjectContext)
    ensures
        r@ == (ProjectContext {
            root: directory@,
            metadata: joined_path(directory@, ".javelin"@),
            layer_id: "local"@,
            view: directory@,
        }),
{
    ProjectContext {
        root: directory.to_owned(),
        metadata: join_path(directory, ".javelin"),
        layer_id: "local".to_owned(),
        view: directory.to_owned(),
    }
}

/// The context of a directory that holds a view marker, whose project stands
/// at `root`. A marker of another format is not guessed at.
pub fn marker_context(marker: &ViewMarker, root: &str, directory: &str) -> (r: Result<
    ProjectContext,
>)
    ensures
        if marker@.format == 1 {
            r is Ok && r->Ok_0@ == (ProjectContext {
                root: root@,
                metadata: joined_path(root@, ".javelin"@),
                layer_id: marker@.layer_id,
                view: directory@,
            })
        } else {
            r is Err && r->Err_0@ == Failure::corruption(
                "unsupported view marker format "@ + text::decimal(marker@.format as nat),
            )
        },
{
    if marker.format != 1 {
        return Err(
            JavelinError::corruption(
                text::concat2(
                    "unsupported view marker format ",
                    text::number(marker.format as u64).as_str(),
                ),
            ),
        );
    }
    Ok(
        ProjectContext {
            root: root.to_owned(),
            metadata: join_path(root, ".javelin"),
            layer_id: marker.layer_id.clone(),
            view: directory.to_owned(),
        },
    )
}

/// A view marker counts only where its Layer has its view: a copy of a view
/// elsewhere is refused, the project's own directory included. The Local Layer's
/// view is that directory.
pub fn check_registered_view(context: &ProjectContext, registered: Option<&Layer>) -> (r: Result<
    (),
>)
    ensures
        if (context@.layer_id == "local"@ && context@.view == context@.root) || (registered is Some
            && registered->Some_0@.view_path == context@.view) {
            r is Ok
        } else {
            r is Err && r->Err_0@ == Failure::corruption(
                "view marker does not match the registered view of Private Layer "@
                    + context@.layer_id,
            )
        },
{
    if text::same(context.layer_id.as_str(), "local") && text::same(
        context.view.as_str(),
        context.root.as_str(),
    ) {
        return Ok(());
    }
    if let Some(layer) = registered {
        if layer.view_path == context.view {
            return Ok(());
        }
    }
    Err(
        JavelinError::corruption(
            text::concat2(
                "view marker does not match the registered view of Private Layer ",
                context.layer_id.as_str(),
            ),
        ),
    )
}

/// What one more part adds to the names of a path.
proof fn lemma_names_step(parts: Seq<Text>, end: int)
    requires
        0 < end <= parts.len(),
    ensures
        ({
            let before = normal_names(components_to(parts, end - 1));
            let after = normal_names(components_to(parts, end));
            let part = parts[end - 1];
            after == if part.len() == 0 || part == "."@ || part == ".."@ {
                before
            } else {
                before.push(part)
            }
        }),
{
    let before = components_to(parts, end - 1);
    let after = components_to(parts, end);
    if after != before {
        assert(after.drop_last() =~= before);
    }
}

/// A part of a path is among its components for what it is.
proof fn lemma_part_counts(parts: Seq<Text>, end: int, j: int)
    requires
        0 <= j < end <= parts.len(),
    ensures
        parts[j] == ".."@ ==> components_to(parts, end).contains(Component::ParentDir),
        parts[j].len() > 0 && parts[j] != "."@ && parts[j] != ".."@ ==> normal_names(
            components_to(parts, end),
        ).contains(parts[j]),
    decreases end,
{
    reveal_strlit(".");
    reveal_strlit("..");
    let before = components_to(parts, end - 1);
    let after = components_to(parts, end);
    lemma_names_step(parts, end);
    let names = normal_names(after);
    if j == end - 1 {
        if parts[j] == ".."@ {
            assert(after[after.len() - 1] == Component::<Text>::ParentDir);
        }
        if parts[j].len() > 0 && parts[j] != "."@ && parts[j] != ".."@ {
            assert(names[names.len() - 1] == parts[j]);
        }
    } else {
        lemma_part_counts(parts, end - 1, j);
        if parts[j] == ".."@ {
            let k = choose|k: int| 0 <= k < before.len() && before[k] == Component::<Text>::ParentDir;
            assert(after[k] == Component::<Text>::ParentDir);
        }
        if parts[j].len() > 0 && parts[j] != "."@ && parts[j] != ".."@ {
            let earlier = normal_names(before);
            let k = choose|k: int| 0 <= k < earlier.len() && earlier[k] == parts[j];
            assert(names[k] == parts[j]);
        }
    }
}

/// The first name of a path is its first part that is no dot.
proof fn lemma_first_name(parts: Seq<Text>, end: int, j: int)
    requires
        0 <= j < end <= parts.len(),
        parts[j].len() > 0 && parts[j] != "."@ && parts[j] != ".."@,
        forall|k: int| 0 <= k < j ==> (#[trigger] parts[k]).len() == 0 || parts[k] == "."@,
    ensures
        normal_names(components_to(parts, end)).len() > 0,
        normal_names(components_to(parts, end))[0] == parts[j],
    decreases end,
{
    lemma_names_step(parts, end);
    if j < end - 1 {
        lemma_first_name(parts, end - 1, j);
    } else {
        lemma_no_name(parts, j);
    }
}

proof fn lemma_no_name(parts: Seq<Text>, end: int)
    requires
        0 <= end <= parts.len(),
        forall|k: int| 0 <= k < end ==> (#[trigger] parts[k]).len() == 0 || parts[k] == "."@,
    ensures
        normal_names(components_to(parts, end)).len() == 0,
    decreases end,
{
    if end > 0 {
        lemma_names_step(parts, end);
        lemma_no_name(parts, end - 1);
    }
}

/// A path that a tree may hold stays below the view that it is put into: it is
/// not empty, does not start at the root, has no part `..`, and holds neither a
/// zero character nor a backslash.
pub proof fn law_tree_path_stays_below(path: Text)
    requires
        path_failure(path) is None,
    ensures
        path.len() > 0,
        path[0] != '/',
        !path.contains('\0'),
        !path.contains('\\'),
        forall|j: int|
            0 <= j < text::split(path, '/').len() ==> #[trigger] text::split(path, '/')[j] != ".."@,
{
    let parts = text::split(path, '/');
    assert forall|j: int| 0 <= j < parts.len() implies #[trigger] parts[j] != ".."@ by {
        lemma_part_counts(parts, parts.len() as int, j);
    }
}

/// No tree holds a path whose first name is that of a metadata directory, in
/// capitals or small letters.
pub proof fn law_metadata_is_never_tracked(path: Text, j: int)
    requires
        path_failure(path) is None,
        0 <= j < text::split(path, '/').len(),
        forall|k: int|
            0 <= k < j ==> (#[trigger] text::split(path, '/')[k]).len() == 0 || text::split(
                path,
                '/',
            )[k] == "."@,
    ensures
        !text::same_but_case(text::split(path, '/')[j], ".javelin"@),
        !text::same_but_case(text::split(path, '/')[j], ".javelin-view"@),
        !text::same_but_case(text::split(path, '/')[j], ".git"@),
        !text::same_but_case(text::split(path, '/')[j], ".hg"@),
        !text::same_but_case(text::split(path, '/')[j], ".svn"@),
{
    let parts = text::split(path, '/');
    let part = parts[j];
    reveal_strlit(".javelin");
    reveal_strlit(".javelin-view");
    reveal_strlit(".git");
    reveal_strlit(".hg");
    reveal_strlit(".svn");
    reveal_strlit(".");
    reveal_strlit("..");
    if part.len() > 0 && part != "."@ && part != ".."@ {
        lemma_first_name(parts, parts.len() as int, j);
    } else {
        assert(part.len() <= 2);
        assert(part.map_values(|c: char| text::ascii_lower(c)).len() == part.len());
        assert(".javelin"@.map_values(|c: char| text::ascii_lower(c)).len() == 8);
        assert(".javelin-view"@.map_values(|c: char| text::ascii_lower(c)).len() == 13);
        assert(".git"@.map_values(|c: char| text::ascii_lower(c)).len() == 4);
        assert(".hg"@.map_values(|c: char| text::ascii_lower(c)).len() == 3);
        assert(".svn"@.map_values(|c: char| text::ascii_lower(c)).len() == 4);
    }
}

/// The case of its letters does not make a name free.
pub proof fn law_reserved_names_ignore_case(name: Text, other: Text)
    requires
        reserved_name(name),
        other.len() == name.len(),
        forall|i: int|
            0 <= i < name.len() ==> (#[trigger] other[i]) == name[i] || 'A' <= other[i] <= 'Z'
                && other[i] as int + 32 == name[i] as int,
    ensures
        reserved_name(other),
{
    let small = name.map_values(|c: char| text::ascii_lower(c));
    let others = other.map_values(|c: char| text::ascii_lower(c));
    assert forall|i: int| 0 <= i < name.len() implies others[i] == small[i] by {
        assert(other[i] == name[i] || 'A' <= other[i] <= 'Z' && other[i] as int + 32
            == name[i] as int);
    }
    assert(others =~= small);
}

/// A path that a tree may not hold is refused as unsupported, and every other
/// is accepted.
pub proof fn law_unsafe_paths_are_unsupported(path: Text)
    ensures
        path_failure(path) is Some ==> path_failure(path)->Some_0.exit_code == 9,
        path.len() == 0 || path[0] == '/' || path.contains('\0') || path.contains('\\')
            ==> path_failure(path) is Some,
        join_failure(path) is Some ==> join_failure(path)->Some_0.exit_code == 9,
        path_failure(path) is Some ==> join_failure(path) is Some,
{
}

/// A name joined to a directory stands in it, behind one separator.
pub proof fn law_joined_name_stands_in_directory(directory: Text, name: Text)
    requires
        directory.len() > 0,
    ensures
        directory.last() != '/' ==> joined_path(directory, name) == directory + "/"@ + name,
        directory.last() == '/' ==> joined_path(directory, name) == directory + name,
        joined_path(Seq::empty(), name) == name,
{
    assert(Seq::<char>::empty() + name =~= name);
}

/// A path that names nothing but names.
pub open spec fn plain(path: Text) -> bool {
    forall|i: int|
        0 <= i < text::split(path, '/').len() ==> {
            let part = #[trigger] text::split(path, '/')[i];
            part.len() > 0 && part != "."@ && part != ".."@
        }
}

/// The names of a plain path are its parts.
proof fn lemma_plain_names(parts: Seq<Text>, end: int)
    requires
        0 <= end <= parts.len(),
        forall|i: int|
            0 <= i < parts.len() ==> (#[trigger] parts[i]).len() > 0 && parts[i] != "."@ && parts[i]
                != ".."@,
    ensures
        normal_names(components_to(parts, end)) == parts.take(end),
    decreases end,
{
    if end > 0 {
        lemma_plain_names(parts, end - 1);
        lemma_names_step(parts, end);
        assert(parts.take(end - 1).push(parts[end - 1]) =~= parts.take(end));
    } else {
        assert(parts.take(0) =~= Seq::empty());
    }
}

/// Going down by names leads to the directory with the names behind it.
proof fn lemma_descended(root: Text, names: Seq<Text>, end: int)
    requires
        root.len() > 0,
        root.last() != '/',
        1 <= end <= names.len(),
        forall|i: int|
            0 <= i < names.len() ==> (#[trigger] names[i]).len() > 0 && !names[i].contains('/'),
    ensures
        descended(root, names, end) == root + "/"@ + text::joined(names.take(end), "/"@),
        descended(root, names, end).last() != '/',
    decreases end,
{
    reveal_strlit("/");
    let name = names[end - 1];
    let now = names.take(end);
    assert(now.last() == name);
    assert(now.drop_last() =~= names.take(end - 1));
    assert(name.contains(name.last())) by {
        assert(name[name.len() - 1] == name.last());
    }
    if end == 1 {
        assert(descended(root, names, 0) == root);
        assert(now[0] == name);
    } else {
        lemma_descended(root, names, end - 1);
        let before = descended(root, names, end - 1);
        assert(before + "/"@ + name =~= root + "/"@ + text::joined(now, "/"@));
    }
    let all = descended(root, names, end);
    assert(all.last() == name.last());
}

/// A plain path put below a directory stands there letter for letter, behind one
/// separator.
pub proof fn law_plain_path_stands_below(directory: Text, path: Text)
    requires
        directory.len() > 0,
        directory.last() != '/',
        plain(path),
    ensures
        descended(
            directory,
            normal_names(components(path)),
            normal_names(components(path)).len() as int,
        ) == directory + "/"@ + path,
{
    reveal_strlit("/");
    let parts = text::split(path, '/');
    text::law_parts_make_the_text(path, '/');
    text::lemma_split_nonempty(path, '/');
    lemma_plain_names(parts, parts.len() as int);
    assert(parts.take(parts.len() as int) =~= parts);
    assert(!absolute(path)) by {
        if absolute(path) {
            lemma_first_part_of_absolute(path);
            assert(parts[0].len() > 0);
        }
    }
    lemma_descended(directory, parts, parts.len() as int);
    assert("/"@ =~= seq!['/']);
}

/// The first part of a path from the root is empty.
proof fn lemma_first_part_of_absolute(path: Text)
    requires
        path.len() > 0,
        path[0] == '/',
    ensures
        text::split(path, '/').len() > 1,
        text::split(path, '/')[0].len() == 0,
    decreases path.len(),
{
    let shorter = path.drop_last();
    if path.len() == 1 {
        assert(shorter =~= Seq::<char>::empty());
        assert(text::split(shorter, '/') == seq![Seq::<char>::empty()]);
        assert(path.last() == '/');
    } else {
        lemma_first_part_of_absolute(shorter);
    }
}

/// A path with no name but names is a path that a tree may hold, unless it holds
/// a zero character or a backslash or its first name is reserved; and then it
/// can be joined to a directory.
pub proof fn law_plain_paths_are_accepted(path: Text)
    requires
        plain(path),
        !path.contains('\0'),
        !path.contains('\\'),
        !reserved_name(text::split(path, '/')[0]),
    ensures
        path_failure(path) is None,
        join_failure(path) is None,
{
    reveal_strlit(".");
    reveal_strlit("..");
    let parts = text::split(path, '/');
    text::lemma_split_nonempty(path, '/');
    lemma_plain_names(parts, parts.len() as int);
    assert(parts.take(parts.len() as int) =~= parts);
    assert(parts[0].len() > 0);
    if path.len() == 0 {
        assert(parts == seq![Seq::<char>::empty()]);
    }
    if absolute(path) {
        lemma_first_part_of_absolute(path);
    }
    lemma_plain_components(parts, parts.len() as int);
    assert(components(path) == components_to(parts, parts.len() as int));
    if has_parent(path) {
        let all = components(path);
        let k = choose|k: int| 0 <= k < all.len() && all[k] == Component::<Text>::ParentDir;
        assert(all[k] is Normal);
    }
}

proof fn lemma_plain_components(parts: Seq<Text>, end: int)
    requires
        0 <= end <= parts.len(),
        forall|i: int|
            0 <= i < parts.len() ==> (#[trigger] parts[i]).len() > 0 && parts[i] != "."@ && parts[i]
                != ".."@,
    ensures
        components_to(parts, end).len() == end,
        forall|k: int| 0 <= k < end ==> (#[trigger] components_to(parts, end)[k]) is Normal,
    decreases end,
{
    if end > 0 {
        lemma_plain_components(parts, end - 1);
        assert(parts[end - 1].len() > 0);
    }
}

/// A command works in the nearest directory that has a view marker or a World,
/// and finds no World only where no directory has one.
pub proof fn law_nearest_world_is_found(
    start: &str,
    ancestors: &Vec<Ancestor>,
    found: Result<usize>,
    i: int,
)
    requires
        call_ensures(discover, (start, ancestors), found),
        0 <= i < ancestors@.len(),
        ancestors@[i].marked || ancestors@[i].has_store,
    ensures
        found is Ok,
        found->Ok_0 <= i,
        ancestors@[found->Ok_0 as int].marked || ancestors@[found->Ok_0 as int].has_store,
{
    assert(has_world(ancestors@));
    assert(forall|j: int|
        0 <= j < found->Ok_0 ==> !(#[trigger] ancestors@[j]).marked && !ancestors@[j].has_store);
}

/// In a World's own directory a command works on the local Layer. In a marked
/// view it works on the Layer that the marker names, in the World that the marker
/// points to, if the marker has the known format.
pub proof fn law_directory_tells_the_layer(
    directory: &str,
    own: ProjectContext,
    marker: ViewMarker,
    root: &str,
    marked: Result<ProjectContext>,
)
    requires
        call_ensures(world_context, (directory,), own),
        call_ensures(marker_context, (&marker, root, directory), marked),
    ensures
        own@.layer_id == "local"@,
        own@.root == directory@,
        own@.view == directory@,
        marked is Ok <==> marker@.format == 1,
        marked is Ok ==> marked->Ok_0@.layer_id == marker@.layer_id && marked->Ok_0@.root == root@
            && marked->Ok_0@.view == directory@,
        marked is Ok && root@ == directory@ ==> marked->Ok_0@.metadata == own@.metadata,
        marked is Err ==> marked->Err_0@.code == "STORAGE_CORRUPTION"@,
{
}

/// A copied view is refused: a directory is a view only where it is the one that
/// its Layer is registered with, or the World's own.
pub proof fn law_copied_view_is_refused(
    context: ProjectContext,
    registered: Option<&Layer>,
    allowed: Result<()>,
)
    requires
        call_ensures(check_registered_view, (&context, registered), allowed),
    ensures
        allowed is Err ==> allowed->Err_0@.code == "STORAGE_CORRUPTION"@,
        registered is Some && registered->Some_0@.view_path == context@.view ==> allowed is Ok,
        context@.layer_id == "local"@ && context@.view == context@.root ==> allowed is Ok,
        context@.layer_id != "local"@ && registered is None ==> allowed is Err,
        context@.layer_id != "local"@ && registered is Some && registered->Some_0@.view_path
            != context@.view ==> allowed is Err,
        context@.view != context@.root && registered is None ==> allowed is Err,
        context@.view != context@.root && registered is Some && registered->Some_0@.view_path
            != context@.view ==> allowed is Err,
{
}

} // verus!
