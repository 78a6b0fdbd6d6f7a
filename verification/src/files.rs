//! The object files of a World, as they were read from disk.
use vstd::prelude::*;
use crate::error;
use crate::error::{Context, Failure, Result};
use crate::model::{Tree, TreeEntry};
use crate::objects;
use crate::objects::{ObjectKind, ObjectStore};
use crate::ordered::PathMap;
use crate::paths;
use crate::text;
use crate::text::Text;

verus! {

/// The object files that were found, by identity.
#[derive(Debug)]
pub struct ObjectFiles {
    pub objects: ObjectStore,
    pub found: PathMap<Vec<u8>>,
}

/// The mathematical value of [`ObjectFiles`].
#[verifier::ext_equal]
pub struct FilesState {
    pub directory: Text,
    pub temp: Text,
    pub found: Map<Text, Seq<u8>>,
}

impl View for ObjectFiles {
    type V = FilesState;

    open spec fn view(&self) -> FilesState {
        FilesState {
            directory: self.objects.objects@,
            temp: self.objects.temp@,
            found: self.found@,
        }
    }
}

/// The file of an object, or why it cannot be opened.
pub open spec fn file_outcome(files: FilesState, id: Text) -> std::result::Result<
    Seq<u8>,
    Failure,
> {
    if !objects::valid_id(id) {
        Err(Failure::corruption("invalid object ID "@ + id))
    } else if !files.found.contains_key(id) {
        Err(
            error::caused(
                7,
                "MISSING_OBJECT"@,
                "missing object "@ + id + " at "@ + paths::joined_path(
                    paths::joined_path(files.directory, id.take(2)),
                    id.skip(2),
                ),
                "No such file or directory (os error 2)"@,
            ),
        )
    } else {
        Ok(files.found[id])
    }
}

/// The object that an identity stands for, or why there is none.
pub open spec fn object_outcome(files: FilesState, id: Text) -> std::result::Result<
    (ObjectKind, Seq<u8>),
    Failure,
> {
    match file_outcome(files, id) {
        Err(failure) => Err(failure),
        Ok(file) => objects::read_outcome(id, file),
    }
}

/// The kind and the length that an object's header gives.
pub open spec fn info_outcome(files: FilesState, id: Text) -> std::result::Result<
    (ObjectKind, nat),
    Failure,
> {
    match file_outcome(files, id) {
        Err(failure) => Err(failure),
        Ok(file) => objects::header_outcome(id, file),
    }
}

/// The content of a blob.
pub open spec fn blob_outcome(files: FilesState, id: Text) -> std::result::Result<
    Seq<u8>,
    Failure,
> {
    match object_outcome(files, id) {
        Err(failure) => Err(failure),
        Ok((ObjectKind::Blob, content)) => Ok(content),
        Ok((ObjectKind::Tree, _)) => Err(
            Failure::corruption("object "@ + id + " is not a blob"@),
        ),
    }
}

/// The entries of a tree.
pub open spec fn tree_outcome(files: FilesState, id: Text) -> std::result::Result<
    Seq<TreeEntry<Text>>,
    Failure,
> {
    match object_outcome(files, id) {
        Err(failure) => Err(failure),
        Ok((ObjectKind::Blob, _)) => Err(
            Failure::corruption("object "@ + id + " is not a tree"@),
        ),
        Ok((ObjectKind::Tree, content)) => objects::decode_outcome(content),
    }
}

/// The files hold an object with its content under its identity.
pub open spec fn holds_object(
    written: Seq<(String, Vec<u8>)>,
    kind: ObjectKind,
    content: Seq<u8>,
) -> bool {
    exists|i: int| #[trigger] is_object(written[i], kind, content) && 0 <= i < written.len()
}

/// The file is that of an object, under its identity.
pub open spec fn is_object(file: (String, Vec<u8>), kind: ObjectKind, content: Seq<u8>) -> bool {
    file.0@ == objects::identity(kind, content) && objects::read_outcome(file.0@, file.1@) == Ok::<
        (ObjectKind, Seq<u8>),
        Failure,
    >((kind, content))
}

impl ObjectFiles {
    pub open spec fn wf(self) -> bool {
        self.found.wf()
    }

    /// No file, for the store at a place.
    pub fn new(metadata: &str) -> (r: Self)
        ensures
            r.wf(),
            r@.directory == paths::joined_path(metadata@, "objects"@),
            r@.temp == paths::joined_path(metadata@, "temp"@),
            r@.found == Map::<Text, Seq<u8>>::empty(),
    {
        ObjectFiles { objects: ObjectStore::new(metadata), found: PathMap::new() }
    }

    /// Adds a file.
    pub fn add_file(&mut self, id: String, file: Vec<u8>)
        requires
            old(self).wf(),
        ensures
            final(self).wf(),
            final(self)@ == (FilesState {
                found: old(self)@.found.insert(id@, file@),
                ..old(self)@
            }),
    {
        assert(file.deep_view() =~= file@);
        self.found.insert(id, file);
    }

    fn open(&self, id: &str) -> (r: Result<&Vec<u8>>)
        requires
            self.wf(),
        ensures
            match file_outcome(self@, id@) {
                Ok(file) => r is Ok && r->Ok_0@ == file,
                Err(failure) => r is Err && r->Err_0@ == failure,
            },
    {
        let path = self.objects.object_path(id)?;
        match self.found.get(id) {
            Some(file) => Ok(file),
            None => {
                let missing: std::result::Result<&Vec<u8>, String> = Err(
                    "No such file or directory (os error 2)".to_owned(),
                );
                missing.jctx(
                    7,
                    "MISSING_OBJECT",
                    text::concat3(
                        text::concat2("missing object ", id).as_str(),
                        " at ",
                        path.as_str(),
                    ),
                )
            },
        }
    }

    /// The content of a blob.
    pub fn read_blob(&self, id: &str) -> (r: Result<Vec<u8>>)
        requires
            self.wf(),
        ensures
            match blob_outcome(self@, id@) {
                Ok(content) => r is Ok && r->Ok_0@ == content,
                Err(failure) => r is Err && r->Err_0@ == failure,
            },
    {
        let file = self.open(id)?;
        self.objects.read_blob(id, file.as_slice())
    }

    /// The entries of a tree.
    pub fn read_tree(&self, id: &str) -> (r: Result<Tree>)
        requires
            self.wf(),
        ensures
            match tree_outcome(self@, id@) {
                Ok(entries) => r is Ok && r->Ok_0@ == entries,
                Err(failure) => r is Err && r->Err_0@ == failure,
            },
    {
        let file = self.open(id)?;
        self.objects.read_tree(id, file.as_slice())
    }

    /// The kind and the length of an object whose file is sound.
    pub fn validate(&self, id: &str) -> (r: Result<(ObjectKind, u64)>)
        requires
            self.wf(),
        ensures
            match object_outcome(self@, id@) {
                Ok((kind, content)) => r is Ok && r->Ok_0.0 == kind && r->Ok_0.1 == content.len(),
                Err(failure) => r is Err && r->Err_0@ == failure,
            },
    {
        let file = self.open(id)?;
        self.objects.validate(id, file.as_slice())
    }

    /// The kind and the length that an object's header gives.
    pub fn info(&self, id: &str) -> (r: Result<(ObjectKind, u64)>)
        requires
            self.wf(),
        ensures
            match info_outcome(self@, id@) {
                Ok((kind, length)) => r is Ok && r->Ok_0.0 == kind && r->Ok_0.1 == length,
                Err(failure) => r is Err && r->Err_0@ == failure,
            },
    {
        let file = self.open(id)?;
        self.objects.info(id, file.as_slice())
    }
}

/// A read gives back what a write wrote: once the file of an object is there,
/// its identity stands for its kind and content.
pub proof fn law_read_after_write(
    files: FilesState,
    id: Text,
    file: Seq<u8>,
    kind: ObjectKind,
    content: Seq<u8>,
)
    requires
        objects::read_outcome(id, file) == Ok::<(ObjectKind, Seq<u8>), Failure>((kind, content)),
    ensures
        object_outcome(
            FilesState { found: files.found.insert(id, file), ..files },
            id,
        ) == Ok::<(ObjectKind, Seq<u8>), Failure>((kind, content)),
{
}

/// An object is read only as what it is: a blob as a blob, a tree as a tree. What
/// is missing, or named by no identity, or of the other kind, is told as
/// corruption.
pub proof fn law_objects_are_read_as_what_they_are(files: FilesState, id: Text)
    ensures
        blob_outcome(files, id) matches Ok(content) ==> object_outcome(files, id) == Ok::<
            (ObjectKind, Seq<u8>),
            Failure,
        >((ObjectKind::Blob, content)),
        tree_outcome(files, id) is Ok ==> object_outcome(files, id) is Ok && object_outcome(
            files,
            id,
        )->Ok_0.0 == ObjectKind::Tree,
        tree_outcome(files, id) matches Ok(entries) ==> objects::decode_outcome(
            object_outcome(files, id)->Ok_0.1,
        ) == Ok::<Seq<TreeEntry<Text>>, Failure>(entries),
        !files.found.contains_key(id) ==> object_outcome(files, id) is Err && object_outcome(
            files,
            id,
        )->Err_0.exit_code == 7 && info_outcome(files, id) is Err,
        blob_outcome(files, id) is Err ==> blob_outcome(files, id)->Err_0.exit_code == 7,
        object_outcome(files, id) is Ok ==> object_outcome(files, id) == objects::read_outcome(
            id,
            files.found[id],
        ) && info_outcome(files, id) is Ok && info_outcome(files, id)->Ok_0.0 == object_outcome(
            files,
            id,
        )->Ok_0.0 && info_outcome(files, id)->Ok_0.1 == object_outcome(files, id)->Ok_0.1.len(),
{
}

} // verus!
