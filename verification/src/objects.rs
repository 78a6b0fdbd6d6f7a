//! Immutable objects: their identity, their files and the encoding of trees.
use vstd::prelude::*;
use vstd::utf8::*;
use crate::bytes;
use crate::error;
use crate::error::{Context, Failure, JavelinError, Result};
use crate::model;
use crate::model::{EntryKind, Tree, TreeEntry};
use crate::ordered;
use crate::ordered::PathMap;
use crate::paths;
use crate::text;
use crate::text::Text;
use crate::view;

verus! {

#[derive(Debug, Clone, Copy, PartialEq, Eq, Structural)]
pub enum ObjectKind {
    Blob,
    Tree,
}

/// `JVL1`, which every object file starts with.
pub open spec fn magic() -> Seq<u8> {
    seq![0x4a, 0x56, 0x4c, 0x31]
}

/// The length of the header before the compressed content.
pub const HEADER_LEN: usize = 13;

/// The compression level of object files.
pub const COMPRESSION_LEVEL: i32 = 3;

impl ObjectKind {
    /// The kind's byte in an object file.
    pub open spec fn byte(self) -> u8 {
        match self {
            ObjectKind::Blob => 1,
            ObjectKind::Tree => 2,
        }
    }

    /// The text that goes before the content when it is hashed.
    pub open spec fn domain(self) -> Text {
        match self {
            ObjectKind::Blob => "javelin:blob:v1\0"@,
            ObjectKind::Tree => "javelin:tree:v1\0"@,
        }
    }

    pub fn to_byte(self) -> (r: u8)
        ensures
            r == self.byte(),
    {
        match self {
            ObjectKind::Blob => 1,
            ObjectKind::Tree => 2,
        }
    }

    fn domain_text(self) -> (r: &'static str)
        ensures
            r@ == self.domain(),
    {
        match self {
            ObjectKind::Blob => "javelin:blob:v1\0",
            ObjectKind::Tree => "javelin:tree:v1\0",
        }
    }

    pub fn from_byte(value: u8) -> (r: Result<ObjectKind>)
        ensures
            match r {
                Ok(kind) => kind.byte() == value,
                Err(e) => value != 1 && value != 2 && e@ == Failure::corruption(
                    "unknown object kind "@ + text::decimal(value as nat),
                ),
            },
    {
        match value {
            1 => Ok(ObjectKind::Blob),
            2 => Ok(ObjectKind::Tree),
            _ => Err(
                JavelinError::corruption(
                    text::concat2("unknown object kind ", text::number(value as u64).as_str()),
                ),
            ),
        }
    }
}

/// The BLAKE3 hash of bytes, in hexadecimal.
pub uninterp spec fn blake3_hex(content: Seq<u8>) -> Text;

/// A digit of lower-case hexadecimal.
pub open spec fn lower_hex(c: char) -> bool {
    ('0' <= c <= '9') || ('a' <= c <= 'f')
}

/// `blake3::hash` and the hash's `to_hex`. The contract names the hash and
/// says that its form is 64 lower-case hexadecimal digits.
#[verifier::external_body]
pub(crate) fn blake3_of(content: &[u8]) -> (r: String)
    ensures
        r@ == blake3_hex(content@),
        r@.len() == 64,
        forall|i: int| 0 <= i < r@.len() ==> lower_hex(#[trigger] r@[i]),
{
    blake3::hash(content).to_hex().to_string()
}

/// What a zstd decoder reads from bytes, or the message of its error.
pub uninterp spec fn zstd_decoded(frame: Seq<u8>) -> std::result::Result<Seq<u8>, Text>;

/// A zstd encoder gives this for a content at a level, on some machine: a
/// frame, or the message of its error.
pub uninterp spec fn zstd_gives(
    content: Seq<u8>,
    level: i32,
    given: std::result::Result<Seq<u8>, Text>,
) -> bool;

/// `zstd::stream::encode_all`. The contract names what an encoder gives for the
/// content at the level, and says that a decoder reads the content back from a
/// frame. Which of the possible frames it writes, and whether it finds the
/// memory to write one, depends on the machine and is left unsaid.
#[verifier::external_body]
pub(crate) fn zstd_encode(content: &[u8], level: i32) -> (r: std::result::Result<Vec<u8>, String>)
    ensures
        match r {
            Ok(frame) => zstd_gives(content@, level, Ok(frame@)) && zstd_decoded(frame@) == Ok::<
                Seq<u8>,
                Text,
            >(content@),
            Err(message) => zstd_gives(content@, level, Err(message@)),
        },
{
    match zstd::stream::encode_all(content, level) {
        Ok(frame) => Ok(frame),
        Err(error) => Err(error.to_string()),
    }
}

/// `zstd::stream::decode_all`. The contract only names what the decoder reads,
/// which depends on the frame alone. Running out of memory is left aside, as
/// for every allocation.
#[verifier::external_body]
pub(crate) fn zstd_decode(frame: &[u8]) -> (r: std::result::Result<Vec<u8>, String>)
    ensures
        match r {
            Ok(content) => zstd_decoded(frame@) == Ok::<Seq<u8>, Text>(content@),
            Err(message) => zstd_decoded(frame@) == Err::<Seq<u8>, Text>(message@),
        },
{
    match zstd::stream::decode_all(frame) {
        Ok(content) => Ok(content),
        Err(error) => Err(error.to_string()),
    }
}

/// The identity of an object: the hash of its kind's domain and its content.
pub open spec fn identity(kind: ObjectKind, content: Seq<u8>) -> Text {
    blake3_hex(encode_utf8(kind.domain()) + content)
}

/// The identity of an object.
pub fn object_id(kind: ObjectKind, content: &[u8]) -> (r: String)
    ensures
        r@ == identity(kind, content@),
        valid_id(r@),
{
    let mut all: Vec<u8> = Vec::new();
    bytes::append(&mut all, kind.domain_text().as_bytes());
    bytes::append(&mut all, content);
    assert(all@ =~= encode_utf8(kind.domain()) + content@);
    blake3_of(all.as_slice())
}

/// The header of an object file.
pub open spec fn header(kind: ObjectKind, length: nat) -> Seq<u8> {
    magic() + seq![kind.byte()] + bytes::big_endian(length, 8)
}

/// The file of an object: its header, and a frame that an encoder gives for its
/// content.
pub open spec fn is_object_file(kind: ObjectKind, content: Seq<u8>, file: Seq<u8>) -> bool {
    exists|frame: Seq<u8>|
        {
            &&& #[trigger] zstd_gives(content, COMPRESSION_LEVEL, Ok(frame))
            &&& zstd_decoded(frame) == Ok::<Seq<u8>, Text>(content)
            &&& file == header(kind, content.len()) + frame
        }
}

/// The error of an object that could not be compressed.
pub open spec fn uncompressed(cause: Text) -> Failure {
    error::caused(7, "OBJECT_IO"@, "cannot finish object compression"@, cause)
}

/// An encoder gives no frame for the content, and this is the error.
pub open spec fn compression_failure(content: Seq<u8>, failure: Failure) -> bool {
    exists|cause: Text| #[trigger]
        zstd_gives(content, COMPRESSION_LEVEL, Err(cause)) && failure == uncompressed(cause)
}

/// The file of an object, given what an encoder made of its content.
pub fn object_file(
    kind: ObjectKind,
    length: u64,
    compressed: std::result::Result<Vec<u8>, String>,
) -> (r: Result<Vec<u8>>)
    ensures
        match compressed {
            Ok(frame) => r is Ok && r->Ok_0@ == header(kind, length as nat) + frame@,
            Err(cause) => r is Err && r->Err_0@ == uncompressed(cause@),
        },
{
    let frame = compressed.jctx(
        7,
        "OBJECT_IO",
        "cannot finish object compression".to_owned(),
    )?;
    let mut out: Vec<u8> = Vec::new();
    out.push(0x4a);
    out.push(0x56);
    out.push(0x4c);
    out.push(0x31);
    out.push(kind.to_byte());
    assert(out@ =~= magic() + seq![kind.byte()]);
    let digits = bytes::number_bytes(length, 8);
    bytes::append(&mut out, digits.as_slice());
    bytes::append(&mut out, frame.as_slice());
    Ok(out)
}

/// The file of an object.
pub fn encode_object(kind: ObjectKind, content: &[u8]) -> (r: Result<Vec<u8>>)
    ensures
        match r {
            Ok(file) => is_object_file(kind, content@, file@),
            Err(error) => compression_failure(content@, error@),
        },
{
    let length: usize = content.len();
    object_file(kind, length as u64, zstd_encode(content, COMPRESSION_LEVEL))
}

/// An identity is 64 hexadecimal digits.
pub open spec fn valid_id(id: Text) -> bool {
    id.len() == 64 && forall|i: int| 0 <= i < id.len() ==> hex_digit(#[trigger] id[i])
}

pub open spec fn hex_digit(c: char) -> bool {
    lower_hex(c) || ('A' <= c <= 'F')
}

/// The text is an identity.
pub fn is_valid_id(id: &str) -> (r: bool)
    ensures
        r == valid_id(id@),
{
    let chars = text::chars_of(id);
    if chars.len() != 64 {
        return false;
    }
    let mut i: usize = 0;
    while i < chars.len()
        invariant
            i <= chars@.len(),
            chars@ == id@,
            chars@.len() == 64,
            forall|j: int| 0 <= j < i ==> hex_digit(#[trigger] chars@[j]),
        decreases chars@.len() - i,
    {
        let c = chars[i];
        if !(('0' <= c && c <= '9') || ('a' <= c && c <= 'f') || ('A' <= c && c <= 'F')) {
            assert(!hex_digit(id@[i as int]));
            return false;
        }
        i = i + 1;
    }
    true
}

/// Where the objects of a World stand.
#[verifier::ext_equal]
#[derive(Debug)]
pub struct ObjectStore<S = String> {
    pub objects: S,
    pub temp: S,
}

impl View for ObjectStore {
    type V = ObjectStore<Text>;

    open spec fn view(&self) -> ObjectStore<Text> {
        ObjectStore { objects: self.objects@, temp: self.temp@ }
    }
}

/// Where the objects of the World stand whose metadata stands at a path.
pub open spec fn object_store(metadata: Text) -> ObjectStore<Text> {
    ObjectStore {
        objects: paths::joined_path(metadata, "objects"@),
        temp: paths::joined_path(metadata, "temp"@),
    }
}

/// What an object file gives: its kind, its content, or why it is refused.
pub open spec fn read_outcome(id: Text, file: Seq<u8>) -> std::result::Result<
    (ObjectKind, Seq<u8>),
    Failure,
> {
    match header_outcome(id, file) {
        Err(failure) => Err(failure),
        Ok((kind, length)) => match zstd_decoded(file.skip(HEADER_LEN as int)) {
            Err(cause) => Err(
                error::caused(7, "CORRUPT_OBJECT"@, "cannot read object "@ + id, cause),
            ),
            Ok(content) => if content.len() != length {
                Err(Failure::corruption("object "@ + id + " length mismatch"@))
            } else if identity(kind, content) != id {
                Err(Failure::corruption("object "@ + id + " content hash mismatch"@))
            } else {
                Ok((kind, content))
            },
        },
    }
}

/// What the header of an object file gives.
pub open spec fn header_outcome(id: Text, file: Seq<u8>) -> std::result::Result<
    (ObjectKind, nat),
    Failure,
> {
    if !valid_id(id) {
        Err(Failure::corruption("invalid object ID "@ + id))
    } else if file.len() < HEADER_LEN {
        Err(
            error::caused(
                7,
                "CORRUPT_OBJECT"@,
                "truncated object "@ + id,
                "failed to fill whole buffer"@,
            ),
        )
    } else if file.take(4) != magic() {
        Err(Failure::corruption("invalid object header "@ + id))
    } else if file[4] != 1 && file[4] != 2 {
        Err(Failure::corruption("unknown object kind "@ + text::decimal(file[4] as nat)))
    } else {
        Ok(
            (
                if file[4] == 1 {
                    ObjectKind::Blob
                } else {
                    ObjectKind::Tree
                },
                bytes::big_endian_value(file.subrange(5, 13)),
            ),
        )
    }
}

impl ObjectStore {
    /// The store of the World whose metadata stands at `metadata`.
    pub fn new(metadata: &str) -> (r: Self)
        ensures
            r@ == object_store(metadata@),
    {
        ObjectStore {
            objects: paths::join_path(metadata, "objects"),
            temp: paths::join_path(metadata, "temp"),
        }
    }

    /// Where an object's file stands: in the shard of its first two digits.
    pub fn object_path(&self, id: &str) -> (r: Result<String>)
        ensures
            if valid_id(id@) {
                r is Ok && r->Ok_0@ == paths::joined_path(
                    paths::joined_path(self.objects@, id@.take(2)),
                    id@.skip(2),
                )
            } else {
                r is Err && r->Err_0@ == Failure::corruption("invalid object ID "@ + id@)
            },
    {
        if !is_valid_id(id) {
            return Err(JavelinError::corruption(text::concat2("invalid object ID ", id)));
        }
        let shard = id.substring_char(0, 2);
        let rest = id.substring_char(2, 64);
        assert(id@.subrange(0, 2) =~= id@.take(2));
        assert(id@.subrange(2, 64) =~= id@.skip(2));
        Ok(
            paths::join_path(
                paths::join_path(self.objects.as_str(), shard).as_str(),
                rest,
            ),
        )
    }

    /// The identity and the file of a blob.
    pub fn put_blob(&self, content: &[u8]) -> (r: Result<(String, Vec<u8>)>)
        ensures
            match r {
                Ok((id, file)) => is_stored(ObjectKind::Blob, content@, id@, file@),
                Err(error) => compression_failure(content@, error@),
            },
    {
        put_object(ObjectKind::Blob, content)
    }

    /// The identity and the file of a tree.
    pub fn put_tree(&self, tree: &Tree) -> (r: Result<(String, Vec<u8>)>)
        ensures
            match encode_outcome(tree@) {
                Err(failure) => r is Err && r->Err_0@ == failure,
                Ok(encoded) => match r {
                    Ok((id, file)) => is_stored(ObjectKind::Tree, encoded, id@, file@),
                    Err(error) => compression_failure(encoded, error@),
                },
            },
    {
        let encoded = encode_tree(tree)?;
        put_object(ObjectKind::Tree, encoded.as_slice())
    }

    fn open_object(&self, id: &str, file: &[u8]) -> (r: Result<(ObjectKind, u64)>)
        ensures
            match header_outcome(id@, file@) {
                Err(failure) => r is Err && r->Err_0@ == failure,
                Ok((kind, length)) => r is Ok && r->Ok_0.0 == kind && r->Ok_0.1 == length,
            },
    {
        if !is_valid_id(id) {
            return Err(JavelinError::corruption(text::concat2("invalid object ID ", id)));
        }
        if file.len() < HEADER_LEN {
            let eof: std::result::Result<(ObjectKind, u64), String> = Err(
                "failed to fill whole buffer".to_owned(),
            );
            return eof.jctx(7, "CORRUPT_OBJECT", text::concat2("truncated object ", id));
        }
        if !(file[0] == 0x4a && file[1] == 0x56 && file[2] == 0x4c && file[3] == 0x31) {
            proof {
                if file@.take(4) == magic() {
                    assert(file@[0] == file@.take(4)[0]);
                    assert(file@[1] == file@.take(4)[1]);
                    assert(file@[2] == file@.take(4)[2]);
                    assert(file@[3] == file@.take(4)[3]);
                }
            }
            return Err(JavelinError::corruption(text::concat2("invalid object header ", id)));
        }
        assert(file@.take(4) =~= magic());
        let kind = ObjectKind::from_byte(file[4])?;
        let length: u64 = bytes::read_number(file, 5, 8);
        Ok((kind, length))
    }

    /// Reads an object from its file and holds it to its identity.
    pub fn read(&self, id: &str, file: &[u8]) -> (r: Result<(ObjectKind, Vec<u8>)>)
        ensures
            match read_outcome(id@, file@) {
                Err(failure) => r is Err && r->Err_0@ == failure,
                Ok((kind, content)) => r is Ok && r->Ok_0.0 == kind && r->Ok_0.1@ == content,
            },
    {
        let (kind, expected) = self.open_object(id, file)?;
        let frame = bytes::copy_range(file, HEADER_LEN, file.len());
        assert(frame@ =~= file@.skip(HEADER_LEN as int));
        let content = zstd_decode(frame.as_slice()).jctx(
            7,
            "CORRUPT_OBJECT",
            text::concat2("cannot read object ", id),
        )?;
        if content.len() as u64 != expected {
            return Err(JavelinError::corruption(text::concat3("object ", id, " length mismatch")));
        }
        if !text::same(object_id(kind, content.as_slice()).as_str(), id) {
            return Err(
                JavelinError::corruption(text::concat3("object ", id, " content hash mismatch")),
            );
        }
        Ok((kind, content))
    }

    pub fn read_blob(&self, id: &str, file: &[u8]) -> (r: Result<Vec<u8>>)
        ensures
            match read_outcome(id@, file@) {
                Err(failure) => r is Err && r->Err_0@ == failure,
                Ok((ObjectKind::Blob, content)) => r is Ok && r->Ok_0@ == content,
                Ok((ObjectKind::Tree, _)) => r is Err && r->Err_0@ == Failure::corruption(
                    "object "@ + id@ + " is not a blob"@,
                ),
            },
    {
        let (kind, content) = self.read(id, file)?;
        if kind != ObjectKind::Blob {
            return Err(JavelinError::corruption(text::concat3("object ", id, " is not a blob")));
        }
        Ok(content)
    }

    pub fn read_tree(&self, id: &str, file: &[u8]) -> (r: Result<Tree>)
        ensures
            match read_outcome(id@, file@) {
                Err(failure) => r is Err && r->Err_0@ == failure,
                Ok((ObjectKind::Blob, _)) => r is Err && r->Err_0@ == Failure::corruption(
                    "object "@ + id@ + " is not a tree"@,
                ),
                Ok((ObjectKind::Tree, content)) => match decode_outcome(content) {
                    Err(failure) => r is Err && r->Err_0@ == failure,
                    Ok(entries) => r is Ok && r->Ok_0@ == entries,
                },
            },
    {
        let (kind, content) = self.read(id, file)?;
        if kind != ObjectKind::Tree {
            return Err(JavelinError::corruption(text::concat3("object ", id, " is not a tree")));
        }
        decode_tree(content.as_slice())
    }

    /// The kind and the length of an object whose file is sound.
    pub fn validate(&self, id: &str, file: &[u8]) -> (r: Result<(ObjectKind, u64)>)
        ensures
            match read_outcome(id@, file@) {
                Err(failure) => r is Err && r->Err_0@ == failure,
                Ok((kind, content)) => r is Ok && r->Ok_0.0 == kind && r->Ok_0.1 == content.len(),
            },
    {
        let (kind, content) = self.read(id, file)?;
        Ok((kind, content.len() as u64))
    }

    /// The kind and the length that an object's header gives.
    pub fn info(&self, id: &str, file: &[u8]) -> (r: Result<(ObjectKind, u64)>)
        ensures
            match header_outcome(id@, file@) {
                Err(failure) => r is Err && r->Err_0@ == failure,
                Ok((kind, length)) => r is Ok && r->Ok_0.0 == kind && r->Ok_0.1 == length,
            },
    {
        self.open_object(id, file)
    }
}

/// The file of an object is read back as the object.
pub proof fn law_object_round_trip(kind: ObjectKind, content: Seq<u8>, frame: Seq<u8>)
    requires
        content.len() < 0x1_0000_0000_0000_0000,
        zstd_decoded(frame) == Ok::<Seq<u8>, Text>(content),
        valid_id(identity(kind, content)),
    ensures
        read_outcome(identity(kind, content), header(kind, content.len()) + frame) == Ok::<
            (ObjectKind, Seq<u8>),
            Failure,
        >((kind, content)),
{
    let file = header(kind, content.len()) + frame;
    bytes::lemma_big_endian_len(content.len(), 8);
    bytes::lemma_limits();
    bytes::lemma_big_endian_round_trip(content.len(), 8);
    assert(header(kind, content.len()).len() == 13);
    assert(file.take(4) =~= magic());
    assert(file[4] == kind.byte());
    assert(file.subrange(5, 13) =~= bytes::big_endian(content.len(), 8));
    assert(file.skip(HEADER_LEN as int) =~= frame);
}

/// An object's identity, and its file, from which the object can be read back.
pub open spec fn is_stored(kind: ObjectKind, content: Seq<u8>, id: Text, file: Seq<u8>) -> bool {
    &&& id == identity(kind, content)
    &&& is_object_file(kind, content, file)
    &&& read_outcome(id, file) == Ok::<(ObjectKind, Seq<u8>), Failure>((kind, content))
}

fn put_object(kind: ObjectKind, content: &[u8]) -> (r: Result<(String, Vec<u8>)>)
    ensures
        match r {
            Ok((id, file)) => is_stored(kind, content@, id@, file@),
            Err(error) => compression_failure(content@, error@),
        },
{
    let file = encode_object(kind, content)?;
    let id = object_id(kind, content);
    let length: usize = content.len();
    proof {
        assert(content@.len() == length);
        let frame = choose|frame: Seq<u8>|
            {
                &&& #[trigger] zstd_gives(content@, COMPRESSION_LEVEL, Ok(frame))
                &&& zstd_decoded(frame) == Ok::<Seq<u8>, Text>(content@)
                &&& file@ == header(kind, content@.len()) + frame
            };
        law_object_round_trip(kind, content@, frame);
    }
    Ok((id, file))
}

/// An entry kind's byte in an encoded tree.
pub open spec fn entry_kind_byte(kind: EntryKind) -> u8 {
    match kind {
        EntryKind::File => 1,
        EntryKind::Directory => 2,
        EntryKind::Symlink => 3,
    }
}

/// An object ID as it is written, empty where there is none.
pub open spec fn written_id(object_id: Option<Text>) -> Text {
    match object_id {
        Some(id) => id,
        None => Seq::empty(),
    }
}

/// The encoding of an entry.
pub open spec fn entry_bytes(entry: TreeEntry<Text>) -> Seq<u8> {
    let path = encode_utf8(entry.path);
    let object = encode_utf8(written_id(entry.object_id));
    bytes::big_endian(path.len(), 4) + path + seq![
        entry_kind_byte(entry.kind),
        if entry.executable {
            1u8
        } else {
            0u8
        },
    ] + bytes::big_endian(object.len(), 2) + object
}

pub open spec fn entries_bytes(entries: Seq<TreeEntry<Text>>) -> Seq<u8>
    decreases entries.len(),
{
    if entries.len() == 0 {
        Seq::empty()
    } else {
        entries_bytes(entries.drop_last()) + entry_bytes(entries.last())
    }
}

/// The encoding of sorted entries.
pub open spec fn tree_bytes(entries: Seq<TreeEntry<Text>>) -> Seq<u8> {
    bytes::big_endian(entries.len(), 4) + entries_bytes(entries)
}

/// Two entries have the path.
pub open spec fn duplicated(entries: Seq<TreeEntry<Text>>, path: Text) -> bool {
    exists|i: int, j: int|
        0 <= i < j < entries.len() && (#[trigger] entries[i]).path == path && (
        #[trigger] entries[j]).path == path
}

/// The path is duplicated, and none before it is.
pub open spec fn first_duplicated(entries: Seq<TreeEntry<Text>>, path: Text) -> bool {
    &&& duplicated(entries, path)
    &&& forall|other: Text| #[trigger]
        duplicated(entries, other) ==> !text::text_less(other, path)
}

/// The encoding of a tree, whatever the order of its entries, or the failure
/// that the first duplicated path is.
pub open spec fn encode_outcome(entries: Seq<TreeEntry<Text>>) -> std::result::Result<
    Seq<u8>,
    Failure,
> {
    if exists|path: Text| duplicated(entries, path) {
        let path = choose|path: Text| first_duplicated(entries, path);
        Err(Failure::corruption("duplicate tree path "@ + path))
    } else {
        Ok(tree_bytes(model::normal_form(entries)))
    }
}

proof fn lemma_duplicated_push(entries: Seq<TreeEntry<Text>>, entry: TreeEntry<Text>, path: Text)
    ensures
        duplicated(entries.push(entry), path) <==> duplicated(entries, path) || (entry.path == path
            && model::states(entries).contains_key(path)),
{
    let more = entries.push(entry);
    model::lemma_states(entries);
    if duplicated(entries, path) {
        let (i, j) = choose|i: int, j: int|
            0 <= i < j < entries.len() && (#[trigger] entries[i]).path == path && (
            #[trigger] entries[j]).path == path;
        assert(more[i].path == path && more[j].path == path);
    }
    if entry.path == path && model::states(entries).contains_key(path) {
        let i = choose|i: int| 0 <= i < entries.len() && (#[trigger] entries[i]).path == path;
        assert(more[i].path == path && more[entries.len() as int].path == path);
    }
    if duplicated(more, path) {
        let (i, j) = choose|i: int, j: int|
            0 <= i < j < more.len() && (#[trigger] more[i]).path == path && (
            #[trigger] more[j]).path == path;
        assert(entries[i].path == path);
        if j < entries.len() {
            assert(entries[j].path == path);
        }
    }
}

/// Where a path is duplicated, one of the duplicated paths comes before all
/// others.
pub proof fn lemma_first_duplicated(entries: Seq<TreeEntry<Text>>, path: Text)
    requires
        duplicated(entries, path),
    ensures
        exists|first: Text| first_duplicated(entries, first),
{
    model::lemma_states(entries);
    model::lemma_states_finite(entries);
    let members = model::states(entries).dom().filter(|other: Text| duplicated(entries, other));
    let items = ordered::sorted_keys(members);
    ordered::lemma_sorted_keys(members);
    assert forall|other: Text| #[trigger] duplicated(entries, other) implies members.contains(
        other,
    ) by {
        let (i, _) = choose|i: int, j: int|
            0 <= i < j < entries.len() && (#[trigger] entries[i]).path == other && (
            #[trigger] entries[j]).path == other;
        assert(model::states(entries).contains_key(entries[i].path));
    }
    assert(items.contains(path));
    let first = items[0];
    assert(items.contains(first));
    assert forall|other: Text| #[trigger] duplicated(entries, other) implies !text::text_less(
        other,
        first,
    ) by {
        assert(items.contains(other));
        let i = choose|i: int| 0 <= i < items.len() && items[i] == other;
        if text::text_less(other, first) {
            if i > 0 {
                assert(text::text_less(items[0], items[i]));
                text::lemma_text_less_transitive(other, first, other);
            }
            text::lemma_text_less_irreflexive(other);
        }
    }
    assert(first_duplicated(entries, first));
}

proof fn lemma_first_duplicated_unique(entries: Seq<TreeEntry<Text>>, a: Text, b: Text)
    requires
        first_duplicated(entries, a),
        first_duplicated(entries, b),
    ensures
        a == b,
{
    text::lemma_text_less_total(a, b);
}

fn push_entry(out: &mut Vec<u8>, entry: &TreeEntry)
    ensures
        final(out)@ == old(out)@ + entry_bytes(entry@),
{
    let path: &[u8] = entry.path.as_str().as_bytes();
    let length = bytes::number_bytes(path.len() as u64, 4);
    bytes::append(out, length.as_slice());
    bytes::append(out, path);
    let kind: u8 = match entry.kind {
        EntryKind::File => 1,
        EntryKind::Directory => 2,
        EntryKind::Symlink => 3,
    };
    out.push(kind);
    out.push(
        if entry.executable {
            1
        } else {
            0
        },
    );
    let id: &str = match &entry.object_id {
        Some(id) => id.as_str(),
        None => {
            proof {
                reveal_strlit("");
                assert(""@ =~= Seq::<char>::empty());
            }
            ""
        },
    };
    let object: &[u8] = id.as_bytes();
    let object_length = bytes::number_bytes(object.len() as u64, 2);
    bytes::append(out, object_length.as_slice());
    bytes::append(out, object);
    assert(out@ =~= old(out)@ + entry_bytes(entry@));
}

/// Encodes a tree. The order of its entries makes no difference.
pub fn encode_tree(tree: &Tree) -> (r: Result<Vec<u8>>)
    ensures
        match encode_outcome(tree@) {
            Err(failure) => r is Err && r->Err_0@ == failure,
            Ok(encoded) => r is Ok && r->Ok_0@ == encoded,
        },
{
    let ghost all = tree@;
    let mut map: PathMap<TreeEntry> = PathMap::new();
    let mut twice: PathMap<()> = PathMap::new();
    let mut i: usize = 0;
    assert(all.take(0) =~= Seq::empty());
    while i < tree.entries.len()
        invariant
            i <= tree.entries@.len(),
            all == tree@,
            map.wf(),
            twice.wf(),
            map@ == model::states(all.take(i as int)),
            forall|path: Text| #[trigger]
                twice@.contains_key(path) <==> duplicated(all.take(i as int), path),
        decreases tree.entries@.len() - i,
    {
        let entry = tree.entries[i].clone();
        let ghost before = all.take(i as int);
        proof {
            assert(all.take(i as int + 1) =~= before.push(entry@));
            assert(before.push(entry@).drop_last() =~= before);
            assert forall|path: Text| #[trigger]
                duplicated(before.push(entry@), path) <==> duplicated(before, path) || (entry@.path
                    == path && model::states(before).contains_key(path)) by {
                lemma_duplicated_push(before, entry@, path);
            }
        }
        if map.contains(entry.path.as_str()) {
            twice.insert(entry.path.clone(), ());
        }
        map.insert(entry.path.clone(), entry);
        i = i + 1;
    }
    assert(all.take(i as int) =~= all);
    if twice.len() > 0 {
        let path = twice.key_at(0);
        proof {
            let pairs = twice.pairs();
            ordered::lemma_position(pairs, 0);
            assert(twice@.contains_key(path@));
            assert(duplicated(all, path@));
            assert forall|other: Text| #[trigger] duplicated(all, other) implies !text::text_less(
                other,
                path@,
            ) by {
                assert(twice@.contains_key(other));
                let j = ordered::position(pairs, other);
                if j > 0 {
                    assert(text::text_less(pairs[0].0, pairs[j].0));
                    text::lemma_text_less_asymmetric(path@, other);
                } else {
                    text::lemma_text_less_irreflexive(other);
                }
            }
            assert(first_duplicated(all, path@));
            let chosen = choose|p: Text| first_duplicated(all, p);
            lemma_first_duplicated_unique(all, path@, chosen);
        }
        return Err(
            JavelinError::corruption(text::concat2("duplicate tree path ", path.as_str())),
        );
    }
    proof {
        assert forall|path: Text| !duplicated(all, path) by {
            if duplicated(all, path) {
                assert(twice@.contains_key(path));
            }
        }
        model::lemma_normal_form(map.pairs(), all);
    }
    let ghost form = model::values_of(map.pairs());
    let mut out = bytes::number_bytes(map.len() as u64, 4);
    let mut k: usize = 0;
    assert(form.take(0) =~= Seq::empty());
    assert(out@ =~= bytes::big_endian(form.len(), 4) + entries_bytes(form.take(0)));
    while k < map.len()
        invariant
            k <= map.pairs().len(),
            form == model::values_of(map.pairs()),
            out@ == bytes::big_endian(form.len(), 4) + entries_bytes(form.take(k as int)),
        decreases map.pairs().len() - k,
    {
        proof {
            assert(form.take(k as int + 1).drop_last() =~= form.take(k as int));
            assert(form.take(k as int + 1).last() == form[k as int]);
        }
        push_entry(&mut out, map.value_at(k));
        assert(out@ =~= bytes::big_endian(form.len(), 4) + entries_bytes(form.take(k as int + 1)));
        k = k + 1;
    }
    assert(form.take(k as int) =~= form);
    Ok(out)
}

/// The failure of bytes that end too early.
pub open spec fn cut_short(message: Text) -> Failure {
    error::caused(7, "CORRUPT_TREE"@, message, "failed to fill whole buffer"@)
}

fn cut_short_error(message: &str) -> (r: JavelinError)
    ensures
        r@ == cut_short(message@),
{
    JavelinError::new(7, "CORRUPT_TREE", message.to_owned()).details(
        crate::json::Json::empty().with(
            "cause",
            crate::json::Json::text("failed to fill whole buffer"),
        ),
    )
}

/// The number of `width` bytes at a place.
pub open spec fn number_at(input: Seq<u8>, at: int, width: int) -> nat {
    bytes::big_endian_value(input.subrange(at, at + width))
}

/// The entry kind of a byte.
pub open spec fn kind_of_byte(value: u8) -> Option<EntryKind> {
    if value == 1 {
        Some(EntryKind::File)
    } else if value == 2 {
        Some(EntryKind::Directory)
    } else if value == 3 {
        Some(EntryKind::Symlink)
    } else {
        None
    }
}

/// Reads a path at a place: the path and where it ends.
pub open spec fn parse_path(
    input: Seq<u8>,
    at: int,
    previous: Option<Text>,
) -> std::result::Result<(Text, int), Failure> {
    if at + 4 > input.len() {
        Err(cut_short("truncated tree integer"@))
    } else {
        let end = at + 4 + number_at(input, at, 4);
        if end > input.len() {
            Err(cut_short("truncated tree path"@))
        } else {
            match bytes::utf8_text(input.subrange(at + 4, end)) {
                None => Err(Failure::corruption("tree contains non-UTF-8 path"@)),
                Some(path) => match paths::path_failure(path) {
                    Some(failure) => Err(failure),
                    None => if previous is Some && !text::text_less(previous->Some_0, path) {
                        Err(Failure::corruption("tree paths are not strictly sorted"@))
                    } else {
                        Ok((path, end))
                    },
                },
            }
        }
    }
}

/// Reads what follows the path of an entry: the entry and where it ends.
pub open spec fn parse_rest(input: Seq<u8>, path: Text, at: int) -> std::result::Result<
    (TreeEntry<Text>, int),
    Failure,
> {
    if at + 2 > input.len() {
        Err(cut_short("truncated tree entry"@))
    } else if at + 4 > input.len() {
        Err(cut_short("truncated tree integer"@))
    } else {
        let end = at + 4 + number_at(input, at + 2, 2);
        if end > input.len() {
            Err(cut_short("truncated tree object ID"@))
        } else {
            match bytes::utf8_text(input.subrange(at + 4, end)) {
                None => Err(Failure::corruption("invalid tree object ID"@)),
                Some(object) => match kind_of_byte(input[at]) {
                    None => Err(
                        Failure::corruption(
                            "unknown tree entry kind "@ + text::decimal(input[at] as nat),
                        ),
                    ),
                    Some(kind) => Ok(
                        (
                            TreeEntry {
                                path,
                                kind,
                                object_id: if object.len() == 0 {
                                    None
                                } else {
                                    Some(object)
                                },
                                executable: input[at + 1] != 0,
                            },
                            end,
                        ),
                    ),
                },
            }
        }
    }
}

/// Reads an entry at a place, after the entry with path `previous`.
pub open spec fn parse_entry(
    input: Seq<u8>,
    at: int,
    previous: Option<Text>,
) -> std::result::Result<(TreeEntry<Text>, int), Failure> {
    match parse_path(input, at, previous) {
        Err(failure) => Err(failure),
        Ok((path, end)) => parse_rest(input, path, end),
    }
}

/// The path of the last entry.
pub open spec fn last_path(entries: Seq<TreeEntry<Text>>) -> Option<Text> {
    if entries.len() == 0 {
        None
    } else {
        Some(entries.last().path)
    }
}

/// Reads `count` entries after those read before.
pub open spec fn parse_entries(
    input: Seq<u8>,
    at: int,
    count: nat,
    before: Seq<TreeEntry<Text>>,
) -> std::result::Result<(Seq<TreeEntry<Text>>, int), Failure>
    decreases count,
{
    if count == 0 {
        Ok((before, at))
    } else {
        match parse_entry(input, at, last_path(before)) {
            Err(failure) => Err(failure),
            Ok((entry, next)) => parse_entries(
                input,
                next,
                (count - 1) as nat,
                before.push(entry),
            ),
        }
    }
}

/// What an encoded tree gives.
pub open spec fn decode_outcome(input: Seq<u8>) -> std::result::Result<
    Seq<TreeEntry<Text>>,
    Failure,
> {
    if input.len() < 4 {
        Err(cut_short("truncated tree integer"@))
    } else {
        match parse_entries(input, 4, number_at(input, 0, 4), Seq::empty()) {
            Err(failure) => Err(failure),
            Ok((entries, end)) => if end != input.len() {
                Err(Failure::corruption("tree has trailing bytes"@))
            } else {
                match view::collision_failure(entries) {
                    Some(failure) => Err(failure),
                    None => Ok(entries),
                }
            },
        }
    }
}

fn decode_path(input: &[u8], at: usize, previous: &Option<String>) -> (r: Result<(String, usize)>)
    requires
        at <= input@.len(),
    ensures
        match parse_path(input@, at as int, previous.deep_view()) {
            Err(failure) => r is Err && r->Err_0@ == failure,
            Ok((path, end)) => r is Ok && r->Ok_0.0@ == path && r->Ok_0.1 == end && end
                <= input@.len(),
        },
{
    let size: usize = input.len();
    if size - at < 4 {
        return Err(cut_short_error("truncated tree integer"));
    }
    let length: u64 = bytes::read_number(input, at, 4);
    if (size - at - 4) as u64 >= length {
    } else {
        return Err(cut_short_error("truncated tree path"));
    }
    let end: usize = at + 4 + length as usize;
    let raw = bytes::copy_range(input, at + 4, end);
    let path = match bytes::text_from_utf8(raw.as_slice()) {
        Some(path) => path,
        None => {
            return Err(JavelinError::corruption("tree contains non-UTF-8 path".to_owned()));
        },
    };
    paths::validate_relative(path.as_str())?;
    if let Some(last) = previous {
        if !text::less(last.as_str(), path.as_str()) {
            return Err(JavelinError::corruption("tree paths are not strictly sorted".to_owned()));
        }
    }
    Ok((path, end))
}

fn decode_rest(input: &[u8], path: String, at: usize) -> (r: Result<(TreeEntry, usize)>)
    requires
        at <= input@.len(),
    ensures
        match parse_rest(input@, path@, at as int) {
            Err(failure) => r is Err && r->Err_0@ == failure,
            Ok((entry, end)) => r is Ok && r->Ok_0.0@ == entry && r->Ok_0.1 == end && end
                <= input@.len(),
        },
{
    let size: usize = input.len();
    if size - at < 2 {
        return Err(cut_short_error("truncated tree entry"));
    }
    if size - at < 4 {
        return Err(cut_short_error("truncated tree integer"));
    }
    let length: u64 = bytes::read_number(input, at + 2, 2);
    if (size - at - 4) as u64 >= length {
    } else {
        return Err(cut_short_error("truncated tree object ID"));
    }
    let end: usize = at + 4 + length as usize;
    let raw = bytes::copy_range(input, at + 4, end);
    let object = match bytes::text_from_utf8(raw.as_slice()) {
        Some(object) => object,
        None => {
            return Err(JavelinError::corruption("invalid tree object ID".to_owned()));
        },
    };
    let kind = match input[at] {
        1 => EntryKind::File,
        2 => EntryKind::Directory,
        3 => EntryKind::Symlink,
        value => {
            return Err(
                JavelinError::corruption(
                    text::concat2("unknown tree entry kind ", text::number(value as u64).as_str()),
                ),
            );
        },
    };
    let executable = input[at + 1] != 0;
    let object_id = if object.as_str().is_empty() {
        None
    } else {
        Some(object)
    };
    Ok((TreeEntry { path, kind, object_id, executable }, end))
}

/// Decodes a tree. Every path must be one that a tree may hold, the paths must
/// ascend, and no two may differ in case alone.
pub fn decode_tree(input: &[u8]) -> (r: Result<Tree>)
    ensures
        match decode_outcome(input@) {
            Err(failure) => r is Err && r->Err_0@ == failure,
            Ok(entries) => r is Ok && r->Ok_0@ == entries,
        },
{
    let size: usize = input.len();
    if size < 4 {
        return Err(cut_short_error("truncated tree integer"));
    }
    let count: u64 = bytes::read_number(input, 0, 4);
    let mut entries: Vec<TreeEntry> = Vec::new();
    let mut at: usize = 4;
    let mut done: u64 = 0;
    let mut previous: Option<String> = None;
    assert(entries.deep_view() =~= Seq::empty());
    while done < count
        invariant
            done <= count,
            at <= input@.len(),
            size == input@.len(),
            4 <= size,
            count == number_at(input@, 0, 4),
            previous.deep_view() == last_path(entries.deep_view()),
            parse_entries(input@, 4, count as nat, Seq::empty()) == parse_entries(
                input@,
                at as int,
                (count - done) as nat,
                entries.deep_view(),
            ),
        decreases count - done,
    {
        let ghost before = entries.deep_view();
        let (path, rest) = decode_path(input, at, &previous)?;
        previous = Some(path.clone());
        let (entry, next) = decode_rest(input, path, rest)?;
        entries.push(entry);
        assert(entries.deep_view() =~= before.push(entry@));
        at = next;
        done = done + 1;
    }
    if at != size {
        return Err(JavelinError::corruption("tree has trailing bytes".to_owned()));
    }
    view::detect_case_collisions(&entries)?;
    Ok(Tree { entries })
}

/// A tree that a scan or an integration can give: paths that a tree may hold,
/// in order and none the same but for case, of lengths that the encoding has
/// room for.
pub open spec fn encodable(entries: Seq<TreeEntry<Text>>) -> bool {
    &&& model::sorted(entries)
    &&& entries.len() < 0x1_0000_0000
    &&& view::collision_failure(entries) is None
    &&& forall|i: int| 0 <= i < entries.len() ==> encodable_entry(#[trigger] entries[i])
}

pub open spec fn encodable_entry(entry: TreeEntry<Text>) -> bool {
    &&& paths::path_failure(entry.path) is None
    &&& encode_utf8(entry.path).len() < 0x1_0000_0000
    &&& entry.object_id is Some ==> {
        &&& entry.object_id->Some_0.len() > 0
        &&& encode_utf8(entry.object_id->Some_0).len() < 0x1_0000
    }
}

/// An encoded entry is read back as it was, wherever it stands.
proof fn lemma_parse_entry(
    input: Seq<u8>,
    at: int,
    entry: TreeEntry<Text>,
    previous: Option<Text>,
)
    requires
        encodable_entry(entry),
        0 <= at,
        at + entry_bytes(entry).len() <= input.len(),
        input.subrange(at, at + entry_bytes(entry).len()) == entry_bytes(entry),
        previous is Some ==> text::text_less(previous->Some_0, entry.path),
    ensures
        parse_entry(input, at, previous) == Ok::<(TreeEntry<Text>, int), Failure>(
            (entry, at + entry_bytes(entry).len()),
        ),
{
    let path = encode_utf8(entry.path);
    let id = written_id(entry.object_id);
    let object = encode_utf8(id);
    let all = entry_bytes(entry);
    let here = input.subrange(at, at + all.len());
    bytes::lemma_limits();
    bytes::lemma_big_endian_len(path.len(), 4);
    bytes::lemma_big_endian_len(object.len(), 2);
    assert(object.len() < 0x1_0000) by {
        if entry.object_id is None {
            assert(encode_utf8(Seq::<char>::empty()).len() == 0);
        }
    }
    bytes::lemma_big_endian_round_trip(path.len(), 4);
    bytes::lemma_big_endian_round_trip(object.len(), 2);
    assert(all.len() == 4 + path.len() + 2 + 2 + object.len());
    let end = at + 4 + path.len();
    assert(here == all);
    assert(input.subrange(at, at + 4) =~= here.subrange(0, 4));
    assert(all.subrange(0, 4) =~= bytes::big_endian(path.len(), 4));
    assert(input.subrange(at + 4, end) =~= here.subrange(4, 4 + path.len() as int));
    assert(all.subrange(4, 4 + path.len() as int) =~= path);
    encode_utf8_valid_utf8(entry.path);
    encode_utf8_decode_utf8(entry.path);
    assert(input[end] == here[4 + path.len() as int]);
    assert(input[end + 1] == here[5 + path.len() as int]);
    assert(input.subrange(end + 2, end + 4) =~= here.subrange(
        6 + path.len() as int,
        8 + path.len() as int,
    ));
    assert(all.subrange(6 + path.len() as int, 8 + path.len() as int) =~= bytes::big_endian(
        object.len(),
        2,
    ));
    assert(input.subrange(end + 4, end + 4 + object.len()) =~= here.subrange(
        8 + path.len() as int,
        8 + path.len() as int + object.len() as int,
    ));
    assert(all.subrange(8 + path.len() as int, 8 + path.len() as int + object.len() as int)
        =~= object);
    encode_utf8_valid_utf8(id);
    encode_utf8_decode_utf8(id);
    assert(parse_path(input, at, previous) == Ok::<(Text, int), Failure>((entry.path, end)));
}

/// Where an encoded entry stands in the encoding of its tree.
proof fn lemma_entry_place(entries: Seq<TreeEntry<Text>>, done: int)
    requires
        0 <= done < entries.len(),
    ensures
        ({
            let at = 4 + entries_bytes(entries.take(done)).len() as int;
            let end = at + entry_bytes(entries[done]).len();
            &&& end == 4 + entries_bytes(entries.take(done + 1)).len()
            &&& end <= tree_bytes(entries).len()
            &&& tree_bytes(entries).subrange(at, end) == entry_bytes(entries[done])
        }),
{
    let input = tree_bytes(entries);
    let whole = entries_bytes(entries);
    let entry = entry_bytes(entries[done]);
    let before = entries_bytes(entries.take(done));
    let next = entries_bytes(entries.take(done + 1));
    bytes::lemma_big_endian_len(entries.len(), 4);
    assert(entries.take(done + 1).drop_last() =~= entries.take(done));
    assert(next == before + entry);
    lemma_entries_bytes_prefix(entries, done + 1);
    let at: int = 4 + before.len() as int;
    assert forall|i: int| 0 <= i < entry.len() implies #[trigger] input.subrange(
        at,
        at + entry.len(),
    )[i] == entry[i] by {
        assert(input[at + i] == whole[at - 4 + i]);
        assert(whole.take(next.len() as int)[at - 4 + i] == next[at - 4 + i]);
    }
    assert(input.subrange(at, at + entry.len()) =~= entry);
}

#[verifier::spinoff_prover]
proof fn lemma_parse_entries(entries: Seq<TreeEntry<Text>>, done: int)
    requires
        encodable(entries),
        0 <= done <= entries.len(),
    ensures
        parse_entries(
            tree_bytes(entries),
            4 + entries_bytes(entries.take(done)).len() as int,
            (entries.len() - done) as nat,
            entries.take(done),
        ) == Ok::<(Seq<TreeEntry<Text>>, int), Failure>((entries, tree_bytes(entries).len() as int)),
    decreases entries.len() - done,
{
    let input = tree_bytes(entries);
    bytes::lemma_big_endian_len(entries.len(), 4);
    if done == entries.len() {
        assert(entries.take(done) =~= entries);
    } else {
        let before = entries.take(done);
        let entry = entries[done];
        let at: int = 4 + entries_bytes(before).len() as int;
        lemma_entry_place(entries, done);
        if done > 0 {
            assert(before.last() == entries[done - 1]);
            assert(text::text_less(entries[done - 1].path, entries[done].path));
        }
        lemma_parse_entry(input, at, entry, last_path(before));
        assert(before.push(entry) =~= entries.take(done + 1));
        lemma_parse_entries(entries, done + 1);
    }
}

/// The encoding of the first entries starts the encoding of them all.
proof fn lemma_entries_bytes_prefix(entries: Seq<TreeEntry<Text>>, n: int)
    requires
        0 <= n <= entries.len(),
    ensures
        entries_bytes(entries.take(n)).len() <= entries_bytes(entries).len(),
        entries_bytes(entries).take(entries_bytes(entries.take(n)).len() as int) == entries_bytes(
            entries.take(n),
        ),
    decreases entries.len() - n,
{
    if n == entries.len() {
        assert(entries.take(n) =~= entries);
        assert(entries_bytes(entries).take(entries_bytes(entries).len() as int) =~= entries_bytes(
            entries,
        ));
    } else {
        assert(entries.take(n + 1).drop_last() =~= entries.take(n));
        lemma_entries_bytes_prefix(entries, n + 1);
        let small = entries_bytes(entries.take(n));
        let more = entries_bytes(entries.take(n + 1));
        assert(more.take(small.len() as int) =~= small);
        assert(entries_bytes(entries).take(small.len() as int) =~= entries_bytes(entries).take(
            more.len() as int,
        ).take(small.len() as int));
    }
}

/// An encoded tree is decoded as the same tree.
pub proof fn law_tree_round_trip(entries: Seq<TreeEntry<Text>>)
    requires
        encodable(entries),
    ensures
        decode_outcome(tree_bytes(entries)) == Ok::<Seq<TreeEntry<Text>>, Failure>(entries),
        encode_outcome(entries) == Ok::<Seq<u8>, Failure>(tree_bytes(entries)),
{
    let input = tree_bytes(entries);
    bytes::lemma_limits();
    bytes::lemma_big_endian_len(entries.len(), 4);
    bytes::lemma_big_endian_round_trip(entries.len(), 4);
    assert(input.subrange(0, 4) =~= bytes::big_endian(entries.len(), 4));
    assert(entries.take(0) =~= Seq::empty());
    lemma_parse_entries(entries, 0);
    model::lemma_normal_form_sorted(entries);
    lemma_sorted_distinct(entries);
}

/// The encoding does not depend on the order of the entries: trees without
/// duplicated paths that give each path the same state are encoded alike.
pub proof fn law_encoding_ignores_order(a: Seq<TreeEntry<Text>>, b: Seq<TreeEntry<Text>>)
    requires
        model::states(a) == model::states(b),
        forall|path: Text| !duplicated(a, path),
        forall|path: Text| !duplicated(b, path),
    ensures
        encode_outcome(a) == encode_outcome(b),
{
    assert(model::normal_form(a) == model::normal_form(b));
}

/// A tree that a scan or an integration can give, whatever the order of its
/// entries.
pub open spec fn encodable_tree(entries: Seq<TreeEntry<Text>>) -> bool {
    &&& forall|path: Text| !duplicated(entries, path)
    &&& entries.len() < 0x1_0000_0000
    &&& view::collision_failure(entries) is None
    &&& forall|i: int| 0 <= i < entries.len() ==> encodable_entry(#[trigger] entries[i])
}

/// Without duplicated paths each entry is the state of its path.
proof fn lemma_distinct_states(entries: Seq<TreeEntry<Text>>)
    requires
        forall|path: Text| !duplicated(entries, path),
    ensures
        entries.no_duplicates(),
        forall|entry: TreeEntry<Text>| #[trigger]
            entries.contains(entry) <==> states_hold(entries, entry),
{
    model::lemma_states(entries);
    assert forall|i: int, j: int| 0 <= i < entries.len() && 0 <= j < entries.len() && i
        != j implies entries[i] != entries[j] by {
        if entries[i] == entries[j] {
            if i < j {
                assert(duplicated(entries, entries[i].path));
            } else {
                assert(duplicated(entries, entries[j].path));
            }
        }
    }
    assert forall|entry: TreeEntry<Text>| #[trigger]
        entries.contains(entry) <==> states_hold(entries, entry) by {
        if entries.contains(entry) {
            let i = choose|i: int| 0 <= i < entries.len() && entries[i] == entry;
            let held = model::states(entries)[entry.path];
            assert(model::states(entries).contains_key(entries[i].path));
            assert(entries.contains(held));
            let j = choose|j: int| 0 <= j < entries.len() && entries[j] == held;
            if i < j {
                assert(duplicated(entries, entry.path));
            } else if j < i {
                assert(duplicated(entries, entry.path));
            }
        }
    }
}

/// An entry is the state of its path.
spec fn states_hold(entries: Seq<TreeEntry<Text>>, entry: TreeEntry<Text>) -> bool {
    model::state_at(model::states(entries), entry.path) == Some(entry)
}

/// Without duplicated paths the entries that give each path the same state are
/// the same entries, in some order.
proof fn lemma_same_entries(a: Seq<TreeEntry<Text>>, b: Seq<TreeEntry<Text>>)
    requires
        forall|path: Text| !duplicated(a, path),
        forall|path: Text| !duplicated(b, path),
    ensures
        model::states(a) == model::states(b) <==> a.to_multiset() == b.to_multiset(),
{
    lemma_distinct_states(a);
    lemma_distinct_states(b);
    a.to_multiset_ensures();
    b.to_multiset_ensures();
    a.lemma_multiset_has_no_duplicates();
    b.lemma_multiset_has_no_duplicates();
    if model::states(a) == model::states(b) {
        assert forall|entry: TreeEntry<Text>| #[trigger]
            a.to_multiset().count(entry) == b.to_multiset().count(entry) by {
            assert(a.contains(entry) <==> states_hold(a, entry));
            assert(b.contains(entry) <==> states_hold(b, entry));
            assert(a.contains(entry) <==> a.to_multiset().count(entry) > 0);
            assert(b.contains(entry) <==> b.to_multiset().count(entry) > 0);
            if a.contains(entry) {
                assert(a.to_multiset().contains(entry));
                assert(b.to_multiset().contains(entry));
            }
        }
        assert(a.to_multiset() =~= b.to_multiset());
    }
    if a.to_multiset() == b.to_multiset() {
        model::lemma_states(a);
        model::lemma_states(b);
        assert forall|path: Text| #[trigger]
            model::state_at(model::states(a), path) == model::state_at(
            model::states(b),
            path,
        ) by {
            if model::states(a).contains_key(path) {
                let entry = model::states(a)[path];
                assert(a.contains(entry));
                assert(b.to_multiset().count(entry) > 0);
                assert(b.contains(entry));
                assert(states_hold(b, entry));
            }
            if model::states(b).contains_key(path) {
                let entry = model::states(b)[path];
                assert(b.contains(entry));
                assert(a.to_multiset().count(entry) > 0);
                assert(a.contains(entry));
                assert(states_hold(a, entry));
            }
        }
        assert(model::states(a) =~= model::states(b)) by {
            assert forall|path: Text| model::states(a).contains_key(path)
                <==> #[trigger] model::states(b).contains_key(path) by {
                assert(model::state_at(model::states(a), path) == model::state_at(
                    model::states(b),
                    path,
                ));
            }
            assert forall|path: Text| model::states(a).contains_key(path) implies #[trigger] model::states(
                a,
            )[path] == model::states(b)[path] by {
                assert(model::state_at(model::states(a), path) == model::state_at(
                    model::states(b),
                    path,
                ));
            }
        }
    }
}

/// The normal form of an encodable tree is encodable.
proof fn lemma_encodable_form(entries: Seq<TreeEntry<Text>>)
    requires
        encodable_tree(entries),
    ensures
        encodable(model::normal_form(entries)),
{
    let form = model::normal_form(entries);
    model::lemma_normal_form_exists(entries);
    model::lemma_states(entries);
    model::lemma_states(form);
    model::lemma_states_sorted(form);
    assert forall|i: int| 0 <= i < form.len() implies entries.contains(#[trigger] form[i]) by {
        assert(model::states(form).contains_key(form[i].path));
        assert(model::states(entries)[form[i].path] == form[i]);
    }
    lemma_sorted_distinct(form);
    lemma_same_entries(entries, form);
    entries.to_multiset_ensures();
    form.to_multiset_ensures();
    assert(form.len() == entries.len());
    view::lemma_no_collision(entries, form);
    assert forall|i: int| 0 <= i < form.len() implies encodable_entry(#[trigger] form[i]) by {
        assert(entries.contains(form[i]));
        let j = choose|j: int| 0 <= j < entries.len() && entries[j] == form[i];
        assert(encodable_entry(entries[j]));
    }
}

/// Sorted entries have no duplicated path.
proof fn lemma_sorted_distinct(entries: Seq<TreeEntry<Text>>)
    requires
        model::sorted(entries),
    ensures
        forall|path: Text| !duplicated(entries, path),
{
    assert forall|path: Text| !duplicated(entries, path) by {
        if duplicated(entries, path) {
            let (i, j) = choose|i: int, j: int|
                0 <= i < j < entries.len() && (#[trigger] entries[i]).path == path && (
                #[trigger] entries[j]).path == path;
            assert(text::text_less(entries[i].path, entries[j].path));
            text::lemma_text_less_irreflexive(path);
        }
    }
}

/// Two trees are encoded alike exactly where they have the same entries: their
/// order never matters, and any field that differs does.
pub proof fn law_encoding_tells_trees_apart(
    a: Seq<TreeEntry<Text>>,
    b: Seq<TreeEntry<Text>>,
)
    requires
        encodable_tree(a),
        encodable_tree(b),
    ensures
        encode_outcome(a) is Ok,
        encode_outcome(b) is Ok,
        encode_outcome(a) == encode_outcome(b) <==> a.to_multiset() == b.to_multiset(),
{
    lemma_same_entries(a, b);
    lemma_encodable_form(a);
    lemma_encodable_form(b);
    law_tree_round_trip(model::normal_form(a));
    law_tree_round_trip(model::normal_form(b));
    model::lemma_normal_form_exists(a);
    model::lemma_normal_form_exists(b);
    if model::states(a) == model::states(b) {
        law_encoding_ignores_order(a, b);
    }
}

/// The executable flag of every entry is written as 0 or 1.
pub open spec fn plain_flags(input: Seq<u8>, at: int, count: nat) -> bool
    decreases count,
{
    count == 0 || {
        let rest = at + 4 + number_at(input, at, 4);
        &&& input[rest + 1] <= 1
        &&& plain_flags(input, rest + 4 + number_at(input, rest + 2, 2), (count - 1) as nat)
    }
}

/// An entry of a decoded tree.
pub open spec fn decoded_entry(entry: TreeEntry<Text>) -> bool {
    paths::path_failure(entry.path) is None && entry.object_id != Some(Seq::<char>::empty())
}

/// What is read as an entry has a path that a tree may hold, and is written again
/// as it was read but for its flag.
proof fn lemma_read_entry(input: Seq<u8>, at: int, previous: Option<Text>)
    requires
        0 <= at <= input.len(),
        parse_entry(input, at, previous) is Ok,
    ensures
        ({
            let (entry, next) = parse_entry(input, at, previous)->Ok_0;
            let rest = at + 4 + number_at(input, at, 4);
            &&& at < next <= input.len()
            &&& next == rest + 4 + number_at(input, rest + 2, 2)
            &&& decoded_entry(entry)
            &&& previous is Some ==> text::text_less(previous->Some_0, entry.path)
            &&& input[rest + 1] <= 1 ==> entry_bytes(entry) == input.subrange(at, next)
        }),
{
    let (entry, next) = parse_entry(input, at, previous)->Ok_0;
    let rest = at + 4 + number_at(input, at, 4);
    let path = input.subrange(at + 4, rest);
    let object = input.subrange(rest + 4, next);
    decode_utf8_encode_utf8(path);
    decode_utf8_encode_utf8(object);
    bytes::lemma_big_endian_digits(input.subrange(at, at + 4));
    bytes::lemma_big_endian_digits(input.subrange(rest + 2, rest + 4));
    assert(written_id(entry.object_id) =~= decode_utf8(object));
    if input[rest + 1] <= 1 {
        assert(bytes::big_endian(path.len(), 4) == input.subrange(at, at + 4));
        assert(bytes::big_endian(object.len(), 2) == input.subrange(rest + 2, rest + 4));
        assert(entry_bytes(entry) =~= input.subrange(at, next));
    }
}

proof fn lemma_read_entries(input: Seq<u8>, at: int, count: nat, before: Seq<TreeEntry<Text>>)
    requires
        0 <= at <= input.len(),
        parse_entries(input, at, count, before) is Ok,
        model::sorted(before),
        forall|i: int| 0 <= i < before.len() ==> decoded_entry(#[trigger] before[i]),
    ensures
        ({
            let (entries, end) = parse_entries(input, at, count, before)->Ok_0;
            &&& at <= end <= input.len()
            &&& entries.len() == before.len() + count
            &&& model::sorted(entries)
            &&& forall|i: int| 0 <= i < entries.len() ==> decoded_entry(#[trigger] entries[i])
            &&& plain_flags(input, at, count) ==> entries_bytes(entries) == entries_bytes(before)
                + input.subrange(at, end)
        }),
    decreases count,
{
    if count == 0 {
        assert(entries_bytes(before) + input.subrange(at, at) =~= entries_bytes(before));
    } else {
        lemma_read_entry(input, at, last_path(before));
        let (entry, next) = parse_entry(input, at, last_path(before))->Ok_0;
        let more = before.push(entry);
        assert forall|i: int, j: int| 0 <= i < j < more.len() implies text::text_less(
            #[trigger] more[i].path,
            #[trigger] more[j].path,
        ) by {
            if j < before.len() {
                assert(text::text_less(before[i].path, before[j].path));
            } else if i < before.len() - 1 {
                let last = before.len() - 1;
                assert(text::text_less(before[i].path, before[last].path));
                text::lemma_text_less_transitive(before[i].path, before[last].path, entry.path);
            }
        }
        lemma_read_entries(input, next, (count - 1) as nat, more);
        let (entries, end) = parse_entries(input, at, count, before)->Ok_0;
        assert(more.drop_last() =~= before);
        if plain_flags(input, at, count) {
            assert(input.subrange(at, end) =~= input.subrange(at, next) + input.subrange(next, end));
            assert(entries_bytes(entries) =~= entries_bytes(before) + input.subrange(at, end));
        }
    }
}

/// What decodes is a tree in order: its paths ascend strictly, each is one that a
/// tree may hold, and no object ID is empty. Where every executable flag is
/// written as 0 or 1, the tree is encoded as the same bytes again.
pub proof fn law_decoded_tree_is_canonical(input: Seq<u8>)
    requires
        decode_outcome(input) is Ok,
    ensures
        ({
            let entries = decode_outcome(input)->Ok_0;
            &&& model::sorted(entries)
            &&& forall|i: int|
                0 <= i < entries.len() ==> paths::path_failure((#[trigger] entries[i]).path) is None
                    && entries[i].object_id != Some(Seq::<char>::empty())
            &&& plain_flags(input, 4, number_at(input, 0, 4)) ==> encode_outcome(entries) == Ok::<
                Seq<u8>,
                Failure,
            >(input)
        }),
{
    let count = number_at(input, 0, 4);
    let empty = Seq::<TreeEntry<Text>>::empty();
    lemma_read_entries(input, 4, count, empty);
    let entries = decode_outcome(input)->Ok_0;
    lemma_sorted_distinct(entries);
    model::lemma_normal_form_sorted(entries);
    assert forall|i: int| 0 <= i < entries.len() implies paths::path_failure(
        (#[trigger] entries[i]).path,
    ) is None && entries[i].object_id != Some(Seq::<char>::empty()) by {
        assert(decoded_entry(entries[i]));
    }
    if plain_flags(input, 4, count) {
        bytes::lemma_big_endian_digits(input.subrange(0, 4));
        assert(bytes::big_endian(entries.len(), 4) == input.subrange(0, 4));
        assert(entries_bytes(entries) =~= input.subrange(4, input.len() as int));
        assert(tree_bytes(entries) =~= input);
    }
}

/// An entry is read the same where more bytes follow.
proof fn lemma_entry_extended(input: Seq<u8>, more: Seq<u8>, at: int, previous: Option<Text>)
    requires
        0 <= at <= input.len(),
        parse_entry(input, at, previous) is Ok,
    ensures
        parse_entry(input + more, at, previous) == parse_entry(input, at, previous),
{
    let longer = input + more;
    lemma_read_entry(input, at, previous);
    let rest = at + 4 + number_at(input, at, 4);
    let next = rest + 4 + number_at(input, rest + 2, 2);
    assert(longer.subrange(at, at + 4) =~= input.subrange(at, at + 4));
    assert(longer.subrange(at + 4, rest) =~= input.subrange(at + 4, rest));
    assert(longer.subrange(rest + 2, rest + 4) =~= input.subrange(rest + 2, rest + 4));
    assert(longer.subrange(rest + 4, next) =~= input.subrange(rest + 4, next));
    assert(longer[rest] == input[rest]);
    assert(longer[rest + 1] == input[rest + 1]);
}

proof fn lemma_entries_extended(
    input: Seq<u8>,
    more: Seq<u8>,
    at: int,
    count: nat,
    before: Seq<TreeEntry<Text>>,
)
    requires
        0 <= at <= input.len(),
        parse_entries(input, at, count, before) is Ok,
    ensures
        parse_entries(input + more, at, count, before) == parse_entries(input, at, count, before),
    decreases count,
{
    if count > 0 {
        lemma_entry_extended(input, more, at, last_path(before));
        lemma_read_entry(input, at, last_path(before));
        let (entry, next) = parse_entry(input, at, last_path(before))->Ok_0;
        lemma_entries_extended(input, more, next, (count - 1) as nat, before.push(entry));
    }
}

/// No encoding continues another: bytes after a tree that decodes are refused.
pub proof fn law_extended_tree_is_refused(input: Seq<u8>, more: Seq<u8>)
    requires
        decode_outcome(input) is Ok,
        more.len() > 0,
    ensures
        decode_outcome(input + more) == Err::<Seq<TreeEntry<Text>>, Failure>(
            Failure::corruption("tree has trailing bytes"@),
        ),
{
    assert((input + more).subrange(0, 4) =~= input.subrange(0, 4));
    lemma_entries_extended(input, more, 4, number_at(input, 0, 4), Seq::empty());
}

/// A tree that decodes is refused where any of its last bytes are missing.
pub proof fn law_cut_tree_is_refused(input: Seq<u8>, length: int)
    requires
        decode_outcome(input) is Ok,
        0 <= length < input.len(),
    ensures
        decode_outcome(input.take(length)) is Err,
{
    if decode_outcome(input.take(length)) is Ok {
        law_extended_tree_is_refused(input.take(length), input.skip(length));
        assert(input.take(length) + input.skip(length) =~= input);
    }
}

/// An object file starts with the four letters of the format, the kind's byte
/// and the length of the content in eight bytes, the most significant first.
pub proof fn law_header_layout(kind: ObjectKind, length: nat)
    requires
        length < 0x1_0000_0000_0000_0000,
    ensures
        ({
            let head = header(kind, length);
            &&& head.len() == 13
            &&& head[0] == 0x4a && head[1] == 0x56 && head[2] == 0x4c && head[3] == 0x31
            &&& head[4] == (if kind == ObjectKind::Blob {
                1u8
            } else {
                2u8
            })
            &&& bytes::big_endian_value(head.subrange(5, 13)) == length
        }),
{
    bytes::lemma_limits();
    bytes::lemma_big_endian_len(length, 8);
    bytes::lemma_big_endian_round_trip(length, 8);
    assert(header(kind, length).subrange(5, 13) =~= bytes::big_endian(length, 8));
}

/// Nothing is read that was not written: the identity has 64 hexadecimal digits,
/// the file has the format's letters and a known kind, the content has the length
/// that the header tells, and the kind and the content hash to the identity.
/// Whatever fails one of these is refused as corrupt.
pub proof fn law_read_checks_everything(id: Text, file: Seq<u8>)
    ensures
        read_outcome(id, file) matches Ok((kind, content)) ==> {
            &&& id.len() == 64
            &&& forall|i: int|
                0 <= i < 64 ==> ('0' <= #[trigger] id[i] <= '9') || ('a' <= id[i] <= 'f') || ('A'
                    <= id[i] <= 'F')
            &&& file.len() >= 13
            &&& file.take(4) == seq![0x4au8, 0x56u8, 0x4cu8, 0x31u8]
            &&& file[4] == (if kind == ObjectKind::Blob {
                1u8
            } else {
                2u8
            })
            &&& zstd_decoded(file.skip(13)) == Ok::<Seq<u8>, Text>(content)
            &&& content.len() == bytes::big_endian_value(file.subrange(5, 13))
            &&& blake3_hex(encode_utf8(kind.domain()) + content) == id
        },
        read_outcome(id, file) is Err ==> read_outcome(id, file)->Err_0.exit_code == 7,
{
    if read_outcome(id, file) is Ok {
        assert forall|i: int| 0 <= i < 64 implies ('0' <= #[trigger] id[i] <= '9') || ('a' <= id[i]
            <= 'f') || ('A' <= id[i] <= 'F') by {
            assert(hex_digit(id[i]));
        }
        assert(magic() =~= seq![0x4au8, 0x56u8, 0x4cu8, 0x31u8]);
    }
}

/// A blob and a tree are hashed under different words, so that no content is
/// taken for an object of the other kind.
pub proof fn law_kinds_are_hashed_apart()
    ensures
        ObjectKind::Blob.domain() == "javelin:blob:v1\0"@,
        ObjectKind::Tree.domain() == "javelin:tree:v1\0"@,
        ObjectKind::Blob.domain() != ObjectKind::Tree.domain(),
        ObjectKind::Blob.domain().len() == ObjectKind::Tree.domain().len(),
{
    reveal_strlit("javelin:blob:v1\0");
    reveal_strlit("javelin:tree:v1\0");
    assert(ObjectKind::Blob.domain()[8] == 'b');
    assert(ObjectKind::Tree.domain()[8] == 't');
}

/// The bytes of an entry tell its path's length and the path, its kind, its
/// executable bit, and its object's identity with its length.
pub proof fn law_entry_layout(entry: TreeEntry<Text>)
    requires
        encode_utf8(entry.path).len() < 0x1_0000_0000,
        entry.object_id is Some ==> encode_utf8(entry.object_id->Some_0).len() < 0x1_0000,
    ensures
        ({
            let all = entry_bytes(entry);
            let n = encode_utf8(entry.path).len() as int;
            &&& all.len() >= n + 8
            &&& bytes::big_endian_value(all.subrange(0, 4)) == n
            &&& all.subrange(4, 4 + n) == encode_utf8(entry.path)
            &&& all[n + 4] == (match entry.kind {
                EntryKind::File => 1u8,
                EntryKind::Directory => 2u8,
                EntryKind::Symlink => 3u8,
            })
            &&& all[n + 5] == (if entry.executable {
                1u8
            } else {
                0u8
            })
            &&& entry.object_id is Some ==> bytes::big_endian_value(all.subrange(n + 6, n + 8))
                == encode_utf8(entry.object_id->Some_0).len() && all.skip(n + 8) == encode_utf8(
                entry.object_id->Some_0,
            )
            &&& entry.object_id is None ==> bytes::big_endian_value(all.subrange(n + 6, n + 8))
                == 0 && all.len() == n + 8
        }),
{
    let all = entry_bytes(entry);
    let n = encode_utf8(entry.path).len() as int;
    let object = encode_utf8(written_id(entry.object_id));
    bytes::lemma_limits();
    bytes::lemma_big_endian_len(n as nat, 4);
    bytes::lemma_big_endian_round_trip(n as nat, 4);
    if entry.object_id is None {
        assert(object.len() == 0);
    }
    bytes::lemma_big_endian_len(object.len(), 2);
    bytes::lemma_big_endian_round_trip(object.len(), 2);
    assert(all.subrange(0, 4) =~= bytes::big_endian(n as nat, 4));
    assert(all.subrange(4, 4 + n) =~= encode_utf8(entry.path));
    assert(all.subrange(n + 6, n + 8) =~= bytes::big_endian(object.len(), 2));
    assert(all.skip(n + 8) =~= object);
}

} // verus!
