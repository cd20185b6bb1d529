use vstd::prelude::*;
use vstd::utf8::*;
use crate::wire;

verus! {

/// blake3 digest (32 bytes). Identifies every stored object.
pub type ObjectHash = [u8; 32];

/// Snapshot of a single file's bytes.
#[derive(Debug, Clone)]
pub struct Blob {
    pub data: Vec<u8>,
}

/// What a tree entry points at.
#[derive(Debug, Clone, Copy, PartialEq, Eq, Structural)]
pub enum TreeEntryKind {
    Blob,
    Tree,
}

/// One name -> object mapping inside a tree.
#[derive(Debug, Clone)]
pub struct TreeEntry {
    pub name: String,
    pub kind: TreeEntryKind,
    pub hash: ObjectHash,
}

/// Snapshot of a directory: a sorted list of entries.
#[derive(Debug, Clone)]
pub struct Tree {
    pub entries: Vec<TreeEntry>,
}

/// Commit: tree snapshot + author + parent + message.
#[derive(Debug, Clone)]
pub struct Commit {
    pub parent: Option<ObjectHash>,
    pub tree: ObjectHash,
    pub author_name: String,
    pub author_email: String,
    /// Seconds since the Unix epoch, UTC.
    pub timestamp_utc: i64,
    pub message: String,
}

/// Why an object could not be had.
#[derive(Debug)]
pub enum ObjectError {
    /// No object is stored under the hash.
    NotFound { hash: ObjectHash },
    /// The object stored under the hash is of another type.
    WrongType { hash: ObjectHash, found: String, expected: String },
    /// The stored bytes are not an object of the expected type.
    Decode,
}

/// Mathematical value of a tree entry.
pub struct TreeEntryView {
    pub name: Seq<char>,
    pub kind: TreeEntryKind,
    pub hash: Seq<u8>,
}

/// Mathematical value of a commit.
pub struct CommitView {
    pub parent: Option<Seq<u8>>,
    pub tree: Seq<u8>,
    pub author_name: Seq<char>,
    pub author_email: Seq<char>,
    pub timestamp_utc: i64,
    pub message: Seq<char>,
}

impl View for Blob {
    type V = Seq<u8>;

    open spec fn view(&self) -> Seq<u8> {
        self.data@
    }
}

impl View for TreeEntry {
    type V = TreeEntryView;

    open spec fn view(&self) -> TreeEntryView {
        TreeEntryView { name: self.name@, kind: self.kind, hash: self.hash@ }
    }
}

impl View for Tree {
    type V = Seq<TreeEntryView>;

    open spec fn view(&self) -> Seq<TreeEntryView> {
        self.entries@.map_values(|e: TreeEntry| e@)
    }
}

/// The view of an optional hash.
pub open spec fn opt_hash_view(h: Option<ObjectHash>) -> Option<Seq<u8>> {
    match h {
        Some(x) => Some(x@),
        None => None,
    }
}

impl View for Commit {
    type V = CommitView;

    open spec fn view(&self) -> CommitView {
        CommitView {
            parent: opt_hash_view(self.parent),
            tree: self.tree@,
            author_name: self.author_name@,
            author_email: self.author_email@,
            timestamp_utc: self.timestamp_utc,
            message: self.message@,
        }
    }
}

impl Default for Tree {
    fn default() -> (t: Tree)
        ensures
            t@ == Seq::<TreeEntryView>::empty(),
    {
        let t = Tree { entries: Vec::new() };
        assert(t@ =~= Seq::<TreeEntryView>::empty());
        t
    }
}


/// The blake3 digest of a byte string (32 bytes).
pub uninterp spec fn blake3_digest(data: Seq<u8>) -> Seq<u8>;

/// blake3 hash of a byte slice, returned as a 32-byte array.
///
/// Calls `blake3::hash` and copies out its 32 bytes. What is stated of the
/// result is only that it is the blake3 digest of `data`, which depends on
/// `data` alone; the digest itself is not computed here.
#[verifier::external_body]
pub fn hash_bytes(data: &[u8]) -> (h: ObjectHash)
    ensures
        h@ == blake3_digest(data@),
{
    *blake3::hash(data).as_bytes()
}

/// A kind of stored object: its encoding and the parser that reads it back.
pub trait StoredObject: Sized + View {
    /// The bytes that represent a value of this kind.
    spec fn encoding(v: Self::V) -> Seq<u8>;

    /// Reads a value of this kind from the front of the bytes.
    spec fn parse(s: Seq<u8>) -> Option<(Self::V, nat)>;

    fn encode_object(&self) -> (out: Vec<u8>)
        ensures
            out@ == Self::encoding(self@),
    ;

    fn decode_object(bytes: &[u8]) -> (r: Result<Self, ObjectError>)
        ensures
            match Self::parse(bytes@) {
                Some((v, _)) => r matches Ok(x) && x@ == v,
                None => r matches Err(ObjectError::Decode),
            },
    ;
}

impl StoredObject for Blob {
    open spec fn encoding(v: Seq<u8>) -> Seq<u8> {
        wire::blob_bytes(v)
    }

    open spec fn parse(s: Seq<u8>) -> Option<(Seq<u8>, nat)> {
        wire::parse_blob(s)
    }

    fn encode_object(&self) -> (out: Vec<u8>) {
        wire::encode_blob(self)
    }

    fn decode_object(bytes: &[u8]) -> (r: Result<Blob, ObjectError>) {
        wire::decode_blob(bytes)
    }
}

impl StoredObject for Tree {
    open spec fn encoding(v: Seq<TreeEntryView>) -> Seq<u8> {
        wire::tree_bytes(v)
    }

    open spec fn parse(s: Seq<u8>) -> Option<(Seq<TreeEntryView>, nat)> {
        wire::parse_tree(s)
    }

    fn encode_object(&self) -> (out: Vec<u8>) {
        wire::encode_tree(self)
    }

    fn decode_object(bytes: &[u8]) -> (r: Result<Tree, ObjectError>) {
        wire::decode_tree(bytes)
    }
}

impl StoredObject for Commit {
    open spec fn encoding(v: CommitView) -> Seq<u8> {
        wire::commit_bytes(v)
    }

    open spec fn parse(s: Seq<u8>) -> Option<(CommitView, nat)> {
        wire::parse_commit(s)
    }

    fn encode_object(&self) -> (out: Vec<u8>) {
        wire::encode_commit(self)
    }

    fn decode_object(bytes: &[u8]) -> (r: Result<Commit, ObjectError>) {
        wire::decode_commit(bytes)
    }
}

/// Serializes an object into its stored bytes.
pub fn encode<T: StoredObject>(value: &T) -> (out: Vec<u8>)
    ensures
        out@ == T::encoding(value@),
{
    value.encode_object()
}

/// Deserializes an object from the front of its stored bytes; bytes after
/// the object are ignored.
pub fn decode<T: StoredObject>(bytes: &[u8]) -> (r: Result<T, ObjectError>)
    ensures
        match T::parse(bytes@) {
            Some((v, _)) => r matches Ok(x) && x@ == v,
            None => r matches Err(ObjectError::Decode),
        },
{
    T::decode_object(bytes)
}

/// A row of the object table: the object's type name and its bytes.
pub struct ObjectRow {
    pub obj_type: String,
    pub data: Vec<u8>,
}

/// Whether two strings hold the same characters, compared by their bytes.
pub fn str_eq(a: &str, b: &str) -> (r: bool)
    ensures
        r == (a@ == b@),
{
    let x = a.as_bytes();
    let y = b.as_bytes();
    proof {
        encode_utf8_decode_utf8(a@);
        encode_utf8_decode_utf8(b@);
    }
    if x.len() != y.len() {
        return false;
    }
    let mut i: usize = 0;
    while i < x.len()
        invariant
            i <= x@.len(),
            x@.len() == y@.len(),
            x@ == encode_utf8(a@),
            y@ == encode_utf8(b@),
            forall|j: int| 0 <= j < i ==> x@[j] == y@[j],
        decreases x@.len() - i,
    {
        if x[i] != y[i] {
            assert(x@[i as int] != y@[i as int]);
            return false;
        }
        i = i + 1;
    }
    assert(x@ =~= y@);
    true
}

/// The bytes of the object stored under `hash`, given the row that the
/// object table holds for it, checked to be of type `expected_type`.
pub fn load_raw(hash: &ObjectHash, row: Option<ObjectRow>, expected_type: &str) -> (r: Result<
    Vec<u8>,
    ObjectError,
>)
    ensures
        match row {
            None => r matches Err(ObjectError::NotFound { hash: h }) && h == *hash,
            Some(x) => if x.obj_type@ == expected_type@ {
                r matches Ok(d) && d@ == x.data@
            } else {
                r matches Err(ObjectError::WrongType { hash: h, found, expected }) && h == *hash
                    && found@ == x.obj_type@ && expected@ == expected_type@
            },
        },
{
    match row {
        None => Err(ObjectError::NotFound { hash: *hash }),
        Some(x) => {
            if str_eq(x.obj_type.as_str(), expected_type) {
                Ok(x.data)
            } else {
                Err(
                    ObjectError::WrongType {
                        hash: *hash,
                        found: x.obj_type,
                        expected: expected_type.to_owned(),
                    },
                )
            }
        },
    }
}

/// Loads a tree from the object row stored under `hash`.
pub fn load_tree(hash: &ObjectHash, row: Option<ObjectRow>) -> (r: Result<Tree, ObjectError>)
    ensures
        match row {
            None => r matches Err(ObjectError::NotFound { hash: h }) && h == *hash,
            Some(x) => if x.obj_type@ == "tree"@ {
                match wire::parse_tree(x.data@) {
                    Some((v, _)) => r matches Ok(t) && t@ == v,
                    None => r matches Err(ObjectError::Decode),
                }
            } else {
                r matches Err(ObjectError::WrongType { hash: h, found, expected }) && h == *hash
                    && found@ == x.obj_type@ && expected@ == "tree"@
            },
        },
{
    let data = load_raw(hash, row, "tree")?;
    decode::<Tree>(data.as_slice())
}

/// Loads a commit from the object row stored under `hash`.
pub fn load_commit(hash: &ObjectHash, row: Option<ObjectRow>) -> (r: Result<Commit, ObjectError>)
    ensures
        match row {
            None => r matches Err(ObjectError::NotFound { hash: h }) && h == *hash,
            Some(x) => if x.obj_type@ == "commit"@ {
                match wire::parse_commit(x.data@) {
                    Some((v, _)) => r matches Ok(c) && c@ == v,
                    None => r matches Err(ObjectError::Decode),
                }
            } else {
                r matches Err(ObjectError::WrongType { hash: h, found, expected }) && h == *hash
                    && found@ == x.obj_type@ && expected@ == "commit"@
            },
        },
{
    let data = load_raw(hash, row, "commit")?;
    decode::<Commit>(data.as_slice())
}

/// Loads a blob from the object row stored under `hash`.
pub fn load_blob(hash: &ObjectHash, row: Option<ObjectRow>) -> (r: Result<Blob, ObjectError>)
    ensures
        match row {
            None => r matches Err(ObjectError::NotFound { hash: h }) && h == *hash,
            Some(x) => if x.obj_type@ == "blob"@ {
                match wire::parse_blob(x.data@) {
                    Some((v, _)) => r matches Ok(b) && b@ == v,
                    None => r matches Err(ObjectError::Decode),
                }
            } else {
                r matches Err(ObjectError::WrongType { hash: h, found, expected }) && h == *hash
                    && found@ == x.obj_type@ && expected@ == "blob"@
            },
        },
{
    let data = load_raw(hash, row, "blob")?;
    decode::<Blob>(data.as_slice())
}

} // verus!
