//! Objects by kind: one type per kind, each holding its payload.
use vstd::prelude::*;

use crate::codec::{copy_of, encoded, kind_name, kind_name_bytes, Kind, MAX_HEADER_LEN};
use crate::primitives::zlib_of;
use crate::store::{object_id, object_write, Object, StoreError, StoredObject};

verus! {

/// An object of one kind, held as its payload.
pub trait GitObject: Sized {
    spec fn spec_data(&self) -> Seq<u8>;

    spec fn spec_kind(&self) -> Kind;

    /// The payload.
    fn serialize(&self) -> (r: Vec<u8>)
        ensures
            r@ == self.spec_data(),
    ;

    /// The object with payload `buf`.
    fn deserialize(buf: &[u8]) -> (r: Self)
        ensures
            r.spec_data() == buf@,
    ;

    /// The name of the object's kind.
    fn format(&self) -> (r: Vec<u8>)
        ensures
            r@ == kind_name(self.spec_kind()),
    ;

    fn kind(&self) -> (r: Kind)
        ensures
            r == self.spec_kind(),
    ;
}

/// A commit, held as its payload.
pub struct GitCommit {
    pub data: Vec<u8>,
}

/// A tree, held as its payload.
pub struct GitTree {
    pub data: Vec<u8>,
}

/// A tag, held as its payload.
pub struct GitTag {
    pub data: Vec<u8>,
}

/// A blob: file content.
pub struct GitBlob {
    pub data: Vec<u8>,
}

impl GitObject for GitCommit {
    open spec fn spec_data(&self) -> Seq<u8> {
        self.data@
    }

    open spec fn spec_kind(&self) -> Kind {
        Kind::Commit
    }

    fn serialize(&self) -> (r: Vec<u8>) {
        copy_of(self.data.as_slice())
    }

    fn deserialize(buf: &[u8]) -> (r: Self) {
        GitCommit { data: copy_of(buf) }
    }

    fn format(&self) -> (r: Vec<u8>) {
        kind_name_bytes(Kind::Commit)
    }

    fn kind(&self) -> (r: Kind) {
        Kind::Commit
    }
}

impl GitObject for GitTree {
    open spec fn spec_data(&self) -> Seq<u8> {
        self.data@
    }

    open spec fn spec_kind(&self) -> Kind {
        Kind::Tree
    }

    fn serialize(&self) -> (r: Vec<u8>) {
        copy_of(self.data.as_slice())
    }

    fn deserialize(buf: &[u8]) -> (r: Self) {
        GitTree { data: copy_of(buf) }
    }

    fn format(&self) -> (r: Vec<u8>) {
        kind_name_bytes(Kind::Tree)
    }

    fn kind(&self) -> (r: Kind) {
        Kind::Tree
    }
}

impl GitObject for GitTag {
    open spec fn spec_data(&self) -> Seq<u8> {
        self.data@
    }

    open spec fn spec_kind(&self) -> Kind {
        Kind::Tag
    }

    fn serialize(&self) -> (r: Vec<u8>) {
        copy_of(self.data.as_slice())
    }

    fn deserialize(buf: &[u8]) -> (r: Self) {
        GitTag { data: copy_of(buf) }
    }

    fn format(&self) -> (r: Vec<u8>) {
        kind_name_bytes(Kind::Tag)
    }

    fn kind(&self) -> (r: Kind) {
        Kind::Tag
    }
}

impl GitObject for GitBlob {
    open spec fn spec_data(&self) -> Seq<u8> {
        self.data@
    }

    open spec fn spec_kind(&self) -> Kind {
        Kind::Blob
    }

    fn serialize(&self) -> (r: Vec<u8>) {
        copy_of(self.data.as_slice())
    }

    fn deserialize(buf: &[u8]) -> (r: Self) {
        GitBlob { data: copy_of(buf) }
    }

    fn format(&self) -> (r: Vec<u8>) {
        kind_name_bytes(Kind::Blob)
    }

    fn kind(&self) -> (r: Kind) {
        Kind::Blob
    }
}

impl GitBlob {
    /// The blob with content `content`.
    pub fn build(content: Vec<u8>) -> (r: Self)
        ensures
            r.data@ == content@,
    {
        GitBlob { data: content }
    }
}

impl GitTag {
    /// The tag with payload `payload`.
    pub fn build(payload: Vec<u8>) -> (r: Self)
        ensures
            r.data@ == payload@,
    {
        GitTag { data: payload }
    }
}

/// Prepares an object of any kind for storing, from its kind and payload.
pub fn write_git_object<T: GitObject>(obj: &T) -> (r: Result<StoredObject, StoreError>)
    ensures
        r matches Ok(s) ==> s.hash.bytes@ == object_id(obj.spec_kind(), obj.spec_data())
            && s.compressed@ == zlib_of(encoded(obj.spec_kind(), obj.spec_data())),
        r is Ok <==> obj.spec_data().len() + MAX_HEADER_LEN <= usize::MAX,
        r matches Err(e) ==> e == StoreError::TooLarge,
{
    let data = obj.serialize();
    if data.len() > usize::MAX - MAX_HEADER_LEN {
        return Err(StoreError::TooLarge);
    }
    Ok(object_write(obj.kind(), data.as_slice()))
}

/// The content of a blob, for printing as it is; any other kind is `UnsupportedKind`.
pub fn cat_file(object: &Object) -> (r: Result<Vec<u8>, StoreError>)
    ensures
        object.kind == Kind::Blob ==> (r matches Ok(v) && v@ == object.payload@),
        object.kind != Kind::Blob ==> r == Err::<Vec<u8>, StoreError>(StoreError::UnsupportedKind),
{
    if object.kind == Kind::Blob {
        Ok(copy_of(object.payload.as_slice()))
    } else {
        Err(StoreError::UnsupportedKind)
    }
}

} // verus!
