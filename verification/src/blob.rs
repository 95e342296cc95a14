use vstd::prelude::*;

use crate::digest::{sha1_digest, sha1_of};
use crate::enc::{copy_bytes, decimal_bytes, decimal_octets, push_bytes};
use crate::oid::{vec_u8_eq, OID};

verus! {

/// The canonical encoding of file content: the header "blob ", the
/// content's byte length in decimal, a NUL byte, then the content itself.
/// The length prefix is authoritative, so the content may hold any bytes,
/// NUL included.
pub open spec fn blob_encoding(content: Seq<u8>) -> Seq<u8> {
    seq![0x62u8, 0x6c, 0x6f, 0x62, 0x20] + decimal_octets(content.len()) + seq![0u8] + content
}

/// A file object: an immutable byte sequence under the canonical "blob"
/// envelope.
#[derive(Debug)]
pub struct Blob {
    content: Vec<u8>,
}

impl View for Blob {
    type V = Seq<u8>;

    closed spec fn view(&self) -> Seq<u8> {
        self.content@
    }
}

impl Blob {
    /// Wrap bytes, arbitrary and possibly empty, as file content.
    pub fn new(bytes: Vec<u8>) -> (r: Blob)
        ensures
            r@ == bytes@,
    {
        Blob { content: bytes }
    }

    /// A file object holding a copy of the given bytes.
    pub fn from_bytes(bytes: &Vec<u8>) -> (r: Blob)
        ensures
            r@ == bytes@,
    {
        Blob { content: copy_bytes(bytes) }
    }

    /// The canonical encoding: "blob ", the decimal byte length of the
    /// content, NUL, then the raw content.
    pub fn as_bytes(&self) -> (r: Vec<u8>)
        ensures
            r@ == blob_encoding(self@),
    {
        let mut out: Vec<u8> = vec![0x62u8, 0x6c, 0x6f, 0x62, 0x20];
        let len_bytes = decimal_bytes(self.content.len());
        push_bytes(&mut out, &len_bytes);
        out.push(0);
        push_bytes(&mut out, &self.content);
        proof {
            assert(out@ =~= blob_encoding(self@));
        }
        out
    }

    /// The identifier: the digest of the canonical encoding.
    pub fn id(&self) -> (r: OID)
        ensures
            r@ == sha1_of(blob_encoding(self@)),
            r.wf(),
    {
        let encoded = self.as_bytes();
        OID::from_digest(sha1_digest(&encoded))
    }

    /// The byte length of the content.
    pub fn size(&self) -> (r: usize)
        ensures
            r == self@.len(),
    {
        self.content.len()
    }

    /// A read-only view of the raw content bytes.
    pub fn contents(&self) -> (r: &Vec<u8>)
        ensures
            r@ == self@,
    {
        &self.content
    }
}

impl PartialEq for Blob {
    /// Two file objects are equal exactly when their contents are.
    fn eq(&self, other: &Blob) -> (r: bool) {
        vec_u8_eq(&self.content, &other.content)
    }
}

impl Eq for Blob {

}

impl vstd::std_specs::cmp::PartialEqSpecImpl for Blob {
    open spec fn obeys_eq_spec() -> bool {
        true
    }

    open spec fn eq_spec(&self, other: &Blob) -> bool {
        self@ == other@
    }
}

} // verus!
