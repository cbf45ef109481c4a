//! Payload blobs of HLS streams, found by what they hold.

use crate::hex_text::{hex_bytes, hex_text, is_hex, law_hex_reads_back};
use crate::outside::{hex_encode, sha256, sha256_of};
use crate::text::{after_prefix, law_a_prefix_and_the_rest_make_the_text};
use vstd::hash_map::StringHashMap;
use vstd::prelude::*;
use vstd::string::*;

verus! {

/// The content address of a blob.
pub open spec fn blob_address(data: Seq<u8>) -> Seq<char> {
    "sha256:"@ + hex_text(sha256_of(data))
}

/// The content address of a blob whose digest is `digest`.
pub fn address_of_digest(digest: &[u8]) -> (key: String)
    ensures
        key@ == "sha256:"@ + hex_text(digest@),
{
    let mut key = String::from_str("sha256:");
    key.append(hex_encode(digest).as_str());
    key
}

/// Blobs by content address.
pub struct BlobStore {
    blobs: StringHashMap<Vec<u8>>,
}

impl BlobStore {
    /// What is stored.
    pub closed spec fn contents(&self) -> Map<Seq<char>, Seq<u8>> {
        self.blobs@.map_values(|data: Vec<u8>| data@)
    }

    /// Every blob is stored under its own address.
    pub open spec fn well_formed(&self) -> bool {
        forall|key: Seq<char>| #[trigger]
            self.contents().contains_key(key) ==> key == blob_address(self.contents()[key])
    }

    pub fn new() -> (store: Self)
        ensures
            store.contents() == Map::<Seq<char>, Seq<u8>>::empty(),
            store.well_formed(),
    {
        let store = BlobStore { blobs: StringHashMap::new() };
        assert(store.contents() =~= Map::<Seq<char>, Seq<u8>>::empty());
        store
    }

    /// Store an HLS payload blob and return a stable content-addressed key.
    /// A blob that is stored already stays as it is.
    pub fn register_hls_blob(&mut self, bytes: &[u8]) -> (key: String)
        ensures
            key@ == blob_address(bytes@),
            key@.len() == 71,
            final(self).contents() == if old(self).contents().contains_key(blob_address(bytes@)) {
                old(self).contents()
            } else {
                old(self).contents().insert(blob_address(bytes@), bytes@)
            },
            old(self).well_formed() ==> final(self).well_formed(),
    {
        let digest = sha256(bytes);
        let key = address_of_digest(digest.as_slice());
        proof {
            reveal_strlit("sha256:");
        }
        if !self.blobs.contains_key(key.as_str()) {
            self.blobs.insert(key.clone(), vstd::slice::slice_to_vec(bytes));
            assert(self.contents() =~= old(self).contents().insert(key@, bytes@));
        }
        key
    }

    /// The blob stored under `key`.
    pub fn resolve_hls_blob(&self, key: &str) -> (blob: Option<Vec<u8>>)
        ensures
            blob is Some <==> self.contents().contains_key(key@),
            blob matches Some(blob) ==> blob@ == self.contents()[key@],
    {
        match self.blobs.get(key) {
            Some(data) => Some(vstd::slice::slice_to_vec(data.as_slice())),
            None => None,
        }
    }
}

/// A registered key resolves: to the bytes themselves where the address was
/// new, and in any case to bytes of the same address. What was stored under
/// another key is still there.
pub proof fn law_a_registered_key_resolves(
    before: Map<Seq<char>, Seq<u8>>,
    after: Map<Seq<char>, Seq<u8>>,
    data: Seq<u8>,
    other: Seq<char>,
)
    requires
        forall|key: Seq<char>| #[trigger]
            before.contains_key(key) ==> key == blob_address(before[key]),
        after == if before.contains_key(blob_address(data)) {
            before
        } else {
            before.insert(blob_address(data), data)
        },
    ensures
        after.contains_key(blob_address(data)),
        blob_address(after[blob_address(data)]) == blob_address(data),
        !before.contains_key(blob_address(data)) ==> after[blob_address(data)] == data,
        before.contains_key(other) ==> after.contains_key(other) && after[other] == before[other],
{
}

/// The address of a blob names the digest and writes it out: behind the name of
/// the digest stand hexadecimal digits that read back as it.
pub proof fn law_an_address_writes_out_the_digest(data: Seq<u8>)
    ensures
        after_prefix(blob_address(data), "sha256:"@) matches Some(digits) && is_hex(digits)
            && hex_bytes(digits) == sha256_of(data),
{
    law_hex_reads_back(sha256_of(data));
    law_a_prefix_and_the_rest_make_the_text(
        "sha256:"@,
        hex_text(sha256_of(data)),
        blob_address(data),
    );
}

} // verus!
