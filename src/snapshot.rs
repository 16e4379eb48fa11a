use vstd::prelude::*;

verus! {

/// The logical content of a snapshot: collection name to the (identifier,
/// text) pairs stored in that collection.
pub type SavedView = Seq<(Seq<char>, Seq<(Seq<char>, Seq<char>)>)>;

pub open spec fn pair_view(p: (String, String)) -> (Seq<char>, Seq<char>) {
    (p.0@, p.1@)
}

pub open spec fn saved_view(v: Seq<(String, Vec<(String, String)>)>) -> SavedView {
    v.map_values(|c: (String, Vec<(String, String)>)| (c.0@, c.1@.map_values(|p: (String, String)| pair_view(p))))
}

/// The bytes that bincode writes for a snapshot's content.
pub uninterp spec fn snapshot_bytes(s: Seq<(Seq<char>, Seq<(Seq<char>, Seq<char>)>)>) -> Seq<u8>;

/// Relies on `bincode::serialize` (default options: fixed-width integers,
/// no size limit) to encode the snapshot content as bytes. On this type it
/// does not fail: the size limit is infinite, the writer is a `Vec`, and
/// every sequence is written with its length.
#[verifier::external_body]
pub(crate) fn serialize_saved(v: &Vec<(String, Vec<(String, String)>)>) -> (r: Option<Vec<u8>>)
    ensures
        r is Some,
        r is Some ==> r.unwrap()@ == snapshot_bytes(saved_view(v@)),
{
    bincode::serialize(v).ok()
}

/// Relies on `bincode::deserialize` (the same default options) reading back
/// what `bincode::serialize` wrote for a value of this type. Trailing bytes
/// are allowed, so a value it reads is encoded by a prefix of the input.
#[verifier::external_body]
pub(crate) fn deserialize_saved(b: &Vec<u8>) -> (r: Option<Vec<(String, Vec<(String, String)>)>>)
    ensures
        forall|s: SavedView| #[trigger] snapshot_bytes(s) == b@ ==> (r is Some && saved_view(r.unwrap()@) == s),
        r is Some ==> snapshot_bytes(saved_view(r.unwrap()@)).is_prefix_of(b@),
{
    bincode::deserialize(b).ok()
}

/// Reads the content of a snapshot back from its bytes. The bytes of a
/// snapshot give back its content; any content read back is encoded by a
/// prefix of the bytes, so bytes that start with no encoding give `None`.
pub fn decode_snapshot(bytes: &Vec<u8>) -> (r: Option<Vec<(String, Vec<(String, String)>)>>)
    ensures
        forall|s: SavedView| #[trigger] snapshot_bytes(s) == bytes@ ==> (r is Some && saved_view(r.unwrap()@) == s),
        r is Some ==> snapshot_bytes(saved_view(r.unwrap()@)).is_prefix_of(bytes@),
{
    deserialize_saved(bytes)
}

} // verus!
