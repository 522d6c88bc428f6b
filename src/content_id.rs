//! Content identifiers, read from the front of a byte string.
use vstd::prelude::*;

verus! {

/// The canonical text of the content identifier at the front of `b`, and
/// the number of bytes it takes, if one can be read there.
pub uninterp spec fn cid_prefix(b: Seq<u8>) -> Option<(Seq<char>, nat)>;

/// Relies on `cid::Cid::read_bytes` reading from a cursor over `b` (the
/// cursor's position after it is the identifier's length, at most `b.len()`)
/// and on `cid::Cid`'s `Display` for the canonical text.
#[verifier::external_body]
pub(crate) fn read_cid(b: &[u8]) -> (r: Option<(String, usize)>)
    ensures
        match r {
            Some(p) => cid_prefix(b@) == Some((p.0@, p.1 as nat)) && p.1 <= b@.len(),
            None => cid_prefix(b@) is None,
        },
{
    let mut cursor = std::io::Cursor::new(b);
    match cid::Cid::read_bytes(&mut cursor) {
        Ok(c) => Some((c.to_string(), cursor.position() as usize)),
        Err(_) => None,
    }
}

} // verus!
