//! What can go wrong while reading a container or looking inside it.
use vstd::prelude::*;

verus! {

#[derive(Debug, Clone, Copy, PartialEq, Eq, Structural)]
pub enum TileError {
    /// The header's length prefix is not a varint.
    HeaderLength,
    /// The header's length runs past the end of the file.
    HeaderTooLong,
    /// The length prefix of the block at this offset is not a varint.
    BlockLength(usize),
    /// The block at this offset runs past the end of the file.
    BlockTooLong(usize),
    /// No content identifier can be read at the front of the block at this offset.
    BadCid(usize),
    /// The header is not a CBOR item.
    CborDecode,
    /// The header is not a CBOR map.
    HeaderNotMap,
    /// The manifest has no `name`.
    MissingName,
    /// `resources` is not a map.
    ResourcesNotMap,
    /// A key of `resources` is not text.
    ResourceKeyNotText,
    /// An entry of `resources` is not a map.
    ResourceNotMap,
    /// A resource's `src` is not a content-identifier link.
    ResourceSrcNotCid,
    /// A resource has no `src`.
    ResourceMissingSrc,
    /// `icons` is not an array.
    IconsNotArray,
    /// The container's index has no block under the identifier.
    BlockNotFound,
    /// No resource of the manifest answers the requested path.
    NoResource,
    /// No container is open under the requested authority.
    NotLoaded,
}

} // verus!
