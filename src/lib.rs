//! Reader for `.tile` containers: a CARv1 file whose header is a CBOR
//! manifest and whose blocks are addressed by content identifiers.
pub mod varint;
pub mod strmap;
pub mod cbor;
pub mod content_id;
pub mod error;
pub mod manifest;
pub mod container;
pub mod resolve;
pub mod response;
pub mod authority;
pub mod store;

pub use authority::{authority_from_lowered, authority_from_path};
pub use cbor::Cbor;
pub use container::{parse_tile, TileContent, TileOpenedPayload};
pub use error::TileError;
pub use manifest::{masl_from_cbor, parse_masl, Icon, Masl, Resource};
pub use response::response_headers;
pub use store::TileStore;
pub use strmap::StrMap;
pub use varint::read_uvarint;
