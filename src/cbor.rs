//! The CBOR values that the manifest is read from, and the decoder that
//! produces them.
use ciborium::value::Value as CborValue;
use vstd::prelude::*;

verus! {

/// A decoded CBOR item, with the shapes the manifest reader tells apart.
/// A CBOR map is `Entries`, its pairs in the order they were written.
/// Integers, floats, booleans and null all become `Other`.
#[derive(Debug)]
pub enum Cbor {
    Text(String),
    Bytes(Vec<u8>),
    Tag(u64, Box<Cbor>),
    Array(Vec<Cbor>),
    Entries(Vec<(Cbor, Cbor)>),
    Other,
}

#[verifier::external_type_specification]
#[verifier::external_body]
pub struct ExCborValue(CborValue);

/// The item that ciborium decodes from the front of `b`, if it decodes.
pub uninterp spec fn cbor_of(b: Seq<u8>) -> Option<Cbor>;

/// Relies on `ciborium::de::from_reader` into `ciborium::value::Value`:
/// its result is a function of the bytes alone.
#[verifier::external_body]
pub(crate) fn decode_cbor(b: &[u8]) -> (r: Option<Cbor>)
    ensures
        r == cbor_of(b@),
{
    match ciborium::de::from_reader::<CborValue, &[u8]>(b) {
        Ok(v) => Some(cbor_from_value(v)),
        Err(_) => None,
    }
}

/// Moves a `ciborium::value::Value` into a `Cbor`, variant by variant.
#[verifier::external_body]
fn cbor_from_value(v: CborValue) -> Cbor {
    match v {
        CborValue::Text(s) => Cbor::Text(s),
        CborValue::Bytes(b) => Cbor::Bytes(b),
        CborValue::Tag(t, inner) => Cbor::Tag(t, Box::new(cbor_from_value(*inner))),
        CborValue::Array(a) => Cbor::Array(a.into_iter().map(cbor_from_value).collect()),
        CborValue::Map(m) => Cbor::Entries(
            m.into_iter().map(|(k, x)| (cbor_from_value(k), cbor_from_value(x))).collect(),
        ),
        _ => Cbor::Other,
    }
}

} // verus!
