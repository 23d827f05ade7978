//! Tiles, transform specifications and transform errors.
use vstd::prelude::*;
use vstd::string::StringExecFns;
use uuid::Uuid;
use crate::string_map::StringMap;
use crate::text::{decimal_chars, push_decimal};

verus! {

#[verifier::external_type_specification]
#[verifier::external_body]
pub struct ExUuid(Uuid);

/// `Uuid::new_v4`: a fresh random identifier. Nothing is stated of its value,
/// which comes from the random number generator.
#[verifier::external_body]
fn fresh_uuid() -> Uuid {
    Uuid::new_v4()
}

/// Specification for a transform: its name and its parameters.
#[derive(Debug)]
pub struct TransformSpec {
    pub name: String,
    pub params: StringMap,
}

impl Clone for TransformSpec {
    fn clone(&self) -> (r: Self)
        ensures
            r.name@ == self.name@,
            r.params@ == self.params@,
    {
        TransformSpec { name: self.name.clone(), params: self.params.clone() }
    }
}

/// A unit of data: identifier, kind, payload bytes, position and metadata.
#[derive(Debug)]
pub struct TileData {
    pub id: Uuid,
    pub kind: String,
    pub payload: Vec<u8>,
    pub index: u64,
    pub meta: StringMap,
}

impl TileData {
    /// A tile with a fresh identifier and no metadata.
    pub fn new(kind: &str, payload: Vec<u8>, index: u64) -> (t: Self)
        ensures
            t.kind@ == kind@,
            t.payload@ == payload@,
            t.index == index,
            t.meta@ == Map::<Seq<char>, Seq<char>>::empty(),
    {
        TileData { id: fresh_uuid(), kind: kind.to_owned(), payload, index, meta: StringMap::new() }
    }

    /// The same tile with `value` stored in its metadata under `key`.
    pub fn with_meta(self, key: &str, value: &str) -> (t: Self)
        ensures
            t.id == self.id,
            t.kind == self.kind,
            t.payload == self.payload,
            t.index == self.index,
            t.meta@ == self.meta@.insert(key@, value@),
    {
        let mut t = self;
        let _ = t.meta.insert(key.to_owned(), value.to_owned());
        t
    }
}

impl Clone for TileData {
    fn clone(&self) -> (r: Self)
        ensures
            r.id == self.id,
            r.kind@ == self.kind@,
            r.payload@ == self.payload@,
            r.index == self.index,
            r.meta@ == self.meta@,
    {
        TileData {
            id: self.id,
            kind: self.kind.clone(),
            payload: self.payload.clone(),
            index: self.index,
            meta: self.meta.clone(),
        }
    }
}

/// Why a transform could not be built or run.
#[derive(Debug)]
pub enum TransformError {
    MissingParam(String),
    InvalidParam(String),
    Pipeline { stage: usize, message: String },
}

impl TransformError {
    /// The human-readable text of the error.
    pub open spec fn spec_message(&self) -> Seq<char> {
        match self {
            TransformError::MissingParam(p) => "missing required parameter: "@ + p@,
            TransformError::InvalidParam(p) => "invalid parameter value: "@ + p@,
            TransformError::Pipeline { stage, message } => "pipeline error at stage "@
                + decimal_chars(*stage as nat) + ": "@ + message@,
        }
    }

    /// The human-readable text of the error.
    pub fn message(&self) -> (r: String)
        ensures
            r@ == self.spec_message(),
    {
        match self {
            TransformError::MissingParam(p) => {
                let mut r = String::from_str("missing required parameter: ");
                r.append(p.as_str());
                r
            },
            TransformError::InvalidParam(p) => {
                let mut r = String::from_str("invalid parameter value: ");
                r.append(p.as_str());
                r
            },
            TransformError::Pipeline { stage, message } => {
                let mut r = String::from_str("pipeline error at stage ");
                push_decimal(&mut r, *stage);
                r.append(": ");
                r.append(message.as_str());
                r
            },
        }
    }
}

} // verus!
