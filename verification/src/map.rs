//! Byte-level operations on each tile's payload.
use vstd::prelude::*;
use vstd::utf8::*;
use crate::base64::{
    b64_decode, b64_encode, base64_decode_bytes, base64_encode_bytes, lemma_base64_roundtrip,
};
use crate::string_map::StringMap;
use crate::text::{spec_utf8_lossy, str_eq, trim_chars, trim_text_bytes, utf8_lossy};
use crate::tile::{TileData, TransformError};
use crate::transform::TileTransform;

verus! {

/// The operation applied to each payload.
#[derive(Clone, Copy, PartialEq, Eq, Debug)]
pub enum MapOp {
    Uppercase,
    Lowercase,
    Trim,
    Reverse,
    Base64Encode,
    Base64Decode,
}

/// The operation that a name stands for.
pub open spec fn parse_map_op(op: Seq<char>) -> Option<MapOp> {
    if op == "uppercase"@ {
        Some(MapOp::Uppercase)
    } else if op == "lowercase"@ {
        Some(MapOp::Lowercase)
    } else if op == "trim"@ {
        Some(MapOp::Trim)
    } else if op == "reverse"@ {
        Some(MapOp::Reverse)
    } else if op == "base64_encode"@ {
        Some(MapOp::Base64Encode)
    } else if op == "base64_decode"@ {
        Some(MapOp::Base64Decode)
    } else {
        None
    }
}

/// An ASCII lower-case letter made upper-case; any other byte as it is.
pub open spec fn ascii_upper(b: u8) -> u8 {
    if 97 <= b <= 122 {
        (b - 32) as u8
    } else {
        b
    }
}

/// An ASCII upper-case letter made lower-case; any other byte as it is.
pub open spec fn ascii_lower(b: u8) -> u8 {
    if 65 <= b <= 90 {
        (b + 32) as u8
    } else {
        b
    }
}

/// What the operation makes of a payload. `Trim` reads the payload as UTF-8
/// (invalid sequences replaced) and drops surrounding whitespace; a payload
/// that does not decode as base64 becomes empty.
pub open spec fn map_payload(op: MapOp, p: Seq<u8>) -> Seq<u8> {
    match op {
        MapOp::Uppercase => p.map_values(|b: u8| ascii_upper(b)),
        MapOp::Lowercase => p.map_values(|b: u8| ascii_lower(b)),
        MapOp::Trim => encode_utf8(trim_chars(spec_utf8_lossy(p))),
        MapOp::Reverse => p.reverse(),
        MapOp::Base64Encode => b64_encode(p),
        MapOp::Base64Decode => match b64_decode(p) {
            Some(d) => d,
            None => Seq::empty(),
        },
    }
}

/// Applies a byte-level operation to each tile's payload.
pub struct MapTransform {
    op: MapOp,
}

impl MapTransform {
    /// The operation.
    pub closed spec fn spec_op(&self) -> MapOp {
        self.op
    }

    /// A map from the parameter `op` (required): `uppercase`, `lowercase`,
    /// `trim`, `reverse`, `base64_encode` or `base64_decode`.
    pub fn from_params(params: &StringMap) -> (r: Result<Self, TransformError>)
        ensures
            !params@.contains_key("op"@) ==> (r matches Err(TransformError::MissingParam(p)) && p@
                == "op"@),
            params@.contains_key("op"@) ==> match parse_map_op(params@["op"@]) {
                Some(op) => r matches Ok(m) && m.spec_op() == op,
                None => r matches Err(TransformError::InvalidParam(m)) && m@ == "unknown map op: "@
                    + params@["op"@],
            },
    {
        let op = match params.get("op") {
            Some(o) => o.as_str(),
            None => {
                return Err(TransformError::MissingParam("op".to_owned()));
            },
        };
        let op = if str_eq(op, "uppercase") {
            MapOp::Uppercase
        } else if str_eq(op, "lowercase") {
            MapOp::Lowercase
        } else if str_eq(op, "trim") {
            MapOp::Trim
        } else if str_eq(op, "reverse") {
            MapOp::Reverse
        } else if str_eq(op, "base64_encode") {
            MapOp::Base64Encode
        } else if str_eq(op, "base64_decode") {
            MapOp::Base64Decode
        } else {
            let mut m = String::from_str("unknown map op: ");
            m.append(op);
            return Err(TransformError::InvalidParam(m));
        };
        Ok(MapTransform { op })
    }

    /// The payload after the operation.
    pub fn apply(&self, payload: &[u8]) -> (r: Vec<u8>)
        ensures
            r@ == map_payload(self.spec_op(), payload@),
    {
        match self.op {
            MapOp::Uppercase => {
                let mut out: Vec<u8> = Vec::new();
                let mut i: usize = 0;
                while i < payload.len()
                    invariant
                        i <= payload@.len(),
                        out@ == payload@.take(i as int).map_values(|b: u8| ascii_upper(b)),
                    decreases payload@.len() - i,
                {
                    let b = payload[i];
                    out.push(if 97 <= b && b <= 122 { b - 32 } else { b });
                    i = i + 1;
                    assert(out@ =~= payload@.take(i as int).map_values(|b: u8| ascii_upper(b)));
                }
                assert(payload@.take(i as int) =~= payload@);
                out
            },
            MapOp::Lowercase => {
                let mut out: Vec<u8> = Vec::new();
                let mut i: usize = 0;
                while i < payload.len()
                    invariant
                        i <= payload@.len(),
                        out@ == payload@.take(i as int).map_values(|b: u8| ascii_lower(b)),
                    decreases payload@.len() - i,
                {
                    let b = payload[i];
                    out.push(if 65 <= b && b <= 90 { b + 32 } else { b });
                    i = i + 1;
                    assert(out@ =~= payload@.take(i as int).map_values(|b: u8| ascii_lower(b)));
                }
                assert(payload@.take(i as int) =~= payload@);
                out
            },
            MapOp::Trim => {
                let s = utf8_lossy(payload);
                trim_text_bytes(s.as_str())
            },
            MapOp::Reverse => {
                let mut out: Vec<u8> = Vec::new();
                let mut i: usize = payload.len();
                while i > 0
                    invariant
                        i <= payload@.len(),
                        out@ == payload@.skip(i as int).reverse(),
                    decreases i,
                {
                    i = i - 1;
                    out.push(payload[i]);
                    assert(out@ =~= payload@.skip(i as int).reverse());
                }
                assert(payload@.skip(0) =~= payload@);
                out
            },
            MapOp::Base64Encode => base64_encode_bytes(payload),
            MapOp::Base64Decode => match base64_decode_bytes(payload) {
                Some(d) => d,
                None => Vec::new(),
            },
        }
    }
}

/// Each output tile is the input tile at the same position with its payload
/// mapped by `op`.
pub open spec fn mapped_tiles(op: MapOp, input: Seq<TileData>, output: Seq<TileData>) -> bool {
    &&& output.len() == input.len()
    &&& forall|i: int|
        0 <= i < input.len() ==> {
            &&& (#[trigger] output[i]).id == input[i].id
            &&& output[i].kind == input[i].kind
            &&& output[i].index == input[i].index
            &&& output[i].meta == input[i].meta
            &&& output[i].payload@ == map_payload(op, input[i].payload@)
        }
}

impl TileTransform for MapTransform {
    open spec fn spec_name(&self) -> Option<Seq<char>> {
        Some("map"@)
    }

    open spec fn transforms_to(
        &self,
        input: Seq<TileData>,
        result: Result<Seq<TileData>, TransformError>,
    ) -> bool {
        result matches Ok(out) && mapped_tiles(self.spec_op(), input, out)
    }

    fn name(&self) -> (r: &str) {
        "map"
    }

    fn transform(&self, tiles: Vec<TileData>) -> (r: Result<Vec<TileData>, TransformError>) {
        let ghost input = tiles@;
        let mut out: Vec<TileData> = Vec::new();
        let ghost mut k: int = 0;
        for t in it: tiles.into_iter()
            invariant
                it.seq() == input,
                k == it.index(),
                mapped_tiles(self.op, input.take(k), out@),
        {
            let mut t = t;
            let ghost before = t;
            t.payload = self.apply(t.payload.as_slice());
            out.push(t);
            proof {
                assert(before == input[k]);
                k = k + 1;
                assert forall|i: int| 0 <= i < k implies #[trigger] input.take(k)[i] == input[i] by {}
            }
        }
        Ok(out)
    }
}

/// Encoding a payload as base64 and decoding it again gives the payload back.
pub proof fn lemma_base64_map_roundtrip(p: Seq<u8>)
    ensures
        map_payload(MapOp::Base64Decode, map_payload(MapOp::Base64Encode, p)) == p,
{
    lemma_base64_roundtrip(p);
}

/// Reversing a payload twice gives it back.
pub proof fn lemma_reverse_involution(p: Seq<u8>)
    ensures
        map_payload(MapOp::Reverse, map_payload(MapOp::Reverse, p)) == p,
{
    assert(p.reverse().reverse() =~= p);
}

/// Changing the case of a payload keeps its length, and doing it twice is
/// doing it once.
pub proof fn lemma_case_idempotent(p: Seq<u8>)
    ensures
        map_payload(MapOp::Uppercase, p).len() == p.len(),
        map_payload(MapOp::Lowercase, p).len() == p.len(),
        map_payload(MapOp::Uppercase, map_payload(MapOp::Uppercase, p)) == map_payload(
            MapOp::Uppercase,
            p,
        ),
        map_payload(MapOp::Lowercase, map_payload(MapOp::Lowercase, p)) == map_payload(
            MapOp::Lowercase,
            p,
        ),
{
    assert(map_payload(MapOp::Uppercase, map_payload(MapOp::Uppercase, p)) =~= map_payload(
        MapOp::Uppercase,
        p,
    ));
    assert(map_payload(MapOp::Lowercase, map_payload(MapOp::Lowercase, p)) =~= map_payload(
        MapOp::Lowercase,
        p,
    ));
}

/// Upper-casing turns every ASCII lower-case letter `a` to `z` into its capital,
/// 32 less, and leaves every other byte as it is, so no lower-case letter is
/// left; lower-casing turns every `A` to `Z` into its small letter, 32 more,
/// and leaves every other byte, so no capital is left.
pub proof fn lemma_case_maps_each_letter(p: Seq<u8>)
    ensures
        map_payload(MapOp::Uppercase, p).len() == p.len(),
        map_payload(MapOp::Lowercase, p).len() == p.len(),
        forall|i: int|
            0 <= i < p.len() ==> {
                let up = #[trigger] map_payload(MapOp::Uppercase, p)[i];
                &&& (97 <= p[i] <= 122 ==> up == p[i] - 32)
                &&& (!(97 <= p[i] <= 122) ==> up == p[i])
                &&& !(97 <= up <= 122)
            },
        forall|i: int|
            0 <= i < p.len() ==> {
                let low = #[trigger] map_payload(MapOp::Lowercase, p)[i];
                &&& (65 <= p[i] <= 90 ==> low == p[i] + 32)
                &&& (!(65 <= p[i] <= 90) ==> low == p[i])
                &&& !(65 <= low <= 90)
            },
{
}

} // verus!
