//! Keeping the tiles whose metadata field compares as asked.
use vstd::prelude::*;
use vstd::utf8::*;
use crate::string_map::StringMap;
use crate::text::{compare_bytes, contains_bytes, find_bytes, lex_lt, occurs_at, str_eq, Cmp};
use crate::tile::{TileData, TransformError};
use crate::transform::TileTransform;

verus! {

/// How a metadata value is compared with the filter's value.
#[derive(Clone, Copy, PartialEq, Eq, Debug)]
pub enum FilterOp {
    Eq,
    Ne,
    Gt,
    Lt,
    Contains,
}

/// The comparison that an operator name stands for.
pub open spec fn parse_filter_op(op: Seq<char>) -> Option<FilterOp> {
    if op == "eq"@ {
        Some(FilterOp::Eq)
    } else if op == "ne"@ {
        Some(FilterOp::Ne)
    } else if op == "gt"@ {
        Some(FilterOp::Gt)
    } else if op == "lt"@ {
        Some(FilterOp::Lt)
    } else if op == "contains"@ {
        Some(FilterOp::Contains)
    } else {
        None
    }
}

/// `actual` compares with `value` as `op` asks: by equality, or by the order
/// and containment of their UTF-8 bytes.
pub open spec fn meta_matches(op: FilterOp, actual: Seq<char>, value: Seq<char>) -> bool {
    match op {
        FilterOp::Eq => actual == value,
        FilterOp::Ne => actual != value,
        FilterOp::Gt => lex_lt(encode_utf8(value), encode_utf8(actual)),
        FilterOp::Lt => lex_lt(encode_utf8(actual), encode_utf8(value)),
        FilterOp::Contains => contains_bytes(encode_utf8(actual), encode_utf8(value)),
    }
}

/// Removes tiles by comparing one metadata field with a value.
pub struct FilterTransform {
    field: String,
    op: FilterOp,
    value: String,
}

/// What building a filter from these texts gives.
pub open spec fn filter_new_outcome(
    field: Seq<char>,
    op: Seq<char>,
    value: Seq<char>,
    r: Result<FilterTransform, TransformError>,
) -> bool {
    match r {
        Ok(f) => {
            &&& parse_filter_op(op) == Some(f.spec_op())
            &&& f.spec_field() == field
            &&& f.spec_value() == value
        },
        Err(e) => {
            &&& parse_filter_op(op) is None
            &&& e matches TransformError::InvalidParam(m) && m@ == "unknown op: "@ + op
        },
    }
}

impl FilterTransform {
    /// The metadata field compared.
    pub closed spec fn spec_field(&self) -> Seq<char> {
        self.field@
    }

    /// The comparison.
    pub closed spec fn spec_op(&self) -> FilterOp {
        self.op
    }

    /// The value compared with.
    pub closed spec fn spec_value(&self) -> Seq<char> {
        self.value@
    }

    /// The tile has the field, and its value compares as asked.
    pub open spec fn keeps(&self, t: TileData) -> bool {
        &&& t.meta@.contains_key(self.spec_field())
        &&& meta_matches(self.spec_op(), t.meta@[self.spec_field()], self.spec_value())
    }

    /// A filter on `field` with operator `op` (`eq`, `ne`, `gt`, `lt` or `contains`).
    pub fn new(field: &str, op: &str, value: &str) -> (r: Result<Self, TransformError>)
        ensures
            filter_new_outcome(field@, op@, value@, r),
    {
        let parsed = if str_eq(op, "eq") {
            FilterOp::Eq
        } else if str_eq(op, "ne") {
            FilterOp::Ne
        } else if str_eq(op, "gt") {
            FilterOp::Gt
        } else if str_eq(op, "lt") {
            FilterOp::Lt
        } else if str_eq(op, "contains") {
            FilterOp::Contains
        } else {
            let mut m = String::from_str("unknown op: ");
            m.append(op);
            return Err(TransformError::InvalidParam(m));
        };
        Ok(FilterTransform { field: field.to_owned(), op: parsed, value: value.to_owned() })
    }

    /// A filter from the parameters `field`, `op` and `value`, all required.
    pub fn from_params(params: &StringMap) -> (r: Result<Self, TransformError>)
        ensures
            !params@.contains_key("field"@) ==> (r matches Err(TransformError::MissingParam(p))
                && p@ == "field"@),
            params@.contains_key("field"@) && !params@.contains_key("op"@) ==> (r matches Err(
                TransformError::MissingParam(p),
            ) && p@ == "op"@),
            params@.contains_key("field"@) && params@.contains_key("op"@)
                && !params@.contains_key("value"@) ==> (r matches Err(
                TransformError::MissingParam(p),
            ) && p@ == "value"@),
            params@.contains_key("field"@) && params@.contains_key("op"@)
                && params@.contains_key("value"@) ==> filter_new_outcome(
                params@["field"@],
                params@["op"@],
                params@["value"@],
                r,
            ),
    {
        let field = match params.get("field") {
            Some(f) => f,
            None => {
                return Err(TransformError::MissingParam("field".to_owned()));
            },
        };
        let op = match params.get("op") {
            Some(o) => o,
            None => {
                return Err(TransformError::MissingParam("op".to_owned()));
            },
        };
        let value = match params.get("value") {
            Some(v) => v,
            None => {
                return Err(TransformError::MissingParam("value".to_owned()));
            },
        };
        Self::new(field.as_str(), op.as_str(), value.as_str())
    }

    fn matches(&self, tile: &TileData) -> (r: bool)
        ensures
            r == self.keeps(*tile),
    {
        let actual = match tile.meta.get(self.field.as_str()) {
            Some(v) => v,
            None => {
                return false;
            },
        };
        match self.op {
            FilterOp::Eq => str_eq(actual.as_str(), self.value.as_str()),
            FilterOp::Ne => !str_eq(actual.as_str(), self.value.as_str()),
            FilterOp::Gt => {
                match compare_bytes(actual.as_str().as_bytes(), self.value.as_str().as_bytes()) {
                    Cmp::Greater => true,
                    _ => false,
                }
            },
            FilterOp::Lt => {
                match compare_bytes(actual.as_str().as_bytes(), self.value.as_str().as_bytes()) {
                    Cmp::Less => true,
                    _ => false,
                }
            },
            FilterOp::Contains => find_bytes(
                actual.as_str().as_bytes(),
                self.value.as_str().as_bytes(),
            ),
        }
    }
}

impl TileTransform for FilterTransform {
    open spec fn spec_name(&self) -> Option<Seq<char>> {
        Some("filter"@)
    }

    open spec fn transforms_to(
        &self,
        input: Seq<TileData>,
        result: Result<Seq<TileData>, TransformError>,
    ) -> bool {
        result == Ok::<Seq<TileData>, TransformError>(input.filter(|t: TileData| self.keeps(t)))
    }

    fn name(&self) -> (r: &str) {
        "filter"
    }

    fn transform(&self, tiles: Vec<TileData>) -> (r: Result<Vec<TileData>, TransformError>) {
        let ghost input = tiles@;
        let mut out: Vec<TileData> = Vec::new();
        let ghost mut k: int = 0;
        for t in it: tiles.into_iter()
            invariant
                it.seq() == input,
                k == it.index(),
                out@ == input.take(k).filter(|t: TileData| self.keeps(t)),
        {
            proof {
                reveal_with_fuel(Seq::<_>::filter, 1);
                assert(input.take(k + 1).drop_last() =~= input.take(k));
                k = k + 1;
            }
            if self.matches(&t) {
                out.push(t);
            }
        }
        assert(input.take(k) =~= input);
        Ok(out)
    }
}

/// What the filter keeps, stated on the texts themselves: a tile is kept only
/// when it has the field; then `eq` and `ne` compare the two texts, `gt` and
/// `lt` order their UTF-8 bytes, and `contains` asks for the value's bytes to
/// occur at some position of the field's bytes, the very end included.
pub proof fn lemma_filter_keeps(f: FilterTransform, t: TileData)
    ensures
        f.keeps(t) <==> t.meta@.contains_key(f.spec_field()) && {
            let a = t.meta@[f.spec_field()];
            let v = f.spec_value();
            let ea = encode_utf8(a);
            let ev = encode_utf8(v);
            match f.spec_op() {
                FilterOp::Eq => a == v,
                FilterOp::Ne => a != v,
                FilterOp::Gt => lex_lt(ev, ea),
                FilterOp::Lt => lex_lt(ea, ev),
                FilterOp::Contains => exists|i: int|
                    0 <= i && i + ev.len() <= ea.len() && #[trigger] ea.subrange(i, i + ev.len())
                        == ev,
            }
        },
{
    if t.meta@.contains_key(f.spec_field()) && f.spec_op() == FilterOp::Contains {
        let ea = encode_utf8(t.meta@[f.spec_field()]);
        let ev = encode_utf8(f.spec_value());
        if contains_bytes(ea, ev) {
            let i = choose|i: int| occurs_at(ea, ev, i);
            assert(ea.subrange(i, i + ev.len()) == ev);
        }
        if exists|i: int|
            0 <= i && i + ev.len() <= ea.len() && #[trigger] ea.subrange(i, i + ev.len()) == ev {
            let i = choose|i: int|
                0 <= i && i + ev.len() <= ea.len() && #[trigger] ea.subrange(i, i + ev.len())
                    == ev;
            assert(occurs_at(ea, ev, i));
        }
    }
}

} // verus!
