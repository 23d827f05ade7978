//! Stable sorting of tiles by one metadata field.
use vstd::prelude::*;
use vstd::utf8::*;
use crate::string_map::StringMap;
use crate::text::{
    compare_bytes, lemma_encode_utf8_empty, lemma_lex_asymmetric, lemma_lex_irreflexive,
    lemma_lex_total, lemma_lex_transitive, lex_lt, lex_lt_at, str_eq, Cmp,
};
use crate::tile::{TileData, TransformError};
use crate::transform::TileTransform;

verus! {

broadcast use vstd::seq_lib::group_to_multiset_ensures;

/// The bytes a tile is sorted by: its value for `field`, or nothing when it has none.
pub open spec fn sort_key(t: TileData, field: Seq<char>) -> Seq<u8> {
    if t.meta@.contains_key(field) {
        encode_utf8(t.meta@[field])
    } else {
        Seq::empty()
    }
}

/// Key `a` goes strictly before key `b` in the requested direction.
pub open spec fn sorts_before(a: Seq<u8>, b: Seq<u8>, descending: bool) -> bool {
    if descending {
        lex_lt(b, a)
    } else {
        lex_lt(a, b)
    }
}

/// No tile goes strictly before a tile that precedes it.
pub open spec fn is_sorted_by_key(s: Seq<TileData>, field: Seq<char>, descending: bool) -> bool {
    forall|i: int, j: int|
        0 <= i < j < s.len() ==> !sorts_before(
            sort_key(#[trigger] s[j], field),
            sort_key(#[trigger] s[i], field),
            descending,
        )
}

/// The tiles of `s` whose key is `k`, in their order in `s`.
pub open spec fn key_class(s: Seq<TileData>, field: Seq<char>, k: Seq<u8>) -> Seq<TileData> {
    s.filter(|t: TileData| sort_key(t, field) == k)
}

/// `output` is `input` stably sorted: ordered by key, holding the same tiles,
/// and keeping the input order among tiles with equal keys.
pub open spec fn stably_sorted(
    input: Seq<TileData>,
    output: Seq<TileData>,
    field: Seq<char>,
    descending: bool,
) -> bool {
    &&& is_sorted_by_key(output, field, descending)
    &&& output.to_multiset() == input.to_multiset()
    &&& forall|k: Seq<u8>| #[trigger] key_class(output, field, k) == key_class(input, field, k)
}

proof fn lemma_before_irreflexive(a: Seq<u8>, d: bool)
    ensures
        !sorts_before(a, a, d),
{
    lemma_lex_irreflexive(a);
}

proof fn lemma_before_asymmetric(a: Seq<u8>, b: Seq<u8>, d: bool)
    ensures
        sorts_before(a, b, d) ==> !sorts_before(b, a, d),
{
    lemma_lex_asymmetric(a, b);
}

/// "Not strictly after" is transitive.
proof fn lemma_not_before_transitive(a: Seq<u8>, b: Seq<u8>, c: Seq<u8>, d: bool)
    requires
        !sorts_before(b, a, d),
        !sorts_before(c, b, d),
    ensures
        !sorts_before(c, a, d),
{
    lemma_lex_total(a, b);
    if sorts_before(c, a, d) {
        if d {
            if lex_lt(b, a) {
                lemma_lex_transitive(b, a, c);
            }
        } else {
            if lex_lt(a, b) {
                lemma_lex_transitive(c, a, b);
            }
        }
    }
}

proof fn lemma_class_singleton(x: TileData, field: Seq<char>, k: Seq<u8>)
    ensures
        key_class(seq![x], field, k) == (if sort_key(x, field) == k {
            seq![x]
        } else {
            Seq::<TileData>::empty()
        }),
{
    reveal_with_fuel(Seq::<_>::filter, 2);
    assert(seq![x].drop_last() =~= Seq::<TileData>::empty());
}

proof fn lemma_insert_step(
    prefix: Seq<TileData>,
    out: Seq<TileData>,
    x: TileData,
    p: int,
    field: Seq<char>,
    d: bool,
)
    requires
        stably_sorted(prefix, out, field, d),
        0 <= p <= out.len(),
        p > 0 ==> !sorts_before(sort_key(x, field), sort_key(out[p - 1], field), d),
        forall|j: int|
            p <= j < out.len() ==> sorts_before(
                sort_key(x, field),
                sort_key(#[trigger] out[j], field),
                d,
            ),
    ensures
        stably_sorted(prefix.push(x), out.insert(p, x), field, d),
{
    let kx = sort_key(x, field);
    let n = out.insert(p, x);
    assert forall|i: int, j: int| 0 <= i < j < n.len() implies !sorts_before(
        sort_key(#[trigger] n[j], field),
        sort_key(#[trigger] n[i], field),
        d,
    ) by {
        if j == p {
            lemma_not_before_transitive(sort_key(out[i], field), sort_key(out[p - 1], field), kx, d);
        } else if i == p {
            lemma_before_asymmetric(kx, sort_key(out[j - 1], field), d);
        } else {
            let oi = if i < p { i } else { i - 1 };
            let oj = if j < p { j } else { j - 1 };
            assert(n[i] == out[oi] && n[j] == out[oj]);
        }
    }
    let head = out.take(p);
    let tail = out.skip(p);
    assert(out =~= head + tail);
    assert(n =~= head + seq![x] + tail);
    assert forall|k: Seq<u8>| #[trigger] key_class(n, field, k) == key_class(prefix.push(x), field, k) by {
        let pred = |t: TileData| sort_key(t, field) == k;
        Seq::filter_distributes_over_add(head, tail, pred);
        Seq::filter_distributes_over_add(head + seq![x], tail, pred);
        Seq::filter_distributes_over_add(head, seq![x], pred);
        Seq::filter_distributes_over_add(prefix, seq![x], pred);
        lemma_class_singleton(x, field, k);
        assert(key_class(out, field, k) == key_class(prefix, field, k));
        if k == kx {
            assert forall|j: int| 0 <= j < tail.len() implies !pred(#[trigger] tail[j]) by {
                assert(tail[j] == out[p + j]);
                lemma_before_irreflexive(kx, d);
            }
            assert(tail.filter(pred) =~= Seq::<TileData>::empty()) by {
                if tail.filter(pred).len() > 0 {
                    tail.lemma_filter_pred(pred, 0);
                    let y = tail.filter(pred)[0];
                    assert(tail.filter(pred).contains(y));
                    tail.lemma_filter_contains_rev(pred, y);
                }
            }
            assert(key_class(n, field, k) =~= key_class(prefix.push(x), field, k)) by {
                assert(prefix.push(x) =~= prefix + seq![x]);
                assert(head.filter(pred) + tail.filter(pred) =~= head.filter(pred));
            }
        } else {
            assert(prefix.push(x) =~= prefix + seq![x]);
            assert(key_class(n, field, k) =~= key_class(prefix.push(x), field, k));
        }
    }
    vstd::seq_lib::to_multiset_insert(out, p, x);
}

/// Sorts tiles by a metadata field, ascending or descending; tiles with equal
/// values keep their order, and a missing field sorts as the empty string.
pub struct SortTransform {
    field: String,
    descending: bool,
}

impl SortTransform {
    /// The field sorted by.
    pub closed spec fn spec_field(&self) -> Seq<char> {
        self.field@
    }

    /// Whether the order is descending.
    pub closed spec fn spec_descending(&self) -> bool {
        self.descending
    }

    /// A sort on `field`, descending if asked.
    pub fn new(field: &str, descending: bool) -> (r: Self)
        ensures
            r.spec_field() == field@,
            r.spec_descending() == descending,
    {
        SortTransform { field: field.to_owned(), descending }
    }

    /// A sort from the parameters `field` (required) and `order` (`desc` for
    /// descending; anything else, or nothing, for ascending).
    pub fn from_params(params: &StringMap) -> (r: Result<Self, TransformError>)
        ensures
            !params@.contains_key("field"@) ==> (r matches Err(TransformError::MissingParam(p))
                && p@ == "field"@),
            params@.contains_key("field"@) ==> (r matches Ok(s) && s.spec_field()
                == params@["field"@] && s.spec_descending() == (params@.contains_key("order"@)
                && params@["order"@] == "desc"@)),
    {
        let field = match params.get("field") {
            Some(f) => f,
            None => {
                return Err(TransformError::MissingParam("field".to_owned()));
            },
        };
        let descending = match params.get("order") {
            Some(o) => str_eq(o.as_str(), "desc"),
            None => false,
        };
        Ok(Self::new(field.as_str(), descending))
    }

    fn key_of<'a>(&self, t: &'a TileData) -> (r: &'a str)
        ensures
            encode_utf8(r@) == sort_key(*t, self.field@),
    {
        match t.meta.get(self.field.as_str()) {
            Some(v) => v.as_str(),
            None => {
                let e = "";
                proof {
                    reveal_strlit("");
                    assert(e@ =~= Seq::<char>::empty());
                }
                e
            },
        }
    }

    fn goes_before(&self, a: &TileData, b: &TileData) -> (r: bool)
        ensures
            r == sorts_before(sort_key(*a, self.field@), sort_key(*b, self.field@), self.descending),
    {
        let ka = self.key_of(a).as_bytes();
        let kb = self.key_of(b).as_bytes();
        let c = compare_bytes(ka, kb);
        if self.descending {
            match c {
                Cmp::Greater => true,
                _ => false,
            }
        } else {
            match c {
                Cmp::Less => true,
                _ => false,
            }
        }
    }
}

impl TileTransform for SortTransform {
    open spec fn spec_name(&self) -> Option<Seq<char>> {
        Some("sort"@)
    }

    open spec fn transforms_to(
        &self,
        input: Seq<TileData>,
        result: Result<Seq<TileData>, TransformError>,
    ) -> bool {
        result matches Ok(out) && stably_sorted(input, out, self.spec_field(), self.spec_descending())
    }

    fn name(&self) -> (r: &str) {
        "sort"
    }

    fn transform(&self, tiles: Vec<TileData>) -> (r: Result<Vec<TileData>, TransformError>) {
        let ghost input = tiles@;
        let ghost field = self.field@;
        let mut out: Vec<TileData> = Vec::new();
        let ghost mut k: int = 0;
        proof {
            assert(input.take(0) =~= Seq::<TileData>::empty());
            assert forall|c: Seq<u8>| #[trigger] key_class(out@, field, c) == key_class(
                input.take(0),
                field,
                c,
            ) by {
                reveal_with_fuel(Seq::<_>::filter, 1);
            }
        }
        for t in it: tiles.into_iter()
            invariant
                it.seq() == input,
                k == it.index(),
                field == self.field@,
                stably_sorted(input.take(k), out@, field, self.descending),
        {
            let mut p = out.len();
            while p > 0 && self.goes_before(&t, &out[p - 1])
                invariant
                    p <= out@.len(),
                    field == self.field@,
                    forall|j: int|
                        p <= j < out@.len() ==> sorts_before(
                            sort_key(t, field),
                            sort_key(#[trigger] out@[j], field),
                            self.descending,
                        ),
                decreases p,
            {
                p = p - 1;
            }
            proof {
                lemma_insert_step(input.take(k), out@, t, p as int, field, self.descending);
                assert(input.take(k + 1) =~= input.take(k).push(t));
                k = k + 1;
            }
            out.insert(p, t);
        }
        assert(input.take(k) =~= input);
        Ok(out)
    }
}

/// In a sorted result, a tile's whole value for the field, compared byte by
/// byte, is never after (ascending) or before (descending) the value of a later
/// tile; a tile without the field counts as having the empty value, so only
/// tiles whose value is empty can come before it in ascending order, or after
/// it in descending order.
pub proof fn lemma_sort_orders_by_whole_value(
    s: SortTransform,
    input: Seq<TileData>,
    out: Seq<TileData>,
    i: int,
    j: int,
)
    requires
        s.transforms_to(input, Ok(out)),
        0 <= i < j < out.len(),
    ensures
        out[i].meta@.contains_key(s.spec_field()) && out[j].meta@.contains_key(s.spec_field())
            && !s.spec_descending() ==> !lex_lt(
            encode_utf8(out[j].meta@[s.spec_field()]),
            encode_utf8(out[i].meta@[s.spec_field()]),
        ),
        out[i].meta@.contains_key(s.spec_field()) && out[j].meta@.contains_key(s.spec_field())
            && s.spec_descending() ==> !lex_lt(
            encode_utf8(out[i].meta@[s.spec_field()]),
            encode_utf8(out[j].meta@[s.spec_field()]),
        ),
        out[i].meta@.contains_key(s.spec_field()) && !out[j].meta@.contains_key(s.spec_field())
            && !s.spec_descending() ==> out[i].meta@[s.spec_field()].len() == 0,
        !out[i].meta@.contains_key(s.spec_field()) && out[j].meta@.contains_key(s.spec_field())
            && s.spec_descending() ==> out[j].meta@[s.spec_field()].len() == 0,
{
    let f = s.spec_field();
    let d = s.spec_descending();
    assert(!sorts_before(sort_key(out[j], f), sort_key(out[i], f), d));
    if out[i].meta@.contains_key(f) && !out[j].meta@.contains_key(f) && !d {
        let vi = out[i].meta@[f];
        lemma_encode_utf8_empty(vi);
        if vi.len() > 0 {
            assert(lex_lt_at(Seq::<u8>::empty(), encode_utf8(vi), 0));
        }
    }
    if !out[i].meta@.contains_key(f) && out[j].meta@.contains_key(f) && d {
        let vj = out[j].meta@[f];
        lemma_encode_utf8_empty(vj);
        if vj.len() > 0 {
            assert(lex_lt_at(Seq::<u8>::empty(), encode_utf8(vj), 0));
        }
    }
}

} // verus!
