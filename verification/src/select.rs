//! Selecting tiles by position or by payload: deduplicate, head, tail, sample.
use vstd::prelude::*;
use vstd::utf8::*;
use crate::arith::{ceil_div, lemma_ceil_div_unique, lemma_mul_succ};
use crate::string_map::StringMap;
use crate::text::{compare_bytes, parse_usize, spec_parse_usize, Cmp};
use crate::tile::{TileData, TransformError};
use crate::transform::TileTransform;

verus! {

/// No tile before position `i` has the payload of tile `i`.
pub open spec fn is_first_occurrence(s: Seq<TileData>, i: int) -> bool {
    forall|j: int| 0 <= j < i ==> (#[trigger] s[j]).payload@ != s[i].payload@
}

/// The tiles of `s` whose payload no earlier tile has, in order.
pub open spec fn first_occurrences(s: Seq<TileData>) -> Seq<TileData>
    decreases s.len(),
{
    if s.len() == 0 {
        Seq::empty()
    } else if is_first_occurrence(s, s.len() - 1) {
        first_occurrences(s.drop_last()).push(s.last())
    } else {
        first_occurrences(s.drop_last())
    }
}

/// Removes tiles whose payload an earlier tile already has.
pub struct DeduplicateTransform;

fn same_bytes(a: &[u8], b: &[u8]) -> (r: bool)
    ensures
        r == (a@ == b@),
{
    match compare_bytes(a, b) {
        Cmp::Equal => true,
        _ => false,
    }
}

/// Some tile of `s` has payload `p`.
pub open spec fn has_payload(s: Seq<TileData>, p: Seq<u8>) -> bool {
    exists|m: int| 0 <= m < s.len() && (#[trigger] s[m]).payload@ == p
}

/// After `k` input tiles, `out` is their deduplication, and holds exactly their payloads.
spec fn dedup_state(input: Seq<TileData>, k: int, out: Seq<TileData>) -> bool {
    &&& 0 <= k <= input.len()
    &&& out == first_occurrences(input.take(k))
    &&& forall|j: int| 0 <= j < k ==> has_payload(out, (#[trigger] input[j]).payload@)
    &&& forall|m: int| 0 <= m < out.len() ==> has_payload(input.take(k), (#[trigger] out[m]).payload@)
}

proof fn lemma_dedup_step(input: Seq<TileData>, k: int, out: Seq<TileData>)
    requires
        dedup_state(input, k, out),
        k < input.len(),
    ensures
        dedup_state(
            input,
            k + 1,
            if has_payload(out, input[k].payload@) {
                out
            } else {
                out.push(input[k])
            },
        ),
{
    let x = input[k];
    let p = input.take(k + 1);
    assert(p.drop_last() =~= input.take(k));
    assert(p.last() == x);
    let seen = has_payload(out, x.payload@);
    if seen {
        let q = choose|q: int| 0 <= q < out.len() && (#[trigger] out[q]).payload@ == x.payload@;
        assert(has_payload(input.take(k), out[q].payload@));
        let j = choose|j: int| 0 <= j < k && (#[trigger] input.take(k)[j]).payload@ == out[q].payload@;
        assert(p[j] == input.take(k)[j]);
        assert(!is_first_occurrence(p, k));
    } else {
        assert forall|j: int| 0 <= j < k implies (#[trigger] p[j]).payload@ != p[k].payload@ by {
            assert(p[j] == input[j]);
            assert(has_payload(out, input[j].payload@));
        }
        assert(is_first_occurrence(p, k));
    }
    let n = if seen { out } else { out.push(x) };
    assert forall|j: int| 0 <= j < k + 1 implies has_payload(n, (#[trigger] input[j]).payload@) by {
        if j < k {
            assert(has_payload(out, input[j].payload@));
            let m = choose|m: int| 0 <= m < out.len() && (#[trigger] out[m]).payload@ == input[j].payload@;
            assert(n[m] == out[m]);
        } else if !seen {
            assert(n[out.len() as int] == x);
        }
    }
    assert forall|m: int| 0 <= m < n.len() implies has_payload(p, (#[trigger] n[m]).payload@) by {
        if m < out.len() {
            assert(n[m] == out[m]);
            assert(has_payload(input.take(k), out[m].payload@));
            let j = choose|j: int| 0 <= j < k && (#[trigger] input.take(k)[j]).payload@ == out[m].payload@;
            assert(p[j] == input.take(k)[j]);
        } else {
            assert(n[m] == x);
            assert(p[k] == x);
        }
    }
}

impl TileTransform for DeduplicateTransform {
    open spec fn spec_name(&self) -> Option<Seq<char>> {
        Some("deduplicate"@)
    }

    open spec fn transforms_to(
        &self,
        input: Seq<TileData>,
        result: Result<Seq<TileData>, TransformError>,
    ) -> bool {
        result == Ok::<Seq<TileData>, TransformError>(first_occurrences(input))
    }

    fn name(&self) -> (r: &str) {
        "deduplicate"
    }

    fn transform(&self, tiles: Vec<TileData>) -> (r: Result<Vec<TileData>, TransformError>) {
        let ghost input = tiles@;
        let mut out: Vec<TileData> = Vec::new();
        let ghost mut k: int = 0;
        assert(input.take(0) =~= Seq::<TileData>::empty());
        for t in it: tiles.into_iter()
            invariant
                it.seq() == input,
                k == it.index(),
                dedup_state(input, k, out@),
        {
            assert(t == input[k]);
            let mut seen = false;
            let mut m: usize = 0;
            while m < out.len()
                invariant
                    m <= out@.len(),
                    seen == exists|q: int| 0 <= q < m && (#[trigger] out@[q]).payload@ == t.payload@,
                decreases out@.len() - m,
            {
                if same_bytes(out[m].payload.as_slice(), t.payload.as_slice()) {
                    seen = true;
                }
                m = m + 1;
            }
            proof {
                lemma_dedup_step(input, k, out@);
                k = k + 1;
            }
            if !seen {
                out.push(t);
            }
        }
        assert(input.take(k) =~= input);
        Ok(out)
    }
}

/// No two tiles of a deduplicated sequence share a payload.
pub proof fn lemma_first_occurrences_distinct(s: Seq<TileData>)
    ensures
        forall|a: int, b: int|
            0 <= a < b < first_occurrences(s).len() ==> (#[trigger] first_occurrences(s)[a]).payload@
                != (#[trigger] first_occurrences(s)[b]).payload@,
        forall|m: int|
            0 <= m < first_occurrences(s).len() ==> exists|j: int|
                0 <= j < s.len() && #[trigger] first_occurrences(s)[m] == s[j],
    decreases s.len(),
{
    if s.len() > 0 {
        let p = s.drop_last();
        lemma_first_occurrences_distinct(p);
        let r = first_occurrences(p);
        let f = first_occurrences(s);
        assert forall|m: int| 0 <= m < f.len() implies exists|j: int|
            0 <= j < s.len() && #[trigger] f[m] == s[j] by {
            if m < r.len() {
                let j = choose|j: int| 0 <= j < p.len() && #[trigger] r[m] == p[j];
                assert(f[m] == r[m]);
                assert(s[j] == p[j]);
            } else {
                assert(f[m] == s[s.len() - 1]);
            }
        }
        if is_first_occurrence(s, s.len() - 1) {
            assert forall|a: int, b: int| 0 <= a < b < f.len() implies (#[trigger] f[a]).payload@
                != (#[trigger] f[b]).payload@ by {
                if b == r.len() {
                    let j = choose|j: int| 0 <= j < p.len() && #[trigger] r[a] == p[j];
                    assert(s[j] == p[j]);
                    assert(f[a] == r[a]);
                } else {
                    assert(f[a] == r[a] && f[b] == r[b]);
                }
            }
        }
    }
}

/// Every payload of `s` is kept by deduplication.
pub proof fn lemma_first_occurrences_complete(s: Seq<TileData>, j: int)
    requires
        0 <= j < s.len(),
    ensures
        exists|m: int|
            0 <= m < first_occurrences(s).len() && (#[trigger] first_occurrences(s)[m]).payload@
                == s[j].payload@,
    decreases s.len(),
{
    let p = s.drop_last();
    let f = first_occurrences(s);
    let r = first_occurrences(p);
    if j < s.len() - 1 {
        lemma_first_occurrences_complete(p, j);
        let m = choose|m: int| 0 <= m < r.len() && (#[trigger] r[m]).payload@ == p[j].payload@;
        assert(f[m] == r[m]);
    } else if is_first_occurrence(s, j) {
        assert(f[r.len() as int] == s[j]);
    } else {
        let i = choose|i: int| 0 <= i < j && (#[trigger] s[i]).payload@ == s[j].payload@;
        lemma_first_occurrences_complete(p, i);
        let m = choose|m: int| 0 <= m < r.len() && (#[trigger] r[m]).payload@ == p[i].payload@;
        assert(f[m] == r[m]);
    }
}

/// Takes the first N tiles.
pub struct HeadTransform {
    count: usize,
}

/// Parses a required count parameter.
fn count_param(params: &StringMap, key: &str, invalid: &str) -> (r: Result<usize, TransformError>)
    ensures
        !params@.contains_key(key@) ==> (r matches Err(TransformError::MissingParam(p)) && p@
            == key@),
        params@.contains_key(key@) ==> match spec_parse_usize(encode_utf8(params@[key@])) {
            Some(n) => r == Ok::<usize, TransformError>(n),
            None => r matches Err(TransformError::InvalidParam(m)) && m@ == invalid@,
        },
{
    let text = match params.get(key) {
        Some(s) => s,
        None => {
            return Err(TransformError::MissingParam(key.to_owned()));
        },
    };
    match parse_usize(text.as_str()) {
        Some(n) => Ok(n),
        None => Err(TransformError::InvalidParam(invalid.to_owned())),
    }
}

impl HeadTransform {
    /// The number of tiles kept.
    pub closed spec fn spec_count(&self) -> usize {
        self.count
    }

    /// Keeps the first `count` tiles.
    pub fn new(count: usize) -> (r: Self)
        ensures
            r.spec_count() == count,
    {
        HeadTransform { count }
    }

    /// Keeps the number of tiles given by the parameter `count` (required).
    pub fn from_params(params: &StringMap) -> (r: Result<Self, TransformError>)
        ensures
            !params@.contains_key("count"@) ==> (r matches Err(TransformError::MissingParam(p))
                && p@ == "count"@),
            params@.contains_key("count"@) ==> match spec_parse_usize(
                encode_utf8(params@["count"@]),
            ) {
                Some(n) => r matches Ok(h) && h.spec_count() == n,
                None => r matches Err(TransformError::InvalidParam(m)) && m@
                    == "count must be a positive integer"@,
            },
    {
        let count = count_param(params, "count", "count must be a positive integer")?;
        Ok(Self::new(count))
    }
}

impl TileTransform for HeadTransform {
    open spec fn spec_name(&self) -> Option<Seq<char>> {
        Some("head"@)
    }

    open spec fn transforms_to(
        &self,
        input: Seq<TileData>,
        result: Result<Seq<TileData>, TransformError>,
    ) -> bool {
        result == Ok::<Seq<TileData>, TransformError>(
            input.take(
                if self.spec_count() < input.len() {
                    self.spec_count() as int
                } else {
                    input.len() as int
                },
            ),
        )
    }

    fn name(&self) -> (r: &str) {
        "head"
    }

    fn transform(&self, tiles: Vec<TileData>) -> (r: Result<Vec<TileData>, TransformError>) {
        let mut tiles = tiles;
        let ghost input = tiles@;
        tiles.truncate(self.count);
        assert(self.count >= input.len() ==> input.take(input.len() as int) =~= input);
        Ok(tiles)
    }
}

/// Takes the last N tiles.
pub struct TailTransform {
    count: usize,
}

impl TailTransform {
    /// The number of tiles kept.
    pub closed spec fn spec_count(&self) -> usize {
        self.count
    }

    /// Keeps the last `count` tiles.
    pub fn new(count: usize) -> (r: Self)
        ensures
            r.spec_count() == count,
    {
        TailTransform { count }
    }

    /// Keeps the number of tiles given by the parameter `count` (required).
    pub fn from_params(params: &StringMap) -> (r: Result<Self, TransformError>)
        ensures
            !params@.contains_key("count"@) ==> (r matches Err(TransformError::MissingParam(p))
                && p@ == "count"@),
            params@.contains_key("count"@) ==> match spec_parse_usize(
                encode_utf8(params@["count"@]),
            ) {
                Some(n) => r matches Ok(t) && t.spec_count() == n,
                None => r matches Err(TransformError::InvalidParam(m)) && m@
                    == "count must be a positive integer"@,
            },
    {
        let count = count_param(params, "count", "count must be a positive integer")?;
        Ok(Self::new(count))
    }
}

impl TileTransform for TailTransform {
    open spec fn spec_name(&self) -> Option<Seq<char>> {
        Some("tail"@)
    }

    open spec fn transforms_to(
        &self,
        input: Seq<TileData>,
        result: Result<Seq<TileData>, TransformError>,
    ) -> bool {
        result == Ok::<Seq<TileData>, TransformError>(
            input.skip(
                if self.spec_count() < input.len() {
                    input.len() - self.spec_count()
                } else {
                    0
                },
            ),
        )
    }

    fn name(&self) -> (r: &str) {
        "tail"
    }

    fn transform(&self, tiles: Vec<TileData>) -> (r: Result<Vec<TileData>, TransformError>) {
        let mut tiles = tiles;
        let skip = if self.count < tiles.len() { tiles.len() - self.count } else { 0 };
        let kept = tiles.split_off(skip);
        Ok(kept)
    }
}

/// Takes every Nth tile, starting with the first.
pub struct SampleTransform {
    rate: usize,
}

/// `output` holds the tiles of `input` at positions 0, `rate`, 2 `rate`, ….
pub open spec fn sampled(input: Seq<TileData>, rate: int, output: Seq<TileData>) -> bool {
    &&& output.len() == ceil_div(input.len() as int, rate)
    &&& forall|m: int| 0 <= m < output.len() ==> #[trigger] output[m] == input[m * rate]
}

impl SampleTransform {
    #[verifier::type_invariant]
    spec fn rate_positive(self) -> bool {
        self.rate >= 1
    }

    /// The distance between kept tiles.
    pub closed spec fn spec_rate(&self) -> usize {
        self.rate
    }

    /// Keeps every `rate`-th tile; a rate of zero counts as one.
    pub fn new(rate: usize) -> (r: Self)
        ensures
            r.spec_rate() == if rate == 0 { 1 } else { rate },
    {
        SampleTransform { rate: if rate == 0 { 1 } else { rate } }
    }

    /// Samples at the rate given by the parameter `rate` (required).
    pub fn from_params(params: &StringMap) -> (r: Result<Self, TransformError>)
        ensures
            !params@.contains_key("rate"@) ==> (r matches Err(TransformError::MissingParam(p)) && p@
                == "rate"@),
            params@.contains_key("rate"@) ==> match spec_parse_usize(encode_utf8(params@["rate"@])) {
                Some(n) => r matches Ok(s) && s.spec_rate() == if n == 0 { 1 } else { n },
                None => r matches Err(TransformError::InvalidParam(m)) && m@
                    == "rate must be a positive integer"@,
            },
    {
        let rate = count_param(params, "rate", "rate must be a positive integer")?;
        Ok(Self::new(rate))
    }
}

impl TileTransform for SampleTransform {
    open spec fn spec_name(&self) -> Option<Seq<char>> {
        Some("sample"@)
    }

    open spec fn transforms_to(
        &self,
        input: Seq<TileData>,
        result: Result<Seq<TileData>, TransformError>,
    ) -> bool {
        result matches Ok(out) && sampled(input, self.spec_rate() as int, out)
    }

    fn name(&self) -> (r: &str) {
        "sample"
    }

    fn transform(&self, tiles: Vec<TileData>) -> (r: Result<Vec<TileData>, TransformError>) {
        proof {
            use_type_invariant(self);
        }
        let rate = self.rate;
        let ghost input = tiles@;
        let mut out: Vec<TileData> = Vec::new();
        let mut gap: usize = 0;
        let ghost mut k: int = 0;
        assert(0 * rate == 0) by (nonlinear_arith);
        for t in it: tiles.into_iter()
            invariant
                it.seq() == input,
                k == it.index(),
                0 <= k <= input.len(),
                rate == self.rate,
                rate >= 1,
                out@.len() * rate == k + gap,
                gap < rate,
                out@.len() == 0 ==> gap == 0,
                out@.len() > 0 ==> (out@.len() - 1) * rate < k,
                forall|m: int| 0 <= m < out@.len() ==> #[trigger] out@[m] == input[m * rate],
        {
            let ghost c = out@.len() as int;
            proof {
                lemma_mul_succ(c, rate as int);
                assert(t == input[k]);
            }
            if gap == 0 {
                out.push(t);
                gap = rate - 1;
            } else {
                gap = gap - 1;
            }
            proof {
                k = k + 1;
            }
        }
        proof {
            lemma_ceil_div_unique(input.len() as int, rate as int, out@.len() as int);
        }
        Ok(out)
    }
}

} // verus!
