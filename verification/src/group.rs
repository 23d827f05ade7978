//! Merging tiles: into chunks of a fixed size, or all into one.
use vstd::prelude::*;
use vstd::utf8::*;
use crate::arith::{ceil_div, lemma_ceil_div_unique, lemma_mul_succ};
use crate::string_map::StringMap;
use crate::text::{parse_usize, spec_parse_usize, str_bytes_vec};
use crate::tile::{TileData, TransformError};
use crate::transform::TileTransform;

verus! {

/// The payloads of `s`, one after another.
pub open spec fn concat_payloads(s: Seq<TileData>) -> Seq<u8>
    decreases s.len(),
{
    if s.len() == 0 {
        Seq::empty()
    } else {
        concat_payloads(s.drop_last()) + s.last().payload@
    }
}

/// The tiles of chunk `j` when `input` is cut into chunks of `size`.
pub open spec fn chunk_of(input: Seq<TileData>, size: int, j: int) -> Seq<TileData> {
    input.subrange(
        j * size,
        if (j + 1) * size < input.len() {
            (j + 1) * size
        } else {
            input.len() as int
        },
    )
}

/// `output` has one tile per chunk of `size` input tiles: kind `chunk`, its
/// position as index, no metadata, and the chunk's payloads concatenated.
pub open spec fn chunked(input: Seq<TileData>, size: int, output: Seq<TileData>) -> bool {
    &&& output.len() == ceil_div(input.len() as int, size)
    &&& forall|j: int|
        0 <= j < output.len() ==> {
            &&& (#[trigger] output[j]).kind@ == "chunk"@
            &&& output[j].index == j
            &&& output[j].meta@ == Map::<Seq<char>, Seq<char>>::empty()
            &&& output[j].payload@ == concat_payloads(chunk_of(input, size, j))
        }
}

/// Groups tiles into chunks of N, concatenating their payloads.
pub struct ChunkTransform {
    size: usize,
}

impl ChunkTransform {
    #[verifier::type_invariant]
    spec fn size_positive(self) -> bool {
        self.size >= 1
    }

    /// The number of tiles per chunk.
    pub closed spec fn spec_size(&self) -> usize {
        self.size
    }

    /// Chunks of `size` tiles; a size of zero counts as one.
    pub fn new(size: usize) -> (r: Self)
        ensures
            r.spec_size() == if size == 0 { 1 } else { size },
    {
        ChunkTransform { size: if size == 0 { 1 } else { size } }
    }

    /// Chunks from the parameter `size` (required, a decimal number).
    pub fn from_params(params: &StringMap) -> (r: Result<Self, TransformError>)
        ensures
            !params@.contains_key("size"@) ==> (r matches Err(TransformError::MissingParam(p)) && p@
                == "size"@),
            params@.contains_key("size"@) ==> match spec_parse_usize(encode_utf8(params@["size"@])) {
                Some(n) => r matches Ok(c) && c.spec_size() == if n == 0 { 1 } else { n },
                None => r matches Err(TransformError::InvalidParam(m)) && m@
                    == "size must be a positive integer"@,
            },
    {
        let text = match params.get("size") {
            Some(s) => s,
            None => {
                return Err(TransformError::MissingParam("size".to_owned()));
            },
        };
        match parse_usize(text.as_str()) {
            Some(n) => Ok(Self::new(n)),
            None => Err(TransformError::InvalidParam("size must be a positive integer".to_owned())),
        }
    }
}

fn concat_range(tiles: &Vec<TileData>, start: usize, end: usize) -> (r: Vec<u8>)
    requires
        start <= end <= tiles@.len(),
    ensures
        r@ == concat_payloads(tiles@.subrange(start as int, end as int)),
{
    let mut payload: Vec<u8> = Vec::new();
    let mut k = start;
    assert(tiles@.subrange(start as int, start as int) =~= Seq::<TileData>::empty());
    while k < end
        invariant
            start <= k <= end <= tiles@.len(),
            payload@ == concat_payloads(tiles@.subrange(start as int, k as int)),
        decreases end - k,
    {
        payload.extend_from_slice(tiles[k].payload.as_slice());
        proof {
            let s = tiles@.subrange(start as int, k + 1);
            assert(s.drop_last() =~= tiles@.subrange(start as int, k as int));
            assert(payload@ =~= concat_payloads(s));
        }
        k = k + 1;
    }
    payload
}

impl TileTransform for ChunkTransform {
    open spec fn spec_name(&self) -> Option<Seq<char>> {
        Some("chunk"@)
    }

    open spec fn transforms_to(
        &self,
        input: Seq<TileData>,
        result: Result<Seq<TileData>, TransformError>,
    ) -> bool {
        result matches Ok(out) && chunked(input, self.spec_size() as int, out)
    }

    fn name(&self) -> (r: &str) {
        "chunk"
    }

    fn transform(&self, tiles: Vec<TileData>) -> (r: Result<Vec<TileData>, TransformError>) {
        proof {
            use_type_invariant(self);
        }
        let size = self.size;
        let n = tiles.len();
        let mut result: Vec<TileData> = Vec::new();
        let mut i: usize = 0;
        assert(0 * size == 0) by (nonlinear_arith);
        while i < n
            invariant
                size == self.size,
                size >= 1,
                n == tiles@.len(),
                i <= n,
                result@.len() * size >= i,
                i < n ==> i == result@.len() * size,
                result@.len() == 0 || (result@.len() - 1) * size < i,
                forall|j: int|
                    0 <= j < result@.len() ==> {
                        &&& (#[trigger] result@[j]).kind@ == "chunk"@
                        &&& result@[j].index == j
                        &&& result@[j].meta@ == Map::<Seq<char>, Seq<char>>::empty()
                        &&& result@[j].payload@ == concat_payloads(
                            chunk_of(tiles@, size as int, j),
                        )
                    },
            decreases n - i,
        {
            let end = if n - i > size { i + size } else { n };
            let payload = concat_range(&tiles, i, end);
            let j = result.len();
            proof {
                lemma_mul_succ(j as int, size as int);
            }
            let chunk = TileData::new("chunk", payload, j as u64);
            result.push(chunk);
            i = end;
        }
        proof {
            lemma_ceil_div_unique(n as int, size as int, result@.len() as int);
        }
        Ok(result)
    }
}

proof fn lemma_concat_split(s: Seq<TileData>, a: int, b: int, c: int)
    requires
        0 <= a <= b <= c <= s.len(),
    ensures
        concat_payloads(s.subrange(a, c)) == concat_payloads(s.subrange(a, b)) + concat_payloads(
            s.subrange(b, c),
        ),
    decreases c - b,
{
    if b == c {
        assert(s.subrange(b, c) =~= Seq::<TileData>::empty());
        assert(s.subrange(a, c) =~= s.subrange(a, b));
        assert(concat_payloads(s.subrange(a, b)) + Seq::<u8>::empty() =~= concat_payloads(
            s.subrange(a, b),
        ));
    } else {
        lemma_concat_split(s, a, b, c - 1);
        assert(s.subrange(a, c).drop_last() =~= s.subrange(a, c - 1));
        assert(s.subrange(b, c).drop_last() =~= s.subrange(b, c - 1));
        assert(concat_payloads(s.subrange(a, c)) =~= concat_payloads(s.subrange(a, b))
            + concat_payloads(s.subrange(b, c)));
    }
}

proof fn lemma_chunk_start(n: int, size: int, j: int)
    requires
        size >= 1,
        n >= 0,
        0 <= j < ceil_div(n, size),
    ensures
        j * size < n,
{
    assert(j * size < n) by (nonlinear_arith)
        requires
            size >= 1,
            n >= 0,
            0 <= j,
            j < (n + size - 1) / size,
    ;
}

proof fn lemma_chunks_cover(n: int, size: int, c: int)
    requires
        size >= 1,
        n >= 0,
        c == ceil_div(n, size),
    ensures
        c * size >= n,
{
    assert(c * size >= n) by (nonlinear_arith)
        requires
            size >= 1,
            n >= 0,
            c == (n + size - 1) / size,
    ;
}

proof fn lemma_chunk_prefix(input: Seq<TileData>, size: int, output: Seq<TileData>, j: int)
    requires
        size >= 1,
        chunked(input, size, output),
        0 <= j <= output.len(),
    ensures
        concat_payloads(output.take(j)) == concat_payloads(
            input.subrange(0, if j * size < input.len() { j * size } else { input.len() as int }),
        ),
    decreases j,
{
    let n = input.len() as int;
    if j == 0 {
        assert(output.take(0) =~= Seq::<TileData>::empty());
        assert(0 * size == 0) by (nonlinear_arith);
        assert(input.subrange(0, 0) =~= Seq::<TileData>::empty());
    } else {
        let i = j - 1;
        lemma_chunk_prefix(input, size, output, i);
        lemma_chunk_start(n, size, i);
        lemma_mul_succ(i, size);
        let e = if (i + 1) * size < n { (i + 1) * size } else { n };
        lemma_concat_split(input, 0, i * size, e);
        assert(output.take(j).drop_last() =~= output.take(i));
        assert(output[i].payload@ == concat_payloads(chunk_of(input, size, i)));
    }
}

/// Chunking keeps every byte: the chunks' payloads, one after another, are
/// the input payloads one after another.
pub proof fn lemma_chunk_preserves_bytes(input: Seq<TileData>, size: int, output: Seq<TileData>)
    requires
        size >= 1,
        chunked(input, size, output),
    ensures
        concat_payloads(output) == concat_payloads(input),
{
    let n = input.len() as int;
    lemma_chunk_prefix(input, size, output, output.len() as int);
    lemma_chunks_cover(n, size, output.len() as int);
    assert(output.take(output.len() as int) =~= output);
    assert(input.subrange(0, n) =~= input);
}

/// The payloads of `s` with `sep` between each two.
pub open spec fn join_payloads(s: Seq<TileData>, sep: Seq<u8>) -> Seq<u8>
    decreases s.len(),
{
    if s.len() == 0 {
        Seq::empty()
    } else if s.len() == 1 {
        s[0].payload@
    } else {
        join_payloads(s.drop_last(), sep) + sep + s.last().payload@
    }
}

/// Merges all tiles into one by concatenating their payloads.
pub struct FlattenTransform {
    separator: Vec<u8>,
}

impl FlattenTransform {
    /// The bytes put between payloads.
    pub closed spec fn spec_separator(&self) -> Seq<u8> {
        self.separator@
    }

    /// Merges with `separator` between payloads.
    pub fn new(separator: &[u8]) -> (r: Self)
        ensures
            r.spec_separator() == separator@,
    {
        let mut sep: Vec<u8> = Vec::new();
        sep.extend_from_slice(separator);
        assert(sep@ =~= separator@);
        FlattenTransform { separator: sep }
    }

    /// Merges with the parameter `separator` (optional, empty by default).
    pub fn from_params(params: &StringMap) -> (r: Result<Self, TransformError>)
        ensures
            r matches Ok(f) && f.spec_separator() == if params@.contains_key("separator"@) {
                encode_utf8(params@["separator"@])
            } else {
                Seq::<u8>::empty()
            },
    {
        let sep = match params.get("separator") {
            Some(s) => str_bytes_vec(s.as_str()),
            None => Vec::new(),
        };
        Ok(Self::new(sep.as_slice()))
    }
}

/// `output` is empty for an empty input, and otherwise one tile of kind
/// `flattened`, index 0 and no metadata, whose payload joins the input's.
pub open spec fn flattened(input: Seq<TileData>, sep: Seq<u8>, output: Seq<TileData>) -> bool {
    if input.len() == 0 {
        output.len() == 0
    } else {
        &&& output.len() == 1
        &&& output[0].kind@ == "flattened"@
        &&& output[0].index == 0
        &&& output[0].meta@ == Map::<Seq<char>, Seq<char>>::empty()
        &&& output[0].payload@ == join_payloads(input, sep)
    }
}

impl TileTransform for FlattenTransform {
    open spec fn spec_name(&self) -> Option<Seq<char>> {
        Some("flatten"@)
    }

    open spec fn transforms_to(
        &self,
        input: Seq<TileData>,
        result: Result<Seq<TileData>, TransformError>,
    ) -> bool {
        result matches Ok(out) && flattened(input, self.spec_separator(), out)
    }

    fn name(&self) -> (r: &str) {
        "flatten"
    }

    fn transform(&self, tiles: Vec<TileData>) -> (r: Result<Vec<TileData>, TransformError>) {
        if tiles.is_empty() {
            return Ok(Vec::new());
        }
        let mut payload: Vec<u8> = Vec::new();
        let mut i: usize = 0;
        while i < tiles.len()
            invariant
                i <= tiles@.len(),
                tiles@.len() > 0,
                i > 0 ==> payload@ == join_payloads(tiles@.take(i as int), self.separator@),
                i == 0 ==> payload@ == Seq::<u8>::empty(),
            decreases tiles@.len() - i,
        {
            let ghost before = payload@;
            if i > 0 {
                payload.extend_from_slice(self.separator.as_slice());
            }
            payload.extend_from_slice(tiles[i].payload.as_slice());
            proof {
                let s = tiles@.take(i + 1);
                assert(s.drop_last() =~= tiles@.take(i as int));
                if i == 0 {
                    assert(payload@ =~= join_payloads(s, self.separator@));
                } else {
                    assert(payload@ =~= join_payloads(s, self.separator@));
                }
            }
            i = i + 1;
        }
        assert(tiles@.take(i as int) =~= tiles@);
        let merged = TileData::new("flattened", payload, 0);
        let mut out: Vec<TileData> = Vec::new();
        out.push(merged);
        Ok(out)
    }
}

} // verus!
