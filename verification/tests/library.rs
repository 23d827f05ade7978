use forge_transform::text::{
    find_bytes, is_whitespace_char, parse_usize, push_decimal, str_eq, trim_text, trim_text_bytes,
};
use forge_transform::{
    base64_decode_bytes, base64_encode, base64_encode_bytes, ChunkTransform,
    DeduplicateTransform, FilterOp, FilterTransform, FlattenTransform, HeadTransform, MapOp,
    MapTransform, PipelineTransform, SampleTransform, SortTransform, StringMap, TailTransform,
    TileData, TileTransform, TransformChain, TransformError, TransformSpec,
};

fn tile(payload: &[u8], index: u64) -> TileData {
    TileData::new("test", payload.to_vec(), index)
}

fn meta_tile(payload: &[u8], key: &str, val: &str) -> TileData {
    tile(payload, 0).with_meta(key, val)
}

fn params(pairs: &[(&str, &str)]) -> StringMap {
    let mut p = StringMap::new();
    for (k, v) in pairs {
        p.insert(k.to_string(), v.to_string());
    }
    p
}

fn payloads(tiles: &[TileData]) -> Vec<Vec<u8>> {
    tiles.iter().map(|t| t.payload.clone()).collect()
}

fn map_op(op: &str, payload: &[u8]) -> Vec<u8> {
    let m = MapTransform::from_params(&params(&[("op", op)])).unwrap();
    m.transform(vec![tile(payload, 0)]).unwrap().remove(0).payload
}

/// A transform that always fails, for the error paths of pipelines and chains.
struct Failing;

impl TileTransform for Failing {
    fn name(&self) -> &str {
        "failing"
    }

    fn transform(&self, _tiles: Vec<TileData>) -> Result<Vec<TileData>, TransformError> {
        Err(TransformError::InvalidParam("boom".to_string()))
    }
}

#[test]
fn string_map_insert_and_get() {
    let mut m = StringMap::new();
    assert_eq!(m.insert("a".to_string(), "1".to_string()), None);
    assert_eq!(m.insert("b".to_string(), "2".to_string()), None);
    assert_eq!(m.insert("a".to_string(), "3".to_string()), Some("1".to_string()));
    assert_eq!(m.get("a").map(|s| s.as_str()), Some("3"));
    assert_eq!(m.get("b").map(|s| s.as_str()), Some("2"));
    assert_eq!(m.get("c"), None);
    assert_eq!(m.len(), 2);
    let (k, v) = m.entry(0);
    assert_eq!((k.as_str(), v.as_str()), ("a", "3"));
    let copy = m.clone();
    assert_eq!(copy.get("b").map(|s| s.as_str()), Some("2"));
}

#[test]
fn tile_new_and_with_meta() {
    let t = TileData::new("text", b"hi".to_vec(), 7).with_meta("k", "v").with_meta("k", "w");
    assert_eq!(t.kind, "text");
    assert_eq!(t.payload, b"hi");
    assert_eq!(t.index, 7);
    assert_eq!(t.meta.get("k").map(|s| s.as_str()), Some("w"));
    assert_eq!(t.meta.len(), 1);
    let c = t.clone();
    assert_eq!(c.id, t.id);
    assert_eq!(c.payload, t.payload);
    let other = TileData::new("text", b"hi".to_vec(), 7);
    assert_ne!(other.id, t.id);
    assert_eq!(other.id.get_version_num(), 4);
}

#[test]
fn transform_spec_clone() {
    let s = TransformSpec { name: "head".to_string(), params: params(&[("count", "3")]) };
    let c = s.clone();
    assert_eq!(c.name, "head");
    assert_eq!(c.params.get("count").map(|s| s.as_str()), Some("3"));
}

#[test]
fn error_messages() {
    assert_eq!(
        TransformError::MissingParam("field".to_string()).message(),
        "missing required parameter: field"
    );
    assert_eq!(
        TransformError::InvalidParam("x".to_string()).message(),
        "invalid parameter value: x"
    );
    assert_eq!(
        TransformError::Pipeline { stage: 12, message: "bad".to_string() }.message(),
        "pipeline error at stage 12: bad"
    );
}

#[test]
fn decimal_text() {
    let mut s = String::from("n=");
    push_decimal(&mut s, 0);
    push_decimal(&mut s, 1907);
    assert_eq!(s, "n=01907");
}

#[test]
fn parse_usize_cases() {
    assert_eq!(parse_usize("42"), Some(42));
    assert_eq!(parse_usize("+7"), Some(7));
    assert_eq!(parse_usize("007"), Some(7));
    assert_eq!(parse_usize(""), None);
    assert_eq!(parse_usize("+"), None);
    assert_eq!(parse_usize("-1"), None);
    assert_eq!(parse_usize("1a"), None);
    assert_eq!(parse_usize(" 1"), None);
    assert_eq!(parse_usize(&usize::MAX.to_string()), Some(usize::MAX));
    assert_eq!(parse_usize("99999999999999999999999"), None);
}

#[test]
fn byte_search_and_equality() {
    assert!(find_bytes(b"hello world", b"o w"));
    assert!(find_bytes(b"abc", b""));
    assert!(!find_bytes(b"abc", b"abcd"));
    assert!(!find_bytes(b"abc", b"cb"));
    assert!(str_eq("héllo", "héllo"));
    assert!(!str_eq("héllo", "hello"));
}

#[test]
fn filter_new_errors() {
    match FilterTransform::new("x", "between", "1") {
        Err(TransformError::InvalidParam(m)) => assert_eq!(m, "unknown op: between"),
        _ => panic!("expected an invalid parameter"),
    }
    match FilterTransform::from_params(&params(&[("op", "eq"), ("value", "1")])) {
        Err(TransformError::MissingParam(p)) => assert_eq!(p, "field"),
        _ => panic!("expected a missing field"),
    }
    match FilterTransform::from_params(&params(&[("field", "x"), ("value", "1")])) {
        Err(TransformError::MissingParam(p)) => assert_eq!(p, "op"),
        _ => panic!("expected a missing op"),
    }
    match FilterTransform::from_params(&params(&[("field", "x"), ("op", "eq")])) {
        Err(TransformError::MissingParam(p)) => assert_eq!(p, "value"),
        _ => panic!("expected a missing value"),
    }
    let f = FilterTransform::from_params(&params(&[("field", "x"), ("op", "ne"), ("value", "1")]));
    assert!(f.is_ok());
    let _ = FilterOp::Eq;
}

#[test]
fn filter_orderings() {
    let make = || {
        vec![
            meta_tile(b"a", "k", "apple"),
            meta_tile(b"b", "k", "banana"),
            meta_tile(b"c", "k", "cherry"),
            tile(b"d", 0),
        ]
    };
    let gt = FilterTransform::new("k", "gt", "banana").unwrap();
    assert_eq!(payloads(&gt.transform(make()).unwrap()), vec![b"c".to_vec()]);
    let lt = FilterTransform::new("k", "lt", "banana").unwrap();
    assert_eq!(payloads(&lt.transform(make()).unwrap()), vec![b"a".to_vec()]);
    let ne = FilterTransform::new("k", "ne", "banana").unwrap();
    assert_eq!(payloads(&ne.transform(make()).unwrap()), vec![b"a".to_vec(), b"c".to_vec()]);
    let contains = FilterTransform::new("k", "contains", "an").unwrap();
    assert_eq!(payloads(&contains.transform(make()).unwrap()), vec![b"b".to_vec()]);
    assert_eq!(gt.name(), "filter");
}

#[test]
fn sort_descending_stable_and_missing() {
    let tiles = vec![
        meta_tile(b"1", "k", "b"),
        meta_tile(b"2", "k", "a"),
        tile(b"3", 0),
        meta_tile(b"4", "k", "b"),
        meta_tile(b"5", "k", "ab"),
    ];
    let desc = SortTransform::new("k", true);
    let out = desc.transform(tiles).unwrap();
    assert_eq!(
        payloads(&out),
        vec![b"1".to_vec(), b"4".to_vec(), b"5".to_vec(), b"2".to_vec(), b"3".to_vec()]
    );
    let asc = SortTransform::from_params(&params(&[("field", "k")])).unwrap();
    let out = asc.transform(out).unwrap();
    assert_eq!(
        payloads(&out),
        vec![b"3".to_vec(), b"2".to_vec(), b"5".to_vec(), b"1".to_vec(), b"4".to_vec()]
    );
    let by_order = SortTransform::from_params(&params(&[("field", "k"), ("order", "desc")]));
    assert_eq!(by_order.unwrap().name(), "sort");
    match SortTransform::from_params(&params(&[("order", "asc")])) {
        Err(TransformError::MissingParam(p)) => assert_eq!(p, "field"),
        _ => panic!("expected a missing field"),
    }
}

#[test]
fn map_operations() {
    assert_eq!(map_op("lowercase", b"HeLLo 1!"), b"hello 1!");
    assert_eq!(map_op("uppercase", b"mIxed-9"), b"MIXED-9");
    assert_eq!(map_op("trim", b" \t hi there \n"), b"hi there");
    assert_eq!(map_op("trim", b"\xffab "), "\u{FFFD}ab".as_bytes());
    assert_eq!(map_op("trim", "\u{3000}x\u{a0}".as_bytes()), b"x");
    assert_eq!(map_op("reverse", b""), b"");
    assert_eq!(map_op("base64_encode", b"hello world"), b"aGVsbG8gd29ybGQ=");
    assert_eq!(map_op("base64_decode", b"aGVsbG8gd29ybGQ="), b"hello world");
    assert_eq!(map_op("base64_decode", b"!!!!"), b"");
    match MapTransform::from_params(&params(&[("op", "rot13")])) {
        Err(TransformError::InvalidParam(m)) => assert_eq!(m, "unknown map op: rot13"),
        _ => panic!("expected an invalid op"),
    }
    match MapTransform::from_params(&params(&[])) {
        Err(TransformError::MissingParam(p)) => assert_eq!(p, "op"),
        _ => panic!("expected a missing op"),
    }
    let _ = MapOp::Trim;
}

#[test]
fn map_keeps_tile_fields() {
    let t = meta_tile(b"abc", "k", "v");
    let id = t.id;
    let m = MapTransform::from_params(&params(&[("op", "reverse")])).unwrap();
    let out = m.transform(vec![t]).unwrap();
    assert_eq!(out[0].id, id);
    assert_eq!(out[0].kind, "test");
    assert_eq!(out[0].meta.get("k").map(|s| s.as_str()), Some("v"));
    assert_eq!(out[0].payload, b"cba");
}

#[test]
fn base64_values() {
    assert_eq!(base64_encode(b""), "");
    assert_eq!(base64_encode(b"f"), "Zg==");
    assert_eq!(base64_encode(b"fo"), "Zm8=");
    assert_eq!(base64_encode(b"foo"), "Zm9v");
    assert_eq!(base64_encode(b"foob"), "Zm9vYg==");
    assert_eq!(base64_encode(&[0xfb, 0xff]), "+/8=");
    assert_eq!(base64_encode_bytes(b"foobar"), b"Zm9vYmFy");
    assert_eq!(base64_decode_bytes(b"Zm9v\r\nYmFy"), Some(b"foobar".to_vec()));
    assert_eq!(base64_decode_bytes(b"Zm9vYg"), Some(b"foob".to_vec()));
    assert_eq!(base64_decode_bytes(b"Zm9vY"), Some(b"foo".to_vec()));
    assert_eq!(base64_decode_bytes(b"Z!"), None);
    assert_eq!(base64_decode_bytes(b""), Some(vec![]));
    let all: Vec<u8> = (0..=255).collect();
    assert_eq!(base64_decode_bytes(&base64_encode_bytes(&all)), Some(all));
}

#[test]
fn chunk_contents_and_params() {
    let tiles: Vec<TileData> = (0..5).map(|i| tile(&[i], i as u64)).collect();
    let out = ChunkTransform::new(2).transform(tiles).unwrap();
    assert_eq!(payloads(&out), vec![vec![0, 1], vec![2, 3], vec![4]]);
    assert_eq!(out[2].index, 2);
    assert_eq!(out[0].kind, "chunk");
    let zero = ChunkTransform::new(0).transform(vec![tile(b"a", 0), tile(b"b", 1)]).unwrap();
    assert_eq!(zero.len(), 2);
    assert!(ChunkTransform::new(3).transform(vec![]).unwrap().is_empty());
    assert!(ChunkTransform::from_params(&params(&[("size", "2")])).is_ok());
    match ChunkTransform::from_params(&params(&[("size", "two")])) {
        Err(TransformError::InvalidParam(m)) => assert_eq!(m, "size must be a positive integer"),
        _ => panic!("expected an invalid size"),
    }
    match ChunkTransform::from_params(&params(&[])) {
        Err(TransformError::MissingParam(p)) => assert_eq!(p, "size"),
        _ => panic!("expected a missing size"),
    }
}

#[test]
fn flatten_without_separator() {
    let f = FlattenTransform::from_params(&params(&[])).unwrap();
    let out = f.transform(vec![tile(b"ab", 3), tile(b"cd", 4)]).unwrap();
    assert_eq!(out[0].payload, b"abcd");
    assert_eq!(out[0].kind, "flattened");
    assert_eq!(out[0].index, 0);
    let g = FlattenTransform::from_params(&params(&[("separator", "--")])).unwrap();
    assert_eq!(g.transform(vec![tile(b"x", 0)]).unwrap()[0].payload, b"x");
    assert_eq!(g.name(), "flatten");
}

#[test]
fn head_tail_sample_edges() {
    let ten = || (0..10).map(|i| tile(&[i], i as u64)).collect::<Vec<_>>();
    assert_eq!(HeadTransform::new(20).transform(ten()).unwrap().len(), 10);
    assert_eq!(HeadTransform::new(0).transform(ten()).unwrap().len(), 0);
    let t = TailTransform::new(20).transform(ten()).unwrap();
    assert_eq!(t.len(), 10);
    assert_eq!(t[0].index, 0);
    let s = SampleTransform::new(0).transform(ten()).unwrap();
    assert_eq!(s.len(), 10);
    let s4 = SampleTransform::new(4).transform(ten()).unwrap();
    assert_eq!(s4.iter().map(|t| t.index).collect::<Vec<_>>(), vec![0, 4, 8]);
    let h = HeadTransform::from_params(&params(&[("count", "+2")])).unwrap();
    assert_eq!(h.transform(ten()).unwrap().len(), 2);
    match TailTransform::from_params(&params(&[("count", "-2")])) {
        Err(TransformError::InvalidParam(m)) => assert_eq!(m, "count must be a positive integer"),
        _ => panic!("expected an invalid count"),
    }
    match SampleTransform::from_params(&params(&[])) {
        Err(TransformError::MissingParam(p)) => assert_eq!(p, "rate"),
        _ => panic!("expected a missing rate"),
    }
    assert!(SampleTransform::from_params(&params(&[("rate", "3")])).is_ok());
    assert!(TailTransform::from_params(&params(&[("count", "3")])).is_ok());
}

#[test]
fn dedup_keeps_first_of_each_payload() {
    let out = DeduplicateTransform
        .transform(vec![tile(b"a", 0), tile(b"a", 1), tile(b"", 2), tile(b"", 3)])
        .unwrap();
    assert_eq!(out.iter().map(|t| t.index).collect::<Vec<_>>(), vec![0, 2]);
    assert_eq!(DeduplicateTransform.name(), "deduplicate");
}

#[test]
fn pipeline_reports_failing_stage() {
    let pipe = PipelineTransform::new(vec![Box::new(HeadTransform::new(1)), Box::new(Failing)]);
    match pipe.transform(vec![tile(b"a", 0)]) {
        Err(TransformError::Pipeline { stage, message }) => {
            assert_eq!(stage, 1);
            assert_eq!(message, "invalid parameter value: boom");
        },
        _ => panic!("expected a pipeline error"),
    }
    let empty = PipelineTransform::new(vec![]);
    assert_eq!(empty.transform(vec![tile(b"q", 5)]).unwrap()[0].index, 5);
    assert_eq!(empty.name(), "pipeline");
}

#[test]
fn chain_passes_errors_and_names_stages() {
    let chain = TransformChain::new(vec![Box::new(HeadTransform::new(2)), Box::new(Failing)]);
    match chain.execute(vec![tile(b"a", 0)]) {
        Err(TransformError::InvalidParam(m)) => assert_eq!(m, "boom"),
        _ => panic!("expected the stage's own error"),
    }
    let chain = TransformChain::new(vec![
        Box::new(HeadTransform::new(2)),
        Box::new(FlattenTransform::new(b"")),
    ]);
    let (out, stages) = chain.execute((0..4).map(|i| tile(&[i], i as u64)).collect()).unwrap();
    assert_eq!(out[0].payload, vec![0, 1]);
    assert_eq!(stages[0].name, "head");
    assert_eq!((stages[0].input_count, stages[0].output_count), (4, 2));
    assert_eq!(stages[1].name, "flatten");
    assert_eq!((stages[1].input_count, stages[1].output_count), (2, 1));
}

#[test]
fn reverse_twice_and_case_twice() {
    let once = map_op("reverse", b"abc\x00\xff");
    assert_eq!(map_op("reverse", &once), b"abc\x00\xff");
    let up = map_op("uppercase", b"aBc\xe9");
    assert_eq!(up, b"ABC\xe9");
    assert_eq!(map_op("uppercase", &up), up);
    let low = map_op("lowercase", b"AbC");
    assert_eq!(map_op("lowercase", &low), low);
}

#[test]
fn trim_text_cases() {
    assert_eq!(trim_text("  a b\t\n"), "a b");
    assert_eq!(trim_text("\u{2003}\u{85}x\u{3000}"), "x");
    assert_eq!(trim_text(" \t "), "");
    assert_eq!(trim_text("é"), "é");
    assert_eq!(trim_text_bytes(" ü "), "ü".as_bytes());
    assert!(is_whitespace_char('\u{a0}'));
    assert!(!is_whitespace_char('\u{200b}'));
}

#[test]
fn apply_directly() {
    let rev = MapTransform::from_params(&params(&[("op", "reverse")])).unwrap();
    assert_eq!(rev.apply(b"abc"), b"cba");
    assert_eq!(rev.apply(&rev.apply(b"xyz")), b"xyz");
    let dec = MapTransform::from_params(&params(&[("op", "base64_decode")])).unwrap();
    assert_eq!(dec.apply(b"QUJDR"), b"ABC");
    assert_eq!(dec.apply(b"QU=\nJD"), b"ABC");
    assert_eq!(dec.apply(b"!!!!"), b"");
}
