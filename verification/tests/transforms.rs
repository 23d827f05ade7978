use forge_transform::{
    ChunkTransform, DeduplicateTransform, FilterTransform, FlattenTransform, HeadTransform,
    MapTransform, PipelineTransform, SampleTransform, SortTransform, StringMap, TailTransform,
    TileData, TileTransform, TransformChain,
};

fn tile(payload: &[u8], index: u64) -> TileData {
    TileData::new("test", payload.to_vec(), index)
}

fn tile_with_meta(payload: &[u8], index: u64, key: &str, val: &str) -> TileData {
    tile(payload, index).with_meta(key, val)
}

#[test]
fn filter_eq() {
    let tiles = vec![
        tile_with_meta(b"a", 0, "x", "1"),
        tile_with_meta(b"b", 1, "x", "2"),
        tile_with_meta(b"c", 2, "x", "1"),
    ];
    let t = FilterTransform::new("x", "eq", "1").unwrap();
    let out = t.transform(tiles).unwrap();
    assert_eq!(out.len(), 2);
}

#[test]
fn filter_contains() {
    let tiles = vec![
        tile_with_meta(b"a", 0, "name", "hello world"),
        tile_with_meta(b"b", 1, "name", "goodbye"),
    ];
    let t = FilterTransform::new("name", "contains", "hello").unwrap();
    let out = t.transform(tiles).unwrap();
    assert_eq!(out.len(), 1);
    assert_eq!(out[0].payload, b"a");
}

#[test]
fn sort_ascending() {
    let tiles = vec![
        tile_with_meta(b"c", 0, "k", "3"),
        tile_with_meta(b"a", 1, "k", "1"),
        tile_with_meta(b"b", 2, "k", "2"),
    ];
    let t = SortTransform::new("k", false);
    let out = t.transform(tiles).unwrap();
    assert_eq!(out[0].payload, b"a");
    assert_eq!(out[2].payload, b"c");
}

#[test]
fn map_uppercase() {
    let tiles = vec![tile(b"hello", 0)];
    let mut params = StringMap::new();
    params.insert("op".into(), "uppercase".into());
    let t = MapTransform::from_params(&params).unwrap();
    let out = t.transform(tiles).unwrap();
    assert_eq!(out[0].payload, b"HELLO");
}

#[test]
fn map_reverse() {
    let tiles = vec![tile(b"abcd", 0)];
    let mut params = StringMap::new();
    params.insert("op".into(), "reverse".into());
    let t = MapTransform::from_params(&params).unwrap();
    let out = t.transform(tiles).unwrap();
    assert_eq!(out[0].payload, b"dcba");
}

#[test]
fn chunk_basic() {
    let tiles: Vec<TileData> = (0..5).map(|i| tile(&[i], i as u64)).collect();
    let t = ChunkTransform::new(2);
    let out = t.transform(tiles).unwrap();
    assert_eq!(out.len(), 3); // [0,1] [2,3] [4]
}

#[test]
fn flatten_with_separator() {
    let tiles = vec![tile(b"a", 0), tile(b"b", 1), tile(b"c", 2)];
    let t = FlattenTransform::new(b",");
    let out = t.transform(tiles).unwrap();
    assert_eq!(out.len(), 1);
    assert_eq!(out[0].payload, b"a,b,c");
}

#[test]
fn dedup() {
    let tiles = vec![tile(b"a", 0), tile(b"b", 1), tile(b"a", 2)];
    let out = DeduplicateTransform.transform(tiles).unwrap();
    assert_eq!(out.len(), 2);
}

#[test]
fn head() {
    let tiles: Vec<TileData> = (0..10).map(|i| tile(&[i], i as u64)).collect();
    let t = HeadTransform::new(3);
    let out = t.transform(tiles).unwrap();
    assert_eq!(out.len(), 3);
    assert_eq!(out[0].index, 0);
}

#[test]
fn tail() {
    let tiles: Vec<TileData> = (0..10).map(|i| tile(&[i], i as u64)).collect();
    let t = TailTransform::new(3);
    let out = t.transform(tiles).unwrap();
    assert_eq!(out.len(), 3);
    assert_eq!(out[2].index, 9);
}

#[test]
fn sample_every_3rd() {
    let tiles: Vec<TileData> = (0..9).map(|i| tile(&[i], i as u64)).collect();
    let t = SampleTransform::new(3);
    let out = t.transform(tiles).unwrap();
    assert_eq!(out.len(), 3);
    assert_eq!(out[0].payload, vec![0u8]);
    assert_eq!(out[1].payload, vec![3u8]);
}

#[test]
fn pipeline_filter_then_sort() {
    let tiles = vec![
        tile_with_meta(b"c", 0, "x", "1"),
        tile_with_meta(b"a", 1, "x", "2"),
        tile_with_meta(b"b", 2, "x", "1"),
    ];
    let pipe = PipelineTransform::new(vec![
        Box::new(FilterTransform::new("x", "eq", "1").unwrap()),
        Box::new(SortTransform::new("x", false)), // sort by x asc (both "1" so stable)
    ]);
    let out = pipe.transform(tiles).unwrap();
    assert_eq!(out.len(), 2);
}

#[test]
fn chain_tracks_cr() {
    let tiles: Vec<TileData> = (0..10).map(|i| tile(&[i], i as u64)).collect();
    let chain = TransformChain::new(vec![
        Box::new(HeadTransform::new(5)),
        Box::new(SampleTransform::new(2)),
    ]);
    let (out, stages) = chain.execute(tiles).unwrap();
    assert_eq!(out.len(), 3); // 5 kept, then every 2nd: indices 0,2,4
    let cr0 = stages[0].output_count as f64 / stages[0].input_count as f64;
    let cr1 = stages[1].output_count as f64 / stages[1].input_count as f64;
    assert_eq!(cr0, 0.5);
    assert_eq!(cr1, 0.6); // 3/5
}

#[test]
fn filter_empty() {
    let t = FilterTransform::new("x", "eq", "1").unwrap();
    let out = t.transform(vec![]).unwrap();
    assert!(out.is_empty());
}

#[test]
fn single_tile_pipeline() {
    let tiles = vec![tile(b"hello", 0)];
    let pipe = PipelineTransform::new(vec![Box::new(
        MapTransform::from_params(&{
            let mut p = StringMap::new();
            p.insert("op".into(), "uppercase".into());
            p
        })
        .unwrap(),
    )]);
    let out = pipe.transform(tiles).unwrap();
    assert_eq!(out[0].payload, b"HELLO");
}

#[test]
fn large_batch() {
    let tiles: Vec<TileData> =
        (0..1000).map(|i| tile(format!("tile{i}").as_bytes(), i as u64)).collect();
    let t = SampleTransform::new(10);
    let out = t.transform(tiles).unwrap();
    assert_eq!(out.len(), 100);
}

#[test]
fn flatten_empty() {
    let t = FlattenTransform::new(b",");
    let out = t.transform(vec![]).unwrap();
    assert!(out.is_empty());
}

#[test]
fn map_base64_roundtrip() {
    let plain = tile(b"hello world", 0);
    let enc_params = {
        let mut p = StringMap::new();
        p.insert("op".into(), "base64_encode".into());
        p
    };
    let enc = MapTransform::from_params(&enc_params).unwrap();
    let encoded = enc.transform(vec![plain.clone()]).unwrap();
    let dec_params = {
        let mut p = StringMap::new();
        p.insert("op".into(), "base64_decode".into());
        p
    };
    let dec = MapTransform::from_params(&dec_params).unwrap();
    let decoded = dec.transform(encoded).unwrap();
    assert_eq!(decoded[0].payload, b"hello world");
}

#[test]
fn dedup_preserves_order() {
    let tiles = vec![tile(b"x", 0), tile(b"y", 1), tile(b"x", 2), tile(b"z", 3), tile(b"y", 4)];
    let out = DeduplicateTransform.transform(tiles).unwrap();
    assert_eq!(out.len(), 3);
    assert_eq!(out[0].payload, b"x");
    assert_eq!(out[1].payload, b"y");
    assert_eq!(out[2].payload, b"z");
}
