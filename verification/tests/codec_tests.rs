use esp32::codec::{compile, compile_symbol_json, CompileError, SymbolEntry};
use esp32::symbols::load_table;

fn glyph(seed: u8) -> [u8; 8] {
    let mut g = [0u8; 8];
    let mut i = 0;
    while i < 8 {
        g[i] = seed.wrapping_add(i as u8) & 0x1f;
        i += 1;
    }
    g
}

fn entry(token: &str, seed: u8) -> SymbolEntry {
    SymbolEntry { token: token.as_bytes().to_vec(), glyph: glyph(seed) }
}

#[test]
fn round_trip_single_token() {
    let entries = vec![entry("heart", 3)];
    let blob = compile(&entries).unwrap();
    let table = load_table(&blob).expect("blob must load");
    assert_eq!(table.get("heart"), Some(&glyph(3)));
    assert_eq!(table.get("nope"), None);
}

#[test]
fn round_trip_many_tokens() {
    let names = ["heart", "cdot", "sdot", "circle", "arrowright", "x", ""];
    let mut entries = Vec::new();
    for (i, name) in names.iter().enumerate() {
        entries.push(entry(name, i as u8));
    }
    let blob = compile(&entries).unwrap();
    let table = load_table(&blob).expect("blob must load");
    for (i, name) in names.iter().enumerate() {
        assert_eq!(table.get(name), Some(&glyph(i as u8)), "token {name}");
    }
    assert_eq!(table.get("absent"), None);
}

#[test]
fn round_trip_full_capacity() {
    let mut entries = Vec::new();
    for i in 0..128u32 {
        entries.push(entry(&format!("tok{i}"), (i % 200) as u8));
    }
    let blob = compile(&entries).unwrap();
    let table = load_table(&blob).expect("blob must load");
    assert_eq!(table.get("tok0"), Some(&glyph(0)));
    assert_eq!(table.get("tok127"), Some(&glyph(127)));
    assert_eq!(table.get("tok128"), None);
}

#[test]
fn empty_table_round_trip() {
    let blob = compile(&Vec::new()).unwrap();
    assert_eq!(blob, vec![0u8]);
    let table = load_table(&blob).expect("empty blob must load");
    assert_eq!(table.get(""), None);
    assert_eq!(table.get("heart"), None);
}

#[test]
fn compile_rejects_too_many_entries() {
    let mut entries = Vec::new();
    for i in 0..129u32 {
        entries.push(entry(&format!("tok{i}"), 1));
    }
    assert_eq!(compile(&entries), Err(CompileError::TooManyEntries));
}

#[test]
fn compile_rejects_long_token() {
    let long = "x".repeat(256);
    let entries = vec![entry(&long, 1)];
    assert_eq!(compile(&entries), Err(CompileError::TokenTooLong));
}

#[test]
fn compile_accepts_token_of_255_bytes() {
    let long = "y".repeat(255);
    let entries = vec![entry(&long, 9)];
    let blob = compile(&entries).unwrap();
    let table = load_table(&blob).expect("blob must load");
    assert_eq!(table.get(long.as_str()), Some(&glyph(9)));
}

#[test]
fn compile_rejects_duplicate_token() {
    let entries = vec![entry("heart", 1), entry("cdot", 2), entry("heart", 3)];
    assert_eq!(compile(&entries), Err(CompileError::DuplicateToken));
}

#[test]
fn load_rejects_malformed_blobs() {
    assert!(load_table(&[]).is_none());
    // count says one entry, nothing follows
    assert!(load_table(&[1]).is_none());
    // entry truncated inside the glyph rows
    assert!(load_table(&[1, 1, b'a', 1, 2, 3]).is_none());
    // trailing garbage after the last entry
    let blob = compile(&vec![entry("a", 1)]).unwrap();
    let mut longer = blob.clone();
    longer.push(0);
    assert!(load_table(&longer).is_none());
    // count byte beyond the capacity
    assert!(load_table(&[129]).is_none());
}

#[test]
fn json_compile_then_load() {
    let text = "{\"heart\": [1,2,3,4,5,6,7,8], \"cdot\": [8,7,6,5,4,3,2,1]}";
    let blob = compile_symbol_json(text).expect("well-formed symbol file");
    let table = load_table(&blob).expect("blob must load");
    assert_eq!(table.get("heart"), Some(&[1, 2, 3, 4, 5, 6, 7, 8]));
    assert_eq!(table.get("cdot"), Some(&[8, 7, 6, 5, 4, 3, 2, 1]));
    assert_eq!(table.get("sdot"), None);
}

#[test]
fn json_rejects_wrong_shapes() {
    // not json at all
    assert!(compile_symbol_json("not json").is_none());
    // glyph with seven rows
    assert!(compile_symbol_json("{\"a\": [1,2,3,4,5,6,7]}").is_none());
    // glyph with nine rows
    assert!(compile_symbol_json("{\"a\": [1,2,3,4,5,6,7,8,9]}").is_none());
    // row out of byte range
    assert!(compile_symbol_json("{\"a\": [256,2,3,4,5,6,7,8]}").is_none());
    // not an object
    assert!(compile_symbol_json("[1,2,3]").is_none());
}

#[test]
fn json_empty_object_loads_empty_table() {
    let blob = compile_symbol_json("{}").expect("empty object is a valid symbol file");
    let table = load_table(&blob).expect("blob must load");
    assert_eq!(table.get("anything"), None);
}
