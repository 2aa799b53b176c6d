use borg_extract::cursor::cursor_has_data;
use borg_extract::envelope::EnvelopeError;
use borg_extract::extract::fetch;
use borg_extract::extract::manifest_blob;
use borg_extract::extract::manifest_id;
use borg_extract::extract::output_file;
use borg_extract::extract::output_name;
use borg_extract::extract::ExtractError;
use borg_extract::extract::Extraction;
use borg_extract::extract::OutputFile;
use borg_extract::extract::Request;
use borg_extract::msgpack::PythonValue;
use borg_extract::records::Archive;
use borg_extract::records::Chunk;
use borg_extract::records::ItemMetadata;
use borg_extract::records::Manifest;
use borg_extract::records::ManifestArchive;
use borg_extract::records::Tam;
use borg_extract::store::ObjectStore;
use std::collections::HashMap;
use std::io::Cursor;

fn plain(payload: &[u8]) -> Vec<u8> {
    let mut blob = vec![0x02, 0x00, 0x00];
    blob.extend_from_slice(payload);
    blob
}

fn compressed(payload: &[u8]) -> Vec<u8> {
    let mut blob = vec![0x02, 0x01, 0x00];
    blob.extend_from_slice(&lz4::block::compress(payload, None, false).unwrap());
    blob
}

fn manifest(archives: &[(&str, [u8; 32])]) -> Manifest {
    Manifest {
        version: 1,
        timestamp: String::from("2024-01-01T00:00:00"),
        item_keys: Vec::new(),
        config: Vec::new(),
        archives: archives
            .iter()
            .map(|(name, id)| {
                (String::from(*name), ManifestArchive { id: *id, time: String::new() })
            })
            .collect(),
        tam: Tam { tipe: String::from("HKDF_HMAC_SHA512"), data: Vec::new() },
    }
}

fn archive(items: &[[u8; 32]]) -> Archive {
    Archive {
        version: 1,
        name: String::from("snapshot"),
        items: items.to_vec(),
        cmdline: Vec::new(),
        hostname: String::new(),
        username: String::new(),
        time: String::new(),
        time_end: String::new(),
        comment: String::new(),
    }
}

fn item(path: &[u8], chunks: &[[u8; 32]]) -> ItemMetadata {
    ItemMetadata {
        path: path.to_vec(),
        chunks: chunks
            .iter()
            .map(|id| Chunk { id: *id, size: PythonValue::U32(0), checksum: PythonValue::U32(0) })
            .collect(),
    }
}

fn msgpack_item(path: &str) -> Vec<u8> {
    // A map of one pair, "path" to the path, both as short strings.
    let mut bytes = vec![0x81, 0xa4];
    bytes.extend_from_slice(b"path");
    bytes.push(0xa0 | path.len() as u8);
    bytes.extend_from_slice(path.as_bytes());
    bytes
}

#[test]
fn manifest_id_is_all_zero() {
    assert_eq!(manifest_id(), [0u8; 32]);
}

#[test]
fn missing_manifest_is_fatal() {
    let mut store = ObjectStore::new();
    assert_eq!(manifest_blob(&store), Err(ExtractError::ManifestMissing));
    store.insert([1; 32], plain(b"x"));
    assert_eq!(manifest_blob(&store), Err(ExtractError::ManifestMissing));
}

#[test]
fn manifest_is_unwrapped() {
    let mut store = ObjectStore::new();
    store.insert([0; 32], plain(b"manifest bytes"));
    assert_eq!(manifest_blob(&store), Ok(b"manifest bytes".to_vec()));
}

#[test]
fn manifest_with_bad_envelope_is_fatal() {
    let mut store = ObjectStore::new();
    store.insert([0; 32], vec![0x03, 0x00, 0x00, 1]);
    assert_eq!(
        manifest_blob(&store),
        Err(ExtractError::Envelope(EnvelopeError::UnsupportedEncryption))
    );
}

#[test]
fn fetch_tells_absent_from_broken() {
    let mut store = ObjectStore::new();
    store.insert([1; 32], plain(b"one"));
    store.insert([2; 32], vec![0x02]);
    store.insert([3; 32], compressed(b"three three three"));
    assert_eq!(fetch(&store, &[1; 32]), Ok(Some(b"one".to_vec())));
    assert_eq!(
        fetch(&store, &[2; 32]),
        Err(ExtractError::Envelope(EnvelopeError::Truncated))
    );
    assert_eq!(fetch(&store, &[3; 32]), Ok(Some(b"three three three".to_vec())));
    assert_eq!(fetch(&store, &[4; 32]), Ok(None));
}

#[test]
fn output_name_replaces_slashes() {
    assert_eq!(output_name(b"original/file.txt"), b"original__file.txt".to_vec());
    assert_eq!(
        output_name(b"example/original/file.txt"),
        b"example__original__file.txt".to_vec()
    );
    assert_eq!(output_name(b"/a//b/"), b"__a____b__".to_vec());
    assert_eq!(output_name(b"plain"), b"plain".to_vec());
    assert_eq!(output_name(b""), Vec::new());
    assert_eq!(output_name(b"a_b"), b"a_b".to_vec());
}

#[test]
fn output_name_keeps_bytes_that_are_no_text() {
    assert_eq!(output_name(&[0xff, 0x2f, 0xfe]), vec![0xff, 0x5f, 0x5f, 0xfe]);
}

#[test]
fn output_name_agrees_with_replace() {
    for path in ["a/b/c", "../../etc/passwd", "/", "x", "dir/", "déjà/vu"] {
        assert_eq!(
            output_name(path.as_bytes()),
            path.replace("/", "__").into_bytes(),
            "{}",
            path
        );
    }
}

#[test]
fn file_is_the_chunks_in_order() {
    let mut store = ObjectStore::new();
    store.insert([1; 32], plain(b"hello "));
    store.insert([2; 32], compressed(b"from "));
    store.insert([3; 32], plain(b"file.txt"));
    let file = output_file(&store, &item(b"original/file.txt", &[[1; 32], [2; 32], [3; 32]]));
    assert_eq!(
        file,
        Ok(OutputFile {
            name: b"original__file.txt".to_vec(),
            data: b"hello from file.txt".to_vec(),
        })
    );
    let file = output_file(&store, &item(b"f", &[[3; 32], [1; 32], [3; 32]]));
    assert_eq!(file.unwrap().data, b"file.txthello file.txt".to_vec());
}

#[test]
fn item_without_chunks_is_an_empty_file() {
    let store = ObjectStore::new();
    assert_eq!(
        output_file(&store, &item(b"some/dir", &[])),
        Ok(OutputFile { name: b"some__dir".to_vec(), data: Vec::new() })
    );
}

#[test]
fn missing_chunk_is_fatal() {
    let mut store = ObjectStore::new();
    store.insert([1; 32], plain(b"a"));
    assert_eq!(
        output_file(&store, &item(b"f", &[[1; 32], [9; 32]])),
        Err(ExtractError::ChunkMissing)
    );
}

#[test]
fn first_failing_chunk_decides() {
    let mut store = ObjectStore::new();
    store.insert([1; 32], vec![0x02, 0x07, 0x00]);
    assert_eq!(
        output_file(&store, &item(b"f", &[[9; 32], [1; 32]])),
        Err(ExtractError::ChunkMissing)
    );
    assert_eq!(
        output_file(&store, &item(b"f", &[[1; 32], [9; 32]])),
        Err(ExtractError::Envelope(EnvelopeError::UnsupportedCompression))
    );
}

#[test]
fn manifest_without_archives_finishes_at_once() {
    let mut store = ObjectStore::new();
    store.insert([0; 32], plain(b"manifest"));
    let mut walk = Extraction::new(&manifest(&[]));
    assert_eq!(walk.advance(&store), Ok(Request::Finished));
    assert_eq!(walk.advance(&store), Ok(Request::Finished));
}

#[test]
fn walk_visits_archives_and_items_in_order() {
    let mut store = ObjectStore::new();
    store.insert([10; 32], plain(b"archive a"));
    store.insert([11; 32], plain(b"archive b"));
    store.insert([20; 32], plain(b"items 1"));
    store.insert([21; 32], plain(b"items 2"));
    store.insert([22; 32], plain(b"items 3"));
    let mut walk = Extraction::new(&manifest(&[("a", [10; 32]), ("b", [11; 32])]));
    assert_eq!(walk.advance(&store), Ok(Request::DecodeArchive(b"archive a".to_vec())));
    walk.enter(&archive(&[[20; 32], [21; 32]]));
    assert_eq!(walk.advance(&store), Ok(Request::DecodeItems(b"items 1".to_vec())));
    assert_eq!(walk.advance(&store), Ok(Request::DecodeItems(b"items 2".to_vec())));
    assert_eq!(walk.advance(&store), Ok(Request::DecodeArchive(b"archive b".to_vec())));
    walk.enter(&archive(&[[22; 32]]));
    assert_eq!(walk.advance(&store), Ok(Request::DecodeItems(b"items 3".to_vec())));
    assert_eq!(walk.advance(&store), Ok(Request::Finished));
}

#[test]
fn walk_skips_what_the_store_does_not_hold() {
    let mut store = ObjectStore::new();
    store.insert([11; 32], plain(b"archive b"));
    store.insert([21; 32], plain(b"items 2"));
    let mut walk = Extraction::new(&manifest(&[
        ("gone", [10; 32]),
        ("b", [11; 32]),
        ("also gone", [12; 32]),
    ]));
    assert_eq!(walk.advance(&store), Ok(Request::DecodeArchive(b"archive b".to_vec())));
    walk.enter(&archive(&[[20; 32], [21; 32], [22; 32]]));
    assert_eq!(walk.advance(&store), Ok(Request::DecodeItems(b"items 2".to_vec())));
    assert_eq!(walk.advance(&store), Ok(Request::Finished));
}

#[test]
fn walk_stops_at_a_blob_that_does_not_unwrap() {
    let mut store = ObjectStore::new();
    store.insert([10; 32], vec![0x09, 0x00, 0x00]);
    store.insert([11; 32], plain(b"archive b"));
    let mut walk = Extraction::new(&manifest(&[("a", [10; 32]), ("b", [11; 32])]));
    assert_eq!(
        walk.advance(&store),
        Err(ExtractError::Envelope(EnvelopeError::UnsupportedEncryption))
    );
    assert_eq!(walk.advance(&store), Ok(Request::DecodeArchive(b"archive b".to_vec())));
}

#[test]
fn two_item_records_in_one_blob() {
    let mut payload = msgpack_item("dir/one");
    payload.extend_from_slice(&msgpack_item("two"));
    let mut store = ObjectStore::new();
    store.insert([10; 32], plain(b"archive"));
    store.insert([20; 32], plain(&payload));
    let mut walk = Extraction::new(&manifest(&[("a", [10; 32])]));
    assert_eq!(walk.advance(&store), Ok(Request::DecodeArchive(b"archive".to_vec())));
    walk.enter(&archive(&[[20; 32]]));
    let blob = match walk.advance(&store) {
        Ok(Request::DecodeItems(blob)) => blob,
        other => panic!("expected item records, got {:?}", other),
    };
    let mut cursor = Cursor::new(blob);
    let mut written = Vec::new();
    while cursor_has_data(&cursor) {
        let record: HashMap<String, String> = rmp_serde::from_read(&mut cursor).unwrap();
        let decoded = item(record["path"].as_bytes(), &[]);
        written.push(output_file(&store, &decoded).unwrap());
    }
    assert_eq!(
        written,
        vec![
            OutputFile { name: b"dir__one".to_vec(), data: Vec::new() },
            OutputFile { name: b"two".to_vec(), data: Vec::new() },
        ]
    );
    assert_eq!(walk.advance(&store), Ok(Request::Finished));
}

#[test]
fn small_file_round_trip_from_segment_bytes() {
    const CONTENTS: &[u8] = b"hello from file.txt";
    let mut segment = b"BORG_SEG".to_vec();
    let mut put = |key: [u8; 32], blob: Vec<u8>| {
        segment.extend_from_slice(&[0, 0, 0, 0]);
        segment.extend_from_slice(&(41 + blob.len() as u32).to_le_bytes());
        segment.push(0);
        segment.extend_from_slice(&key);
        segment.extend_from_slice(&blob);
    };
    put([0; 32], plain(b"manifest"));
    put([1; 32], plain(b"archive"));
    put([2; 32], plain(&msgpack_item("example/original/file.txt")));
    put([3; 32], compressed(CONTENTS));
    segment.extend_from_slice(&[0, 0, 0, 0, 9, 0, 0, 0, 2]);

    let mut store = ObjectStore::new();
    assert_eq!(store.replay_segment(segment), Ok(()));
    assert_eq!(manifest_blob(&store), Ok(b"manifest".to_vec()));
    let mut walk = Extraction::new(&manifest(&[("now", [1; 32])]));
    assert_eq!(walk.advance(&store), Ok(Request::DecodeArchive(b"archive".to_vec())));
    walk.enter(&archive(&[[2; 32]]));
    let blob = match walk.advance(&store) {
        Ok(Request::DecodeItems(blob)) => blob,
        other => panic!("expected item records, got {:?}", other),
    };
    let mut cursor = Cursor::new(blob);
    assert!(cursor_has_data(&cursor));
    let record: HashMap<String, String> = rmp_serde::from_read(&mut cursor).unwrap();
    assert!(!cursor_has_data(&cursor));
    let file = output_file(&store, &item(record["path"].as_bytes(), &[[3; 32]])).unwrap();
    assert_eq!(file.name, b"example__original__file.txt".to_vec());
    assert_eq!(file.data, CONTENTS.to_vec());
    assert_eq!(walk.advance(&store), Ok(Request::Finished));
}
