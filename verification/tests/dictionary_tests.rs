//! End-to-end tests over synthetic MDX and MDD containers built in memory.

use std::io::Write;

use mdict_reader::error::MdictError;
use mdict_reader::mdd::Mdd;
use mdict_reader::mdx::Mdx;
use mdict_reader::types::Encoding;
use mdict_reader::types::EncryptType;
use mdict_reader::types::FileExt;
use mdict_reader::ripemd128::ripemd128;
use mdict_reader::utils::strip_key;

const MDX_ENTRIES: [(&str, &str); 4] = [
    ("apple", "a red fruit"),
    ("hello", "a greeting"),
    ("help", "assistance"),
    ("world", "the earth"),
];

fn utf16le_bytes(s: &str) -> Vec<u8> {
    s.encode_utf16().flat_map(|u| u.to_le_bytes()).collect()
}

fn zlib_block(payload: &[u8]) -> Vec<u8> {
    let mut enc = flate2::write::ZlibEncoder::new(Vec::new(), flate2::Compression::default());
    enc.write_all(payload).unwrap();
    let z = enc.finish().unwrap();
    let mut block = vec![2, 0, 0, 0, 0, 0, 0, 0];
    block.extend_from_slice(&z);
    block
}

fn lzo_block(payload: &[u8]) -> Vec<u8> {
    let mut lzo = minilzo_rs::LZO::init().unwrap();
    let c = lzo.compress(payload).unwrap();
    let mut block = vec![1, 0, 0, 0, 0, 0, 0, 0];
    block.extend_from_slice(&c);
    block
}

fn unknown_code_block(payload: &[u8]) -> Vec<u8> {
    let mut block = vec![9, 9, 9, 9, 0, 0, 0, 0];
    block.extend_from_slice(payload);
    block
}

fn broken_zlib_block(payload: &[u8]) -> Vec<u8> {
    let mut block = vec![2, 0, 0, 0, 0, 0, 0, 0];
    block.extend_from_slice(&vec![0xAA; payload.len().max(4)]);
    block
}

fn plain_block(payload: &[u8]) -> Vec<u8> {
    let mut block = vec![0, 0, 0, 0, 0, 0, 0, 0];
    block.extend_from_slice(&payload);
    block
}

/// Assemble a small v2.0 container.  `keys` are (key bytes with their NUL,
/// record bytes) pairs in record order; `kind` picks the NUL width and the
/// first/last size convention used when building the key-info table.
fn build_container(
    header_text: &str,
    keys: &[(&str, &[u8])],
    kind: FileExt,
    compress_blocks: fn(&[u8]) -> Vec<u8>,
    compress_key_info: bool,
) -> Vec<u8> {
    let utf16 = matches!(kind, FileExt::Mdd);
    let header_utf16 = utf16le_bytes(header_text);
    let mut data = Vec::new();
    data.extend_from_slice(&(header_utf16.len() as u32).to_be_bytes());
    data.extend_from_slice(&header_utf16);
    data.extend_from_slice(&[0, 0, 0, 0]);

    // record payload and per-entry offsets
    let mut payload: Vec<u8> = Vec::new();
    let mut offsets: Vec<u64> = Vec::new();
    for (_, rec) in keys {
        offsets.push(payload.len() as u64);
        payload.extend_from_slice(rec);
    }

    // key block
    let mut kb: Vec<u8> = Vec::new();
    for (i, (key, _)) in keys.iter().enumerate() {
        kb.extend_from_slice(&offsets[i].to_be_bytes());
        if utf16 {
            kb.extend_from_slice(&utf16le_bytes(key));
            kb.extend_from_slice(&[0, 0]);
        } else {
            kb.extend_from_slice(key.as_bytes());
            kb.push(0);
        }
    }
    let key_block = compress_blocks(&kb);

    // key-info table (single block)
    let first = keys[0].0;
    let last = keys[keys.len() - 1].0;
    let mut ki: Vec<u8> = Vec::new();
    ki.extend_from_slice(&(keys.len() as u64).to_be_bytes());
    if utf16 {
        let fu = utf16le_bytes(first);
        ki.extend_from_slice(&((fu.len() / 2) as u16).to_be_bytes());
        ki.extend_from_slice(&fu);
        ki.extend_from_slice(&[0, 0]);
        let lu = utf16le_bytes(last);
        ki.extend_from_slice(&((lu.len() / 2) as u16).to_be_bytes());
        ki.extend_from_slice(&lu);
        ki.extend_from_slice(&[0, 0]);
    } else {
        ki.extend_from_slice(&(first.len() as u16).to_be_bytes());
        ki.extend_from_slice(first.as_bytes());
        ki.push(0);
        ki.extend_from_slice(&(last.len() as u16).to_be_bytes());
        ki.extend_from_slice(last.as_bytes());
        ki.push(0);
    }
    ki.extend_from_slice(&(key_block.len() as u64).to_be_bytes());
    ki.extend_from_slice(&(kb.len() as u64).to_be_bytes());
    let ki_blob = if compress_key_info {
        zlib_block(&ki)
    } else {
        ki.clone()
    };

    // key header (v2.0: five 8-byte fields, then a checksum)
    data.extend_from_slice(&1u64.to_be_bytes());
    data.extend_from_slice(&(keys.len() as u64).to_be_bytes());
    data.extend_from_slice(&(ki.len() as u64).to_be_bytes());
    data.extend_from_slice(&(ki_blob.len() as u64).to_be_bytes());
    data.extend_from_slice(&(key_block.len() as u64).to_be_bytes());
    data.extend_from_slice(&[0, 0, 0, 0]);
    data.extend_from_slice(&ki_blob);
    data.extend_from_slice(&key_block);

    // record header, record info, record block
    let record_block = compress_blocks(&payload);
    data.extend_from_slice(&1u64.to_be_bytes());
    data.extend_from_slice(&(keys.len() as u64).to_be_bytes());
    data.extend_from_slice(&16u64.to_be_bytes());
    data.extend_from_slice(&(record_block.len() as u64).to_be_bytes());
    data.extend_from_slice(&(record_block.len() as u64).to_be_bytes());
    data.extend_from_slice(&(payload.len() as u64).to_be_bytes());
    data.extend_from_slice(&record_block);
    data
}

const MDX_HEADER: &str = "<Dictionary GeneratedByEngineVersion=\"2.0\" Encoding=\"UTF-8\" Encrypted=\"No\" StripKey=\"Yes\" KeyCaseSensitive=\"No\"/>";
const MDD_HEADER: &str = "<Library_Data GeneratedByEngineVersion=\"2.0\" Encrypted=\"No\"/>";

fn build_mdx(compress_blocks: fn(&[u8]) -> Vec<u8>, compress_key_info: bool) -> Vec<u8> {
    let keys: Vec<(&str, &[u8])> = MDX_ENTRIES
        .iter()
        .map(|(k, d)| (*k, d.as_bytes()))
        .collect();
    build_container(MDX_HEADER, &keys, FileExt::Mdx, compress_blocks, compress_key_info)
}

fn build_mdd() -> Vec<u8> {
    let png: &[u8] = &[1, 2, 3, 4];
    let css: &[u8] = b"body{}";
    let keys: Vec<(&str, &[u8])> = vec![("\\a.png", png), ("\\b.css", css)];
    build_container(MDD_HEADER, &keys, FileExt::Mdd, plain_block, false)
}

#[test]
fn test_mdx_creation() {
    // Opening requires container bytes; the synthetic fixtures below
    // exercise the full path.
}

#[test]
fn test_mdd_creation() {
    // Opening requires container bytes; the synthetic fixtures below
    // exercise the full path.
}

#[test]
fn test_mdx_fixture_open() {
    let mdx = Mdx::new(build_mdx(plain_block, false)).expect("open");
    assert!(mdx.keyword_count() > 0);
    assert_eq!(mdx.keyword_count(), 4);
    assert_eq!(mdx.meta().ext, FileExt::Mdx);
    assert_eq!(mdx.meta().version_major, 2);
    assert_eq!(mdx.meta().version_minor, 0);
    assert_eq!(mdx.meta().encoding, Encoding::Utf8);
    assert_eq!(mdx.meta().encrypt, EncryptType::Unencrypted);
    assert!(mdx.header().iter().any(|(k, _)| k == "GeneratedByEngineVersion"));
}

#[test]
fn test_mdx_fixture_lookup_and_contains() {
    let mdx = Mdx::new(build_mdx(plain_block, false)).expect("open");
    let hit = mdx.lookup("hello").expect("hello should be found");
    assert_eq!(hit.key_text, "hello");
    assert_eq!(hit.definition, "a greeting");
    assert!(mdx.contains("hello"));
    assert!(mdx.contains("world"));
    assert!(mdx.contains("apple"));
    assert!(!mdx.contains("xyznonexistent123"));
}

#[test]
fn test_mdx_fixture_lookup_is_case_and_strip_insensitive() {
    let mdx = Mdx::new(build_mdx(plain_block, false)).expect("open");
    assert!(mdx.contains("HELLO"));
    assert!(mdx.contains("He-Llo"));
    let hit = mdx.lookup("APPLE").expect("apple should be found");
    assert_eq!(hit.definition, "a red fruit");
}

#[test]
fn test_mdx_fixture_prefix() {
    let mdx = Mdx::new(build_mdx(plain_block, false)).expect("open");
    let keys = mdx.prefix_keys("hel");
    assert_eq!(keys, vec!["hello".to_string(), "help".to_string()]);
    assert!(keys.iter().all(|k| k.to_lowercase().starts_with("hel")));
    let full = mdx.prefix("hel");
    assert_eq!(full.len(), 2);
    assert_eq!(full[0].key_text, "hello");
    assert_eq!(full[0].definition, "a greeting");
}

#[test]
fn test_mdx_fixture_suggest() {
    let mdx = Mdx::new(build_mdx(plain_block, false)).expect("open");
    let s = mdx.suggest("helo", 2);
    assert!(s.iter().any(|w| w == "hello"));
    let s2 = mdx.suggest("aple", 2);
    assert!(s2.iter().any(|w| w == "apple"));
}

#[test]
fn test_mdx_fixture_suggest_zero_distance() {
    let mdx = Mdx::new(build_mdx(plain_block, false)).expect("open");
    let s = mdx.suggest("hello", 0);
    assert_eq!(s, vec!["hello".to_string()]);
}

#[test]
fn test_mdx_fixture_suggest_refuses_large_distance() {
    let mdx = Mdx::new(build_mdx(plain_block, false)).expect("open");
    assert!(mdx.suggest("hello", 6).is_empty());
}

#[test]
fn test_mdx_fixture_associate() {
    let mdx = Mdx::new(build_mdx(plain_block, false)).expect("open");
    let assoc = mdx.associate("apple");
    assert!(!assoc.is_empty());
    let first_block = assoc[0].key_block_idx;
    assert!(assoc.iter().all(|it| it.key_block_idx == first_block));
}

#[test]
fn test_mdx_fixture_fuzzy_search() {
    let mdx = Mdx::new(build_mdx(plain_block, false)).expect("open");
    let hits = mdx.fuzzy_search("aple", 5, 2);
    assert!(hits.iter().any(|f| f.item.key_text == "apple" && f.edit_distance == 1));
    for w in hits.windows(2) {
        assert!(w[0].edit_distance <= w[1].edit_distance);
    }
}

#[test]
fn test_mdx_fixture_fetch_and_record_extents() {
    let mdx = Mdx::new(build_mdx(plain_block, false)).expect("open");
    let item = mdx.lookup_keyword("apple").expect("apple item").clone();
    assert_eq!(
        item.record_end_offset - item.record_start_offset,
        "a red fruit".len() as u64
    );
    let fetched = mdx.fetch(&item).expect("fetch");
    assert_eq!(fetched.definition, "a red fruit");
    // the last keyword keeps the zero sentinel and reads to the block's end
    let last = mdx.lookup_keyword("world").expect("world item").clone();
    assert_eq!(last.record_end_offset, 0);
    let fetched_last = mdx.fetch(&last).expect("fetch last");
    assert_eq!(fetched_last.definition, "the earth");
}

#[test]
fn test_mdx_fixture_roundtrip_all_keys() {
    let mdx = Mdx::new(build_mdx(plain_block, false)).expect("open");
    for key in mdx.keywords() {
        assert!(mdx.contains(&key));
        let hit = mdx.lookup(&key).expect("own key should resolve");
        assert!(!hit.definition.is_empty());
    }
}

#[test]
fn test_mdx_fixture_keywords_sorted() {
    let mdx = Mdx::new(build_mdx(plain_block, false)).expect("open");
    let keys = mdx.keywords();
    for w in keys.windows(2) {
        assert!(strip_key(&w[0], false) <= strip_key(&w[1], false));
    }
}

#[test]
fn test_mdx_fixture_get_definition() {
    let mdx = Mdx::new(build_mdx(plain_block, false)).expect("open");
    let item = mdx.lookup_keyword("help").expect("help item").clone();
    assert_eq!(mdx.get_definition(&item).expect("definition"), "assistance");
}

#[test]
fn test_mdx_zlib_fixture() {
    let mdx = Mdx::new(build_mdx(zlib_block, true)).expect("open zlib");
    assert_eq!(mdx.keyword_count(), 4);
    let hit = mdx.lookup("world").expect("world");
    assert_eq!(hit.definition, "the earth");
}

#[test]
fn test_mdx_lzo_fixture() {
    let mdx = Mdx::new(build_mdx(lzo_block, false)).expect("open lzo");
    assert_eq!(mdx.keyword_count(), 4);
    let hit = mdx.lookup("hello").expect("hello");
    assert_eq!(hit.definition, "a greeting");
}

#[test]
fn test_mdd_fixture_locate() {
    let mdd = Mdd::new(build_mdd()).expect("open mdd");
    assert_eq!(mdd.resource_count(), 2);
    assert_eq!(mdd.meta().ext, FileExt::Mdd);
    assert_eq!(mdd.meta().encoding, Encoding::Utf16Le);
    let keys = mdd.resource_keys();
    let first = &keys[0];
    let raw1 = mdd.locate_raw(first).expect("first resource");
    assert!(!raw1.is_empty());
    let raw2 = mdd.locate_raw(first).expect("first resource again");
    assert_eq!(raw1, raw2);
}

#[test]
fn test_mdd_fixture_locate_base64() {
    let mdd = Mdd::new(build_mdd()).expect("open mdd");
    let hit = mdd.locate("\\a.png").expect("png resource");
    assert_eq!(hit.definition, "AQIDBA==");
    assert_eq!(mdd.locate_raw("\\a.png").expect("raw"), vec![1, 2, 3, 4]);
}

#[test]
fn test_mdd_fixture_contains() {
    let mdd = Mdd::new(build_mdd()).expect("open mdd");
    let keys = mdd.resource_keys();
    assert!(mdd.contains(&keys[0]));
    assert!(!mdd.contains("\\nonexistent_resource_xyz.abc"));
}

#[test]
fn test_mdd_fixture_prefix() {
    let mdd = Mdd::new(build_mdd()).expect("open mdd");
    let keys = mdd.prefix_keys("\\");
    assert_eq!(keys.len(), 2);
    let full = mdd.prefix("\\a");
    assert_eq!(full.len(), 1);
    assert_eq!(full[0].definition, "AQIDBA==");
}

#[test]
fn test_mdd_fixture_resource_info() {
    let mdd = Mdd::new(build_mdd()).expect("open mdd");
    let info = mdd.get_resource_info("\\a.png").expect("info");
    assert_eq!(info.key, "\\a.png");
    assert_eq!(info.extension, "png");
    assert_eq!(info.mime_type, "image/png");
    let info2 = mdd.get_resource_info("\\b.css").expect("info2");
    assert_eq!(info2.mime_type, "text/css");
}

#[test]
fn test_open_errors() {
    // empty file: the header length read fails
    assert!(matches!(Mdx::new(Vec::new()), Err(MdictError::Io(_))));
    // odd-length header text is not valid UTF-16LE
    let mut bad = Vec::new();
    bad.extend_from_slice(&3u32.to_be_bytes());
    bad.extend_from_slice(&[0x3c, 0x00, 0x41]);
    bad.extend_from_slice(&[0, 0, 0, 0]);
    assert!(matches!(Mdx::new(bad), Err(MdictError::EncodingError(_))));
}

#[test]
fn test_open_encrypted_requires_passcode() {
    let header = "<Dictionary GeneratedByEngineVersion=\"2.0\" Encoding=\"UTF-8\" Encrypted=\"Yes\"/>";
    let keys: Vec<(&str, &[u8])> = vec![("a", b"x")];
    let data = build_container(header, &keys, FileExt::Mdx, plain_block, false);
    assert!(matches!(
        Mdx::new(data),
        Err(MdictError::EncryptedFileRequiresPasscode)
    ));
}

#[test]
fn test_open_invalid_compression_type() {
    let keys: Vec<(&str, &[u8])> = vec![("a", b"x")];
    let data = build_container(MDX_HEADER, &keys, FileExt::Mdx, unknown_code_block, false);
    assert!(matches!(
        Mdx::new(data),
        Err(MdictError::InvalidCompressionType(_))
    ));
}

#[test]
fn test_open_rejected_zlib_stream() {
    let keys: Vec<(&str, &[u8])> = vec![("a", b"x")];
    let data = build_container(MDX_HEADER, &keys, FileExt::Mdx, broken_zlib_block, false);
    assert!(matches!(
        Mdx::new(data),
        Err(MdictError::DecompressionError(_))
    ));
}

#[test]
fn test_truncated_record_block_fails_at_fetch_not_open() {
    // a corrupt record block is a fetch-time error: the handle still opens
    let mut data = build_mdx(plain_block, false);
    data.truncate(data.len() - 10);
    let mdx = Mdx::new(data).expect("open survives a short record block");
    assert!(mdx.contains("world"));
    assert!(mdx.lookup("world").is_none());
}

#[test]
fn test_open_truncated_index_fails() {
    let data = build_mdx(plain_block, false);
    let cut = data[..60].to_vec();
    assert!(Mdx::new(cut).is_err());
}

/// A v1.2 container: four 4-byte key-header fields, no checksum, raw
/// key-info table with 1-byte first/last sizes and no added NUL.
fn build_mdx_v1() -> Vec<u8> {
    let header_text = "<Dictionary GeneratedByEngineVersion=\"1.2\" Encoding=\"UTF-8\" Encrypted=\"No\"/>";
    let header_utf16 = utf16le_bytes(header_text);
    let mut data = Vec::new();
    data.extend_from_slice(&(header_utf16.len() as u32).to_be_bytes());
    data.extend_from_slice(&header_utf16);
    data.extend_from_slice(&[0, 0, 0, 0]);

    let mut payload: Vec<u8> = Vec::new();
    let mut offsets: Vec<u32> = Vec::new();
    for (_, def) in MDX_ENTRIES.iter() {
        offsets.push(payload.len() as u32);
        payload.extend_from_slice(def.as_bytes());
    }
    let mut kb: Vec<u8> = Vec::new();
    for (i, (key, _)) in MDX_ENTRIES.iter().enumerate() {
        kb.extend_from_slice(&offsets[i].to_be_bytes());
        kb.extend_from_slice(key.as_bytes());
        kb.push(0);
    }
    let key_block = plain_block(&kb);

    let first = MDX_ENTRIES[0].0.as_bytes();
    let last = MDX_ENTRIES[MDX_ENTRIES.len() - 1].0.as_bytes();
    let mut ki: Vec<u8> = Vec::new();
    ki.extend_from_slice(&(MDX_ENTRIES.len() as u32).to_be_bytes());
    ki.push(first.len() as u8);
    ki.extend_from_slice(first);
    ki.push(last.len() as u8);
    ki.extend_from_slice(last);
    ki.extend_from_slice(&(key_block.len() as u32).to_be_bytes());
    ki.extend_from_slice(&(kb.len() as u32).to_be_bytes());

    // v1.x key header: four 4-byte fields, no decompressed size, no checksum
    data.extend_from_slice(&1u32.to_be_bytes());
    data.extend_from_slice(&(MDX_ENTRIES.len() as u32).to_be_bytes());
    data.extend_from_slice(&(ki.len() as u32).to_be_bytes());
    data.extend_from_slice(&(key_block.len() as u32).to_be_bytes());
    data.extend_from_slice(&ki);
    data.extend_from_slice(&key_block);

    let record_block = plain_block(&payload);
    data.extend_from_slice(&1u32.to_be_bytes());
    data.extend_from_slice(&(MDX_ENTRIES.len() as u32).to_be_bytes());
    data.extend_from_slice(&8u32.to_be_bytes());
    data.extend_from_slice(&(record_block.len() as u32).to_be_bytes());
    data.extend_from_slice(&(record_block.len() as u32).to_be_bytes());
    data.extend_from_slice(&(payload.len() as u32).to_be_bytes());
    data.extend_from_slice(&record_block);
    data
}

#[test]
fn test_mdx_v1_fixture() {
    let mdx = Mdx::new(build_mdx_v1()).expect("open v1.2");
    assert_eq!(mdx.meta().version_major, 1);
    assert_eq!(mdx.meta().version_minor, 2);
    assert_eq!(mdx.meta().num_width, 4);
    assert_eq!(mdx.keyword_count(), 4);
    let hit = mdx.lookup("hello").expect("hello");
    assert_eq!(hit.definition, "a greeting");
    assert!(!mdx.contains("missing"));
}

/// Invert the XOR stream for a test fixture: the cipher keeps the previous
/// ciphertext byte as its chaining state, so encryption rebuilds it byte by
/// byte.
fn xor_stream_encrypt(plain: &[u8], key: &[u8]) -> Vec<u8> {
    let mut out = Vec::with_capacity(plain.len());
    let mut prev: u8 = 0x36;
    for (i, p) in plain.iter().enumerate() {
        let t = p ^ prev ^ (i as u8) ^ key[i % key.len()];
        let b = t.rotate_right(4);
        out.push(b);
        prev = b;
    }
    out
}

#[test]
fn test_mdx_encrypted_key_info_fixture() {
    let header = "<Dictionary GeneratedByEngineVersion=\"2.0\" Encoding=\"UTF-8\" Encrypted=\"2\"/>";
    let keys: Vec<(&str, &[u8])> = MDX_ENTRIES
        .iter()
        .map(|(k, d)| (*k, d.as_bytes()))
        .collect();
    let mut data = build_container(header, &keys, FileExt::Mdx, plain_block, true);

    // find the zlib-compressed key-info blob (it follows the 44-byte key
    // header after the outer header) and encrypt its payload in place
    let hlen = u32::from_be_bytes([data[0], data[1], data[2], data[3]]) as usize;
    let kh_start = hlen + 8;
    let blob_len = u64::from_be_bytes(data[kh_start + 24..kh_start + 32].try_into().unwrap()) as usize;
    let blob_start = kh_start + 44;
    let mut key_buffer = [0u8; 8];
    key_buffer[..4].copy_from_slice(&data[blob_start + 4..blob_start + 8]);
    key_buffer[4] = 0x95;
    key_buffer[5] = 0x36;
    let k = ripemd128(&key_buffer);
    let cipher = xor_stream_encrypt(&data[blob_start + 8..blob_start + blob_len], &k);
    data[blob_start + 8..blob_start + blob_len].copy_from_slice(&cipher);

    let mdx = Mdx::new(data).expect("open encrypted key info");
    assert_eq!(mdx.meta().encrypt, EncryptType::KeyInfoBlock);
    assert_eq!(mdx.keyword_count(), 4);
    assert_eq!(mdx.lookup("apple").expect("apple").definition, "a red fruit");
}

#[test]
fn test_mdx_invalid_utf8_definition_is_decoded_lossily() {
    let bad: &[u8] = &[0xff, 0xfe, 0x41];
    let keys: Vec<(&str, &[u8])> = vec![("junk", bad), ("zz", b"ok")];
    let data = build_container(MDX_HEADER, &keys, FileExt::Mdx, plain_block, false);
    let mdx = Mdx::new(data).expect("open");
    let hit = mdx.lookup("junk").expect("junk");
    assert_eq!(hit.definition, "\u{fffd}\u{fffd}A");
}

#[test]
fn test_strip_key_trims_whitespace() {
    assert_eq!(strip_key("\tword\t", false), "word");
}

#[test]
fn test_mdx_case_sensitive_configuration() {
    let header = "<Dictionary GeneratedByEngineVersion=\"2.0\" Encoding=\"UTF-8\" Encrypted=\"No\" StripKey=\"No\" KeyCaseSensitive=\"Yes\"/>";
    let keys: Vec<(&str, &[u8])> = MDX_ENTRIES
        .iter()
        .map(|(k, d)| (*k, d.as_bytes()))
        .collect();
    let data = build_container(header, &keys, FileExt::Mdx, plain_block, false);
    let mdx = Mdx::new(data).expect("open");
    assert!(mdx.contains("hello"));
    assert!(!mdx.contains("HELLO"));
    assert!(!mdx.contains("he-llo"));
}

#[test]
fn test_declared_size_mismatch_fails_at_fetch() {
    // a record block whose decompressed length misses the declared size is
    // refused when fetched, not at open
    let mut data = build_mdx(plain_block, false);
    let payload_len: usize = MDX_ENTRIES.iter().map(|(_, d)| d.len()).sum();
    let unpack_pos = data.len() - (payload_len + 8) - 8;
    let wrong = (payload_len as u64 + 1).to_be_bytes();
    data[unpack_pos..unpack_pos + 8].copy_from_slice(&wrong);
    let mdx = Mdx::new(data).expect("open");
    assert!(mdx.contains("hello"));
    assert!(mdx.lookup("hello").is_none());
}
