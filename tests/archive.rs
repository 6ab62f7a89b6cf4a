use nepak::builder::BuildStage;
use nepak::{
    build, entries, extract, list, read_entries, verify, PakError, PayloadKind, SourceFile,
    FOOTER_MAGIC, MAGIC,
};

fn file(path: &str, data: &[u8]) -> SourceFile {
    SourceFile { path: path.to_string(), data: data.to_vec() }
}

fn le64(b: &[u8]) -> u64 {
    u64::from_le_bytes(b.try_into().unwrap())
}

fn le32(b: &[u8]) -> u32 {
    u32::from_le_bytes(b.try_into().unwrap())
}

fn invalid(msg: &str) -> PakError {
    PakError::Invalid(msg.to_string())
}

#[test]
fn single_file_raw() {
    let img = build(vec![file("a.txt", b"hi")], false, 6).unwrap();
    assert_eq!(&img[0..8], &[0x4E, 0x45, 0x50, 0x41, 0x4B, 0x01, 0x00, 0x00]);
    assert_eq!(&img[8..10], &[0x68, 0x69]);
    let idx = &img[10..img.len() - 32];
    assert_eq!(&idx[0..8], &MAGIC);
    assert_eq!(le32(&idx[8..12]), 1);
    assert_eq!(u16::from_le_bytes([idx[12], idx[13]]), 5);
    assert_eq!(&idx[14..19], b"a.txt");
    assert_eq!(le64(&idx[19..27]), 8);
    assert_eq!(le64(&idx[27..35]), 2);
    assert_eq!(le64(&idx[35..43]), 2);
    assert_eq!(idx[43], 0);
    assert_eq!(&idx[44..76], blake3::hash(b"hi").as_bytes());
    assert_eq!(idx.len(), 76);
    let foot = &img[img.len() - 32..];
    assert_eq!(&foot[0..8], &FOOTER_MAGIC);
    assert_eq!(le64(&foot[8..16]), 10);
    assert_eq!(le64(&foot[16..24]), 76);
    let digest = blake3::hash(idx);
    let tag = u32::from_le_bytes([digest.as_bytes()[0], digest.as_bytes()[1], digest.as_bytes()[2], digest.as_bytes()[3]]);
    assert_eq!(le32(&foot[24..28]), tag);
    assert_eq!(le32(&foot[28..32]), 0);
}

#[test]
fn prefix_applied() {
    let root = vec!["in".to_string()];
    let f = vec!["in".to_string(), "x".to_string(), "y".to_string()];
    let p = nepak::logical_path(&root, &f, "assets", &vec![]).unwrap().unwrap();
    assert_eq!(p, "assets/x/y");
    let img = build(vec![file(&p, b"z")], false, 6).unwrap();
    let es = entries(&img).unwrap();
    assert_eq!(es.len(), 1);
    assert_eq!(es[0].path, "assets/x/y");
}

#[test]
fn sort_order() {
    let img = build(vec![file("b", b"1"), file("a", b"1"), file("aa", b"1")], false, 6).unwrap();
    let es = read_entries(&img).unwrap();
    let paths: Vec<&str> = es.iter().map(|e| e.path.as_str()).collect();
    assert_eq!(paths, vec!["a", "aa", "b"]);
}

#[test]
fn exclude() {
    let root = vec!["t".to_string()];
    let ex = vec![".git".to_string()];
    let a = nepak::logical_path(&root, &vec!["t".into(), "src".into(), "a".into()], "", &ex).unwrap();
    let g = nepak::logical_path(&root, &vec!["t".into(), ".git".into(), "HEAD".into()], "", &ex).unwrap();
    assert_eq!(a, Some("src/a".to_string()));
    assert_eq!(g, None);
    let img = build(vec![file(&a.unwrap(), b"1")], false, 6).unwrap();
    let es = entries(&img).unwrap();
    assert_eq!(es.len(), 1);
    assert_eq!(es[0].path, "src/a");
}

#[test]
fn verify_rejects_tamper() {
    let mut img = build(vec![file("a.txt", b"hello")], false, 6).unwrap();
    assert_eq!(verify(&img), Ok(1));
    img[9] ^= 0xFF;
    assert_eq!(verify(&img), Err(invalid("hash mismatch: a.txt")));
}

#[test]
fn extract_filter() {
    let img = build(vec![file("assets/a", b"A"), file("assets/b", b"B"), file("docs/c", b"C")], false, 6).unwrap();
    let out = extract(&img, &vec!["docs".to_string()]).unwrap();
    assert_eq!(out.len(), 1);
    assert_eq!(out[0].path, "docs/c");
    assert_eq!(out[0].data, b"C".to_vec());
}

#[test]
fn empty_tree() {
    let img = build(vec![], false, 6).unwrap();
    assert_eq!(img.len(), 8 + 12 + 32);
    assert_eq!(&img[0..8], &MAGIC);
    assert_eq!(&img[8..16], &MAGIC);
    assert_eq!(le32(&img[16..20]), 0);
    assert_eq!(le64(&img[28..36]), 8);
    assert_eq!(le64(&img[36..44]), 12);
    assert_eq!(verify(&img), Ok(0));
    assert_eq!(entries(&img).unwrap().len(), 0);
}

#[test]
fn empty_file_raw() {
    let img = build(vec![file("e", b"")], false, 6).unwrap();
    let es = read_entries(&img).unwrap();
    assert_eq!(es[0].raw_len, 0);
    assert_eq!(es[0].payload_len, 0);
    assert_eq!(es[0].payload_kind, PayloadKind::Raw);
    assert_eq!(verify(&img), Ok(1));
}

#[test]
fn empty_file_zstd() {
    let img = build(vec![file("e", b"")], true, 6).unwrap();
    let es = read_entries(&img).unwrap();
    assert_eq!(es[0].raw_len, 0);
    assert_eq!(es[0].payload_kind, PayloadKind::Zstd);
    assert!(es[0].payload_len > 0);
    assert_eq!(verify(&img), Ok(1));
    let out = extract(&img, &vec![]).unwrap();
    assert_eq!(out[0].data, Vec::<u8>::new());
}

#[test]
fn path_of_max_length_accepted() {
    let p = "a".repeat(65535);
    let img = build(vec![file(&p, b"x")], false, 6).unwrap();
    let es = read_entries(&img).unwrap();
    assert_eq!(es[0].path.len(), 65535);
    assert_eq!(verify(&img), Ok(1));
}

#[test]
fn path_too_long_rejected() {
    let p = "a".repeat(65536);
    assert_eq!(build(vec![file(&p, b"x")], false, 6), Err(invalid("path too long")));
}

#[test]
fn file_too_small() {
    assert_eq!(read_entries(&[0u8; 31]), Err(invalid("file too small")));
    assert_eq!(verify(&[]), Err(invalid("file too small")));
    assert_eq!(verify(&MAGIC), Err(invalid("file too small")));
}

#[test]
fn bad_header_magic() {
    let mut img = build(vec![file("a", b"1")], false, 6).unwrap();
    img[0] = b'X';
    assert_eq!(verify(&img), Err(invalid("bad header magic")));
}

#[test]
fn bad_footer_magic() {
    let mut img = build(vec![file("a", b"1")], false, 6).unwrap();
    let n = img.len();
    img[n - 32] = b'X';
    assert_eq!(verify(&img), Err(invalid("bad footer magic")));
}

#[test]
fn index_outside_file() {
    let mut img = build(vec![file("a", b"1")], false, 6).unwrap();
    let n = img.len();
    img[n - 16..n - 8].copy_from_slice(&1000u64.to_le_bytes());
    assert_eq!(verify(&img), Err(invalid("index outside file")));
}

#[test]
fn flipped_index_byte_fails() {
    let img = build(vec![file("a", b"1"), file("b", b"22")], false, 6).unwrap();
    let n = img.len();
    let start = le64(&img[n - 24..n - 16]) as usize;
    for i in start..n - 32 {
        let mut bad = img.clone();
        bad[i] ^= 0x01;
        match verify(&bad) {
            Err(PakError::Invalid(_)) => {}
            other => panic!("byte {} gave {:?}", i, other),
        }
    }
}

#[test]
fn index_hash_mismatch() {
    let mut img = build(vec![file("a", b"1")], false, 6).unwrap();
    let n = img.len();
    img[n - 32 + 8 + 8 + 8] ^= 0x01;
    assert_eq!(verify(&img), Err(invalid("index hash mismatch")));
}

#[test]
fn build_is_deterministic_and_order_free() {
    let a = build(vec![file("x/1", b"one"), file("y", b"two"), file("x/0", b"")], true, 3).unwrap();
    let b = build(vec![file("x/0", b""), file("y", b"two"), file("x/1", b"one")], true, 3).unwrap();
    let c = build(vec![file("x/1", b"one"), file("y", b"two"), file("x/0", b"")], true, 3).unwrap();
    assert_eq!(a, b);
    assert_eq!(a, c);
}

#[test]
fn payload_digests_hold() {
    let data: Vec<u8> = (0..5000u32).map(|i| (i % 7) as u8).collect();
    let img = build(vec![file("d", &data), file("c", b"abc")], true, 9).unwrap();
    let es = read_entries(&img).unwrap();
    for e in &es {
        let payload = &img[e.payload_offset as usize..(e.payload_offset + e.payload_len) as usize];
        let raw = zstd::decode_all(payload).unwrap();
        assert_eq!(raw.len() as u64, e.raw_len);
        assert_eq!(blake3::hash(&raw).as_bytes(), &e.raw_hash);
    }
    assert!(es[1].payload_len < es[1].raw_len);
}

#[test]
fn index_entries_sorted_strictly() {
    let img = build(vec![file("b/x", b"1"), file("a", b"2"), file("b", b"3"), file("\u{e9}", b"4"), file("z", b"5")], false, 6).unwrap();
    let es = read_entries(&img).unwrap();
    for w in es.windows(2) {
        assert!(w[0].path.as_bytes() < w[1].path.as_bytes());
    }
    assert_eq!(es[4].path, "\u{e9}");
}

#[test]
fn verify_counts_files() {
    let files = vec![file("a", b"1"), file("b", b"22"), file("c/d", b"333")];
    let img = build(files, false, 6).unwrap();
    assert_eq!(verify(&img), Ok(3));
}

#[test]
fn round_trip_extract() {
    let files = vec![("k/2", b"second".to_vec()), ("k/1", b"first".to_vec()), ("e", vec![])];
    let img = build(files.iter().map(|(p, d)| file(p, d)).collect(), false, 6).unwrap();
    let out = extract(&img, &vec![]).unwrap();
    let mut got: Vec<(String, Vec<u8>)> = out.into_iter().map(|f| (f.path, f.data)).collect();
    let mut want: Vec<(String, Vec<u8>)> = files.into_iter().map(|(p, d)| (p.to_string(), d)).collect();
    got.sort();
    want.sort();
    assert_eq!(got, want);
}

#[test]
fn round_trip_extract_zstd() {
    let data = b"compressible compressible compressible".to_vec();
    let img = build(vec![file("f", &data)], true, 30).unwrap();
    assert_eq!(verify(&img), Ok(1));
    let out = extract(&img, &vec![]).unwrap();
    assert_eq!(out[0].data, data);
}

#[test]
fn extract_rejects_tamper() {
    let mut img = build(vec![file("a", b"hello")], false, 6).unwrap();
    img[8] ^= 1;
    assert_eq!(extract(&img, &vec![]).map(|v| v.len()), Err(invalid("hash mismatch for a")));
}

#[test]
fn duplicate_paths_rejected_by_reader() {
    let img = build(vec![file("a", b"1"), file("a", b"2")], false, 6).unwrap();
    assert_eq!(verify(&img), Err(invalid("index is not sorted")));
}

#[test]
fn entry_info_fields() {
    let img = build(vec![file("a.txt", b"hi")], true, 6).unwrap();
    let es = entries(&img).unwrap();
    assert_eq!(es[0].payload_kind, "zstd");
    assert_eq!(es[0].raw_hash_hex, blake3::hash(b"hi").to_hex().to_string());
    assert_eq!(es[0].raw_len, 2);
    assert_eq!(es[0].payload_offset, 8);
}

#[test]
fn list_lines() {
    let img = build(vec![file("a.txt", b"hi")], false, 6).unwrap();
    assert_eq!(list(&img, false).unwrap(), vec!["a.txt".to_string()]);
    let v = list(&img, true).unwrap();
    let want = format!("a.txt  off=8 len=2 raw=2 kind=Raw hash={}", blake3::hash(b"hi").to_hex());
    assert_eq!(v, vec![want]);
}

#[test]
fn unknown_payload_kind_rejected() {
    let img = build(vec![file("a", b"1")], false, 6).unwrap();
    let n = img.len();
    let start = le64(&img[n - 24..n - 16]) as usize;
    let mut bad = img.clone();
    let kind_at = start + 12 + 2 + 1 + 24;
    bad[kind_at] = 7;
    let idx_end = n - 32;
    let digest = blake3::hash(&bad[start..idx_end]);
    let b = digest.as_bytes();
    bad[n - 8..n - 4].copy_from_slice(&[b[0], b[1], b[2], b[3]]);
    assert_eq!(verify(&bad), Err(invalid("unknown payload kind")));
}

#[test]
fn non_utf8_path_rejected() {
    let img = build(vec![file("ab", b"1")], false, 6).unwrap();
    let n = img.len();
    let start = le64(&img[n - 24..n - 16]) as usize;
    let mut bad = img.clone();
    bad[start + 14] = 0xFF;
    let digest = blake3::hash(&bad[start..n - 32]);
    let b = digest.as_bytes();
    bad[n - 8..n - 4].copy_from_slice(&[b[0], b[1], b[2], b[3]]);
    assert_eq!(verify(&bad), Err(invalid("path is not utf8")));
}

#[test]
fn outside_root_reported() {
    let r = nepak::logical_path(&vec!["a".to_string()], &vec!["b".to_string(), "c".to_string()], "", &vec![]);
    assert_eq!(r, Err(PakError::Outside("b/c".to_string())));
}

struct Recorder(Vec<(nepak::builder::BuildStage, u64, u64, Option<String>)>);

impl nepak::builder::ProgressSink for Recorder {
    fn report(&mut self, p: nepak::builder::BuildProgress) {
        self.0.push((p.stage, p.done, p.total, p.current));
    }
}

#[test]
fn progress_reports_in_order() {
    let mut rec = Recorder(Vec::new());
    let img = nepak::builder::build_with_progress(vec![file("b", b"2"), file("a", b"1")], false, 6, &mut rec).unwrap();
    assert_eq!(img, build(vec![file("a", b"1"), file("b", b"2")], false, 6).unwrap());
    assert_eq!(
        rec.0,
        vec![
            (BuildStage::WritingPayloads, 0, 2, None),
            (BuildStage::WritingPayloads, 1, 2, Some("a".to_string())),
            (BuildStage::WritingPayloads, 2, 2, Some("b".to_string())),
            (BuildStage::WritingIndex, 0, 1, None),
            (BuildStage::WritingIndex, 1, 1, None),
            (BuildStage::Finalizing, 0, 1, None),
            (BuildStage::Finalizing, 1, 1, None),
        ]
    );
}

fn retag(img: &mut Vec<u8>) {
    let n = img.len();
    let start = le64(&img[n - 24..n - 16]) as usize;
    let digest = blake3::hash(&img[start..n - 32]);
    let b = *digest.as_bytes();
    img[n - 8..n - 4].copy_from_slice(&b[0..4]);
}

#[test]
fn payload_outside_file_reported() {
    let mut img = build(vec![file("a", b"1")], false, 6).unwrap();
    let n = img.len();
    let start = le64(&img[n - 24..n - 16]) as usize;
    let len_at = start + 12 + 2 + 1 + 8;
    img[len_at..len_at + 8].copy_from_slice(&1_000_000u64.to_le_bytes());
    retag(&mut img);
    assert_eq!(verify(&img), Err(invalid("payload outside file: a")));
    assert_eq!(extract(&img, &vec![]).map(|v| v.len()), Err(invalid("payload outside file: a")));
}

#[test]
fn payload_under_header_reported() {
    let mut img = build(vec![file("a", b"1")], false, 6).unwrap();
    let n = img.len();
    let start = le64(&img[n - 24..n - 16]) as usize;
    let off_at = start + 12 + 2 + 1;
    img[off_at..off_at + 8].copy_from_slice(&0u64.to_le_bytes());
    retag(&mut img);
    assert_eq!(verify(&img), Err(invalid("payload offset under header: a")));
}

#[test]
fn undecodable_zstd_payload_is_io() {
    let mut img = build(vec![file("a", b"some content")], true, 6).unwrap();
    img[8] ^= 0xFF;
    assert!(matches!(verify(&img), Err(PakError::Io(_))));
    assert!(matches!(extract(&img, &vec![]), Err(PakError::Io(_))));
}

#[test]
fn truncated_record_reported() {
    let mut img = build(vec![file("a", b"1")], false, 6).unwrap();
    let n = img.len();
    let start = le64(&img[n - 24..n - 16]) as usize;
    img[start + 8..start + 12].copy_from_slice(&2u32.to_le_bytes());
    retag(&mut img);
    assert_eq!(verify(&img), Err(invalid("unexpected end of data")));
}
