use pbo::error::PboError;
use pbo::PBO;

fn record(name: &[u8], fields: [u32; 5]) -> Vec<u8> {
    let mut out = name.to_vec();
    out.push(0);
    for f in fields.iter() {
        out.extend_from_slice(&f.to_le_bytes());
    }
    out
}

fn read_err(bytes: Vec<u8>) -> PboError {
    match PBO::read(bytes) {
        Ok(_) => panic!("archive unexpectedly decoded"),
        Err(e) => e,
    }
}

fn ok(r: Result<PBO, PboError>) -> PBO {
    match r {
        Ok(p) => p,
        Err(e) => panic!("archive did not decode: {:?}", e),
    }
}

fn written(p: &mut PBO) -> Vec<u8> {
    let mut out = Vec::new();
    p.write(&mut out).unwrap();
    out
}

fn sample() -> PBO {
    let mut p = PBO::new();
    assert!(p.add("B.txt", b"bee".to_vec()).is_none());
    assert!(p.add("a.txt", b"alpha".to_vec()).is_none());
    assert!(p.add("C.TXT", Vec::new()).is_none());
    p
}

fn names(hs: &[pbo::PBOHeader]) -> Vec<String> {
    hs.iter().map(|h| h.filename.clone()).collect()
}

#[test]
fn files_sorted_ignores_case() {
    let p = sample();
    assert_eq!(names(&p.files_sorted(false)), vec!["a.txt", "B.txt", "C.TXT"]);
    assert!(p.files_sorted(true).is_empty());
    assert_eq!(names(&p.files(false)), vec!["B.txt", "a.txt", "C.TXT"]);
}

#[test]
fn empty_archive_layout() {
    let mut p = PBO::new();
    let out = written(&mut p);
    assert_eq!(out.len(), 21 + 1 + 21 + 1 + 20);
    let mut head = record(b"", [0x5665_7273, 0, 0, 0, 0]);
    head.push(0);
    head.extend_from_slice(&record(b"", [0, 0, 0, 0, 0]));
    assert_eq!(&out[..43], &head[..]);
    assert_eq!(out[43], 0);
    let digest = p.gen_checksum().unwrap();
    assert_eq!(&out[44..], &digest[..]);
    assert_ne!(digest, vec![0u8; 20]);
    assert_eq!(
        digest,
        vec![
            68, 142, 162, 133, 179, 224, 152, 229, 10, 109, 120, 136, 145, 22, 232, 206, 165, 206,
            130, 23
        ]
    );
}

#[test]
fn round_trip() {
    let mut p = sample();
    let out = written(&mut p);
    let mut q = ok(PBO::read(out.clone()));
    let hs = q.files(true);
    assert_eq!(names(&hs), vec!["a.txt", "B.txt", "C.TXT"]);
    let sizes: Vec<u32> = hs.iter().map(|h| h.size).collect();
    assert_eq!(sizes, vec![5, 3, 0]);
    for h in hs.iter() {
        assert_eq!(h.method, 0);
        assert_eq!(h.reserved, 0);
        assert_eq!(h.timestamp, 0);
        assert_eq!(h.original, h.size);
    }
    assert_eq!(q.retrieve("a.txt").unwrap(), b"alpha".to_vec());
    assert_eq!(q.retrieve("B.txt").unwrap(), b"bee".to_vec());
    assert_eq!(q.retrieve("C.TXT").unwrap(), Vec::<u8>::new());
    assert!(q.retrieve("missing").is_none());
    let mut again = Vec::new();
    q.write(&mut again).unwrap();
    assert_eq!(again, out);
    assert_eq!(q.checksum().unwrap(), out[out.len() - 20..].to_vec());
}

#[test]
fn checksum_is_stable() {
    let mut p = sample();
    let out = written(&mut p);
    let mut q = ok(PBO::read(out));
    let first = q.gen_checksum().unwrap();
    q.set_cache_enabled(true);
    assert!(q.retrieve("B.txt").is_some());
    assert_eq!(q.gen_checksum().unwrap(), first);
    let mut r = sample();
    assert_eq!(r.gen_checksum().unwrap(), first);
    r.add("a.txt", b"ALPHA".to_vec());
    assert_ne!(r.gen_checksum().unwrap(), first);
}

#[test]
fn new_archive_checksum_is_generated() {
    let mut p = sample();
    assert_eq!(p.checksum().unwrap(), p.gen_checksum().unwrap());
}

#[test]
fn prefix_written_first() {
    let mut src = record(b"", [0x5665_7273, 0, 0, 0, 0]);
    src.extend_from_slice(b"author\0x\0prefix\0my\\mod\0\0");
    src.extend_from_slice(&record(b"f", [0, 2, 0, 0, 2]));
    src.extend_from_slice(&record(b"", [0, 0, 0, 0, 0]));
    src.extend_from_slice(b"hi");
    src.push(0);
    src.extend_from_slice(&[7u8; 20]);
    let mut p = ok(PBO::read(src));
    assert_eq!(p.checksum().unwrap(), vec![7u8; 20]);
    assert_eq!(p.extension("prefix").unwrap(), "my\\mod");
    assert_eq!(p.extension("author").unwrap(), "x");
    assert!(p.extension("missing").is_none());
    let out = written(&mut p);
    let mut expected = record(b"", [0x5665_7273, 0, 0, 0, 0]);
    expected.extend_from_slice(b"prefix\0my\\mod\0author\0x\0\0");
    assert_eq!(&out[..expected.len()], &expected[..]);
}

#[test]
fn cache_semantics() {
    let mut p = PBO::new();
    p.add("f", b"payload".to_vec());
    let out = written(&mut p);
    let mut q = ok(PBO::read(out.clone()));
    assert!(!q.cache_enabled());
    let s0 = q.source_seeks();
    assert_eq!(q.retrieve("f").unwrap(), b"payload".to_vec());
    let s1 = q.source_seeks();
    assert!(s1 > s0);
    assert_eq!(q.retrieve("f").unwrap(), b"payload".to_vec());
    let s2 = q.source_seeks();
    assert!(s2 > s1);

    let mut c = ok(PBO::read(out));
    assert!(!c.set_cache_enabled(true));
    assert!(c.cache_enabled());
    assert_eq!(c.retrieve("f").unwrap(), b"payload".to_vec());
    let t1 = c.source_seeks();
    assert_eq!(c.retrieve("f").unwrap(), b"payload".to_vec());
    assert_eq!(c.source_seeks(), t1);
}

#[test]
fn truncated_checksum() {
    let mut p = sample();
    let mut out = written(&mut p);
    out.truncate(out.len() - 20);
    assert_eq!(read_err(out), PboError::TruncatedChecksum);
}

#[test]
fn truncated_payload() {
    let mut src = record(b"f", [0, 10, 0, 0, 10]);
    src.extend_from_slice(&record(b"", [0, 0, 0, 0, 0]));
    src.extend_from_slice(b"abc");
    assert_eq!(read_err(src), PboError::TruncatedPayload);
}

#[test]
fn missing_sentinel() {
    let src = record(b"f", [0, 1, 0, 0, 1]);
    assert_eq!(read_err(src), PboError::MissingSentinel);
    let mut ext = record(b"", [0x5665_7273, 0, 0, 0, 0]);
    ext.extend_from_slice(b"key\0val");
    assert_eq!(read_err(ext), PboError::MissingSentinel);
    assert_eq!(read_err(Vec::new()), PboError::MissingSentinel);
}

#[test]
fn malformed_header() {
    let mut src = record(b"f", [0, 1, 0, 0, 1]);
    src.truncate(10);
    assert_eq!(read_err(src), PboError::MalformedHeader);
}

#[test]
fn add_remove_and_header() {
    let mut p = sample();
    let out = written(&mut p);
    let mut q = ok(PBO::read(out));
    assert_eq!(q.header("B.txt").unwrap().size, 3);
    assert!(q.header("nope").is_none());
    assert!(q.add("B.txt", b"longer".to_vec()).is_none());
    assert_eq!(q.add("B.txt", b"newer!".to_vec()).unwrap(), b"longer".to_vec());
    assert_eq!(q.retrieve("B.txt").unwrap(), b"newer!".to_vec());
    assert_eq!(q.files(false).len(), 3);
    q.add("d.txt", b"dd".to_vec());
    assert_eq!(names(&q.files_sorted(false)), vec!["a.txt", "B.txt", "C.TXT", "d.txt"]);
    let mut out2 = Vec::new();
    q.write(&mut out2).unwrap();
    let mut r = ok(PBO::read(out2));
    assert_eq!(r.header("B.txt").unwrap().size, 6);
    assert_eq!(r.retrieve("d.txt").unwrap(), b"dd".to_vec());
    assert_eq!(q.remove("B.txt").unwrap(), b"newer!".to_vec());
    assert!(q.remove("B.txt").is_none());
    assert_eq!(q.retrieve("B.txt").unwrap(), b"bee".to_vec());
    q.clear_cache();
    assert!(q.retrieve("d.txt").is_none());
}

#[test]
fn clear_cache_keeps_disk_names() {
    let mut p = sample();
    let out = written(&mut p);
    let mut q = ok(PBO::read(out));
    q.set_cache_enabled(true);
    q.retrieve("a.txt");
    q.add("extra", b"e".to_vec());
    q.clear_cache();
    assert_eq!(q.files(false).len(), 3);
    let s = q.source_seeks();
    assert_eq!(q.retrieve("a.txt").unwrap(), b"alpha".to_vec());
    assert_eq!(q.source_seeks(), s);
}
