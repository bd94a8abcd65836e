use sendit::manifest::{ContentId, File, Files, ManifestError, VERSION};

fn file(name: &str, icon: &str, size: u64, id: &[u8]) -> File {
    File {
        name: name.to_string(),
        icon: icon.to_string(),
        size,
        hash: ContentId::new(id.to_vec()),
    }
}

fn sample() -> Files {
    let mut m = Files::new();
    m.add_file(file("a.txt", "", 10, &[1, 2, 3]));
    m.add_file(file("b ü.png", "data:image/png;base64,AAAA", 2048, &[9; 32]));
    m.add_file(file("c", "x", 0, &[]));
    m
}

fn same(a: &Files, b: &Files) {
    assert_eq!(a.version, b.version);
    assert_eq!(a.len(), b.len());
    for f in &a.files {
        let g = b.get(&f.name).expect("file missing after decoding");
        assert_eq!(f.icon, g.icon);
        assert_eq!(f.size, g.size);
        assert_eq!(f.hash.bytes, g.hash.bytes);
    }
}

#[test]
fn empty_manifest_bytes_and_text() {
    let m = Files::new();
    assert_eq!(m.to_bytes(), vec![0, 0, 0, 1, 0, 0, 0, 0, 0, 0, 0, 0]);
    assert_eq!(m.to_string(), "AAAAAAIAAAAAAAAAAAAA====");
}

#[test]
fn round_trip_text() {
    let m = sample();
    let text = m.to_string();
    let back = Files::from_str(&text).expect("decodes");
    same(&m, &back);
}

#[test]
fn round_trip_bytes_keeps_order() {
    let m = sample();
    let back = Files::from_bytes(&m.to_bytes()).expect("decodes");
    let names: Vec<&str> = back.files.iter().map(|f| f.name.as_str()).collect();
    assert_eq!(names, vec!["a.txt", "b ü.png", "c"]);
}

#[test]
fn version_gate() {
    let mut m = sample();
    m.version = 7;
    let text = m.to_string();
    assert_eq!(
        Files::from_str(&text).err(),
        Some(ManifestError::VersionMismatch { expected: VERSION, found: 7 })
    );
    let mut e = Files::new();
    e.version = 2;
    assert_eq!(e.to_string(), "AAAAAAQAAAAAAAAAAAAA====");
    assert_eq!(
        Files::from_str("AAAAAAQAAAAAAAAAAAAA====").err(),
        Some(ManifestError::VersionMismatch { expected: 1, found: 2 })
    );
}

#[test]
fn malformed_inputs() {
    assert_eq!(Files::from_str("not base32!").err(), Some(ManifestError::Malformed));
    assert_eq!(Files::from_bytes(&[0, 0, 1]).err(), Some(ManifestError::Malformed));
    // A count of one file, but no file follows.
    assert_eq!(
        Files::from_bytes(&[0, 0, 0, 1, 0, 0, 0, 0, 0, 0, 0, 1]).err(),
        Some(ManifestError::Malformed)
    );
    // Trailing bytes after the files.
    assert_eq!(
        Files::from_bytes(&[0, 0, 0, 1, 0, 0, 0, 0, 0, 0, 0, 0, 5]).err(),
        Some(ManifestError::Malformed)
    );
    // A truncated manifest never yields part of its files.
    let b = sample().to_bytes();
    for cut in 0..b.len() {
        assert!(Files::from_bytes(&b[..cut]).is_err());
    }
}

#[test]
fn invalid_utf8_name_is_malformed() {
    let mut b = vec![0, 0, 0, 1, 0, 0, 0, 0, 0, 0, 0, 1];
    b.extend_from_slice(&[0, 0, 0, 0, 0, 0, 0, 1, 0xff]);
    b.extend_from_slice(&[0; 8]);
    b.extend_from_slice(&[0; 8]);
    b.extend_from_slice(&[0; 8]);
    assert_eq!(Files::from_bytes(&b).err(), Some(ManifestError::Malformed));
    b[20] = b'n';
    let m = Files::from_bytes(&b).expect("valid once the name is UTF-8");
    assert_eq!(m.files[0].name, "n");
}

#[test]
fn duplicate_names_last_wins_on_decode() {
    let mut one = Files::new();
    one.add_file(file("x", "first", 1, &[1]));
    let mut two = Files::new();
    two.add_file(file("x", "second", 2, &[2]));
    let a = one.to_bytes();
    let b = two.to_bytes();
    let mut joined = a[..4].to_vec();
    joined.extend_from_slice(&[0, 0, 0, 0, 0, 0, 0, 2]);
    joined.extend_from_slice(&a[12..]);
    joined.extend_from_slice(&b[12..]);
    let m = Files::from_bytes(&joined).expect("decodes");
    assert_eq!(m.len(), 1);
    assert_eq!(m.files[0].icon, "second");
    assert_eq!(m.files[0].size, 2);
}

#[test]
fn add_replace_remove() {
    let mut m = sample();
    assert!(m.has_file("a.txt"));
    assert!(!m.has_file("A.txt"));
    m.add_file(file("a.txt", "new", 11, &[7]));
    assert_eq!(m.len(), 3);
    assert_eq!(m.get("a.txt").unwrap().size, 11);
    m.remove_file("a.txt");
    assert!(!m.has_file("a.txt"));
    assert_eq!(m.len(), 2);
    m.remove_file("absent");
    assert_eq!(m.len(), 2);
}
