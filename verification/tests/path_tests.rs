use petro_meg::path::{validate_path, MegPath, MegPathBuf, MegPathError};

#[test]
fn valid_paths() {
    for p in ["", "a", "data/xml/units.xml", "Art\\Models\\ship.alo", "a b/c.d", "x/.y"] {
        assert_eq!(validate_path(p.as_bytes()), Ok(()), "{p}");
    }
}

#[test]
fn invalid_paths() {
    let cases: [(&[u8], MegPathError); 10] = [
        ("/a".as_bytes(), MegPathError::LeadingSlash),
        ("\\a".as_bytes(), MegPathError::LeadingSlash),
        ("a/".as_bytes(), MegPathError::TrailingSlash),
        ("a//b".as_bytes(), MegPathError::EmptyComponent),
        ("a<b".as_bytes(), MegPathError::InvalidCharacter),
        ("a\tb".as_bytes(), MegPathError::InvalidCharacter),
        ("..".as_bytes(), MegPathError::InvalidComponent),
        ("a/./b".as_bytes(), MegPathError::InvalidComponent),
        ("name. /b".as_bytes(), MegPathError::InvalidComponent),
        (&[b'a', 0xC3, 0xA9], MegPathError::NotAscii),
    ];
    for (p, e) in cases {
        assert_eq!(validate_path(p), Err(e), "{p:?}");
        assert_eq!(MegPath::from_bytes(p).err(), Some(e));
    }
}

#[test]
fn last_component_must_not_end_in_dot_or_space() {
    assert_eq!(validate_path(b"a/b."), Err(MegPathError::InvalidComponent));
    assert_eq!(validate_path(b"a/b "), Err(MegPathError::InvalidComponent));
}

#[test]
fn path_equality_ignores_case_and_separator() {
    let a = MegPath::from_str("Data/XML/Units.xml").unwrap();
    let b = MegPath::from_str("data\\xml\\UNITS.XML").unwrap();
    let c = MegPath::from_str("data/xml/units.xm").unwrap();
    assert!(a.path_eq(&b));
    assert!(!a.path_eq(&c));
    assert!(c.path_lt(&a));
    assert!(!a.path_lt(&b));
    assert!(!b.path_lt(&a));
}

#[test]
fn path_order_is_by_component() {
    // "a/b" sorts before "a-b": components compare "a" < "a-b".
    let x = MegPath::from_str("a/b").unwrap();
    let y = MegPath::from_str("a-b").unwrap();
    assert!(x.path_lt(&y));
    assert!(!y.path_lt(&x));
}

#[test]
fn components_and_file_name() {
    let p = MegPath::from_str("Data\\xml/units.xml").unwrap();
    let comps: Vec<Vec<u8>> = p.components().collect().iter().map(|c| c.as_bytes().to_vec()).collect();
    assert_eq!(comps, vec![b"Data".to_vec(), b"xml".to_vec(), b"units.xml".to_vec()]);
    assert_eq!(p.file_name().unwrap().as_bytes(), b"units.xml");
    assert_eq!(p.file_name().unwrap().len(), 9);
    assert!(MegPath::from_str("").unwrap().file_name().is_none());
    assert!(MegPath::from_str("").unwrap().components().next().is_none());
    let a = MegPath::from_str("ABC").unwrap().file_name().unwrap();
    let b = MegPath::from_str("x/abc").unwrap().file_name().unwrap();
    assert!(a.eq_ignore_case(&b));
    assert!(!a.lt_ignore_case(&b));
}

#[test]
fn path_buf_normalizes() {
    let mut p = MegPathBuf::from_string("Data/xml\\units.Xml".to_string()).unwrap();
    assert_eq!(p.len(), 18);
    assert!(!p.is_empty());
    p.make_normalized();
    assert_eq!(p.as_bytes(), b"DATA\\XML\\UNITS.XML");
    assert!(p.path_eq(&MegPath::from_str("data/xml/units.xml").unwrap()));
    let q = p.clone();
    assert_eq!(q.as_path().as_bytes(), p.as_bytes());
}

#[test]
fn path_buf_constructors() {
    assert!(MegPathBuf::new().is_empty());
    assert_eq!(MegPathBuf::from_vec(b"a/b".to_vec()).unwrap().as_bytes(), b"a/b");
    assert_eq!(MegPathBuf::from_vec(b"a/".to_vec()).err(), Some(MegPathError::TrailingSlash));
    assert_eq!(
        MegPathBuf::from_string("a:b".to_string()).err(),
        Some(MegPathError::InvalidCharacter)
    );
    let borrowed = MegPath::from_str("x/y").unwrap();
    assert_eq!(borrowed.to_owned().as_bytes(), b"x/y");
    assert_eq!(borrowed.len(), 3);
    assert!(!borrowed.is_empty());
}

#[test]
fn empty_path_and_text() {
    let e = MegPath::empty();
    assert!(e.is_empty());
    assert_eq!(e.len(), 0);
    assert_eq!(e.as_str(), "");
    assert!(e.components().next().is_none());

    let p = MegPath::from_str("Data\\Art/ship.ALO").unwrap();
    assert_eq!(p.as_str(), "Data\\Art/ship.ALO");
    let mut comps = p.components();
    assert_eq!(comps.next().unwrap().as_str(), "Data");
    assert_eq!(comps.next().unwrap().as_str(), "Art");
    assert_eq!(comps.next().unwrap().as_str(), "ship.ALO");
    assert!(comps.next().is_none());
    assert_eq!(p.file_name().unwrap().as_str(), "ship.ALO");
}
