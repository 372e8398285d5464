use petro_meg::cli::{
    normalize_path_to_unix, parse_key, select_glob, select_literal, select_regex,
    GlobCompileError, GlobMatcher, LiteralSelectError, NameCaseMode, ParseKeyError, RegexMatcher,
};
use petro_meg::path::{MegPathBuf, MegPathError};
use petro_meg::reader::ReadMegMeta;
use petro_meg::version::MegV1;
use petro_meg::writer::BuildMeg;

#[test]
fn unix_separators() {
    assert_eq!(normalize_path_to_unix(b"A\\B/C\\"), b"A/B/C/".to_vec());
    assert_eq!(normalize_path_to_unix(b""), Vec::<u8>::new());
}

#[test]
fn case_conversion() {
    let mut p = b"Data\\Units_1.XML".to_vec();
    NameCaseMode::Keep.convert(&mut p);
    assert_eq!(p, b"Data\\Units_1.XML".to_vec());
    NameCaseMode::Lower.convert(&mut p);
    assert_eq!(p, b"data\\units_1.xml".to_vec());
    NameCaseMode::Upper.convert(&mut p);
    assert_eq!(p, b"DATA\\UNITS_1.XML".to_vec());
}

#[test]
fn parse_key_hex() {
    let key = parse_key(
        "  2b7e151628aed2a6abf7158809cf4f3c : 000102030405060708090A0B0C0D0E0F\n",
    )
    .unwrap();
    // The key parses; its bytes are checked by decrypting in the roundtrip tests. Here, compare
    // with a key built from the same bytes by encrypting the same data.
    let expected = petro_meg::crypto::Key::new(
        [
            0x2b, 0x7e, 0x15, 0x16, 0x28, 0xae, 0xd2, 0xa6, 0xab, 0xf7, 0x15, 0x88, 0x09, 0xcf, 0x4f,
            0x3c,
        ],
        [0, 1, 2, 3, 4, 5, 6, 7, 8, 9, 10, 11, 12, 13, 14, 15],
    );
    let data = b"sixteen bytes!!!";
    assert_eq!(
        petro_meg::crypto::encrypt_section(&key, data),
        petro_meg::crypto::encrypt_section(&expected, data)
    );
    assert_ne!(petro_meg::crypto::encrypt_section(&key, data), data.to_vec());
}

#[test]
fn parse_key_errors() {
    let hex = "00112233445566778899aabbccddeeff";
    assert!(matches!(parse_key(hex), Err(ParseKeyError::NoSeparator)));
    assert!(matches!(
        parse_key(&format!("{hex}:{hex}:{hex}")),
        Err(ParseKeyError::ExtraSeparator)
    ));
    assert!(matches!(
        parse_key(&format!("abc:{hex}")),
        Err(ParseKeyError::InvalidKeyLen { len: 3 })
    ));
    assert!(matches!(
        parse_key(&format!("{hex}:{hex}0")),
        Err(ParseKeyError::InvalidIVLen { len: 33 })
    ));
    assert!(matches!(
        parse_key(&format!("é{}:{hex}", &hex[2..])),
        Err(ParseKeyError::InvalidKey(_))
    ));
    assert!(matches!(
        parse_key(&format!("{}g:{hex}", &hex[1..])),
        Err(ParseKeyError::InvalidKey(_))
    ));
    assert!(matches!(
        parse_key(&format!("{hex}:{}z", &hex[1..])),
        Err(ParseKeyError::InvalidIV(_))
    ));
    // A leading '+' is accepted by number parsing.
    assert!(parse_key(&format!("+{}:{hex}", &hex[1..])).is_ok());
}

fn three_files() -> Vec<u8> {
    let mut builder = MegV1.builder::<Vec<u8>>();
    for name in ["a/one.txt", "b/two.txt", "c/three.txt"] {
        builder.insert(MegPathBuf::from_string(name.to_string()).unwrap(), name.as_bytes().to_vec());
    }
    builder.build_bytes().unwrap()
}

#[test]
fn literal_selection() {
    let bytes = three_files();
    let entries = MegV1.read_meg_meta(&bytes).unwrap();
    let keep = select_literal(&entries, &vec!["b\\TWO.txt".to_string(), "b/two.txt".to_string()])
        .unwrap();
    let chosen: Vec<&[u8]> = entries
        .iter()
        .zip(keep.iter())
        .filter(|(_, k)| **k)
        .map(|(e, _)| e.name().as_bytes())
        .collect();
    assert_eq!(chosen, vec![b"B\\TWO.TXT".as_slice()]);
}

#[test]
fn literal_selection_errors() {
    let bytes = three_files();
    let entries = MegV1.read_meg_meta(&bytes).unwrap();
    match select_literal(&entries, &vec!["ok".to_string(), "/bad".to_string(), "a//b".to_string()]) {
        Err(LiteralSelectError::InvalidPaths(v)) => assert_eq!(
            v,
            vec![(1, MegPathError::LeadingSlash), (2, MegPathError::EmptyComponent)]
        ),
        other => panic!("unexpected {other:?}"),
    }
    match select_literal(
        &entries,
        &vec!["x".to_string(), "a/one.txt".to_string(), "X".to_string(), "y".to_string()],
    ) {
        Err(LiteralSelectError::NotFound(v)) => assert_eq!(v, vec![0, 3]),
        other => panic!("unexpected {other:?}"),
    }
}

fn chosen(entries: &[petro_meg::reader::FileEntry], keep: &[bool]) -> Vec<Vec<u8>> {
    entries
        .iter()
        .zip(keep.iter())
        .filter(|(_, k)| **k)
        .map(|(e, _)| e.name().as_bytes().to_vec())
        .collect()
}

#[test]
fn glob_selection() {
    let bytes = three_files();
    let entries = MegV1.read_meg_meta(&bytes).unwrap();
    let globs = GlobMatcher::compile(&vec!["b/*.txt".to_string(), "c/t*".to_string()]).unwrap();
    let mut got = chosen(&entries, &select_glob(&entries, &globs));
    got.sort();
    assert_eq!(got, vec![b"B\\TWO.TXT".to_vec(), b"C\\THREE.TXT".to_vec()]);
    // '*' does not cross a separator.
    let star = GlobMatcher::compile(&vec!["*.txt".to_string()]).unwrap();
    assert!(chosen(&entries, &select_glob(&entries, &star)).is_empty());
    match GlobMatcher::compile(&vec!["ok".to_string(), "a[".to_string()]) {
        Err(GlobCompileError::InvalidGlobs(v)) => {
            assert_eq!(v.len(), 1);
            assert_eq!(v[0].0, 1);
        }
        _ => panic!("expected an invalid glob"),
    }
}

#[test]
fn regex_selection() {
    let bytes = three_files();
    let entries = MegV1.read_meg_meta(&bytes).unwrap();
    let re = RegexMatcher::compile(&vec!["(?i)two".to_string(), "^A".to_string()]).unwrap();
    let mut got = chosen(&entries, &select_regex(&entries, &re));
    got.sort();
    assert_eq!(got, vec![b"A\\ONE.TXT".to_vec(), b"B\\TWO.TXT".to_vec()]);
    let case = RegexMatcher::compile(&vec!["two".to_string()]).unwrap();
    assert!(chosen(&entries, &select_regex(&entries, &case)).is_empty());
    assert!(RegexMatcher::compile(&vec!["(".to_string()]).is_err());
}

#[test]
fn glob_compile_lists_every_invalid_pattern_in_order() {
    let patterns = vec![
        "{b".to_string(),
        "*.txt".to_string(),
        "a[".to_string(),
        "c/**".to_string(),
    ];
    match GlobMatcher::compile(&patterns) {
        Err(GlobCompileError::InvalidGlobs(v)) => {
            let indices: Vec<usize> = v.iter().map(|(i, _)| *i).collect();
            assert_eq!(indices, vec![0, 2]);
        }
        _ => panic!("expected invalid globs"),
    }
    // No patterns at all combine into an empty set that matches nothing.
    let none = GlobMatcher::compile(&Vec::new()).unwrap();
    let bytes = three_files();
    let entries = MegV1.read_meg_meta(&bytes).unwrap();
    assert!(chosen(&entries, &select_glob(&entries, &none)).is_empty());
}
