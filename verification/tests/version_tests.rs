use petro_meg::version::{version_char_to_num, InvalidMegVersion, MegV1, MegV2, MegV3, MegVersion};

#[test]
fn parses_versions() {
    assert_eq!(MegVersion::parse("1"), Ok(MegVersion::V1));
    assert_eq!(MegVersion::parse("v2"), Ok(MegVersion::V2));
    assert_eq!(MegVersion::parse("V3"), Ok(MegVersion::V3));
    assert_eq!("v1".parse::<MegVersion>(), Ok(MegVersion::V1));
}

#[test]
fn rejects_other_versions() {
    for s in ["", "4", "v4", "x1", "v12", "version1", "é"] {
        assert_eq!(MegVersion::parse(s), Err(InvalidMegVersion), "{s}");
    }
    assert_eq!(version_char_to_num(b'0'), Err(InvalidMegVersion));
    assert_eq!(version_char_to_num(b'2'), Ok(MegVersion::V2));
}

#[test]
fn names_and_conversions() {
    assert_eq!(MegVersion::V1.name(), "v1");
    assert_eq!(MegVersion::V2.name(), "v2");
    assert_eq!(MegVersion::V3.name(), "v3");
    assert_eq!(MegVersion::from(MegV1), MegVersion::V1);
    assert_eq!(MegVersion::from(MegV2), MegVersion::V2);
    assert_eq!(MegVersion::from(MegV3), MegVersion::V3);
}

#[test]
fn from_str_agrees_with_parse() {
    for s in ["1", "2", "3", "v1", "V2", "v3", "", "4", "v4", "x1", "v12", " 1"] {
        assert_eq!(s.parse::<MegVersion>(), MegVersion::parse(s), "{s}");
    }
    assert_eq!("V3".parse::<MegVersion>(), Ok(MegVersion::V3));
    assert_eq!("3 ".parse::<MegVersion>(), Err(InvalidMegVersion));
}
