//! Types for selecting MEGA file versions.

use vstd::prelude::*;
use vstd::string::StringSliceAdditionalSpecFns;

verus! {

/// Identifies any MEGA file version, chosen at run time.
#[derive(Clone, Copy, Debug, PartialEq, Eq, Structural)]
pub enum MegVersion {
    /// V1 MEGA file used for Empire at War/Forces of Corruption and Universe at War
    V1,
    /// V2 MEGA file used for Guardians of Graxia.
    V2,
    /// V3 MEGA file used for Rise of Immortals, Grey Goo, and Great War Western Front.
    V3,
}

/// Identifies MEGA file version 1, chosen at compile time.
#[derive(Default, Debug, Clone, Copy)]
pub struct MegV1;

/// Identifies MEGA file version 2, chosen at compile time.
#[derive(Default, Debug, Clone, Copy)]
pub struct MegV2;

/// Identifies MEGA file version 3, chosen at compile time.
#[derive(Default, Debug, Clone, Copy)]
pub struct MegV3;

/// Acts like a MEGA file version, but only for reading: the version is guessed from the header.
#[derive(Default, Debug, Clone, Copy)]
pub struct GuessVersion;

/// Error returned when the MEGA file version isn't recognized.
#[derive(Debug, Clone, Copy, PartialEq, Eq, Structural)]
pub struct InvalidMegVersion;

impl From<MegV1> for MegVersion {
    fn from(v: MegV1) -> (r: Self) {
        MegVersion::V1
    }
}

impl vstd::std_specs::convert::FromSpecImpl<MegV1> for MegVersion {
    open spec fn obeys_from_spec() -> bool {
        true
    }

    open spec fn from_spec(v: MegV1) -> Self {
        MegVersion::V1
    }
}

impl From<MegV2> for MegVersion {
    fn from(v: MegV2) -> (r: Self) {
        MegVersion::V2
    }
}

impl vstd::std_specs::convert::FromSpecImpl<MegV2> for MegVersion {
    open spec fn obeys_from_spec() -> bool {
        true
    }

    open spec fn from_spec(v: MegV2) -> Self {
        MegVersion::V2
    }
}

impl From<MegV3> for MegVersion {
    fn from(v: MegV3) -> (r: Self) {
        MegVersion::V3
    }
}

impl vstd::std_specs::convert::FromSpecImpl<MegV3> for MegVersion {
    open spec fn obeys_from_spec() -> bool {
        true
    }

    open spec fn from_spec(v: MegV3) -> Self {
        MegVersion::V3
    }
}

/// The version that a digit names: '1', '2' or '3'.
pub open spec fn spec_version_char_to_num(ch: u8) -> Result<MegVersion, InvalidMegVersion> {
    if ch == 49 {
        Ok(MegVersion::V1)
    } else if ch == 50 {
        Ok(MegVersion::V2)
    } else if ch == 51 {
        Ok(MegVersion::V3)
    } else {
        Err(InvalidMegVersion)
    }
}

/// Parses the version text: a single digit `1`-`3`, or that digit after a `v` or `V`.
pub open spec fn spec_parse_version(s: Seq<u8>) -> Result<MegVersion, InvalidMegVersion> {
    if s.len() == 1 {
        spec_version_char_to_num(s[0])
    } else if s.len() == 2 && s[0] < 128 && s[1] < 128 && (s[0] == 118 || s[0] == 86) {
        spec_version_char_to_num(s[1])
    } else {
        Err(InvalidMegVersion)
    }
}

/// The version that a digit names.
pub fn version_char_to_num(ch: u8) -> (r: Result<MegVersion, InvalidMegVersion>)
    ensures
        r == spec_version_char_to_num(ch),
{
    match ch {
        49 => Ok(MegVersion::V1),
        50 => Ok(MegVersion::V2),
        51 => Ok(MegVersion::V3),
        _ => Err(InvalidMegVersion),
    }
}

/// The version numbered `n`, for `n` in 1..=3.
pub open spec fn version_numbered(v: MegVersion) -> int {
    match v {
        MegVersion::V1 => 1,
        MegVersion::V2 => 2,
        MegVersion::V3 => 3,
    }
}

/// Version text is accepted exactly when it is one of the digits `1`, `2`, `3` (bytes 49..=51),
/// alone or after a `v` (118) or `V` (86); the version is the one that digit numbers.
pub proof fn lemma_parse_version_accepts(s: Seq<u8>)
    ensures
        spec_parse_version(s) is Ok <==> ((s.len() == 1 && 49 <= s[0] <= 51) || (s.len() == 2 && (
        s[0] == 118 || s[0] == 86) && 49 <= s[1] <= 51)),
        spec_parse_version(s) matches Ok(v) ==> version_numbered(v) == s.last() - 48,
{
}

impl MegVersion {
    /// Parses `1`, `2`, `3`, `v1`, `v2`, `v3` (the `v` in either case).
    pub fn parse(s: &str) -> (r: Result<MegVersion, InvalidMegVersion>)
        ensures
            r == spec_parse_version(s.spec_bytes()),
    {
        let b = s.as_bytes();
        if b.len() == 1 {
            version_char_to_num(b[0])
        } else if b.len() == 2 && b[0] < 128 && b[1] < 128 && (b[0] == 118 || b[0] == 86) {
            version_char_to_num(b[1])
        } else {
            Err(InvalidMegVersion)
        }
    }

    /// The lower-case name of the version, `v1`, `v2` or `v3`.
    pub fn name(&self) -> (r: &'static str)
        ensures
            r@ == match *self {
                MegVersion::V1 => "v1"@,
                MegVersion::V2 => "v2"@,
                MegVersion::V3 => "v3"@,
            },
    {
        match self {
            MegVersion::V1 => "v1",
            MegVersion::V2 => "v2",
            MegVersion::V3 => "v3",
        }
    }
}

impl core::str::FromStr for MegVersion {
    type Err = InvalidMegVersion;

    fn from_str(s: &str) -> (r: Result<Self, Self::Err>)
        ensures
            r == spec_parse_version(s.spec_bytes()),
    {
        MegVersion::parse(s)
    }
}

} // verus!
