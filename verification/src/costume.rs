//! The costume metadata layer: validates that a parsed JPEG is a recognized
//! costume save, exposes and rewrites the named fields bound to fixed IPTC
//! dataset slots, and computes the costume hash checksum and the derived
//! display and file-name strings.

use vstd::prelude::*;
use vstd::string::StringExecFns;
use vstd::string::StringSliceAdditionalSpecFns;

use crate::app13::{
    spec_dataset_key, spec_find_group, App13Model, JpegApp13Payload, APP13_RECORD_APP,
    APP13_RECORD_APP_CAPTION, APP13_RECORD_APP_OBJECT_DATA_PREVIEW,
};
use crate::bytes_util::{bytes_eq, copy_range};
use crate::hash_table::{hash_table_entry, COSTUME_HASH_TABLE};
use crate::jpeg::{
    spec_index_ok, spec_parse, spec_parsed_shape, spec_positions_of, Jpeg, JpegSegment, ParseError,
    SegmentModel,
};
use crate::numfmt::{i64_to_decimal, spec_decimal_int};
use crate::segment::JpegSegmentType;

verus! {

/// The Unix timestamp of the J2000 epoch, 2000-01-01T00:00:00 UTC, from
/// which the game client counts its save timestamps.
pub const JAN_1_2000_UNIX_TIME: i64 = 946684800;

/// The two 16-bit wrapping accumulators of the costume hash after the given
/// bytes: the first takes a table entry per byte, the second sums the first.
pub open spec fn spec_hash_acc(bytes: Seq<u8>) -> (int, int)
    decreases bytes.len(),
{
    if bytes.len() == 0 {
        (0int, 0int)
    } else {
        let prev = spec_hash_acc(bytes.drop_last());
        let lo = (prev.0 + COSTUME_HASH_TABLE@[bytes.last() as int]) % 0x10000;
        let up = (prev.1 + lo) % 0x10000;
        (lo, up)
    }
}

/// The hash value as the game formats it: the two accumulators packed into
/// 32 bits, upper half first, read as a signed 32-bit number.
pub open spec fn spec_hash_value(bytes: Seq<u8>) -> int {
    let acc = spec_hash_acc(bytes);
    let combined = acc.1 * 0x10000 + acc.0;
    if combined >= 0x80000000 {
        combined - 0x100000000
    } else {
        combined
    }
}

/// The full hash text: the fixed `7799` prefix, the decimal value, and a
/// trailing zero character.
pub open spec fn spec_costume_hash(bytes: Seq<u8>) -> Seq<char> {
    seq!['7', '7', '9', '9'] + spec_decimal_int(spec_hash_value(bytes)) + seq!['\u{0}']
}

/// The costume hash checksum of a costume specification text: an
/// order-sensitive table-driven rolling sum over its bytes, formatted as
/// `"7799" <decimal signed value> "\0"`.
pub fn generate_costume_hash(costume_spec: &str) -> (r: String)
    ensures
        r@ == spec_costume_hash(costume_spec.spec_bytes()),
{
    let bytes = costume_spec.as_bytes();
    let ghost bs = bytes@;
    let mut lower: u16 = 0;
    let mut upper: u16 = 0;
    let mut i: usize = 0;
    while i < bytes.len()
        invariant
            0 <= i <= bs.len(),
            bs == bytes@,
            lower as int == spec_hash_acc(bs.take(i as int)).0,
            upper as int == spec_hash_acc(bs.take(i as int)).1,
        decreases bs.len() - i,
    {
        let entry = hash_table_entry(bytes[i]);
        lower = (((lower as u32) + (entry as u32)) % 0x10000) as u16;
        upper = (((upper as u32) + (lower as u32)) % 0x10000) as u16;
        proof {
            assert(bs.take(i + 1).drop_last() =~= bs.take(i as int));
            assert(bs.take(i + 1).last() == bs[i as int]);
        }
        i = i + 1;
    }
    proof {
        assert(bs.take(bs.len() as int) =~= bs);
    }
    let combined: u32 = (upper as u32) * 0x10000 + (lower as u32);
    let signed: i64 = if combined >= 0x80000000 {
        (combined as i64) - 0x100000000
    } else {
        combined as i64
    };
    assert(signed as int == spec_hash_value(bs));
    let mut s = String::new();
    proof {
        reveal_strlit("7799");
    }
    s.append("7799");
    let digits = i64_to_decimal(signed);
    s.append(digits.as_str());
    proof {
        reveal_strlit("\u{0}");
    }
    s.append("\u{0}");
    proof {
        assert(s@ =~= spec_costume_hash(bs));
    }
    s
}

/// The characters of the fixed `Costume_` file-name prefix.
pub open spec fn spec_costume_prefix() -> Seq<char> {
    seq!['C', 'o', 's', 't', 'u', 'm', 'e', '_']
}

/// The characters of the `.jpg` file-name suffix.
pub open spec fn spec_jpg_suffix() -> Seq<char> {
    seq!['.', 'j', 'p', 'g']
}

/// The save file name built from a save name and an optional J2000
/// timestamp: `Costume_<name>.jpg`, `Costume_<timestamp>.jpg` for an empty
/// name with a timestamp, and `Costume_<name>_<timestamp>.jpg` otherwise.
pub open spec fn spec_file_name(save_name: Seq<char>, timestamp: Option<i64>) -> Seq<char> {
    match timestamp {
        Some(t) => if save_name.len() == 0 {
            spec_costume_prefix() + spec_decimal_int(t as int) + spec_jpg_suffix()
        } else {
            spec_costume_prefix() + save_name + seq!['_'] + spec_decimal_int(t as int)
                + spec_jpg_suffix()
        },
        None => spec_costume_prefix() + save_name + spec_jpg_suffix(),
    }
}

/// Builds the on-disk file name for a save name and optional J2000
/// timestamp.
pub fn get_file_name(save_name: &str, timestamp: Option<i64>) -> (r: String)
    ensures
        r@ == spec_file_name(save_name@, timestamp),
{
    let mut s = String::new();
    proof {
        reveal_strlit("Costume_");
        reveal_strlit("_");
        reveal_strlit(".jpg");
    }
    s.append("Costume_");
    assert(s@ =~= spec_costume_prefix());
    match timestamp {
        Some(t) => {
            if save_name.unicode_len() == 0 {
                let digits = i64_to_decimal(t);
                s.append(digits.as_str());
            } else {
                s.append(save_name);
                s.append("_");
                let digits = i64_to_decimal(t);
                s.append(digits.as_str());
            }
        },
        None => {
            s.append(save_name);
        },
    }
    s.append(".jpg");
    proof {
        assert(s@ =~= spec_file_name(save_name@, timestamp));
    }
    s
}

/// What the date-and-time text of a Unix timestamp is; computed by chrono,
/// a function of the timestamp alone.
pub uninterp spec fn spec_datetime_text(unix_seconds: int) -> Seq<char>;

/// Relies on chrono's `DateTime::<Utc>::from_timestamp` and its strftime
/// formatting with `"%Y-%m-%d %H:%M:%S"`: the text is a function of the
/// seconds alone, and every timestamp within a quarter million years of
/// 1970 is in chrono's documented range.
#[verifier::external_body]
fn format_unix_timestamp(unix_seconds: i64) -> (r: Option<String>)
    ensures
        r matches Some(s) ==> s@ == spec_datetime_text(unix_seconds as int),
        -8_000_000_000_000 <= unix_seconds <= 8_000_000_000_000 ==> r is Some,
{
    chrono::DateTime::from_timestamp(unix_seconds, 0).map(
        |utc_datetime| utc_datetime.format("%Y-%m-%d %H:%M:%S").to_string(),
    )
}

/// Joins the account and character names, with the date-and-time text after
/// a space when one is given.
pub fn compose_display_name(account_name: &str, character_name: &str, datetime_text: Option<
    String,
>) -> (r: String)
    ensures
        datetime_text is None ==> r@ == account_name@ + character_name@,
        datetime_text matches Some(d) ==> r@ == account_name@ + character_name@ + seq![' '] + d@,
{
    let mut s = String::new();
    s.append(account_name);
    s.append(character_name);
    match datetime_text {
        Some(d) => {
            proof {
                reveal_strlit(" ");
            }
            s.append(" ");
            s.append(d.as_str());
            assert(s@ =~= account_name@ + character_name@ + seq![' '] + d@);
        },
        None => {
            assert(s@ =~= account_name@ + character_name@);
        },
    }
    s
}

/// The name under which the save appears in the game: the account and
/// character names run together, followed, when a J2000 timestamp is given
/// that chrono can format, by a space and the UTC date and time.
pub fn get_in_game_display_name(account_name: &str, character_name: &str, timestamp: Option<
    i64,
>) -> (r: String)
    requires
        timestamp matches Some(t) ==> t <= i64::MAX - 946684800,
    ensures
        timestamp is None ==> r@ == account_name@ + character_name@,
        timestamp matches Some(t) ==> {
            let stamped = account_name@ + character_name@ + seq![' '] + spec_datetime_text(
                t + 946684800,
            );
            &&& (r@ == account_name@ + character_name@ || r@ == stamped)
            &&& (-8_000_000_000_000 <= t + 946684800 <= 8_000_000_000_000 ==> r@ == stamped)
        },
{
    match timestamp {
        Some(j2000_timestamp) => {
            let unix_timestamp = JAN_1_2000_UNIX_TIME + j2000_timestamp;
            let datetime_text = format_unix_timestamp(unix_timestamp);
            compose_display_name(account_name, character_name, datetime_text)
        },
        None => compose_display_name(account_name, character_name, None),
    }
}

/// The position of the last occurrence of `x`, or `-1` when none occurs.
pub open spec fn spec_last_byte(bs: Seq<u8>, x: u8) -> int
    decreases bs.len(),
{
    if bs.len() == 0 {
        -1
    } else if bs.last() == x {
        bs.len() - 1
    } else {
        spec_last_byte(bs.drop_last(), x)
    }
}

/// A recognized costume file name: its extension (after the last dot) is
/// `jpg` in any letter case, and its stem starts with `Costume_`.
pub open spec fn spec_is_valid_costume_file_name(bs: Seq<u8>) -> bool {
    let k = spec_last_byte(bs, 0x2E);
    &&& k >= 8
    &&& bs.len() - (k + 1) == 3
    &&& (bs[k + 1] == 0x6A || bs[k + 1] == 0x4A)
    &&& (bs[k + 2] == 0x70 || bs[k + 2] == 0x50)
    &&& (bs[k + 3] == 0x67 || bs[k + 3] == 0x47)
    &&& bs[0] == 0x43 && bs[1] == 0x6F && bs[2] == 0x73 && bs[3] == 0x74 && bs[4] == 0x75
        && bs[5] == 0x6D && bs[6] == 0x65 && bs[7] == 0x5F
}

/// Whether a plain file name names a costume save: stem starting with
/// `Costume_` and a `jpg` extension in any letter case.
pub fn is_valid_costume_file_name(file_name: &str) -> (r: bool)
    ensures
        r == spec_is_valid_costume_file_name(file_name.spec_bytes()),
{
    let bs = file_name.as_bytes();
    let ghost bsm = bs@;
    // find the last dot
    let mut i: usize = bs.len();
    let mut dot: usize = 0;
    let mut found = false;
    proof {
        assert(bsm.take(bsm.len() as int) =~= bsm);
    }
    while !found && i > 0
        invariant
            0 <= i <= bsm.len(),
            bsm == bs@,
            !found ==> spec_last_byte(bsm, 0x2E) == spec_last_byte(bsm.take(i as int), 0x2E),
            found ==> i < bsm.len() && dot == i && bsm[dot as int] == 0x2E && spec_last_byte(
                bsm,
                0x2E,
            ) == dot as int,
        decreases i,
    {
        i = i - 1;
        if bs[i] == 0x2E {
            dot = i;
            found = true;
            proof {
                assert(bsm.take(i + 1).last() == bsm[i as int]);
                assert(spec_last_byte(bsm.take(i + 1), 0x2E) == i as int);
            }
        } else {
            proof {
                assert(bsm.take(i + 1).last() == bsm[i as int]);
                assert(bsm.take(i + 1).drop_last() =~= bsm.take(i as int));
            }
        }
    }
    if !found {
        proof {
            assert(bsm.take(0) =~= Seq::<u8>::empty());
            assert(spec_last_byte(Seq::<u8>::empty(), 0x2E) == -1);
        }
        return false;
    }
    let k = dot;
    if k < 8 {
        return false;
    }
    if bs.len() - (k + 1) != 3 {
        return false;
    }
    let e1 = bs[k + 1];
    let e2 = bs[k + 2];
    let e3 = bs[k + 3];
    if !(e1 == 0x6A || e1 == 0x4A) {
        return false;
    }
    if !(e2 == 0x70 || e2 == 0x50) {
        return false;
    }
    if !(e3 == 0x67 || e3 == 0x47) {
        return false;
    }
    bs[0] == 0x43 && bs[1] == 0x6F && bs[2] == 0x73 && bs[3] == 0x74 && bs[4] == 0x75 && bs[5]
        == 0x6D && bs[6] == 0x65 && bs[7] == 0x5F
}


/// Positional slot of the account name under the caption key.
pub const ACCOUNT_NAME_INDEX: usize = 0;

/// Positional slot of the character name under the caption key.
pub const CHARACTER_NAME_INDEX: usize = 1;

/// Positional slot of the hash under the caption key.
pub const COSTUME_HASH_INDEX: usize = 2;

/// Positional slot of the costume specification under the preview key.
pub const COSTUME_SPEC_INDEX: usize = 0;

/// The fixed resource type of a costume save: `8BIM` read big-endian.
pub const EXPECTED_APP13_RESOURCE_TYPE: u32 = 0x3842494D;

/// The fixed resource id of a costume save: the IPTC-NAA record.
pub const EXPECTED_APP13_RESOURCE_ID: u16 = 0x0404;

/// The bytes of the fixed identifier `Photoshop 3.0` with its terminator.
pub open spec fn spec_expected_identifier() -> Seq<u8> {
    seq![0x50u8, 0x68, 0x6F, 0x74, 0x6F, 0x73, 0x68, 0x6F, 0x70, 0x20, 0x33, 0x2E, 0x30, 0x00]
}

/// The bytes of the fixed (absent) resource name.
pub open spec fn spec_expected_resource_name() -> Seq<u8> {
    seq![0u8, 0u8]
}

/// The fixed identifier bytes, as a vector.
fn expected_identifier() -> (r: Vec<u8>)
    ensures
        r@ == spec_expected_identifier(),
{
    let mut v: Vec<u8> = Vec::new();
    v.push(0x50);
    v.push(0x68);
    v.push(0x6F);
    v.push(0x74);
    v.push(0x6F);
    v.push(0x73);
    v.push(0x68);
    v.push(0x6F);
    v.push(0x70);
    v.push(0x20);
    v.push(0x33);
    v.push(0x2E);
    v.push(0x30);
    v.push(0x00);
    proof {
        assert(v@ =~= spec_expected_identifier());
    }
    v
}

/// A validation failure of `CostumeSave::parse`, carrying the observed
/// value, or the underlying framing failure.
#[derive(Debug, PartialEq, Eq)]
pub enum CostumeParseError {
    /// The file name does not follow the costume naming convention.
    InvalidFileName,
    /// The file holds no APP13 segment, or more than one.
    InvalidApp13SegmentCount { count: usize },
    /// The APP13 identifier is not the fixed `Photoshop 3.0` string.
    InvalidApp13SegmentId { actual: Vec<u8> },
    /// The APP13 resource type is not `8BIM`.
    InvalidApp13ResourceType { actual: u32 },
    /// The APP13 resource id is not the IPTC-NAA record.
    InvalidApp13ResourceId { actual: u16 },
    /// The APP13 resource name is not the fixed empty name.
    InvalidApp13ResourceName { actual: Vec<u8> },
    /// The buffer is not a JPEG this codec frames.
    JpegParseError(ParseError),
}

/// A loadable costume save: a parsed JPEG validated to carry exactly one
/// APP13 segment with the client's fixed identity fields.
pub struct CostumeSave(pub Jpeg);

/// The four named costume fields read from their dataset slots.
pub struct CostumeMetadata {
    pub account_name: String,
    pub character_name: String,
    pub hash: String,
    pub spec: String,
}

/// A write patch over the four named costume fields: only the fields
/// present are overwritten.
#[derive(Default)]
pub struct UpdateCostumeMetadata {
    pub account_name: Option<String>,
    pub character_name: Option<String>,
    pub hash: Option<String>,
    pub spec: Option<String>,
}

/// The position of the unique APP13 segment of a costume save.
pub open spec fn spec_app13_pos(c: CostumeSave) -> int {
    spec_positions_of(c.0@, JpegSegmentType::APP13)[0]
}

/// The decoded APP13 payload of a costume save.
pub open spec fn spec_costume_app13(c: CostumeSave) -> App13Model {
    c.0@[spec_app13_pos(c)].app13.unwrap()
}

/// A validated costume save: a consistent index, exactly one APP13 segment,
/// holding a decoded payload whose identity fields are the client's fixed
/// conventions.
pub open spec fn spec_costume_wf(c: CostumeSave) -> bool {
    &&& spec_index_ok(c.0)
    &&& spec_positions_of(c.0@, JpegSegmentType::APP13).len() == 1
    &&& 0 <= spec_app13_pos(c) < c.0@.len()
    &&& c.0@[spec_app13_pos(c)].segment_type == JpegSegmentType::APP13
    &&& c.0@[spec_app13_pos(c)].app13 is Some
    &&& spec_costume_app13(c).id == spec_expected_identifier()
    &&& spec_costume_app13(c).resource_type == EXPECTED_APP13_RESOURCE_TYPE
    &&& spec_costume_app13(c).resource_id == EXPECTED_APP13_RESOURCE_ID
    &&& spec_costume_app13(c).resource_name == spec_expected_resource_name()
}

impl CostumeSave {
    /// Parses a buffer as a costume save: frames the JPEG, requires exactly
    /// one APP13 segment, and checks its four identity fields, reporting
    /// the first mismatch with the observed value.
    pub fn parse(bytes: &[u8]) -> (r: Result<CostumeSave, CostumeParseError>)
        ensures
            ({
                match r {
                    Ok(cs) => {
                        &&& spec_parse(bytes@) matches Ok(ss) && cs.0@ == ss
                        &&& spec_costume_wf(cs)
                    },
                    Err(e) => match e {
                        CostumeParseError::JpegParseError(pe) => spec_parse(bytes@) == Err::<
                            Seq<SegmentModel>,
                            ParseError,
                        >(pe),
                        CostumeParseError::InvalidApp13SegmentCount { count } => {
                            &&& spec_parse(bytes@) matches Ok(ss)
                            &&& spec_positions_of(ss, JpegSegmentType::APP13).len() == count
                            &&& count != 1
                        },
                        CostumeParseError::InvalidApp13SegmentId { actual } => {
                            &&& spec_parse(bytes@) matches Ok(ss)
                            &&& spec_positions_of(ss, JpegSegmentType::APP13).len() == 1
                            &&& ss[spec_positions_of(ss, JpegSegmentType::APP13)[0]].app13
                                matches Some(p) && actual@ == p.id && p.id
                                != spec_expected_identifier()
                        },
                        CostumeParseError::InvalidApp13ResourceType { actual } => {
                            &&& spec_parse(bytes@) matches Ok(ss)
                            &&& spec_positions_of(ss, JpegSegmentType::APP13).len() == 1
                            &&& ss[spec_positions_of(ss, JpegSegmentType::APP13)[0]].app13
                                matches Some(p) && p.id == spec_expected_identifier() && actual
                                == p.resource_type && p.resource_type
                                != EXPECTED_APP13_RESOURCE_TYPE
                        },
                        CostumeParseError::InvalidApp13ResourceId { actual } => {
                            &&& spec_parse(bytes@) matches Ok(ss)
                            &&& spec_positions_of(ss, JpegSegmentType::APP13).len() == 1
                            &&& ss[spec_positions_of(ss, JpegSegmentType::APP13)[0]].app13
                                matches Some(p) && p.id == spec_expected_identifier()
                                && p.resource_type == EXPECTED_APP13_RESOURCE_TYPE && actual
                                == p.resource_id && p.resource_id != EXPECTED_APP13_RESOURCE_ID
                        },
                        CostumeParseError::InvalidApp13ResourceName { actual } => {
                            &&& spec_parse(bytes@) matches Ok(ss)
                            &&& spec_positions_of(ss, JpegSegmentType::APP13).len() == 1
                            &&& ss[spec_positions_of(ss, JpegSegmentType::APP13)[0]].app13
                                matches Some(p) && p.id == spec_expected_identifier()
                                && p.resource_type == EXPECTED_APP13_RESOURCE_TYPE
                                && p.resource_id == EXPECTED_APP13_RESOURCE_ID && actual@
                                == p.resource_name && p.resource_name
                                != spec_expected_resource_name()
                        },
                        CostumeParseError::InvalidFileName => false,
                    },
                }
            }),
    {
        let jpeg = match Jpeg::parse(bytes) {
            Ok(j) => j,
            Err(e) => {
                return Err(CostumeParseError::JpegParseError(e));
            },
        };
        proof {
            crate::jpeg::lemma_parse_segments_shape(bytes@, 0);
            crate::jpeg::lemma_positions_bounds(jpeg@, JpegSegmentType::APP13);
        }
        let ghost ps = spec_positions_of(jpeg@, JpegSegmentType::APP13);
        {
            let app13_segments = match jpeg.get_segment(JpegSegmentType::APP13) {
                None => {
                    return Err(CostumeParseError::InvalidApp13SegmentCount { count: 0 });
                },
                Some(v) => v,
            };
            if app13_segments.len() != 1 {
                return Err(
                    CostumeParseError::InvalidApp13SegmentCount { count: app13_segments.len() },
                );
            }
            let seg: &JpegSegment = app13_segments[0];
            proof {
                assert(seg@ == jpeg@[ps[0]]);
                assert(jpeg@[ps[0]].segment_type == JpegSegmentType::APP13);
                assert(spec_parsed_shape(jpeg@[ps[0]]));
            }
            match &seg.app13_payload {
                Some(p) => {
                    let expected_id = expected_identifier();
                    if !bytes_eq(p.id.as_slice(), expected_id.as_slice()) {
                        let actual = copy_range(p.id.as_slice(), 0, p.id.len());
                        return Err(CostumeParseError::InvalidApp13SegmentId { actual });
                    }
                    if p.resource_type != EXPECTED_APP13_RESOURCE_TYPE {
                        return Err(
                            CostumeParseError::InvalidApp13ResourceType {
                                actual: p.resource_type,
                            },
                        );
                    }
                    if p.resource_id != EXPECTED_APP13_RESOURCE_ID {
                        return Err(
                            CostumeParseError::InvalidApp13ResourceId { actual: p.resource_id },
                        );
                    }
                    let mut expected_name: Vec<u8> = Vec::new();
                    expected_name.push(0);
                    expected_name.push(0);
                    proof {
                        assert(expected_name@ =~= spec_expected_resource_name());
                    }
                    if !bytes_eq(p.resource_name.as_slice(), expected_name.as_slice()) {
                        let actual = copy_range(
                            p.resource_name.as_slice(),
                            0,
                            p.resource_name.len(),
                        );
                        return Err(CostumeParseError::InvalidApp13ResourceName { actual });
                    }
                },
                None => {
                    // unreachable: a parsed APP13 segment always carries a
                    // decoded payload
                    proof {
                        assert(false);
                    }
                    return Err(CostumeParseError::InvalidApp13SegmentCount { count: 1 });
                },
            }
        }
        Ok(CostumeSave(jpeg))
    }
}


/// The value bytes of the dataset at one positional slot under one
/// record/dataset key, if the key holds that many datasets.
pub open spec fn spec_slot(p: App13Model, record_number: u8, dataset_number: u8, idx: int) -> Option<
    Seq<u8>,
> {
    match spec_find_group(p.datasets, spec_dataset_key(record_number, dataset_number)) {
        None => None,
        Some(g) => if 0 <= idx < g.sets.len() {
            Some(g.sets[idx].data)
        } else {
            None
        },
    }
}

/// The four costume fields of an APP13 payload, decoded from their fixed
/// slots; `None` when a slot is missing or its bytes are not UTF-8.
pub open spec fn spec_metadata_model(p: App13Model) -> Option<
    (Seq<char>, Seq<char>, Seq<char>, Seq<char>),
> {
    let a = spec_slot(p, APP13_RECORD_APP, APP13_RECORD_APP_CAPTION, ACCOUNT_NAME_INDEX as int);
    let c = spec_slot(p, APP13_RECORD_APP, APP13_RECORD_APP_CAPTION, CHARACTER_NAME_INDEX as int);
    let h = spec_slot(p, APP13_RECORD_APP, APP13_RECORD_APP_CAPTION, COSTUME_HASH_INDEX as int);
    let sp = spec_slot(
        p,
        APP13_RECORD_APP,
        APP13_RECORD_APP_OBJECT_DATA_PREVIEW,
        COSTUME_SPEC_INDEX as int,
    );
    if a is Some && c is Some && h is Some && sp is Some && vstd::utf8::valid_utf8(a.unwrap())
        && vstd::utf8::valid_utf8(c.unwrap()) && vstd::utf8::valid_utf8(h.unwrap())
        && vstd::utf8::valid_utf8(sp.unwrap()) {
        Some(
            (
                vstd::utf8::decode_utf8(a.unwrap()),
                vstd::utf8::decode_utf8(c.unwrap()),
                vstd::utf8::decode_utf8(h.unwrap()),
                vstd::utf8::decode_utf8(sp.unwrap()),
            ),
        )
    } else {
        None
    }
}

/// Relies on `String::from_utf8`: it succeeds exactly on valid UTF-8 and
/// the resulting string decodes those bytes.
#[verifier::external_body]
fn string_from_utf8(v: Vec<u8>) -> (r: Option<String>)
    ensures
        (r is Some) == vstd::utf8::valid_utf8(v@),
        r matches Some(s) ==> s@ == vstd::utf8::decode_utf8(v@),
{
    String::from_utf8(v).ok()
}

impl CostumeSave {
    /// Reads the four costume fields from their fixed dataset slots,
    /// validating that each slot exists and holds UTF-8.
    pub fn get_metadata(&self) -> (r: Option<CostumeMetadata>)
        requires
            spec_costume_wf(*self),
        ensures
            ({
                let model = spec_metadata_model(spec_costume_app13(*self));
                match r {
                    Some(m) => model == Some(
                        (m.account_name@, m.character_name@, m.hash@, m.spec@),
                    ),
                    None => model is None,
                }
            }),
    {
        proof {
            crate::jpeg::lemma_positions_bounds(self.0@, JpegSegmentType::APP13);
        }
        let ghost ps = spec_positions_of(self.0@, JpegSegmentType::APP13);
        let app13_segments = match self.0.get_segment(JpegSegmentType::APP13) {
            Some(v) => v,
            None => {
                // unreachable: a well-formed save holds one APP13 segment
                proof {
                    assert(false);
                }
                return None;
            },
        };
        let seg: &JpegSegment = app13_segments[0];
        proof {
            assert(seg@ == self.0@[ps[0]]);
        }
        match &seg.app13_payload {
            Some(p) => {
                let ghost pm = spec_costume_app13(*self);
                proof {
                    assert(p@ == pm);
                }
                let caption = match p.get_datasets(APP13_RECORD_APP, APP13_RECORD_APP_CAPTION) {
                    Some(c) => c,
                    None => {
                        return None;
                    },
                };
                if caption.len() < 3 {
                    return None;
                }
                let preview = match p.get_datasets(
                    APP13_RECORD_APP,
                    APP13_RECORD_APP_OBJECT_DATA_PREVIEW,
                ) {
                    Some(c) => c,
                    None => {
                        return None;
                    },
                };
                if preview.len() < 1 {
                    return None;
                }
                proof {
                    assert(caption@.map_values(|d: crate::app13::IptcDataset| d@)[0]
                        == caption@[0]@);
                    assert(caption@.map_values(|d: crate::app13::IptcDataset| d@)[1]
                        == caption@[1]@);
                    assert(caption@.map_values(|d: crate::app13::IptcDataset| d@)[2]
                        == caption@[2]@);
                    assert(preview@.map_values(|d: crate::app13::IptcDataset| d@)[0]
                        == preview@[0]@);
                }
                let account_bytes = copy_range(caption[0].data.as_slice(), 0, caption[0].data.len());
                let character_bytes = copy_range(
                    caption[1].data.as_slice(),
                    0,
                    caption[1].data.len(),
                );
                let hash_bytes = copy_range(caption[2].data.as_slice(), 0, caption[2].data.len());
                let spec_bytes = copy_range(preview[0].data.as_slice(), 0, preview[0].data.len());
                proof {
                    assert(account_bytes@ =~= caption@[0]@.data);
                    assert(character_bytes@ =~= caption@[1]@.data);
                    assert(hash_bytes@ =~= caption@[2]@.data);
                    assert(spec_bytes@ =~= preview@[0]@.data);
                }
                let account_name = match string_from_utf8(account_bytes) {
                    Some(t) => t,
                    None => {
                        return None;
                    },
                };
                let character_name = match string_from_utf8(character_bytes) {
                    Some(t) => t,
                    None => {
                        return None;
                    },
                };
                let hash = match string_from_utf8(hash_bytes) {
                    Some(t) => t,
                    None => {
                        return None;
                    },
                };
                let spec = match string_from_utf8(spec_bytes) {
                    Some(t) => t,
                    None => {
                        return None;
                    },
                };
                Some(CostumeMetadata { account_name, character_name, hash, spec })
            },
            None => {
                // unreachable: a well-formed save's APP13 segment carries a
                // decoded payload
                proof {
                    assert(false);
                }
                None
            },
        }
    }
}


/// The slots whose presence `update_metadata` relies on: three caption
/// datasets and one preview dataset.
pub open spec fn spec_costume_slots_present(c: CostumeSave) -> bool {
    &&& spec_slot(
        spec_costume_app13(c),
        APP13_RECORD_APP,
        APP13_RECORD_APP_CAPTION,
        COSTUME_HASH_INDEX as int,
    ) is Some
    &&& spec_slot(
        spec_costume_app13(c),
        APP13_RECORD_APP,
        APP13_RECORD_APP_OBJECT_DATA_PREVIEW,
        COSTUME_SPEC_INDEX as int,
    ) is Some
}

/// Rewriting the value bytes inside one APP13 segment's payload keeps a
/// container well-formed, provided the new payload still fits its length
/// fields: the dataset skeleton, every other segment and all kinds are
/// unchanged. Together with `update_metadata`'s contract this carries
/// well-formedness, and with it the serialize/parse round trip, across an
/// edit whose new values fit the wire format's length fields.
pub proof fn lemma_update_keeps_wf_container(
    ss0: Seq<SegmentModel>,
    ss1: Seq<SegmentModel>,
    pos: int,
)
    requires
        0 <= pos < ss0.len(),
        ss1.len() == ss0.len(),
        forall|i: int| 0 <= i < ss0.len() ==> (#[trigger] ss0[i]).segment_type
            == ss1[i].segment_type,
        forall|i: int| 0 <= i < ss0.len() && i != pos ==> #[trigger] ss1[i] == ss0[i],
        ss1[pos].payload == ss0[pos].payload,
        ss1[pos].additional_data == ss0[pos].additional_data,
        ss0[pos].segment_type == JpegSegmentType::APP13,
        ss0[pos].app13 is Some,
        ss1[pos].app13 is Some,
        crate::app13::spec_same_dataset_layout(ss0[pos].app13.unwrap(), ss1[pos].app13.unwrap()),
        crate::jpeg::spec_wf_container(ss0),
        crate::app13::spec_app13_sizes_fit(ss1[pos].app13.unwrap()),
        crate::app13::spec_encode_app13(ss1[pos].app13.unwrap()).len() + 2 <= 0xFFFF,
    ensures
        crate::jpeg::spec_wf_container(ss1),
{
    let p0m = ss0[pos].app13.unwrap();
    let p1m = ss1[pos].app13.unwrap();
    assert(crate::jpeg::spec_wf_segment(ss0[pos]));
    assert(crate::app13::spec_wf_app13(p0m));
    assert(crate::app13::spec_wf_groups(p1m.datasets)) by {
        let gs0 = p0m.datasets;
        let gs1 = p1m.datasets;
        assert forall|i: int| 0 <= i < gs1.len() implies (#[trigger] gs1[i].sets.len()) >= 1 by {
            assert(gs1[i].sets.len() == gs0[i].sets.len());
        }
        assert forall|i: int, j: int| 0 <= i < j < gs1.len() implies gs1[i].key < gs1[j].key by {
            assert(gs1[i].key == gs0[i].key);
            assert(gs1[j].key == gs0[j].key);
        }
        assert forall|i: int, j: int|
            0 <= i < gs1.len() && 0 <= j < gs1[i].sets.len() implies spec_dataset_key(
            (#[trigger] gs1[i].sets[j]).record_number,
            gs1[i].sets[j].dataset_number,
        ) == gs1[i].key by {
            assert(gs1[i].sets[j].record_number == gs0[i].sets[j].record_number);
            assert(gs1[i].sets[j].dataset_number == gs0[i].sets[j].dataset_number);
            assert(spec_dataset_key(
                gs0[i].sets[j].record_number,
                gs0[i].sets[j].dataset_number,
            ) == gs0[i].key);
        }
    }
    assert(crate::jpeg::spec_wf_segment(ss1[pos]));
    assert forall|i: int| 0 <= i < ss1.len() implies crate::jpeg::spec_wf_segment(
        #[trigger] ss1[i],
    ) by {
        if i != pos {
            assert(ss1[i] == ss0[i]);
            assert(crate::jpeg::spec_wf_segment(ss0[i]));
        }
    }
    assert forall|i: int|
        0 <= i < ss1.len() && (#[trigger] ss1[i]).segment_type == JpegSegmentType::SOS implies i + 1
        < ss1.len() && !crate::segment::spec_kind_is_restart(ss1[i + 1].segment_type) by {
        assert(ss0[i].segment_type == JpegSegmentType::SOS);
        assert(i + 1 < ss0.len());
        assert(ss1[i + 1].segment_type == ss0[i + 1].segment_type);
    }
}

/// Overwrites the value bytes of one existing slot under the application
/// record with the UTF-8 bytes of the given text, leaving the dataset
/// skeleton, every other slot's bytes, every slot count, and the header
/// fields unchanged.
fn set_slot(p: &mut JpegApp13Payload, dataset_number: u8, index: usize, text: &str)
    requires
        spec_slot(old(p)@, APP13_RECORD_APP, dataset_number, index as int) is Some,
    ensures
        crate::app13::spec_same_dataset_layout(old(p)@, final(p)@),
        spec_slot(final(p)@, APP13_RECORD_APP, dataset_number, index as int) == Some(
            vstd::utf8::encode_utf8(text@),
        ),
        forall|rn: u8, dn: u8, ix: int|
            !(rn == APP13_RECORD_APP && dn == dataset_number && ix == index) ==> #[trigger] spec_slot(
                final(p)@,
                rn,
                dn,
                ix,
            ) == spec_slot(old(p)@, rn, dn, ix),
        forall|rn: u8, dn: u8, ix: int|
            (#[trigger] spec_slot(final(p)@, rn, dn, ix) is Some) == (spec_slot(
                old(p)@,
                rn,
                dn,
                ix,
            ) is Some),
        ({
            let gi = crate::app13::spec_find_group_index(
                old(p)@.datasets,
                spec_dataset_key(APP13_RECORD_APP, dataset_number),
            );
            forall|g: int, s: int|
                0 <= g < old(p)@.datasets.len() && 0 <= s < old(p)@.datasets[g].sets.len() && !(g
                    == gi && s == index) ==> (#[trigger] final(p)@.datasets[g].sets[s]).data == old(
                    p,
                )@.datasets[g].sets[s].data
        }),
{
    let ghost p0 = p@;
    let ghost k = spec_dataset_key(APP13_RECORD_APP, dataset_number);
    let ghost gs = p0.datasets;
    proof {
        crate::app13::lemma_find_group_index(gs, k);
    }
    let ghost gi = crate::app13::spec_find_group_index(gs, k);
    let text_bytes = text.as_bytes();
    let data = copy_range(text_bytes, 0, text_bytes.len());
    proof {
        assert(data@ =~= text.spec_bytes());
    }
    let updated = p.set_dataset_data(APP13_RECORD_APP, dataset_number, index, data);
    proof {
        assert(updated);
        let p1 = p@;
        let gs1 = p1.datasets;
        assert(gs1 == gs.update(
            gi,
            crate::app13::GroupModel {
                key: gs[gi].key,
                sets: gs[gi].sets.update(
                    index as int,
                    crate::app13::DatasetModel {
                        record_number: gs[gi].sets[index as int].record_number,
                        dataset_number: gs[gi].sets[index as int].dataset_number,
                        data: data@,
                    },
                ),
            },
        ));
        assert(gs1.len() == gs.len());
        assert forall|i: int| 0 <= i < gs.len() implies (#[trigger] gs[i]).key == gs1[i].key by {}
        assert forall|rn: u8, dn: u8, ix: int| true implies {
            &&& (!(rn == APP13_RECORD_APP && dn == dataset_number && ix == index)
                ==> #[trigger] spec_slot(p1, rn, dn, ix) == spec_slot(p0, rn, dn, ix))
            &&& ((spec_slot(p1, rn, dn, ix) is Some) == (spec_slot(p0, rn, dn, ix) is Some))
        } by {
            let k2 = spec_dataset_key(rn, dn);
            crate::app13::lemma_find_group_index_same_keys(gs, gs1, k2);
            crate::app13::lemma_find_group_index(gs, k2);
            crate::app13::lemma_find_group_index(gs1, k2);
            let i2 = crate::app13::spec_find_group_index(gs, k2);
            if i2 < gs.len() {
                if i2 == gi && k2 == k {
                    assert(gs1[i2].sets.len() == gs[i2].sets.len());
                    if !(rn == APP13_RECORD_APP && dn == dataset_number) {
                        // distinct record/dataset pairs have distinct keys
                        assert(rn * 256 + dn == APP13_RECORD_APP * 256 + dataset_number);
                        assert(rn == APP13_RECORD_APP && dn == dataset_number);
                    }
                } else {
                    assert(gs1[i2] == gs[i2]);
                }
            }
        }
        assert(spec_slot(p1, APP13_RECORD_APP, dataset_number, index as int) == Some(data@)) by {
            crate::app13::lemma_find_group_index_same_keys(gs, gs1, k);
            crate::app13::lemma_find_group_index(gs1, k);
        }
        // the dataset skeleton is untouched: only one data field changed
        assert forall|g: int, s: int|
            0 <= g < gs.len() && 0 <= s < gs[g].sets.len() implies (
        #[trigger] gs1[g].sets[s]).record_number == gs[g].sets[s].record_number
            && gs1[g].sets[s].dataset_number == gs[g].sets[s].dataset_number by {
            if g != gi {
                assert(gs1[g] == gs[g]);
            }
        }
        assert forall|g: int|
            0 <= g < gs.len() implies (#[trigger] gs1[g]).sets.len() == gs[g].sets.len() by {
            if g != gi {
                assert(gs1[g] == gs[g]);
            }
        }
        assert(crate::app13::spec_same_dataset_layout(p0, p1));
        assert forall|g: int, s: int|
            0 <= g < gs.len() && 0 <= s < gs[g].sets.len() && !(g == gi && s == index) implies (
        #[trigger] gs1[g].sets[s]).data == gs[g].sets[s].data by {
            if g != gi {
                assert(gs1[g] == gs[g]);
            }
        }
    }
}

/// Applies a metadata patch to a decoded APP13 payload: each field present
/// in the patch overwrites its slot's value bytes; the dataset skeleton and
/// every other byte stay as they were.
#[verifier::rlimit(100)]
#[verifier::spinoff_prover]
fn apply_updates(p: &mut JpegApp13Payload, updates: &UpdateCostumeMetadata)
    requires
        spec_slot(
            old(p)@,
            APP13_RECORD_APP,
            APP13_RECORD_APP_CAPTION,
            COSTUME_HASH_INDEX as int,
        ) is Some,
        spec_slot(
            old(p)@,
            APP13_RECORD_APP,
            APP13_RECORD_APP_OBJECT_DATA_PREVIEW,
            COSTUME_SPEC_INDEX as int,
        ) is Some,
    ensures
        crate::app13::spec_same_dataset_layout(old(p)@, final(p)@),
        spec_slot(final(p)@, APP13_RECORD_APP, APP13_RECORD_APP_CAPTION, ACCOUNT_NAME_INDEX as int)
            == (match updates.account_name {
            Some(ref t) => Some(vstd::utf8::encode_utf8(t@)),
            None => spec_slot(
                old(p)@,
                APP13_RECORD_APP,
                APP13_RECORD_APP_CAPTION,
                ACCOUNT_NAME_INDEX as int,
            ),
        }),
        spec_slot(final(p)@, APP13_RECORD_APP, APP13_RECORD_APP_CAPTION, CHARACTER_NAME_INDEX as int)
            == (match updates.character_name {
            Some(ref t) => Some(vstd::utf8::encode_utf8(t@)),
            None => spec_slot(
                old(p)@,
                APP13_RECORD_APP,
                APP13_RECORD_APP_CAPTION,
                CHARACTER_NAME_INDEX as int,
            ),
        }),
        spec_slot(final(p)@, APP13_RECORD_APP, APP13_RECORD_APP_CAPTION, COSTUME_HASH_INDEX as int)
            == (match updates.hash {
            Some(ref t) => Some(vstd::utf8::encode_utf8(t@)),
            None => spec_slot(
                old(p)@,
                APP13_RECORD_APP,
                APP13_RECORD_APP_CAPTION,
                COSTUME_HASH_INDEX as int,
            ),
        }),
        spec_slot(
            final(p)@,
            APP13_RECORD_APP,
            APP13_RECORD_APP_OBJECT_DATA_PREVIEW,
            COSTUME_SPEC_INDEX as int,
        ) == (match updates.spec {
            Some(ref t) => Some(vstd::utf8::encode_utf8(t@)),
            None => spec_slot(
                old(p)@,
                APP13_RECORD_APP,
                APP13_RECORD_APP_OBJECT_DATA_PREVIEW,
                COSTUME_SPEC_INDEX as int,
            ),
        }),
        forall|rn: u8, dn: u8, ix: int|
            !(rn == APP13_RECORD_APP && dn == APP13_RECORD_APP_CAPTION && 0 <= ix < 3) && !(rn
                == APP13_RECORD_APP && dn == APP13_RECORD_APP_OBJECT_DATA_PREVIEW && ix == 0)
                ==> #[trigger] spec_slot(final(p)@, rn, dn, ix) == spec_slot(old(p)@, rn, dn, ix),
        forall|rn: u8, dn: u8, ix: int|
            (#[trigger] spec_slot(final(p)@, rn, dn, ix) is Some) == (spec_slot(
                old(p)@,
                rn,
                dn,
                ix,
            ) is Some),
        ({
            let gi_caption = crate::app13::spec_find_group_index(
                old(p)@.datasets,
                spec_dataset_key(APP13_RECORD_APP, APP13_RECORD_APP_CAPTION),
            );
            let gi_preview = crate::app13::spec_find_group_index(
                old(p)@.datasets,
                spec_dataset_key(APP13_RECORD_APP, APP13_RECORD_APP_OBJECT_DATA_PREVIEW),
            );
            forall|g: int, s: int|
                0 <= g < old(p)@.datasets.len() && 0 <= s < old(p)@.datasets[g].sets.len() && !(g
                    == gi_caption && 0 <= s < 3) && !(g == gi_preview && s == 0) ==> (
                #[trigger] final(p)@.datasets[g].sets[s]).data == old(p)@.datasets[g].sets[s].data
        }),
{
    let ghost payload0 = p@;
    match &updates.account_name {
        Some(account_name) => {
            set_slot(p, APP13_RECORD_APP_CAPTION, ACCOUNT_NAME_INDEX, account_name.as_str());
        },
        None => {},
    }
    let ghost pm1 = p@;
    proof {
        assert(crate::app13::spec_same_dataset_layout(payload0, pm1));
    }
    match &updates.character_name {
        Some(character_name) => {
            set_slot(p, APP13_RECORD_APP_CAPTION, CHARACTER_NAME_INDEX, character_name.as_str());
        },
        None => {},
    }
    let ghost pm2 = p@;
    proof {
        assert(crate::app13::spec_same_dataset_layout(pm1, pm2));
        crate::app13::lemma_same_layout_trans(payload0, pm1, pm2);
    }
    match &updates.hash {
        Some(hash) => {
            set_slot(p, APP13_RECORD_APP_CAPTION, COSTUME_HASH_INDEX, hash.as_str());
        },
        None => {},
    }
    let ghost pm3 = p@;
    proof {
        assert(crate::app13::spec_same_dataset_layout(pm2, pm3));
        crate::app13::lemma_same_layout_trans(payload0, pm2, pm3);
    }
    match &updates.spec {
        Some(costume_spec) => {
            set_slot(p, APP13_RECORD_APP_OBJECT_DATA_PREVIEW, COSTUME_SPEC_INDEX, costume_spec.as_str());
        },
        None => {},
    }
    let ghost pm4 = p@;
    proof {
        assert(crate::app13::spec_same_dataset_layout(pm3, pm4));
        crate::app13::lemma_same_layout_trans(payload0, pm3, pm4);
        // the group positions of the two bound keys never move, so the
        // per-step frames compose position by position
        let kcap = spec_dataset_key(APP13_RECORD_APP, APP13_RECORD_APP_CAPTION);
        let kprev = spec_dataset_key(APP13_RECORD_APP, APP13_RECORD_APP_OBJECT_DATA_PREVIEW);
        crate::app13::lemma_find_group_index_same_keys(payload0.datasets, pm1.datasets, kcap);
        crate::app13::lemma_find_group_index_same_keys(payload0.datasets, pm2.datasets, kcap);
        crate::app13::lemma_find_group_index_same_keys(payload0.datasets, pm3.datasets, kprev);
        let gi_caption = crate::app13::spec_find_group_index(payload0.datasets, kcap);
        let gi_preview = crate::app13::spec_find_group_index(payload0.datasets, kprev);
        assert forall|g: int, s: int|
            0 <= g < payload0.datasets.len() && 0 <= s < payload0.datasets[g].sets.len() && !(g
                == gi_caption && 0 <= s < 3) && !(g == gi_preview && s == 0) implies (
        #[trigger] pm4.datasets[g].sets[s]).data == payload0.datasets[g].sets[s].data by {
            assert(pm1.datasets[g].sets[s].data == payload0.datasets[g].sets[s].data);
            assert(pm2.datasets[g].sets[s].data == pm1.datasets[g].sets[s].data);
            assert(pm3.datasets[g].sets[s].data == pm2.datasets[g].sets[s].data);
        }
    }
}

impl CostumeSave {
    /// Overwrites the costume fields present in the patch with the UTF-8
    /// bytes of their new text, of any length: every size field is
    /// recomputed at serialization. Fields absent from the patch, all other
    /// datasets, and all other segments stay as they were.
    #[verifier::rlimit(100)]
    #[verifier::spinoff_prover]
    pub fn update_metadata(&mut self, updates: UpdateCostumeMetadata)
        requires
            spec_costume_wf(*old(self)),
            spec_costume_slots_present(*old(self)),
        ensures
            spec_costume_wf(*final(self)),
            spec_costume_slots_present(*final(self)),
            final(self).0@.len() == old(self).0@.len(),
            spec_app13_pos(*final(self)) == spec_app13_pos(*old(self)),
            forall|i: int|
                0 <= i < old(self).0@.len() && i != spec_app13_pos(*old(self))
                    ==> final(self).0@[i] == old(self).0@[i],
            ({
                let p0 = spec_costume_app13(*old(self));
                let p1 = spec_costume_app13(*final(self));
                &&& spec_slot(p1, APP13_RECORD_APP, APP13_RECORD_APP_CAPTION, ACCOUNT_NAME_INDEX as int)
                    == (match updates.account_name {
                    Some(t) => Some(vstd::utf8::encode_utf8(t@)),
                    None => spec_slot(
                        p0,
                        APP13_RECORD_APP,
                        APP13_RECORD_APP_CAPTION,
                        ACCOUNT_NAME_INDEX as int,
                    ),
                })
                &&& spec_slot(
                    p1,
                    APP13_RECORD_APP,
                    APP13_RECORD_APP_CAPTION,
                    CHARACTER_NAME_INDEX as int,
                ) == (match updates.character_name {
                    Some(t) => Some(vstd::utf8::encode_utf8(t@)),
                    None => spec_slot(
                        p0,
                        APP13_RECORD_APP,
                        APP13_RECORD_APP_CAPTION,
                        CHARACTER_NAME_INDEX as int,
                    ),
                })
                &&& spec_slot(p1, APP13_RECORD_APP, APP13_RECORD_APP_CAPTION, COSTUME_HASH_INDEX as int)
                    == (match updates.hash {
                    Some(t) => Some(vstd::utf8::encode_utf8(t@)),
                    None => spec_slot(
                        p0,
                        APP13_RECORD_APP,
                        APP13_RECORD_APP_CAPTION,
                        COSTUME_HASH_INDEX as int,
                    ),
                })
                &&& spec_slot(
                    p1,
                    APP13_RECORD_APP,
                    APP13_RECORD_APP_OBJECT_DATA_PREVIEW,
                    COSTUME_SPEC_INDEX as int,
                ) == (match updates.spec {
                    Some(t) => Some(vstd::utf8::encode_utf8(t@)),
                    None => spec_slot(
                        p0,
                        APP13_RECORD_APP,
                        APP13_RECORD_APP_OBJECT_DATA_PREVIEW,
                        COSTUME_SPEC_INDEX as int,
                    ),
                })
                &&& forall|rn: u8, dn: u8, ix: int|
                    !(rn == APP13_RECORD_APP && dn == APP13_RECORD_APP_CAPTION && 0 <= ix < 3) && !(
                    rn == APP13_RECORD_APP && dn == APP13_RECORD_APP_OBJECT_DATA_PREVIEW && ix
                        == 0) ==> #[trigger] spec_slot(p1, rn, dn, ix) == spec_slot(p0, rn, dn, ix)
            }),
            // the dataset skeleton survives: keys, entry counts and the
            // record/dataset numbers inside every dataset stay as they were
            crate::app13::spec_same_dataset_layout(
                spec_costume_app13(*old(self)),
                spec_costume_app13(*final(self)),
            ),
            // position by position, only the bound slots' value bytes change
            ({
                let p0 = spec_costume_app13(*old(self));
                let p1 = spec_costume_app13(*final(self));
                let gi_caption = crate::app13::spec_find_group_index(
                    p0.datasets,
                    spec_dataset_key(APP13_RECORD_APP, APP13_RECORD_APP_CAPTION),
                );
                let gi_preview = crate::app13::spec_find_group_index(
                    p0.datasets,
                    spec_dataset_key(APP13_RECORD_APP, APP13_RECORD_APP_OBJECT_DATA_PREVIEW),
                );
                forall|g: int, s: int|
                    0 <= g < p0.datasets.len() && 0 <= s < p0.datasets[g].sets.len() && !(g
                        == gi_caption && 0 <= s < 3) && !(g == gi_preview && s == 0) ==> (
                    #[trigger] p1.datasets[g].sets[s]).data == p0.datasets[g].sets[s].data
            }),
            // the APP13 segment's other fields survive, so
            // `lemma_update_keeps_wf_container` applies after an edit
            final(self).0@[spec_app13_pos(*old(self))].payload == old(self).0@[spec_app13_pos(
                *old(self),
            )].payload,
            final(self).0@[spec_app13_pos(*old(self))].additional_data == old(self).0@[
                spec_app13_pos(*old(self))
            ].additional_data,
    {
        let ghost ss0 = self.0@;
        let ghost pos_spec = spec_app13_pos(*self);
        proof {
            crate::jpeg::lemma_positions_bounds(ss0, JpegSegmentType::APP13);
        }
        // find the unique APP13 segment
        let mut pos: usize = 0;
        let mut found = false;
        while !found && pos < self.0.segments.len()
            invariant
                *self == *old(self),
                ss0 == self.0@,
                ss0.len() == self.0.segments@.len(),
                0 <= pos <= ss0.len(),
                0 <= pos_spec < ss0.len(),
                ss0[pos_spec].segment_type == JpegSegmentType::APP13,
                found ==> pos < ss0.len() && ss0[pos as int].segment_type
                    == JpegSegmentType::APP13,
                !found ==> forall|j: int|
                    0 <= j < pos ==> (#[trigger] ss0[j]).segment_type != JpegSegmentType::APP13,
            decreases ss0.len() - pos + (if found { 0int } else { 1int }),
        {
            if matches!(self.0.segments[pos].segment_type, JpegSegmentType::APP13) {
                found = true;
            } else {
                pos = pos + 1;
            }
        }
        proof {
            // the first segment of the APP13 kind stands at the recorded position
            assert(found) by {
                if !found {
                    assert(ss0[pos_spec].segment_type != JpegSegmentType::APP13);
                }
            }
            assert(pos < ss0.len() && ss0[pos as int].segment_type == JpegSegmentType::APP13);
            crate::jpeg::lemma_positions_complete(ss0, JpegSegmentType::APP13, pos as int);
            let ps = spec_positions_of(ss0, JpegSegmentType::APP13);
            let kk = choose|kk: int| 0 <= kk < ps.len() && ps[kk] == pos as int;
            assert(ps[kk] == ps[0]);
            assert(pos as int == pos_spec);
        }
        let ghost payload0 = ss0[pos as int].app13.unwrap();
        let mut seg = self.0.segments.remove(pos);
        match seg.app13_payload {
            Some(mut p) => {
                proof {
                    assert(p@ == payload0);
                }
                apply_updates(&mut p, &updates);
                seg.app13_payload = Some(p);
            },
            None => {
                // unreachable: a well-formed save's APP13 segment carries a
                // decoded payload
                proof {
                    assert(false);
                }
            },
        }
        self.0.segments.insert(pos, seg);
        proof {
            let ss1 = self.0@;
            assert(ss1.len() == ss0.len());
            assert forall|i: int| 0 <= i < ss0.len() implies (#[trigger] ss0[i]).segment_type
                == ss1[i].segment_type by {}
            // the index still matches: positions depend only on the kinds
            crate::jpeg::lemma_index_matches_same_types(self.0.segment_indices@, ss0, ss1);
            crate::jpeg::lemma_positions_same_types(ss0, ss1, JpegSegmentType::APP13);
            let p1m = ss1[pos as int].app13.unwrap();
            assert(crate::app13::spec_same_dataset_layout(payload0, p1m));
            assert(ss1[pos as int].payload == ss0[pos as int].payload);
            assert(ss1[pos as int].additional_data == ss0[pos as int].additional_data);
        }
    }
}


/// Semantic round trip: the bytes serialized from a well-formed costume
/// save parse back to exactly the same segments, so the costume metadata
/// read after the round trip equals the metadata read before it.
pub proof fn lemma_metadata_roundtrip(c: CostumeSave)
    requires
        spec_costume_wf(c),
        crate::jpeg::spec_wf_container(c.0@),
    ensures
        spec_parse(crate::jpeg::spec_serialize_segments(c.0@)) matches Ok(ss2) && ss2 == c.0@
            && spec_positions_of(ss2, JpegSegmentType::APP13).len() == 1 && spec_metadata_model(
            ss2[spec_positions_of(ss2, JpegSegmentType::APP13)[0]].app13.unwrap(),
        ) == spec_metadata_model(spec_costume_app13(c)),
{
    crate::jpeg::lemma_serialize_parse_roundtrip(c.0@);
}



} // verus!
