//! The closed set of JPEG segment kinds this codec understands, together with
//! the one-byte marker value that introduces each kind in a file.

use vstd::prelude::*;

verus! {

/// One JPEG segment kind per recognized marker byte: start/end of image, two
/// start-of-frame variants, Huffman and quantization tables, restart interval,
/// scan start, comment, the eight restart markers and the sixteen application
/// markers.
#[derive(PartialEq, Eq, Structural, Copy, Clone, Debug)]
pub enum JpegSegmentType {
    SOI,
    EOI,
    SOF0,
    SOF2,
    DHT,
    DQT,
    DRI,
    SOS,
    COM,
    RST0,
    RST1,
    RST2,
    RST3,
    RST4,
    RST5,
    RST6,
    RST7,
    APP0,
    APP1,
    APP2,
    APP3,
    APP4,
    APP5,
    APP6,
    APP7,
    APP8,
    APP9,
    APP10,
    APP11,
    APP12,
    APP13,
    APP14,
    APP15,
}

/// The marker byte written after the `0xFF` magic for each segment kind.
pub open spec fn spec_marker_value(t: JpegSegmentType) -> u8 {
    match t {
        JpegSegmentType::SOI => 0xD8,
        JpegSegmentType::EOI => 0xD9,
        JpegSegmentType::SOF0 => 0xC0,
        JpegSegmentType::SOF2 => 0xC2,
        JpegSegmentType::DHT => 0xC4,
        JpegSegmentType::DQT => 0xDB,
        JpegSegmentType::DRI => 0xDD,
        JpegSegmentType::SOS => 0xDA,
        JpegSegmentType::COM => 0xFE,
        JpegSegmentType::RST0 => 0xD0,
        JpegSegmentType::RST1 => 0xD1,
        JpegSegmentType::RST2 => 0xD2,
        JpegSegmentType::RST3 => 0xD3,
        JpegSegmentType::RST4 => 0xD4,
        JpegSegmentType::RST5 => 0xD5,
        JpegSegmentType::RST6 => 0xD6,
        JpegSegmentType::RST7 => 0xD7,
        JpegSegmentType::APP0 => 0xE0,
        JpegSegmentType::APP1 => 0xE1,
        JpegSegmentType::APP2 => 0xE2,
        JpegSegmentType::APP3 => 0xE3,
        JpegSegmentType::APP4 => 0xE4,
        JpegSegmentType::APP5 => 0xE5,
        JpegSegmentType::APP6 => 0xE6,
        JpegSegmentType::APP7 => 0xE7,
        JpegSegmentType::APP8 => 0xE8,
        JpegSegmentType::APP9 => 0xE9,
        JpegSegmentType::APP10 => 0xEA,
        JpegSegmentType::APP11 => 0xEB,
        JpegSegmentType::APP12 => 0xEC,
        JpegSegmentType::APP13 => 0xED,
        JpegSegmentType::APP14 => 0xEE,
        JpegSegmentType::APP15 => 0xEF,
    }
}

/// True when some segment kind is bound to the given marker byte.
pub open spec fn spec_marker_recognized(marker: u8) -> bool {
    marker == 0xD8 || marker == 0xD9 || marker == 0xC0 || marker == 0xC2
        || marker == 0xC4 || marker == 0xDB || marker == 0xDD || marker == 0xDA
        || marker == 0xFE || (0xD0 <= marker && marker <= 0xD7)
        || (0xE0 <= marker && marker <= 0xEF)
}

/// The kind bound to a recognized marker byte.
pub open spec fn spec_kind_of_marker(marker: u8) -> JpegSegmentType
    recommends
        spec_marker_recognized(marker),
{
    if marker == 0xD8 {
        JpegSegmentType::SOI
    } else if marker == 0xD9 {
        JpegSegmentType::EOI
    } else if marker == 0xC0 {
        JpegSegmentType::SOF0
    } else if marker == 0xC2 {
        JpegSegmentType::SOF2
    } else if marker == 0xC4 {
        JpegSegmentType::DHT
    } else if marker == 0xDB {
        JpegSegmentType::DQT
    } else if marker == 0xDD {
        JpegSegmentType::DRI
    } else if marker == 0xDA {
        JpegSegmentType::SOS
    } else if marker == 0xFE {
        JpegSegmentType::COM
    } else if marker == 0xD0 {
        JpegSegmentType::RST0
    } else if marker == 0xD1 {
        JpegSegmentType::RST1
    } else if marker == 0xD2 {
        JpegSegmentType::RST2
    } else if marker == 0xD3 {
        JpegSegmentType::RST3
    } else if marker == 0xD4 {
        JpegSegmentType::RST4
    } else if marker == 0xD5 {
        JpegSegmentType::RST5
    } else if marker == 0xD6 {
        JpegSegmentType::RST6
    } else if marker == 0xD7 {
        JpegSegmentType::RST7
    } else if marker == 0xE0 {
        JpegSegmentType::APP0
    } else if marker == 0xE1 {
        JpegSegmentType::APP1
    } else if marker == 0xE2 {
        JpegSegmentType::APP2
    } else if marker == 0xE3 {
        JpegSegmentType::APP3
    } else if marker == 0xE4 {
        JpegSegmentType::APP4
    } else if marker == 0xE5 {
        JpegSegmentType::APP5
    } else if marker == 0xE6 {
        JpegSegmentType::APP6
    } else if marker == 0xE7 {
        JpegSegmentType::APP7
    } else if marker == 0xE8 {
        JpegSegmentType::APP8
    } else if marker == 0xE9 {
        JpegSegmentType::APP9
    } else if marker == 0xEA {
        JpegSegmentType::APP10
    } else if marker == 0xEB {
        JpegSegmentType::APP11
    } else if marker == 0xEC {
        JpegSegmentType::APP12
    } else if marker == 0xED {
        JpegSegmentType::APP13
    } else if marker == 0xEE {
        JpegSegmentType::APP14
    } else {
        JpegSegmentType::APP15
    }
}

/// True for the kinds that carry a two-byte length prefix and a payload;
/// false for start/end-of-image and the eight restart markers, which stand
/// alone in the byte stream.
pub open spec fn spec_kind_has_length(t: JpegSegmentType) -> bool {
    !(t == JpegSegmentType::SOI || t == JpegSegmentType::EOI
        || spec_kind_is_restart(t))
}

/// True for the eight restart-marker kinds.
pub open spec fn spec_kind_is_restart(t: JpegSegmentType) -> bool {
    t == JpegSegmentType::RST0 || t == JpegSegmentType::RST1
        || t == JpegSegmentType::RST2 || t == JpegSegmentType::RST3
        || t == JpegSegmentType::RST4 || t == JpegSegmentType::RST5
        || t == JpegSegmentType::RST6 || t == JpegSegmentType::RST7
}

/// A recognized marker maps back to the kind it came from.
pub proof fn lemma_kind_of_marker_value(t: JpegSegmentType)
    ensures
        spec_marker_recognized(spec_marker_value(t)),
        spec_kind_of_marker(spec_marker_value(t)) == t,
{
}

/// The error produced when a marker byte matches no recognized segment kind.
#[derive(PartialEq, Eq, Structural, Copy, Clone, Debug)]
pub struct UnknownSegmentError {
    pub marker: u8,
}

impl JpegSegmentType {
    /// The marker byte written after the `0xFF` magic for this kind.
    pub fn marker_value(self) -> (r: u8)
        ensures
            r == spec_marker_value(self),
    {
        match self {
            JpegSegmentType::SOI => 0xD8,
            JpegSegmentType::EOI => 0xD9,
            JpegSegmentType::SOF0 => 0xC0,
            JpegSegmentType::SOF2 => 0xC2,
            JpegSegmentType::DHT => 0xC4,
            JpegSegmentType::DQT => 0xDB,
            JpegSegmentType::DRI => 0xDD,
            JpegSegmentType::SOS => 0xDA,
            JpegSegmentType::COM => 0xFE,
            JpegSegmentType::RST0 => 0xD0,
            JpegSegmentType::RST1 => 0xD1,
            JpegSegmentType::RST2 => 0xD2,
            JpegSegmentType::RST3 => 0xD3,
            JpegSegmentType::RST4 => 0xD4,
            JpegSegmentType::RST5 => 0xD5,
            JpegSegmentType::RST6 => 0xD6,
            JpegSegmentType::RST7 => 0xD7,
            JpegSegmentType::APP0 => 0xE0,
            JpegSegmentType::APP1 => 0xE1,
            JpegSegmentType::APP2 => 0xE2,
            JpegSegmentType::APP3 => 0xE3,
            JpegSegmentType::APP4 => 0xE4,
            JpegSegmentType::APP5 => 0xE5,
            JpegSegmentType::APP6 => 0xE6,
            JpegSegmentType::APP7 => 0xE7,
            JpegSegmentType::APP8 => 0xE8,
            JpegSegmentType::APP9 => 0xE9,
            JpegSegmentType::APP10 => 0xEA,
            JpegSegmentType::APP11 => 0xEB,
            JpegSegmentType::APP12 => 0xEC,
            JpegSegmentType::APP13 => 0xED,
            JpegSegmentType::APP14 => 0xEE,
            JpegSegmentType::APP15 => 0xEF,
        }
    }

    /// Maps a marker byte to its segment kind, or reports the byte as
    /// unrecognized.
    pub fn from_marker(marker: u8) -> (r: Result<JpegSegmentType, UnknownSegmentError>)
        ensures
            spec_marker_recognized(marker) ==> r == Ok::<JpegSegmentType, UnknownSegmentError>(
                spec_kind_of_marker(marker),
            ),
            !spec_marker_recognized(marker) ==> r == Err::<JpegSegmentType, UnknownSegmentError>(
                UnknownSegmentError { marker },
            ),
    {
        match marker {
            0xD8 => Ok(JpegSegmentType::SOI),
            0xD9 => Ok(JpegSegmentType::EOI),
            0xC0 => Ok(JpegSegmentType::SOF0),
            0xC2 => Ok(JpegSegmentType::SOF2),
            0xC4 => Ok(JpegSegmentType::DHT),
            0xDB => Ok(JpegSegmentType::DQT),
            0xDD => Ok(JpegSegmentType::DRI),
            0xDA => Ok(JpegSegmentType::SOS),
            0xFE => Ok(JpegSegmentType::COM),
            0xD0 => Ok(JpegSegmentType::RST0),
            0xD1 => Ok(JpegSegmentType::RST1),
            0xD2 => Ok(JpegSegmentType::RST2),
            0xD3 => Ok(JpegSegmentType::RST3),
            0xD4 => Ok(JpegSegmentType::RST4),
            0xD5 => Ok(JpegSegmentType::RST5),
            0xD6 => Ok(JpegSegmentType::RST6),
            0xD7 => Ok(JpegSegmentType::RST7),
            0xE0 => Ok(JpegSegmentType::APP0),
            0xE1 => Ok(JpegSegmentType::APP1),
            0xE2 => Ok(JpegSegmentType::APP2),
            0xE3 => Ok(JpegSegmentType::APP3),
            0xE4 => Ok(JpegSegmentType::APP4),
            0xE5 => Ok(JpegSegmentType::APP5),
            0xE6 => Ok(JpegSegmentType::APP6),
            0xE7 => Ok(JpegSegmentType::APP7),
            0xE8 => Ok(JpegSegmentType::APP8),
            0xE9 => Ok(JpegSegmentType::APP9),
            0xEA => Ok(JpegSegmentType::APP10),
            0xEB => Ok(JpegSegmentType::APP11),
            0xEC => Ok(JpegSegmentType::APP12),
            0xED => Ok(JpegSegmentType::APP13),
            0xEE => Ok(JpegSegmentType::APP14),
            0xEF => Ok(JpegSegmentType::APP15),
            _ => Err(UnknownSegmentError { marker }),
        }
    }

    /// True when this kind carries a two-byte length prefix and a payload.
    pub fn has_length(self) -> (r: bool)
        ensures
            r == spec_kind_has_length(self),
    {
        !matches!(
            self,
            JpegSegmentType::SOI | JpegSegmentType::EOI | JpegSegmentType::RST0
                | JpegSegmentType::RST1 | JpegSegmentType::RST2 | JpegSegmentType::RST3
                | JpegSegmentType::RST4 | JpegSegmentType::RST5 | JpegSegmentType::RST6
                | JpegSegmentType::RST7
        )
    }
}

} // verus!
