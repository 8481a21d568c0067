//! The JPEG segment framer: walks a byte buffer into an ordered sequence of
//! marker-delimited segments (scanning through the unbounded entropy-coded
//! scan data), keeps a kind-to-positions index over them, and re-linearizes
//! the segments with freshly computed length prefixes.

use vstd::prelude::*;

use crate::app13::{spec_decode_app13, spec_encode_app13, App13Model, JpegApp13Payload};
use crate::be::{spec_be16, spec_be16_bytes};
use crate::bytes_util::spec_find_byte;
use crate::segment::{
    spec_kind_has_length, spec_kind_of_marker, spec_marker_recognized, spec_marker_value,
    JpegSegmentType,
};

verus! {

/// The magic byte that precedes every segment marker.
pub const SEGMENT_MAGIC: u8 = 0xFF;

/// A framing failure, carrying the observed value and byte offset for
/// diagnostics.
#[derive(PartialEq, Eq, Structural, Copy, Clone, Debug)]
pub enum ParseError {
    /// A segment started with some byte other than the `0xFF` magic.
    InvalidSegmentMagic { magic: u8 },
    /// The marker byte matches no recognized segment kind.
    UnrecognizedSegmentMarker { marker: u8, offset: usize },
    /// The declared payload size reads past the end of the buffer.
    PayloadInterrupted { marker: u8, payload_size: u16, offset: usize },
    /// The bytes of a segment payload do not follow its structure.
    MalformedSegmentPayload { marker: u8, offset: usize },
    /// The buffer ended where more bytes were owed.
    UnexpectedEndOfInput { offset: usize },
}

/// Mathematical image of one segment: its kind, its raw payload if the kind
/// carries one, its decoded APP13 payload for the APP13 kind, and the raw
/// entropy-coded scan bytes for the scan kind.
#[verifier::ext_equal]
pub struct SegmentModel {
    pub segment_type: JpegSegmentType,
    pub payload: Option<Seq<u8>>,
    pub app13: Option<App13Model>,
    pub additional_data: Option<Seq<u8>>,
}

/// One JPEG segment as stored: the raw payload for most kinds, the decoded
/// resource block for APP13, and the raw scan bytes after a scan-start
/// payload.
pub struct JpegSegment {
    pub segment_type: JpegSegmentType,
    pub payload: Option<Vec<u8>>,
    pub app13_payload: Option<JpegApp13Payload>,
    pub additional_data: Option<Vec<u8>>,
}

impl View for JpegSegment {
    type V = SegmentModel;

    open spec fn view(&self) -> SegmentModel {
        SegmentModel {
            segment_type: self.segment_type,
            payload: match self.payload {
                Some(ref p) => Some(p@),
                None => None,
            },
            app13: match self.app13_payload {
                Some(ref p) => Some(p@),
                None => None,
            },
            additional_data: match self.additional_data {
                Some(ref t) => Some(t@),
                None => None,
            },
        }
    }
}

/// The wire bytes of one segment: magic and marker, then the length prefix
/// and payload for kinds that carry them (the length recomputed from the
/// payload), then the raw scan bytes where present. An APP13 segment's
/// payload is the encoding of its resource block.
pub open spec fn spec_serialize_segment(s: SegmentModel) -> Seq<u8> {
    let head = seq![SEGMENT_MAGIC, spec_marker_value(s.segment_type)];
    if s.segment_type == JpegSegmentType::APP13 {
        match s.app13 {
            Some(p) => {
                let enc = spec_encode_app13(p);
                head + spec_be16_bytes((enc.len() + 2) as u16) + enc
            },
            None => head,
        }
    } else {
        (match s.payload {
            Some(p) => head + spec_be16_bytes((p.len() + 2) as u16) + p,
            None => head,
        }) + (match s.additional_data {
            Some(t) => t,
            None => Seq::empty(),
        })
    }
}

/// The wire bytes of a segment sequence, in order.
pub open spec fn spec_serialize_segments(ss: Seq<SegmentModel>) -> Seq<u8>
    decreases ss.len(),
{
    if ss.len() == 0 {
        Seq::empty()
    } else {
        spec_serialize_segments(ss.drop_last()) + spec_serialize_segment(ss.last())
    }
}

/// True when the marker byte may stand after `0xFF` inside scan data: the
/// zero byte of a stuffed literal `0xFF`, or a restart marker.
pub open spec fn spec_scan_continuation(marker: u8) -> bool {
    marker == 0 || (0xD0 <= marker && marker <= 0xD7)
}

/// The scan-boundary scanner: accumulates bytes up to and including each
/// `0xFF`, keeps going when the byte after it is a stuffed zero or a restart
/// marker, and otherwise stops, handing back the accumulated bytes without
/// the final `0xFF` and the position of that `0xFF`, where the framer
/// resumes. `None` when the buffer ends before a terminating marker pair.
pub open spec fn spec_scan_tail(b: Seq<u8>, pos: int) -> Option<(Seq<u8>, int)>
    decreases b.len() - pos,
    via spec_scan_tail_decreases
{
    let f = spec_find_byte(b, pos, SEGMENT_MAGIC);
    if f >= b.len() - 1 {
        None
    } else if spec_scan_continuation(b[f + 1]) {
        match spec_scan_tail(b, f + 2) {
            None => None,
            Some((rest, end)) => Some((b.subrange(pos, f + 2) + rest, end)),
        }
    } else {
        Some((b.subrange(pos, f), f))
    }
}

#[via_fn]
proof fn spec_scan_tail_decreases(b: Seq<u8>, pos: int) {
    if 0 <= pos <= b.len() {
        crate::bytes_util::lemma_find_byte(b, pos, SEGMENT_MAGIC);
    }
}

/// The scanner only moves forward and stops within the buffer.
pub proof fn lemma_scan_tail_bounds(b: Seq<u8>, pos: int)
    requires
        0 <= pos <= b.len(),
    ensures
        spec_scan_tail(b, pos) matches Some((tail, end)) ==> pos <= end <= b.len() - 2,
    decreases b.len() - pos,
{
    crate::bytes_util::lemma_find_byte(b, pos, SEGMENT_MAGIC);
    let f = spec_find_byte(b, pos, SEGMENT_MAGIC);
    if f < b.len() - 1 && spec_scan_continuation(b[f + 1]) {
        lemma_scan_tail_bounds(b, f + 2);
    }
}

/// One segment parsed at `pos`: the segment and the position after it.
/// Requires a byte at `pos`; the outer loop stops at the end of the buffer.
pub open spec fn spec_parse_segment(b: Seq<u8>, pos: int) -> Result<(SegmentModel, int), ParseError>
    recommends
        0 <= pos < b.len(),
{
    let magic = b[pos];
    if magic != SEGMENT_MAGIC {
        Err(ParseError::InvalidSegmentMagic { magic })
    } else if pos + 1 >= b.len() {
        Err(ParseError::UnexpectedEndOfInput { offset: b.len() as usize })
    } else {
        let marker = b[pos + 1];
        if !spec_marker_recognized(marker) {
            Err(ParseError::UnrecognizedSegmentMarker { marker, offset: (pos + 1) as usize })
        } else {
            let kind = spec_kind_of_marker(marker);
            if !spec_kind_has_length(kind) {
                Ok(
                    (
                        SegmentModel {
                            segment_type: kind,
                            payload: None,
                            app13: None,
                            additional_data: None,
                        },
                        pos + 2,
                    ),
                )
            } else if pos + 4 > b.len() {
                Err(ParseError::UnexpectedEndOfInput { offset: b.len() as usize })
            } else {
                let declared = spec_be16(b[pos + 2], b[pos + 3]) as int;
                if declared < 2 {
                    Err(ParseError::MalformedSegmentPayload { marker, offset: (pos + 2) as usize })
                } else {
                    let psize = declared - 2;
                    let pstart = pos + 4;
                    if psize > 0 && pstart + psize > b.len() {
                        Err(
                            ParseError::PayloadInterrupted {
                                marker,
                                payload_size: psize as u16,
                                offset: pstart as usize,
                            },
                        )
                    } else if kind == JpegSegmentType::SOS {
                        match spec_scan_tail(b, pstart + psize) {
                            None => Err(
                                ParseError::UnexpectedEndOfInput { offset: b.len() as usize },
                            ),
                            Some((tail, end)) => Ok(
                                (
                                    SegmentModel {
                                        segment_type: kind,
                                        payload: Some(b.subrange(pstart, pstart + psize)),
                                        app13: None,
                                        additional_data: Some(tail),
                                    },
                                    end,
                                ),
                            ),
                        }
                    } else if kind == JpegSegmentType::APP13 {
                        match spec_decode_app13(b.subrange(pstart, pstart + psize)) {
                            Err(o) => Err(
                                ParseError::MalformedSegmentPayload {
                                    marker,
                                    offset: (pstart + o) as usize,
                                },
                            ),
                            Ok(p) => Ok(
                                (
                                    SegmentModel {
                                        segment_type: kind,
                                        payload: None,
                                        app13: Some(p),
                                        additional_data: None,
                                    },
                                    pstart + psize,
                                ),
                            ),
                        }
                    } else {
                        Ok(
                            (
                                SegmentModel {
                                    segment_type: kind,
                                    payload: if psize > 0 {
                                        Some(b.subrange(pstart, pstart + psize))
                                    } else {
                                        None
                                    },
                                    app13: None,
                                    additional_data: None,
                                },
                                pstart + psize,
                            ),
                        )
                    }
                }
            }
        }
    }
}

/// A parsed segment always advances the position and stays in the buffer.
pub proof fn lemma_parse_segment_advances(b: Seq<u8>, pos: int)
    requires
        0 <= pos < b.len(),
    ensures
        spec_parse_segment(b, pos) matches Ok((s, end)) ==> pos + 2 <= end <= b.len(),
{
    if b[pos] == SEGMENT_MAGIC && pos + 1 < b.len() && spec_marker_recognized(b[pos + 1]) {
        let kind = spec_kind_of_marker(b[pos + 1]);
        if spec_kind_has_length(kind) && pos + 4 <= b.len() {
            let declared = spec_be16(b[pos + 2], b[pos + 3]) as int;
            if declared >= 2 {
                let psize = declared - 2;
                if !(psize > 0 && pos + 4 + psize > b.len()) {
                    if kind == JpegSegmentType::SOS {
                        lemma_scan_tail_bounds(b, pos + 4 + psize);
                    }
                }
            }
        }
    }
}

/// Every segment parsed from `pos` to the end of the buffer, in order, or
/// the first framing failure.
pub open spec fn spec_parse_segments(b: Seq<u8>, pos: int) -> Result<Seq<SegmentModel>, ParseError>
    recommends
        0 <= pos,
    decreases b.len() - pos,
    when 0 <= pos
    via spec_parse_segments_decreases
{
    if pos >= b.len() {
        Ok(Seq::empty())
    } else {
        match spec_parse_segment(b, pos) {
            Err(e) => Err(e),
            Ok((s, end)) => match spec_parse_segments(b, end) {
                Err(e) => Err(e),
                Ok(rest) => Ok(seq![s] + rest),
            },
        }
    }
}

#[via_fn]
proof fn spec_parse_segments_decreases(b: Seq<u8>, pos: int) {
    if 0 <= pos < b.len() {
        lemma_parse_segment_advances(b, pos);
    }
}

/// The whole-buffer parse: the segment sequence of the buffer.
pub open spec fn spec_parse(b: Seq<u8>) -> Result<Seq<SegmentModel>, ParseError> {
    spec_parse_segments(b, 0)
}


/// The positions, in order, of the segments of one kind.
pub open spec fn spec_positions_of(ss: Seq<SegmentModel>, t: JpegSegmentType) -> Seq<int>
    decreases ss.len(),
{
    if ss.len() == 0 {
        Seq::empty()
    } else {
        let p = spec_positions_of(ss.drop_last(), t);
        if ss.last().segment_type == t {
            p.push(ss.len() - 1)
        } else {
            p
        }
    }
}

/// Every recorded position indexes a segment of the kind, in ascending
/// order.
pub proof fn lemma_positions_bounds(ss: Seq<SegmentModel>, t: JpegSegmentType)
    ensures
        forall|k: int|
            0 <= k < spec_positions_of(ss, t).len() ==> 0 <= #[trigger] spec_positions_of(ss, t)[k]
                < ss.len() && ss[spec_positions_of(ss, t)[k]].segment_type == t,
        forall|k1: int, k2: int|
            0 <= k1 < k2 < spec_positions_of(ss, t).len() ==> spec_positions_of(ss, t)[k1]
                < spec_positions_of(ss, t)[k2],
    decreases ss.len(),
{
    if ss.len() > 0 {
        lemma_positions_bounds(ss.drop_last(), t);
        assert(forall|k: int|
            0 <= k < spec_positions_of(ss.drop_last(), t).len() ==> ss.drop_last()[
                spec_positions_of(ss.drop_last(), t)[k]
            ] == ss[spec_positions_of(ss.drop_last(), t)[k]]);
    }
}

/// Every segment of a kind stands at one of the recorded positions.
pub proof fn lemma_positions_complete(ss: Seq<SegmentModel>, t: JpegSegmentType, i: int)
    requires
        0 <= i < ss.len(),
        ss[i].segment_type == t,
    ensures
        exists|k: int|
            0 <= k < spec_positions_of(ss, t).len() && spec_positions_of(ss, t)[k] == i,
    decreases ss.len(),
{
    if i == ss.len() - 1 {
        assert(spec_positions_of(ss, t).last() == i);
    } else {
        assert(ss.drop_last()[i] == ss[i]);
        lemma_positions_complete(ss.drop_last(), t, i);
        let k = choose|k: int|
            0 <= k < spec_positions_of(ss.drop_last(), t).len() && spec_positions_of(
                ss.drop_last(),
                t,
            )[k] == i;
        if ss.last().segment_type == t {
            assert(spec_positions_of(ss, t)[k] == i);
        } else {
            assert(spec_positions_of(ss, t)[k] == i);
        }
    }
}

/// Two segment sequences of the same length and kinds, position by
/// position, index identically.
pub proof fn lemma_positions_same_types(a: Seq<SegmentModel>, b: Seq<SegmentModel>, t: JpegSegmentType)
    requires
        a.len() == b.len(),
        forall|i: int| 0 <= i < a.len() ==> a[i].segment_type == b[i].segment_type,
    ensures
        spec_positions_of(a, t) == spec_positions_of(b, t),
    decreases a.len(),
{
    if a.len() > 0 {
        assert forall|i: int| 0 <= i < a.drop_last().len() implies a.drop_last()[i].segment_type
            == b.drop_last()[i].segment_type by {
            assert(a.drop_last()[i] == a[i]);
            assert(b.drop_last()[i] == b[i]);
        }
        lemma_positions_same_types(a.drop_last(), b.drop_last(), t);
        assert(a.last().segment_type == b.last().segment_type);
    }
}

/// One entry of the kind-to-positions index.
pub struct IndexEntry {
    pub segment_type: JpegSegmentType,
    pub positions: Vec<usize>,
}

/// The index is consistent with a segment sequence: entry kinds are
/// distinct, each entry lists exactly the positions of its kind and is
/// never empty, and every kind that occurs has an entry — so a kind has an
/// entry exactly when it occurs.
pub open spec fn spec_index_matches(entries: Seq<IndexEntry>, ss: Seq<SegmentModel>) -> bool {
    &&& forall|a: int, c: int|
        0 <= a < c < entries.len() ==> (#[trigger] entries[a].segment_type) != (
        #[trigger] entries[c].segment_type)
    &&& forall|a: int|
        0 <= a < entries.len() ==> (#[trigger] entries[a]).positions@.map_values(
            |u: usize| u as int,
        ) == spec_positions_of(ss, entries[a].segment_type)
    &&& forall|a: int| 0 <= a < entries.len() ==> (#[trigger] entries[a]).positions@.len() > 0
    &&& forall|t: JpegSegmentType|
        (#[trigger] spec_positions_of(ss, t)).len() > 0 ==> exists|a: int|
            0 <= a < entries.len() && (#[trigger] entries[a]).segment_type == t
}

/// An index stays consistent across any rewrite that keeps every segment's
/// kind in place.
pub proof fn lemma_index_matches_same_types(
    entries: Seq<IndexEntry>,
    a: Seq<SegmentModel>,
    b: Seq<SegmentModel>,
)
    requires
        spec_index_matches(entries, a),
        a.len() == b.len(),
        forall|i: int| 0 <= i < a.len() ==> (#[trigger] a[i]).segment_type == b[i].segment_type,
    ensures
        spec_index_matches(entries, b),
{
    assert forall|x: int| 0 <= x < entries.len() implies (
    #[trigger] entries[x]).positions@.map_values(|u: usize| u as int) == spec_positions_of(
        b,
        entries[x].segment_type,
    ) by {
        lemma_positions_same_types(a, b, entries[x].segment_type);
    }
    assert forall|t: JpegSegmentType|
        (#[trigger] spec_positions_of(b, t)).len() > 0 implies exists|x: int|
        0 <= x < entries.len() && (#[trigger] entries[x]).segment_type == t by {
        lemma_positions_same_types(a, b, t);
    }
}

/// A parsed JPEG: the ordered segments and the kind-to-positions index that
/// the parse builds alongside them.
pub struct Jpeg {
    pub segment_indices: Vec<IndexEntry>,
    pub segments: Vec<JpegSegment>,
}

impl View for Jpeg {
    type V = Seq<SegmentModel>;

    open spec fn view(&self) -> Seq<SegmentModel> {
        self.segments@.map_values(|s: JpegSegment| s@)
    }
}

/// The stored index is consistent with the stored segments.
pub open spec fn spec_index_ok(j: Jpeg) -> bool {
    spec_index_matches(j.segment_indices@, j@)
}

/// Appending a segment leaves the positions of every other kind unchanged
/// and appends the new position for its own kind.
proof fn lemma_positions_push(ss: Seq<SegmentModel>, m: SegmentModel, t: JpegSegmentType)
    ensures
        m.segment_type == t ==> spec_positions_of(ss.push(m), t) == spec_positions_of(ss, t).push(
            ss.len() as int,
        ),
        m.segment_type != t ==> spec_positions_of(ss.push(m), t) == spec_positions_of(ss, t),
{
    assert(ss.push(m).drop_last() =~= ss);
    assert(ss.push(m).last() == m);
}

/// The position of the index entry for one kind, if any.
fn find_index_entry(indices: &Vec<IndexEntry>, t: JpegSegmentType) -> (r: Option<usize>)
    ensures
        r matches Some(a) ==> (a as int) < indices@.len() && indices@[a as int].segment_type == t,
        r is None ==> forall|c: int|
            0 <= c < indices@.len() ==> (#[trigger] indices@[c]).segment_type != t,
{
    let mut a: usize = 0;
    while a < indices.len()
        invariant
            0 <= a <= indices@.len(),
            forall|c: int| 0 <= c < a ==> (#[trigger] indices@[c]).segment_type != t,
        decreases indices@.len() - a,
    {
        if indices[a].segment_type == t {
            return Some(a);
        }
        a = a + 1;
    }
    None
}

/// Records one appended segment in the index.
fn register_segment(
    indices: &mut Vec<IndexEntry>,
    t: JpegSegmentType,
    idx: usize,
    Ghost(ss): Ghost<Seq<SegmentModel>>,
    Ghost(m): Ghost<SegmentModel>,
)
    requires
        spec_index_matches(old(indices)@, ss),
        m.segment_type == t,
        idx as int == ss.len(),
    ensures
        spec_index_matches(final(indices)@, ss.push(m)),
{
    let ghost entries = indices@;
    let ghost ss2 = ss.push(m);
    proof {
        assert forall|tt: JpegSegmentType| true implies {
            (#[trigger] spec_positions_of(ss2, tt)) == if tt == t {
                spec_positions_of(ss, tt).push(ss.len() as int)
            } else {
                spec_positions_of(ss, tt)
            }
        } by {
            lemma_positions_push(ss, m, tt);
        }
    }
    match find_index_entry(indices, t) {
        Some(a) => {
            let mut e = indices.remove(a);
            let ghost epos = e.positions@;
            e.positions.push(idx);
            let ghost epos2 = e.positions@;
            indices.insert(a, e);
            proof {
                assert(indices@ =~= entries.update(
                    a as int,
                    IndexEntry { segment_type: t, positions: indices@[a as int].positions },
                ));
                assert(indices@[a as int].positions@ == epos2);
                assert(epos == entries[a as int].positions@);
                assert(epos2 =~= epos.push(idx));
                assert(epos2.map_values(|u: usize| u as int) =~= epos.map_values(
                    |u: usize| u as int,
                ).push(ss.len() as int));
                assert(spec_index_matches(indices@, ss2)) by {
                    assert forall|x: int| 0 <= x < indices@.len() implies (
                    #[trigger] indices@[x]).positions@.map_values(|u: usize| u as int)
                        == spec_positions_of(ss2, indices@[x].segment_type) by {
                        lemma_positions_push(ss, m, indices@[x].segment_type);
                        if x != a {
                            assert(indices@[x] == entries[x]);
                            assert(entries[x].segment_type != t);
                        }
                    }
                    assert forall|tt: JpegSegmentType|
                        (#[trigger] spec_positions_of(ss2, tt)).len() > 0 implies exists|x: int|
                        0 <= x < indices@.len() && (#[trigger] indices@[x]).segment_type == tt by {
                        lemma_positions_push(ss, m, tt);
                        if tt == t {
                            assert(indices@[a as int].segment_type == tt);
                        } else {
                            assert(spec_positions_of(ss, tt).len() > 0);
                            let x = choose|x: int|
                                0 <= x < entries.len() && (#[trigger] entries[x]).segment_type
                                    == tt;
                            assert(indices@[x].segment_type == tt);
                        }
                    }
                }
            }
        },
        None => {
            let mut fresh_positions: Vec<usize> = Vec::new();
            fresh_positions.push(idx);
            let entry = IndexEntry { segment_type: t, positions: fresh_positions };
            indices.push(entry);
            proof {
                // the kind had no entry, so it had no positions
                assert(spec_positions_of(ss, t).len() == 0) by {
                    if spec_positions_of(ss, t).len() > 0 {
                        let x = choose|x: int|
                            0 <= x < entries.len() && (#[trigger] entries[x]).segment_type == t;
                        assert(entries[x].segment_type != t);
                    }
                }
                assert(spec_index_matches(indices@, ss2)) by {
                    assert forall|x: int| 0 <= x < indices@.len() implies (
                    #[trigger] indices@[x]).positions@.map_values(|u: usize| u as int)
                        == spec_positions_of(ss2, indices@[x].segment_type) by {
                        lemma_positions_push(ss, m, indices@[x].segment_type);
                        if x == entries.len() {
                            assert(indices@[x].positions@.map_values(|u: usize| u as int) =~= Seq::<
                                int,
                            >::empty().push(ss.len() as int));
                            assert(spec_positions_of(ss, t) =~= Seq::<int>::empty());
                        } else {
                            assert(indices@[x] == entries[x]);
                            assert(entries[x].segment_type != t);
                        }
                    }
                    assert forall|tt: JpegSegmentType|
                        (#[trigger] spec_positions_of(ss2, tt)).len() > 0 implies exists|x: int|
                        0 <= x < indices@.len() && (#[trigger] indices@[x]).segment_type == tt by {
                        lemma_positions_push(ss, m, tt);
                        if tt == t {
                            assert(indices@[entries.len() as int].segment_type == tt);
                        } else {
                            assert(spec_positions_of(ss, tt).len() > 0);
                            let x = choose|x: int|
                                0 <= x < entries.len() && (#[trigger] entries[x]).segment_type
                                    == tt;
                            assert(indices@[x].segment_type == tt);
                        }
                    }
                }
            }
        },
    }
}

/// Reads the entropy-coded scan bytes that follow a scan-start payload, as
/// [`spec_scan_tail`] describes.
fn scan_tail_at(b: &[u8], pos: usize) -> (r: Option<(Vec<u8>, usize)>)
    requires
        pos <= b@.len(),
    ensures
        r matches Some((tail, end)) ==> spec_scan_tail(b@, pos as int) == Some((tail@, end as int))
            && pos <= end <= b@.len(),
        r is None ==> spec_scan_tail(b@, pos as int) is None,
{
    let mut acc: Vec<u8> = Vec::new();
    let mut cur: usize = pos;
    loop
        invariant
            pos <= cur <= b@.len(),
            spec_scan_tail(b@, pos as int) == (match spec_scan_tail(b@, cur as int) {
                None => None::<(Seq<u8>, int)>,
                Some((rest, end)) => Some((acc@ + rest, end)),
            }),
        decreases b@.len() - cur,
    {
        let f = crate::bytes_util::find_byte(b, cur, SEGMENT_MAGIC);
        if f >= b.len() {
            return None;
        }
        if f + 1 >= b.len() {
            return None;
        }
        let mk = b[f + 1];
        if mk == 0 || (0xD0 <= mk && mk <= 0xD7) {
            let ghost acc0 = acc@;
            acc.extend_from_slice(&b[cur..f + 2]);
            proof {
                match spec_scan_tail(b@, f + 2) {
                    Some((rest, end)) => {
                        assert(acc@ + rest =~= acc0 + (b@.subrange(cur as int, f + 2) + rest));
                    },
                    None => {},
                }
            }
            cur = f + 2;
        } else {
            let ghost acc0 = acc@;
            acc.extend_from_slice(&b[cur..f]);
            proof {
                assert(acc@ =~= acc0 + b@.subrange(cur as int, f as int));
            }
            return Some((acc, f));
        }
    }
}

/// Fits-in-length-field conditions that serialization needs: every payload,
/// and every encoded APP13 resource block, fits the two-byte length prefix.
pub open spec fn spec_segment_sizes_fit(s: SegmentModel) -> bool {
    if s.segment_type == JpegSegmentType::APP13 {
        match s.app13 {
            Some(p) => crate::app13::spec_app13_sizes_fit(p) && spec_encode_app13(p).len() + 2
                <= 0xFFFF,
            None => true,
        }
    } else {
        match s.payload {
            Some(p) => p.len() + 2 <= 0xFFFF,
            None => true,
        }
    }
}

/// Fits-in-length-field conditions for every segment of a sequence.
pub open spec fn spec_sizes_fit_all(ss: Seq<SegmentModel>) -> bool {
    forall|i: int| 0 <= i < ss.len() ==> spec_segment_sizes_fit(#[trigger] ss[i])
}

/// Appends the wire bytes of one segment.
fn serialize_segment_into(seg: &JpegSegment, out: &mut Vec<u8>)
    requires
        spec_segment_sizes_fit(seg@),
    ensures
        final(out)@ == old(out)@ + spec_serialize_segment(seg@),
{
    out.push(SEGMENT_MAGIC);
    out.push(seg.segment_type.marker_value());
    if matches!(seg.segment_type, JpegSegmentType::APP13) {
        match &seg.app13_payload {
            Some(p) => {
                let enc = p.encode();
                crate::be::push_be16(out, (enc.len() + 2) as u16);
                out.extend_from_slice(enc.as_slice());
            },
            None => {},
        }
        assert(out@ =~= old(out)@ + spec_serialize_segment(seg@));
    } else {
        match &seg.payload {
            Some(p) => {
                crate::be::push_be16(out, (p.len() + 2) as u16);
                out.extend_from_slice(p.as_slice());
            },
            None => {},
        }
        match &seg.additional_data {
            Some(t) => {
                out.extend_from_slice(t.as_slice());
            },
            None => {},
        }
        assert(out@ =~= old(out)@ + spec_serialize_segment(seg@));
    }
}

impl Jpeg {
    /// Parses a buffer into its ordered segments, building the
    /// kind-to-positions index alongside, exactly as [`spec_parse`]
    /// describes; any framing failure is returned unchanged.
    pub fn parse(jpeg_raw: &[u8]) -> (r: Result<Jpeg, ParseError>)
        ensures
            r matches Ok(j) ==> spec_parse(jpeg_raw@) == Ok::<Seq<SegmentModel>, ParseError>(j@)
                && spec_index_ok(j),
            r matches Err(e) ==> spec_parse(jpeg_raw@) == Err::<Seq<SegmentModel>, ParseError>(e),
    {
        let mut parsed = Jpeg { segment_indices: Vec::new(), segments: Vec::new() };
        proof {
            assert(parsed@ =~= Seq::<SegmentModel>::empty());
        }
        let mut pos: usize = 0;
        while pos < jpeg_raw.len()
            invariant
                0 <= pos <= jpeg_raw@.len(),
                spec_index_ok(parsed),
                spec_parse_segments(jpeg_raw@, 0) == (match spec_parse_segments(
                    jpeg_raw@,
                    pos as int,
                ) {
                    Err(e) => Err::<Seq<SegmentModel>, ParseError>(e),
                    Ok(rest) => Ok(parsed@ + rest),
                }),
            decreases jpeg_raw@.len() - pos,
        {
            let ghost oldview = parsed@;
            match Self::parse_segment_at(jpeg_raw, pos) {
                Err(e) => {
                    return Err(e);
                },
                Ok((seg, end)) => {
                    let ghost m = seg@;
                    let kind = seg.segment_type;
                    let idx = parsed.segments.len();
                    parsed.segments.push(seg);
                    proof {
                        assert(parsed@ =~= oldview.push(m));
                    }
                    register_segment(
                        &mut parsed.segment_indices,
                        kind,
                        idx,
                        Ghost(oldview),
                        Ghost(m),
                    );
                    proof {
                        match spec_parse_segments(jpeg_raw@, end as int) {
                            Ok(rest) => {
                                assert(oldview.push(m) + rest =~= oldview + (seq![m] + rest));
                            },
                            Err(e) => {},
                        }
                    }
                    pos = end;
                },
            }
        }
        proof {
            assert(parsed@ + Seq::<SegmentModel>::empty() =~= parsed@);
        }
        Ok(parsed)
    }

    /// Parses one segment at `pos`, exactly as [`spec_parse_segment`]
    /// describes.
    fn parse_segment_at(b: &[u8], pos: usize) -> (r: Result<(JpegSegment, usize), ParseError>)
        requires
            pos < b@.len(),
        ensures
            r matches Ok((seg, end)) ==> spec_parse_segment(b@, pos as int) == Ok::<
                (SegmentModel, int),
                ParseError,
            >((seg@, end as int)) && pos + 2 <= end <= b@.len(),
            r matches Err(e) ==> spec_parse_segment(b@, pos as int) == Err::<
                (SegmentModel, int),
                ParseError,
            >(e),
    {
        let magic = b[pos];
        if magic != SEGMENT_MAGIC {
            return Err(ParseError::InvalidSegmentMagic { magic });
        }
        if pos + 1 >= b.len() {
            return Err(ParseError::UnexpectedEndOfInput { offset: b.len() });
        }
        let marker = b[pos + 1];
        let kind = match JpegSegmentType::from_marker(marker) {
            Ok(k) => k,
            Err(e) => {
                return Err(
                    ParseError::UnrecognizedSegmentMarker { marker: e.marker, offset: pos + 1 },
                );
            },
        };
        if !kind.has_length() {
            let seg = JpegSegment {
                segment_type: kind,
                payload: None,
                app13_payload: None,
                additional_data: None,
            };
            return Ok((seg, pos + 2));
        }
        if b.len() - pos < 4 {
            return Err(ParseError::UnexpectedEndOfInput { offset: b.len() });
        }
        let declared = crate::be::be16(b[pos + 2], b[pos + 3]) as usize;
        if declared < 2 {
            return Err(ParseError::MalformedSegmentPayload { marker, offset: pos + 2 });
        }
        let psize = declared - 2;
        let pstart = pos + 4;
        if psize > 0 && psize > b.len() - pstart {
            return Err(
                ParseError::PayloadInterrupted {
                    marker,
                    payload_size: psize as u16,
                    offset: pstart,
                },
            );
        }
        assert(pstart + psize <= b@.len());
        if matches!(kind, JpegSegmentType::SOS) {
            let payload = crate::bytes_util::copy_range(b, pstart, pstart + psize);
            match scan_tail_at(b, pstart + psize) {
                None => Err(ParseError::UnexpectedEndOfInput { offset: b.len() }),
                Some((tail, end)) => {
                    let seg = JpegSegment {
                        segment_type: kind,
                        payload: Some(payload),
                        app13_payload: None,
                        additional_data: Some(tail),
                    };
                    Ok((seg, end))
                },
            }
        } else if matches!(kind, JpegSegmentType::APP13) {
            match JpegApp13Payload::decode(&b[pstart..pstart + psize]) {
                Err(o) => Err(ParseError::MalformedSegmentPayload { marker, offset: pstart + o }),
                Ok(p) => {
                    let seg = JpegSegment {
                        segment_type: kind,
                        payload: None,
                        app13_payload: Some(p),
                        additional_data: None,
                    };
                    Ok((seg, pstart + psize))
                },
            }
        } else {
            let payload = if psize > 0 {
                Some(crate::bytes_util::copy_range(b, pstart, pstart + psize))
            } else {
                None
            };
            let seg = JpegSegment {
                segment_type: kind,
                payload,
                app13_payload: None,
                additional_data: None,
            };
            Ok((seg, pstart + psize))
        }
    }

    /// Re-linearizes the segments into wire bytes, in order, recomputing
    /// every length prefix.
    pub fn serialize(&self) -> (r: Vec<u8>)
        requires
            spec_sizes_fit_all(self@),
        ensures
            r@ == spec_serialize_segments(self@),
    {
        let ghost ss = self@;
        let mut out: Vec<u8> = Vec::new();
        let mut i: usize = 0;
        while i < self.segments.len()
            invariant
                0 <= i <= self.segments.len(),
                ss == self@,
                spec_sizes_fit_all(ss),
                ss.len() == self.segments@.len(),
                out@ == spec_serialize_segments(ss.take(i as int)),
            decreases self.segments@.len() - i,
        {
            proof {
                assert(ss[i as int] == self.segments@[i as int]@);
            }
            serialize_segment_into(&self.segments[i], &mut out);
            proof {
                assert(ss.take(i + 1).drop_last() =~= ss.take(i as int));
                assert(ss.take(i + 1).last() == ss[i as int]);
            }
            i = i + 1;
        }
        proof {
            assert(ss.take(ss.len() as int) =~= ss);
        }
        out
    }

    /// The segments of one kind, in file order, found through the index, or
    /// `None` when the file holds none of that kind.
    pub fn get_segment(&self, segment_type: JpegSegmentType) -> (r: Option<Vec<&JpegSegment>>)
        requires
            spec_index_ok(*self),
        ensures
            ({
                let ps = spec_positions_of(self@, segment_type);
                match r {
                    None => ps.len() == 0,
                    Some(v) => ps.len() > 0 && v@.len() == ps.len() && (forall|k: int|
                        0 <= k < ps.len() ==> (#[trigger] v@[k])@ == self@[ps[k]]),
                }
            }),
    {
        let ghost entries = self.segment_indices@;
        let ghost ps = spec_positions_of(self@, segment_type);
        let mut a: usize = 0;
        while a < self.segment_indices.len()
            invariant
                0 <= a <= entries.len(),
                entries == self.segment_indices@,
                spec_index_ok(*self),
                ps == spec_positions_of(self@, segment_type),
                forall|c: int| 0 <= c < a ==> (#[trigger] entries[c]).segment_type != segment_type,
            decreases entries.len() - a,
        {
            if self.segment_indices[a].segment_type == segment_type {
                let positions = &self.segment_indices[a].positions;
                proof {
                    lemma_positions_bounds(self@, segment_type);
                    assert(positions@.map_values(|u: usize| u as int) == ps);
                }
                assert(positions@.len() > 0);
                let mut refs: Vec<&JpegSegment> = Vec::new();
                let mut k: usize = 0;
                while k < positions.len()
                    invariant
                        0 <= k <= positions@.len(),
                        positions@.map_values(|u: usize| u as int) == ps,
                        ps == spec_positions_of(self@, segment_type),
                        self@.len() == self.segments@.len(),
                        forall|x: int| 0 <= x < ps.len() ==> 0 <= #[trigger] ps[x] < self@.len(),
                        refs@.len() == k,
                        forall|x: int| 0 <= x < k ==> (#[trigger] refs@[x])@ == self@[ps[x]],
                    decreases positions@.len() - k,
                {
                    let p = positions[k];
                    assert(ps[k as int] == p as int);
                    refs.push(&self.segments[p]);
                    proof {
                        assert(refs@[k as int]@ == self.segments@[p as int]@);
                        assert(self.segments@[p as int]@ == self@[p as int]);
                    }
                    k = k + 1;
                }
                return Some(refs);
            }
            a = a + 1;
        }
        proof {
            // no index entry, so no positions
            if ps.len() > 0 {
                let x = choose|x: int|
                    0 <= x < entries.len() && (#[trigger] entries[x]).segment_type == segment_type;
                assert(entries[x].segment_type != segment_type);
            }
        }
        None
    }
}


/// A scan tail that the scanner reproduces verbatim: every `0xFF` in it is
/// followed, still inside the tail, by a stuffed zero or a restart marker.
pub open spec fn spec_wf_scan_tail(t: Seq<u8>) -> bool {
    forall|i: int|
        0 <= i < t.len() && (#[trigger] t[i]) == SEGMENT_MAGIC ==> i + 1 < t.len()
            && spec_scan_continuation(t[i + 1])
}

/// A segment that serialization and parsing carry round unchanged: the
/// fields that its kind calls for are present and no others, every length
/// fits its prefix, and a length-carrying payload is nonempty.
pub open spec fn spec_wf_segment(s: SegmentModel) -> bool {
    if s.segment_type == JpegSegmentType::APP13 {
        &&& s.payload is None
        &&& s.additional_data is None
        &&& s.app13 matches Some(p) && crate::app13::spec_wf_app13(p) && spec_encode_app13(p).len()
            + 2 <= 0xFFFF
    } else if s.segment_type == JpegSegmentType::SOS {
        &&& s.app13 is None
        &&& s.payload matches Some(p) && p.len() + 2 <= 0xFFFF
        &&& s.additional_data matches Some(t) && spec_wf_scan_tail(t)
    } else if spec_kind_has_length(s.segment_type) {
        &&& s.app13 is None
        &&& s.additional_data is None
        &&& s.payload matches Some(p) && 1 <= p.len() && p.len() + 2 <= 0xFFFF
    } else {
        &&& s.payload is None
        &&& s.app13 is None
        &&& s.additional_data is None
    }
}

/// A container that serialization and parsing carry round unchanged: every
/// segment well-formed, and every scan segment followed by a segment that is
/// not a restart marker (the scanner would absorb one into the scan data).
pub open spec fn spec_wf_container(ss: Seq<SegmentModel>) -> bool {
    &&& forall|i: int| 0 <= i < ss.len() ==> spec_wf_segment(#[trigger] ss[i])
    &&& forall|i: int|
        0 <= i < ss.len() && (#[trigger] ss[i]).segment_type == JpegSegmentType::SOS ==> i + 1
            < ss.len() && !crate::segment::spec_kind_is_restart(ss[i + 1].segment_type)
}

/// Serialization distributes over concatenation of segment sequences.
proof fn lemma_serialize_segments_concat(a: Seq<SegmentModel>, b: Seq<SegmentModel>)
    ensures
        spec_serialize_segments(a + b) == spec_serialize_segments(a) + spec_serialize_segments(b),
    decreases b.len(),
{
    if b.len() == 0 {
        assert(a + b =~= a);
        assert(spec_serialize_segments(a) + spec_serialize_segments(b) =~= spec_serialize_segments(
            a,
        ));
    } else {
        lemma_serialize_segments_concat(a, b.drop_last());
        assert((a + b).drop_last() =~= a + b.drop_last());
        assert((a + b).last() == b.last());
        assert(spec_serialize_segments(a) + spec_serialize_segments(b) =~= (spec_serialize_segments(
            a,
        ) + spec_serialize_segments(b.drop_last())) + spec_serialize_segment(b.last()));
    }
}

/// The scanner stops exactly at the terminating marker of a well-formed
/// tail, reproducing the tail byte for byte.
proof fn lemma_scan_tail_encoded(b: Seq<u8>, pos: int, t: Seq<u8>)
    requires
        0 <= pos,
        pos + t.len() + 2 <= b.len(),
        b.subrange(pos, pos + t.len()) == t,
        spec_wf_scan_tail(t),
        b[pos + t.len()] == SEGMENT_MAGIC,
        !spec_scan_continuation(b[pos + t.len() + 1]),
    ensures
        spec_scan_tail(b, pos) == Some((t, pos + t.len())),
    decreases t.len(),
{
    let tlen = t.len() as int;
    assert forall|j: int| pos <= j < pos + tlen implies b[j] == t[j - pos] by {
        assert(b.subrange(pos, pos + tlen)[j - pos] == b[j]);
    }
    let q = crate::bytes_util::spec_find_byte(t, 0, SEGMENT_MAGIC);
    crate::bytes_util::lemma_find_byte(t, 0, SEGMENT_MAGIC);
    if q == tlen {
        // no magic byte inside the tail: the scanner finds the terminator
        crate::bytes_util::lemma_find_byte_at(b, pos, pos + tlen, SEGMENT_MAGIC);
        let f = crate::bytes_util::spec_find_byte(b, pos, SEGMENT_MAGIC);
        assert(f == pos + tlen);
        assert(f < b.len() - 1);
        assert(b.subrange(pos, f) =~= t);
    } else {
        // the first magic byte inside the tail is followed by a
        // continuation byte, and both bytes stay in the accumulated data
        assert(t[q] == SEGMENT_MAGIC);
        assert(q + 1 < tlen && spec_scan_continuation(t[q + 1]));
        crate::bytes_util::lemma_find_byte_at(b, pos, pos + q, SEGMENT_MAGIC);
        let f = crate::bytes_util::spec_find_byte(b, pos, SEGMENT_MAGIC);
        assert(f == pos + q);
        assert(f < b.len() - 1);
        assert(b[f + 1] == t[q + 1]);
        let t2 = t.skip(q + 2);
        assert forall|j: int|
            0 <= j < t2.len() && (#[trigger] t2[j]) == SEGMENT_MAGIC implies j + 1 < t2.len()
            && spec_scan_continuation(t2[j + 1]) by {
            assert(t2[j] == t[j + q + 2]);
            assert(t[j + q + 2] == SEGMENT_MAGIC);
            assert(j + q + 3 < tlen && spec_scan_continuation(t[j + q + 3]));
            assert(t2[j + 1] == t[j + q + 3]);
        }
        assert(b.subrange(f + 2, f + 2 + t2.len()) =~= t2) by {
            assert forall|j: int| 0 <= j < t2.len() implies b.subrange(f + 2, f + 2 + t2.len())[j]
                == t2[j] by {
                assert(b[pos + (q + 2 + j)] == t[q + 2 + j]);
            }
        }
        lemma_scan_tail_encoded(b, f + 2, t2);
        assert(b.subrange(pos, f + 2) + t2 =~= t);
        assert(f + 2 + t2.len() == pos + tlen);
    }
}

/// A restart kind is exactly one whose marker byte lies in the restart
/// range, and no marker byte is zero.
proof fn lemma_marker_classes(t: JpegSegmentType)
    ensures
        crate::segment::spec_kind_is_restart(t) <==> (0xD0 <= spec_marker_value(t) <= 0xD7),
        spec_marker_value(t) != 0,
{
}

/// Parsing at the serialized bytes of a well-formed segment recovers the
/// segment and stops right after it. A scan segment needs the start of a
/// real next segment behind its tail.
#[verifier::rlimit(100)]
proof fn lemma_parse_segment_encoded(b: Seq<u8>, pos: int, s: SegmentModel)
    requires
        0 <= pos,
        spec_wf_segment(s),
        pos + spec_serialize_segment(s).len() <= b.len(),
        b.subrange(pos, pos + spec_serialize_segment(s).len()) == spec_serialize_segment(s),
        s.segment_type == JpegSegmentType::SOS ==> {
            let end = pos + spec_serialize_segment(s).len();
            &&& end + 2 <= b.len()
            &&& b[end] == SEGMENT_MAGIC
            &&& !spec_scan_continuation(b[end + 1])
        },
    ensures
        spec_parse_segment(b, pos) == Ok::<(SegmentModel, int), ParseError>(
            (s, pos + spec_serialize_segment(s).len()),
        ),
{
    let enc = spec_serialize_segment(s);
    let kind = s.segment_type;
    let marker = spec_marker_value(kind);
    assert forall|j: int| 0 <= j < enc.len() implies b[pos + j] == #[trigger] enc[j] by {
        assert(b.subrange(pos, pos + enc.len())[j] == b[pos + j]);
    }
    crate::segment::lemma_kind_of_marker_value(kind);
    if kind == JpegSegmentType::APP13 {
        let p = s.app13.unwrap();
        let encp = spec_encode_app13(p);
        assert(encp.len() >= 11) by {
            assert(p.id.len() >= 1);
            assert(crate::app13::spec_encode_name(p.resource_name).len() >= 2);
        }
        crate::be::lemma_be16_roundtrip((encp.len() + 2) as u16);
        assert(enc[0] == SEGMENT_MAGIC);
        assert(b[pos + 0] == enc[0]);
        assert(enc[1] == marker);
        assert(b[pos + 1] == enc[1]);
        assert(enc[2] == spec_be16_bytes((encp.len() + 2) as u16)[0]);
        assert(b[pos + 2] == enc[2]);
        assert(enc[3] == spec_be16_bytes((encp.len() + 2) as u16)[1]);
        assert(b[pos + 3] == enc[3]);
        let declared = spec_be16(b[pos + 2], b[pos + 3]) as int;
        assert(declared == encp.len() + 2);
        let pstart = pos + 4;
        assert(b.subrange(pstart, pstart + encp.len()) =~= encp) by {
            assert forall|j: int| 0 <= j < encp.len() implies b.subrange(
                pstart,
                pstart + encp.len(),
            )[j] == encp[j] by {
                assert(enc[4 + j] == encp[j]);
                assert(b[pos + (4 + j)] == enc[4 + j]);
            }
        }
        crate::app13::lemma_app13_roundtrip(p);
        assert(spec_parse_segment(b, pos) matches Ok((s2, end)) && s2 =~~= s && end == pos
            + enc.len());
    } else if kind == JpegSegmentType::SOS {
        let p = s.payload.unwrap();
        let t = s.additional_data.unwrap();
        crate::be::lemma_be16_roundtrip((p.len() + 2) as u16);
        assert(enc[0] == SEGMENT_MAGIC);
        assert(b[pos + 0] == enc[0]);
        assert(enc[1] == marker);
        assert(b[pos + 1] == enc[1]);
        assert(enc[2] == spec_be16_bytes((p.len() + 2) as u16)[0]);
        assert(b[pos + 2] == enc[2]);
        assert(enc[3] == spec_be16_bytes((p.len() + 2) as u16)[1]);
        assert(b[pos + 3] == enc[3]);
        let declared = spec_be16(b[pos + 2], b[pos + 3]) as int;
        assert(declared == p.len() + 2);
        let psize = declared - 2;
        let pstart = pos + 4;
        assert(b.subrange(pstart, pstart + psize) =~= p) by {
            assert forall|j: int| 0 <= j < psize implies b.subrange(pstart, pstart + psize)[j]
                == p[j] by {
                assert(enc[4 + j] == p[j]);
                assert(b[pos + (4 + j)] == enc[4 + j]);
            }
        }
        assert(b.subrange(pstart + psize, pstart + psize + t.len()) =~= t) by {
            assert forall|j: int| 0 <= j < t.len() implies b.subrange(
                pstart + psize,
                pstart + psize + t.len(),
            )[j] == t[j] by {
                assert(enc[4 + psize + j] == t[j]);
                assert(b[pos + (4 + psize + j)] == enc[4 + psize + j]);
            }
        }
        assert(enc.len() == 4 + psize + t.len());
        lemma_scan_tail_encoded(b, pstart + psize, t);
        assert(spec_parse_segment(b, pos) matches Ok((s2, end)) && s2 =~~= s && end == pos
            + enc.len());
    } else if spec_kind_has_length(kind) {
        let p = s.payload.unwrap();
        crate::be::lemma_be16_roundtrip((p.len() + 2) as u16);
        assert(enc[0] == SEGMENT_MAGIC);
        assert(b[pos + 0] == enc[0]);
        assert(enc[1] == marker);
        assert(b[pos + 1] == enc[1]);
        assert(enc[2] == spec_be16_bytes((p.len() + 2) as u16)[0]);
        assert(b[pos + 2] == enc[2]);
        assert(enc[3] == spec_be16_bytes((p.len() + 2) as u16)[1]);
        assert(b[pos + 3] == enc[3]);
        let declared = spec_be16(b[pos + 2], b[pos + 3]) as int;
        assert(declared == p.len() + 2);
        let psize = declared - 2;
        let pstart = pos + 4;
        assert(psize >= 1);
        assert(b.subrange(pstart, pstart + psize) =~= p) by {
            assert forall|j: int| 0 <= j < psize implies b.subrange(pstart, pstart + psize)[j]
                == p[j] by {
                assert(enc[4 + j] == p[j]);
                assert(b[pos + (4 + j)] == enc[4 + j]);
            }
        }
        assert(spec_parse_segment(b, pos) matches Ok((s2, end)) && s2 =~~= s && end == pos
            + enc.len());
    } else {
        assert(enc =~= seq![SEGMENT_MAGIC, marker]);
        assert(enc[0] == SEGMENT_MAGIC);
        assert(b[pos + 0] == enc[0]);
        assert(enc[1] == marker);
        assert(b[pos + 1] == enc[1]);
        assert(spec_parse_segment(b, pos) matches Ok((s2, end)) && s2 =~~= s && end == pos + 2);
    }
}

/// A serialized nonempty sequence starts with the magic byte and the first
/// segment's marker.
proof fn lemma_serialized_first_bytes(ss: Seq<SegmentModel>)
    requires
        ss.len() >= 1,
    ensures
        spec_serialize_segments(ss).len() >= 2,
        spec_serialize_segments(ss)[0] == SEGMENT_MAGIC,
        spec_serialize_segments(ss)[1] == spec_marker_value(ss[0].segment_type),
{
    let s0 = ss[0];
    let rest = ss.drop_first();
    assert(seq![s0] + rest =~= ss);
    lemma_serialize_segments_concat(seq![s0], rest);
    assert(seq![s0].drop_last() =~= Seq::<SegmentModel>::empty());
    assert(seq![s0].last() == s0);
    assert(spec_serialize_segments(Seq::<SegmentModel>::empty()) =~= Seq::<u8>::empty());
    assert(spec_serialize_segments(seq![s0]) =~= spec_serialize_segment(s0));
    let e0 = spec_serialize_segment(s0);
    assert(e0.len() >= 2 && e0[0] == SEGMENT_MAGIC && e0[1] == spec_marker_value(s0.segment_type));
    assert(spec_serialize_segments(ss) =~= e0 + spec_serialize_segments(rest));
}

/// Parsing the serialized bytes of a well-formed container, laid down to
/// the end of the buffer, recovers exactly its segments.
#[verifier::rlimit(100)]
#[verifier::spinoff_prover]
proof fn lemma_parse_segments_encoded(b: Seq<u8>, pos: int, ss: Seq<SegmentModel>)
    requires
        0 <= pos <= b.len(),
        spec_wf_container(ss),
        pos + spec_serialize_segments(ss).len() == b.len(),
        b.subrange(pos, b.len() as int) == spec_serialize_segments(ss),
    ensures
        spec_parse_segments(b, pos) == Ok::<Seq<SegmentModel>, ParseError>(ss),
    decreases ss.len(),
{
    if ss.len() == 0 {
        assert(ss =~= Seq::<SegmentModel>::empty());
    } else {
        let s0 = ss[0];
        let rest = ss.drop_first();
        assert(seq![s0] + rest =~= ss);
        lemma_serialize_segments_concat(seq![s0], rest);
        assert(seq![s0].drop_last() =~= Seq::<SegmentModel>::empty());
        assert(seq![s0].last() == s0);
        assert(spec_serialize_segments(Seq::<SegmentModel>::empty()) =~= Seq::<u8>::empty());
        assert(spec_serialize_segments(seq![s0]) == spec_serialize_segments(
            seq![s0].drop_last(),
        ) + spec_serialize_segment(seq![s0].last()));
        assert(spec_serialize_segments(seq![s0]) =~= spec_serialize_segment(s0));
        let e0 = spec_serialize_segment(s0);
        let er = spec_serialize_segments(rest);
        let etotal = spec_serialize_segments(ss);
        assert(etotal =~= e0 + er);
        assert forall|j: int| 0 <= j < etotal.len() implies b[pos + j] == #[trigger] etotal[j] by {
            assert(b.subrange(pos, b.len() as int)[j] == b[pos + j]);
        }
        assert(b.subrange(pos, pos + e0.len()) =~= e0) by {
            assert forall|j: int| 0 <= j < e0.len() implies b.subrange(pos, pos + e0.len())[j]
                == e0[j] by {
                assert(b[pos + j] == etotal[j]);
            }
        }
        assert(spec_wf_segment(s0));
        if s0.segment_type == JpegSegmentType::SOS {
            // the segment after the scan data starts with magic and a
            // marker that the scanner does not absorb
            assert(rest.len() >= 1);
            let s1 = ss[1];
            assert(rest[0] == s1);
            assert(!crate::segment::spec_kind_is_restart(s1.segment_type));
            lemma_serialized_first_bytes(rest);
            assert(er[0] == SEGMENT_MAGIC && er[1] == spec_marker_value(s1.segment_type));
            lemma_marker_classes(s1.segment_type);
            assert(!spec_scan_continuation(er[1]));
            assert(b[pos + e0.len()] == etotal[e0.len() as int]);
            assert(etotal[e0.len() as int] == er[0]);
            assert(b[pos + e0.len() + 1] == etotal[e0.len() + 1 as int]);
            assert(etotal[e0.len() + 1 as int] == er[1]);
            lemma_parse_segment_encoded(b, pos, s0);
        } else {
            lemma_parse_segment_encoded(b, pos, s0);
        }
        let pos2 = pos + e0.len();
        assert(spec_parse_segment(b, pos) == Ok::<(SegmentModel, int), ParseError>((s0, pos2)));
        assert(spec_wf_container(rest)) by {
            assert(forall|i: int| 0 <= i < rest.len() ==> rest[i] == ss[i + 1]);
            assert forall|i: int|
                0 <= i < rest.len() && (#[trigger] rest[i]).segment_type
                    == JpegSegmentType::SOS implies i + 1 < rest.len()
                && !crate::segment::spec_kind_is_restart(rest[i + 1].segment_type) by {
                assert(rest[i] == ss[i + 1]);
                assert(i + 1 + 1 < ss.len() ==> rest[i + 1] == ss[i + 2]);
            }
        }
        assert(b.subrange(pos2, b.len() as int) =~= er) by {
            assert forall|j: int| 0 <= j < er.len() implies b.subrange(pos2, b.len() as int)[j]
                == er[j] by {
                assert(b[pos + (e0.len() + j)] == etotal[e0.len() + j]);
            }
        }
        lemma_parse_segments_encoded(b, pos2, rest);
        assert(pos < b.len()) by {
            lemma_serialized_first_bytes(ss);
        }
        assert(spec_parse_segments(b, pos) == Ok::<Seq<SegmentModel>, ParseError>(seq![s0] + rest));
    }
}

/// Round trip: parsing the serialization of a well-formed container gives
/// back exactly its segments, so re-serializing them reproduces the bytes.
/// A container holding a length-carrying segment with an absent or empty
/// payload, or a scan segment not followed by a non-restart segment, is
/// outside this statement: its bytes parse to a different container.
pub proof fn lemma_serialize_parse_roundtrip(ss: Seq<SegmentModel>)
    requires
        spec_wf_container(ss),
    ensures
        spec_parse(spec_serialize_segments(ss)) == Ok::<Seq<SegmentModel>, ParseError>(ss),
{
    let b = spec_serialize_segments(ss);
    assert(b.subrange(0, b.len() as int) =~= b);
    lemma_parse_segments_encoded(b, 0, ss);
}

/// Byte-level round trip: for bytes that this codec's serializer produced
/// from a well-formed container, a successful parse hands back a container
/// that serializes to the same bytes.
pub proof fn lemma_bytes_roundtrip(bytes: Seq<u8>, ss: Seq<SegmentModel>)
    requires
        spec_wf_container(ss),
        bytes == spec_serialize_segments(ss),
    ensures
        spec_parse(bytes) matches Ok(ss2) && spec_serialize_segments(ss2) == bytes,
{
    lemma_serialize_parse_roundtrip(ss);
}


/// The field shape that parsing gives a segment: a decoded resource block
/// exactly for the APP13 kind, scan bytes exactly for the scan kind.
pub open spec fn spec_parsed_shape(s: SegmentModel) -> bool {
    &&& (s.segment_type == JpegSegmentType::APP13) == (s.app13 is Some)
    &&& s.segment_type == JpegSegmentType::SOS ==> s.payload is Some && s.additional_data is Some
    &&& s.segment_type != JpegSegmentType::SOS ==> s.additional_data is None
}

/// Every segment of a parse result has the shape its kind calls for.
pub proof fn lemma_parse_segments_shape(b: Seq<u8>, pos: int)
    requires
        0 <= pos,
    ensures
        spec_parse_segments(b, pos) matches Ok(ss) ==> forall|i: int|
            0 <= i < ss.len() ==> spec_parsed_shape(#[trigger] ss[i]),
    decreases b.len() - pos,
{
    if pos < b.len() {
        match spec_parse_segment(b, pos) {
            Ok((s, end)) => {
                lemma_parse_segment_advances(b, pos);
                lemma_parse_segments_shape(b, end);
                assert(spec_parsed_shape(s));
                match spec_parse_segments(b, end) {
                    Ok(rest) => {
                        assert forall|i: int| 0 <= i < (seq![s] + rest).len() implies
                            spec_parsed_shape(#[trigger] (seq![s] + rest)[i]) by {
                            if i > 0 {
                                assert((seq![s] + rest)[i] == rest[i - 1]);
                            }
                        }
                    },
                    Err(_) => {},
                }
            },
            Err(_) => {},
        }
    }
}

} // verus!
