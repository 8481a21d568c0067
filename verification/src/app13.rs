//! The IPTC/APP13 sub-codec: the payload of an APP13 segment decoded as a
//! Photoshop-style resource block holding an ordered multimap of IPTC
//! datasets, and the inverse encoding that recomputes every length and
//! padding convention.

use vstd::prelude::*;

use crate::be::{push_be16, push_be32, spec_be16_bytes, spec_be32_bytes};

verus! {

/// The record number that the costume fields live under.
pub const APP13_RECORD_APP: u8 = 2;

/// Dataset number of the record-version dataset.
pub const APP13_RECORD_APP_VERSION: u8 = 0;

/// Dataset number of the keyword datasets.
pub const APP13_RECORD_APP_KEYWORD: u8 = 25;

/// Dataset number of the caption datasets (account, character, hash).
pub const APP13_RECORD_APP_CAPTION: u8 = 120;

/// Dataset number of the object-data-preview datasets (the costume spec).
pub const APP13_RECORD_APP_OBJECT_DATA_PREVIEW: u8 = 202;

/// The tag byte that introduces every IPTC dataset entry.
pub const IPTC_DATASET_TAG_MARKER: u8 = 0x1C;

/// Mathematical image of one IPTC dataset: its two key bytes and its raw
/// value bytes.
#[verifier::ext_equal]
pub struct DatasetModel {
    pub record_number: u8,
    pub dataset_number: u8,
    pub data: Seq<u8>,
}

/// Mathematical image of one multimap entry: a combined key and the ordered
/// datasets stored under it.
#[verifier::ext_equal]
pub struct GroupModel {
    pub key: u16,
    pub sets: Seq<DatasetModel>,
}

/// Mathematical image of a decoded APP13 payload.
#[verifier::ext_equal]
pub struct App13Model {
    pub id: Seq<u8>,
    pub resource_type: u32,
    pub resource_id: u16,
    pub resource_name: Seq<u8>,
    pub datasets: Seq<GroupModel>,
}

/// One IPTC dataset: a record number, a dataset number, and length-counted
/// raw value bytes (never null-terminated).
pub struct IptcDataset {
    pub record_number: u8,
    pub dataset_number: u8,
    pub data: Vec<u8>,
}

impl View for IptcDataset {
    type V = DatasetModel;

    open spec fn view(&self) -> DatasetModel {
        DatasetModel {
            record_number: self.record_number,
            dataset_number: self.dataset_number,
            data: self.data@,
        }
    }
}

/// One entry of the dataset multimap: every dataset stored under one
/// combined key, in the order the datasets were first seen.
pub struct IptcDatasetGroup {
    pub key: u16,
    pub sets: Vec<IptcDataset>,
}

impl View for IptcDatasetGroup {
    type V = GroupModel;

    open spec fn view(&self) -> GroupModel {
        GroupModel { key: self.key, sets: self.sets@.map_values(|d: IptcDataset| d@) }
    }
}

/// Marker trait for the structured payloads a segment can carry.
pub trait SegmentPayload {

}

/// A decoded APP13 segment payload: a null-terminated identifier, a resource
/// type and id, an even-length resource name, and the dataset multimap,
/// key-ordered for serialization.
pub struct JpegApp13Payload {
    pub id: Vec<u8>,
    pub resource_type: u32,
    pub resource_id: u16,
    pub resource_name: Vec<u8>,
    pub datasets: Vec<IptcDatasetGroup>,
}

impl SegmentPayload for JpegApp13Payload {

}

impl View for JpegApp13Payload {
    type V = App13Model;

    open spec fn view(&self) -> App13Model {
        App13Model {
            id: self.id@,
            resource_type: self.resource_type,
            resource_id: self.resource_id,
            resource_name: self.resource_name@,
            datasets: self.datasets@.map_values(|g: IptcDatasetGroup| g@),
        }
    }
}

/// The combined multimap key of a record number and dataset number.
pub open spec fn spec_dataset_key(record_number: u8, dataset_number: u8) -> u16 {
    (record_number * 256 + dataset_number) as u16
}

/// Combines a record number and a dataset number into the multimap key.
pub fn to_iptc_dataset_key(record_number: u8, dataset_number: u8) -> (r: u16)
    ensures
        r == spec_dataset_key(record_number, dataset_number),
{
    (record_number as u16) * 256 + (dataset_number as u16)
}

/// The wire encoding of one dataset: tag byte, record number, dataset
/// number, two-byte big-endian value length, value bytes.
pub open spec fn spec_encode_dataset(d: DatasetModel) -> Seq<u8> {
    seq![IPTC_DATASET_TAG_MARKER, d.record_number, d.dataset_number]
        + spec_be16_bytes(d.data.len() as u16) + d.data
}

/// The wire encoding of a list of datasets, in order.
pub open spec fn spec_encode_sets(ds: Seq<DatasetModel>) -> Seq<u8>
    decreases ds.len(),
{
    if ds.len() == 0 {
        Seq::empty()
    } else {
        spec_encode_sets(ds.drop_last()) + spec_encode_dataset(ds.last())
    }
}

/// The wire encoding of the whole multimap: groups in stored (key) order,
/// each group's datasets in stored order.
pub open spec fn spec_encode_groups(gs: Seq<GroupModel>) -> Seq<u8>
    decreases gs.len(),
{
    if gs.len() == 0 {
        Seq::empty()
    } else {
        spec_encode_groups(gs.drop_last()) + spec_encode_sets(gs.last().sets)
    }
}

/// The dataset block: the encoded multimap, padded with one zero byte to an
/// even length.
pub open spec fn spec_dataset_block(gs: Seq<GroupModel>) -> Seq<u8> {
    let raw = spec_encode_groups(gs);
    if raw.len() % 2 == 1 {
        raw + seq![0u8]
    } else {
        raw
    }
}

/// The resource name as written: `[0, 0]` when absent, otherwise the stored
/// bytes padded with one zero byte to an even length.
pub open spec fn spec_encode_name(n: Seq<u8>) -> Seq<u8> {
    if n.len() == 0 {
        seq![0u8, 0u8]
    } else if n.len() % 2 == 1 {
        n + seq![0u8]
    } else {
        n
    }
}

/// The full wire encoding of an APP13 payload.
pub open spec fn spec_encode_app13(m: App13Model) -> Seq<u8> {
    m.id + spec_be32_bytes(m.resource_type) + spec_be16_bytes(m.resource_id)
        + spec_encode_name(m.resource_name)
        + spec_be32_bytes(spec_dataset_block(m.datasets).len() as u32)
        + spec_dataset_block(m.datasets)
}

/// The size limits that the wire format's length fields force: every dataset
/// value fits its two-byte length, and the dataset block fits its four-byte
/// length.
pub open spec fn spec_app13_sizes_fit(m: App13Model) -> bool {
    &&& forall|i: int, j: int|
        0 <= i < m.datasets.len() && 0 <= j < m.datasets[i].sets.len()
            ==> #[trigger] m.datasets[i].sets[j].data.len() <= 0xFFFF
    &&& spec_encode_groups(m.datasets).len() + 1 <= 0xFFFFFFFF
}

/// The position of the first entry with the given key, or the number of
/// entries when the key holds none.
pub open spec fn spec_find_group_index(gs: Seq<GroupModel>, k: u16) -> int
    decreases gs.len(),
{
    if gs.len() == 0 {
        0
    } else if gs[0].key == k {
        0
    } else {
        1 + spec_find_group_index(gs.drop_first(), k)
    }
}

/// The lookup result is the entry at the lookup position.
pub proof fn lemma_find_group_index(gs: Seq<GroupModel>, k: u16)
    ensures
        0 <= spec_find_group_index(gs, k) <= gs.len(),
        spec_find_group_index(gs, k) < gs.len() ==> spec_find_group(gs, k) == Some(
            gs[spec_find_group_index(gs, k)],
        ) && gs[spec_find_group_index(gs, k)].key == k,
        spec_find_group_index(gs, k) == gs.len() ==> spec_find_group(gs, k) is None,
        forall|j: int| 0 <= j < spec_find_group_index(gs, k) ==> gs[j].key != k,
    decreases gs.len(),
{
    if gs.len() > 0 && gs[0].key != k {
        lemma_find_group_index(gs.drop_first(), k);
        assert forall|j: int| 0 <= j < spec_find_group_index(gs, k) implies gs[j].key != k by {
            if j > 0 {
                assert(gs.drop_first()[j - 1] == gs[j]);
            }
        }
    }
}

/// The lookup position depends only on the entry keys.
pub proof fn lemma_find_group_index_same_keys(a: Seq<GroupModel>, b: Seq<GroupModel>, k: u16)
    requires
        a.len() == b.len(),
        forall|i: int| 0 <= i < a.len() ==> (#[trigger] a[i]).key == b[i].key,
    ensures
        spec_find_group_index(a, k) == spec_find_group_index(b, k),
    decreases a.len(),
{
    if a.len() > 0 && a[0].key != k {
        assert forall|i: int| 0 <= i < a.drop_first().len() implies (
        #[trigger] a.drop_first()[i]).key == b.drop_first()[i].key by {
            assert(a.drop_first()[i] == a[i + 1]);
            assert(b.drop_first()[i] == b[i + 1]);
        }
        lemma_find_group_index_same_keys(a.drop_first(), b.drop_first(), k);
    }
}

/// The first entry with the given key, if any.
pub open spec fn spec_find_group(gs: Seq<GroupModel>, k: u16) -> Option<GroupModel>
    decreases gs.len(),
{
    if gs.len() == 0 {
        None
    } else if gs[0].key == k {
        Some(gs[0])
    } else {
        spec_find_group(gs.drop_first(), k)
    }
}

/// Skipping entries whose key differs does not change the lookup result.
proof fn lemma_find_group_skip(gs: Seq<GroupModel>, k: u16, i: int)
    requires
        0 <= i <= gs.len(),
        forall|j: int| 0 <= j < i ==> gs[j].key != k,
    ensures
        spec_find_group(gs, k) == spec_find_group(gs.skip(i), k),
    decreases i,
{
    if i > 0 {
        assert(gs.skip(0) =~= gs);
        lemma_find_group_skip(gs, k, i - 1);
        assert(gs.skip(i - 1).drop_first() =~= gs.skip(i));
        if gs.skip(i - 1).len() > 0 {
            assert(gs.skip(i - 1)[0] == gs[i - 1]);
        }
    } else {
        assert(gs.skip(0) =~= gs);
    }
}

impl JpegApp13Payload {
    /// The datasets stored under one record/dataset key, in stored order, or
    /// `None` when the key holds none.
    pub fn get_datasets(&self, record_number: u8, dataset_number: u8) -> (r: Option<
        &Vec<IptcDataset>,
    >)
        ensures
            (r is Some) == (spec_find_group(
                self@.datasets,
                spec_dataset_key(record_number, dataset_number),
            ) is Some),
            r matches Some(v) ==> Some(
                GroupModel {
                    key: spec_dataset_key(record_number, dataset_number),
                    sets: v@.map_values(|d: IptcDataset| d@),
                },
            ) == spec_find_group(self@.datasets, spec_dataset_key(record_number, dataset_number)),
    {
        let key = to_iptc_dataset_key(record_number, dataset_number);
        let ghost gs = self@.datasets;
        let mut i: usize = 0;
        while i < self.datasets.len()
            invariant
                0 <= i <= self.datasets.len(),
                gs == self@.datasets,
                gs.len() == self.datasets@.len(),
                key == spec_dataset_key(record_number, dataset_number),
                forall|j: int| 0 <= j < i ==> gs[j].key != key,
            decreases self.datasets@.len() - i,
        {
            if self.datasets[i].key == key {
                proof {
                    lemma_find_group_skip(gs, key, i as int);
                    assert(gs.skip(i as int)[0] == gs[i as int]);
                }
                return Some(&self.datasets[i].sets);
            }
            i = i + 1;
        }
        proof {
            lemma_find_group_skip(gs, key, gs.len() as int);
            assert(gs.skip(gs.len() as int) =~= Seq::<GroupModel>::empty());
        }
        None
    }

    /// A mutable borrow of the datasets stored under one record/dataset
    /// key, or `None`, leaving the payload unchanged, when the key holds
    /// none. What the caller makes of the borrowed list becomes the entry's
    /// new dataset list.
    pub fn get_datasets_mut(&mut self, record_number: u8, dataset_number: u8) -> (r: Option<
        &mut Vec<IptcDataset>,
    >)
        ensures
            ({
                let k = spec_dataset_key(record_number, dataset_number);
                let gs = old(self)@.datasets;
                let gi = spec_find_group_index(gs, k);
                match r {
                    None => gi == gs.len() && final(self)@ == old(self)@,
                    Some(v) => gi < gs.len() && (*v)@.map_values(|d: IptcDataset| d@)
                        == gs[gi].sets && final(self)@ == (App13Model {
                        datasets: gs.update(
                            gi,
                            GroupModel {
                                key: gs[gi].key,
                                sets: (*final(v))@.map_values(|d: IptcDataset| d@),
                            },
                        ),
                        ..old(self)@
                    }),
                }
            }),
    {
        let key = to_iptc_dataset_key(record_number, dataset_number);
        let ghost gs = self@.datasets;
        let ghost gi_spec = spec_find_group_index(gs, key);
        proof {
            lemma_find_group_index(gs, key);
        }
        let mut gi: usize = 0;
        while gi < self.datasets.len()
            invariant
                *self == *old(self),
                0 <= gi <= self.datasets.len(),
                gs == self@.datasets,
                gs.len() == self.datasets@.len(),
                key == spec_dataset_key(record_number, dataset_number),
                gi_spec == spec_find_group_index(gs, key),
                0 <= gi_spec <= gs.len(),
                gi_spec < gs.len() ==> gs[gi_spec].key == key,
                forall|j: int| 0 <= j < gi_spec ==> gs[j].key != key,
                forall|j: int| 0 <= j < gi ==> gs[j].key != key,
            decreases self.datasets@.len() - gi,
        {
            if self.datasets[gi].key == key {
                proof {
                    assert(gi_spec == gi) by {
                        if gi_spec < gi {
                            assert(gs[gi_spec].key != key);
                        }
                        if gi < gi_spec {
                            assert(gs[gi as int].key != key);
                        }
                    }
                }
                return Some(&mut self.datasets[gi].sets);
            }
            gi = gi + 1;
        }
        proof {
            assert(gi_spec == gs.len()) by {
                if gi_spec < gs.len() {
                    assert(gs[gi_spec].key != key);
                }
            }
        }
        None
    }

    /// Overwrites the value bytes of the dataset at `index` under the given
    /// record/dataset key. Returns false, and changes nothing, when the key
    /// holds no datasets or the index is out of range.
    pub fn set_dataset_data(
        &mut self,
        record_number: u8,
        dataset_number: u8,
        index: usize,
        data: Vec<u8>,
    ) -> (r: bool)
        ensures
            ({
                let k = spec_dataset_key(record_number, dataset_number);
                let gs = old(self)@.datasets;
                let gi = spec_find_group_index(gs, k);
                if gi < gs.len() && index < gs[gi].sets.len() {
                    r == true && final(self)@ == (App13Model {
                        datasets: gs.update(
                            gi,
                            GroupModel {
                                key: gs[gi].key,
                                sets: gs[gi].sets.update(
                                    index as int,
                                    DatasetModel {
                                        record_number: gs[gi].sets[index as int].record_number,
                                        dataset_number: gs[gi].sets[index as int].dataset_number,
                                        data: data@,
                                    },
                                ),
                            },
                        ),
                        ..old(self)@
                    })
                } else {
                    r == false && final(self)@ == old(self)@
                }
            }),
    {
        let key = to_iptc_dataset_key(record_number, dataset_number);
        let ghost gs = self@.datasets;
        let ghost gi_spec = spec_find_group_index(gs, key);
        proof {
            lemma_find_group_index(gs, key);
        }
        let mut gi: usize = 0;
        while gi < self.datasets.len()
            invariant
                *self == *old(self),
                0 <= gi <= self.datasets.len(),
                gs == self@.datasets,
                gs.len() == self.datasets@.len(),
                key == spec_dataset_key(record_number, dataset_number),
                gi_spec == spec_find_group_index(gs, key),
                0 <= gi_spec <= gs.len(),
                gi_spec < gs.len() ==> gs[gi_spec].key == key,
                forall|j: int| 0 <= j < gi_spec ==> gs[j].key != key,
                forall|j: int| 0 <= j < gi ==> gs[j].key != key,
            decreases self.datasets@.len() - gi,
        {
            if self.datasets[gi].key == key {
                proof {
                    // gi is the first position with this key
                    assert(gi_spec == gi) by {
                        if gi_spec < gi {
                            assert(gs[gi_spec].key != key);
                        }
                        if gi < gi_spec {
                            assert(gs[gi as int].key != key);
                        }
                    }
                }
                if index < self.datasets[gi].sets.len() {
                    let mut group = self.datasets.remove(gi);
                    let mut entry = group.sets.remove(index);
                    entry.data = data;
                    group.sets.insert(index, entry);
                    self.datasets.insert(gi, group);
                    proof {
                        let k = spec_dataset_key(record_number, dataset_number);
                        let expected = GroupModel {
                            key: gs[gi as int].key,
                            sets: gs[gi as int].sets.update(
                                index as int,
                                DatasetModel {
                                    record_number: gs[gi as int].sets[index as int].record_number,
                                    dataset_number: gs[gi as int].sets[index as int].dataset_number,
                                    data: data@,
                                },
                            ),
                        };
                        assert(self@.datasets =~~= gs.update(gi as int, expected));
                        assert(final(self)@ =~~= (App13Model {
                            datasets: gs.update(gi as int, expected),
                            ..old(self)@
                        }));
                    }
                    return true;
                } else {
                    return false;
                }
            }
            gi = gi + 1;
        }
        proof {
            // no entry holds the key
            assert(gi_spec == gs.len()) by {
                if gi_spec < gs.len() {
                    assert(gs[gi_spec].key != key);
                }
            }
        }
        false
    }

    /// Encodes this payload to its wire bytes, recomputing every length and
    /// padding field.
    #[verifier::rlimit(60)]
    pub fn encode(&self) -> (r: Vec<u8>)
        requires
            spec_app13_sizes_fit(self@),
        ensures
            r@ == spec_encode_app13(self@),
    {
        let ghost m = self@;
        let mut block: Vec<u8> = Vec::new();
        let mut gi: usize = 0;
        while gi < self.datasets.len()
            invariant
                0 <= gi <= self.datasets.len(),
                m == self@,
                spec_app13_sizes_fit(m),
                m.datasets.len() == self.datasets@.len(),
                block@ == spec_encode_groups(m.datasets.take(gi as int)),
            decreases self.datasets@.len() - gi,
        {
            let ghost blk0 = block@;
            let ghost gsets = m.datasets[gi as int].sets;
            proof {
                assert(m.datasets[gi as int] == self.datasets@[gi as int]@);
            }
            let group = &self.datasets[gi];
            let mut si: usize = 0;
            while si < group.sets.len()
                invariant
                    0 <= si <= group.sets.len(),
                    gsets == group@.sets,
                    gsets.len() == group.sets@.len(),
                    forall|j: int| 0 <= j < gsets.len() ==> #[trigger] gsets[j].data.len() <= 0xFFFF,
                    block@ == blk0 + spec_encode_sets(gsets.take(si as int)),
                decreases group.sets@.len() - si,
            {
                let d = &group.sets[si];
                proof {
                    assert(gsets[si as int] == group.sets@[si as int]@);
                }
                block.push(IPTC_DATASET_TAG_MARKER);
                block.push(d.record_number);
                block.push(d.dataset_number);
                push_be16(&mut block, d.data.len() as u16);
                block.extend_from_slice(d.data.as_slice());
                proof {
                    assert(gsets.take(si + 1).drop_last() =~= gsets.take(si as int));
                    assert(gsets.take(si + 1).last() == gsets[si as int]);
                    assert(block@ =~= blk0 + spec_encode_sets(gsets.take(si + 1)));
                }
                si = si + 1;
            }
            proof {
                assert(gsets.take(gsets.len() as int) =~= gsets);
                assert(m.datasets.take(gi + 1).drop_last() =~= m.datasets.take(gi as int));
                assert(m.datasets.take(gi + 1).last() == m.datasets[gi as int]);
                assert(block@ =~= spec_encode_groups(m.datasets.take(gi + 1)));
            }
            gi = gi + 1;
        }
        proof {
            assert(m.datasets.take(m.datasets.len() as int) =~= m.datasets);
        }
        if block.len() % 2 == 1 {
            block.push(0);
        }
        assert(block@ =~= spec_dataset_block(m.datasets));
        let mut out: Vec<u8> = Vec::new();
        out.extend_from_slice(self.id.as_slice());
        push_be32(&mut out, self.resource_type);
        push_be16(&mut out, self.resource_id);
        if self.resource_name.len() == 0 {
            out.push(0);
            out.push(0);
        } else {
            out.extend_from_slice(self.resource_name.as_slice());
            if self.resource_name.len() % 2 == 1 {
                out.push(0);
            }
        }
        push_be32(&mut out, block.len() as u32);
        out.extend_from_slice(block.as_slice());
        proof {
            assert(out@ =~= spec_encode_app13(m));
        }
        out
    }
}


/// The dataset entries read from `pos` while the tag byte introduces one,
/// in file order, together with the position after the last entry; when an
/// entry's header or value runs past the end of the payload, the position
/// of that entry's tag byte.
pub open spec fn spec_parse_sets(b: Seq<u8>, pos: int) -> Result<(Seq<DatasetModel>, int), int>
    decreases b.len() - pos,
{
    if pos < 0 || pos >= b.len() || b[pos] != IPTC_DATASET_TAG_MARKER {
        Ok((Seq::empty(), pos))
    } else if pos + 5 > b.len() {
        Err(pos)
    } else {
        let size = crate::be::spec_be16(b[pos + 3], b[pos + 4]) as int;
        if pos + 5 + size > b.len() {
            Err(pos)
        } else {
            let d = DatasetModel {
                record_number: b[pos + 1],
                dataset_number: b[pos + 2],
                data: b.subrange(pos + 5, pos + 5 + size),
            };
            match spec_parse_sets(b, pos + 5 + size) {
                Err(o) => Err(o),
                Ok((rest, end)) => Ok((seq![d] + rest, end)),
            }
        }
    }
}

/// Inserts one dataset into the key-ordered multimap: appended to the entry
/// with its key when one exists, otherwise a new entry at the key's sorted
/// position.
pub open spec fn spec_insert_dataset(gs: Seq<GroupModel>, d: DatasetModel) -> Seq<GroupModel>
    decreases gs.len(),
{
    let k = spec_dataset_key(d.record_number, d.dataset_number);
    if gs.len() == 0 {
        seq![GroupModel { key: k, sets: seq![d] }]
    } else if gs[0].key == k {
        seq![GroupModel { key: k, sets: gs[0].sets.push(d) }] + gs.drop_first()
    } else if k < gs[0].key {
        seq![GroupModel { key: k, sets: seq![d] }] + gs
    } else {
        seq![gs[0]] + spec_insert_dataset(gs.drop_first(), d)
    }
}

/// The multimap built by inserting the datasets of a flat list in order.
pub open spec fn spec_group_datasets(ds: Seq<DatasetModel>) -> Seq<GroupModel>
    decreases ds.len(),
{
    if ds.len() == 0 {
        Seq::empty()
    } else {
        spec_insert_dataset(spec_group_datasets(ds.drop_last()), ds.last())
    }
}

/// The second half of the payload decoding: the four skipped bytes of the
/// stored block size, the dataset entries, the optional padding byte, and
/// the demand that nothing follows them. A failure carries the payload
/// offset of the byte where the structure broke down.
pub open spec fn spec_decode_app13_rest(
    b: Seq<u8>,
    id: Seq<u8>,
    resource_type: u32,
    resource_id: u16,
    resource_name: Seq<u8>,
    p2: int,
) -> Result<App13Model, int> {
    if p2 + 4 > b.len() {
        Err(b.len() as int)
    } else {
        match spec_parse_sets(b, p2 + 4) {
            Err(o) => Err(o),
            Ok((flat, end)) => {
                let end2 = if end < b.len() && b[end] == 0 {
                    end + 1
                } else {
                    end
                };
                if end2 != b.len() {
                    Err(end2)
                } else {
                    Ok(
                        App13Model {
                            id,
                            resource_type,
                            resource_id,
                            resource_name,
                            datasets: spec_group_datasets(flat),
                        },
                    )
                }
            },
        }
    }
}

/// The structural decoding of an APP13 payload: identifier up to its zero
/// terminator, four-byte resource type, two-byte resource id, resource name
/// up to its zero terminator padded to an even length by a zero byte, four
/// skipped bytes, then the dataset entries. A failure carries the payload
/// offset of the byte where the structure broke down: the offending byte
/// itself for a bad padding byte or leftover bytes, the end of the payload
/// where bytes ran out, the tag byte of a truncated dataset entry.
pub open spec fn spec_decode_app13(b: Seq<u8>) -> Result<App13Model, int> {
    let iz = crate::bytes_util::spec_find_zero(b, 0);
    if iz == b.len() {
        Err(b.len() as int)
    } else {
        let id = b.subrange(0, iz + 1);
        if b.len() - (iz + 1) < 6 {
            Err(b.len() as int)
        } else {
            let resource_type = crate::be::spec_be32(b[iz + 1], b[iz + 2], b[iz + 3], b[iz + 4]);
            let resource_id = crate::be::spec_be16(b[iz + 5], b[iz + 6]);
            let p1 = iz + 7;
            let nz = crate::bytes_util::spec_find_zero(b, p1);
            if nz == b.len() {
                Err(b.len() as int)
            } else if (nz + 1 - p1) % 2 == 1 {
                if nz + 1 >= b.len() {
                    Err(b.len() as int)
                } else if b[nz + 1] != 0 {
                    Err(nz + 1)
                } else {
                    spec_decode_app13_rest(
                        b,
                        id,
                        resource_type,
                        resource_id,
                        b.subrange(p1, nz + 2),
                        nz + 2,
                    )
                }
            } else {
                spec_decode_app13_rest(
                    b,
                    id,
                    resource_type,
                    resource_id,
                    b.subrange(p1, nz + 1),
                    nz + 1,
                )
            }
        }
    }
}

/// Two payloads with the same header fields and the same dataset skeleton:
/// equal keys, entry counts and per-dataset record/dataset numbers, so that
/// at most the stored value bytes differ.
pub open spec fn spec_same_dataset_layout(a: App13Model, b: App13Model) -> bool {
    &&& b.id == a.id
    &&& b.resource_type == a.resource_type
    &&& b.resource_id == a.resource_id
    &&& b.resource_name == a.resource_name
    &&& b.datasets.len() == a.datasets.len()
    &&& forall|g: int|
        0 <= g < a.datasets.len() ==> (#[trigger] b.datasets[g]).key == a.datasets[g].key
    &&& forall|g: int|
        0 <= g < a.datasets.len() ==> (#[trigger] b.datasets[g]).sets.len()
            == a.datasets[g].sets.len()
    &&& forall|g: int, s: int|
        0 <= g < a.datasets.len() && 0 <= s < a.datasets[g].sets.len() ==> (
        #[trigger] b.datasets[g].sets[s]).record_number == a.datasets[g].sets[s].record_number
            && b.datasets[g].sets[s].dataset_number == a.datasets[g].sets[s].dataset_number
}

/// Sharing a dataset skeleton is transitive.
pub proof fn lemma_same_layout_trans(a: App13Model, b: App13Model, c: App13Model)
    requires
        spec_same_dataset_layout(a, b),
        spec_same_dataset_layout(b, c),
    ensures
        spec_same_dataset_layout(a, c),
{
    assert forall|g: int, s: int|
        0 <= g < a.datasets.len() && 0 <= s < a.datasets[g].sets.len() implies (
    #[trigger] c.datasets[g].sets[s]).record_number == a.datasets[g].sets[s].record_number
        && c.datasets[g].sets[s].dataset_number == a.datasets[g].sets[s].dataset_number by {
        assert(b.datasets[g].sets[s].record_number == a.datasets[g].sets[s].record_number);
    }
}

/// The model of a group vector.
pub open spec fn spec_groups_view(v: Seq<IptcDatasetGroup>) -> Seq<GroupModel> {
    v.map_values(|g: IptcDatasetGroup| g@)
}

/// Entries whose key orders strictly below the inserted key are passed over
/// unchanged by the insertion.
proof fn lemma_insert_passthrough(gs: Seq<GroupModel>, d: DatasetModel, i: int)
    requires
        0 <= i <= gs.len(),
        forall|j: int| 0 <= j < i ==> gs[j].key < spec_dataset_key(d.record_number, d.dataset_number),
    ensures
        spec_insert_dataset(gs, d) == gs.take(i) + spec_insert_dataset(gs.skip(i), d),
    decreases i,
{
    if i == 0 {
        assert(gs.take(0) =~= Seq::<GroupModel>::empty());
        assert(gs.skip(0) =~= gs);
        assert(gs.take(0) + spec_insert_dataset(gs.skip(0), d) =~= spec_insert_dataset(gs, d));
    } else {
        let rest = gs.drop_first();
        assert forall|j: int| 0 <= j < i - 1 implies rest[j].key < spec_dataset_key(
            d.record_number,
            d.dataset_number,
        ) by {
            assert(rest[j] == gs[j + 1]);
        }
        lemma_insert_passthrough(rest, d, i - 1);
        assert(rest.skip(i - 1) =~= gs.skip(i));
        assert(seq![gs[0]] + (rest.take(i - 1) + spec_insert_dataset(gs.skip(i), d)) =~= gs.take(i)
            + spec_insert_dataset(gs.skip(i), d));
    }
}

/// Inserts one dataset into a key-ordered group vector, exactly as
/// [`spec_insert_dataset`] describes.
fn insert_dataset_sorted(gs: &mut Vec<IptcDatasetGroup>, d: IptcDataset)
    ensures
        spec_groups_view(final(gs)@) == spec_insert_dataset(spec_groups_view(old(gs)@), d@),
{
    let ghost gsm = spec_groups_view(gs@);
    let k = to_iptc_dataset_key(d.record_number, d.dataset_number);
    let mut j: usize = 0;
    while j < gs.len() && gs[j].key < k
        invariant
            *gs == *old(gs),
            0 <= j <= gs@.len(),
            gsm == spec_groups_view(gs@),
            gsm.len() == gs@.len(),
            k == spec_dataset_key(d.record_number, d.dataset_number),
            forall|i: int| 0 <= i < j ==> gsm[i].key < k,
        decreases gs@.len() - j,
    {
        proof {
            assert(gsm[j as int] == gs@[j as int]@);
        }
        j = j + 1;
    }
    proof {
        lemma_insert_passthrough(gsm, d@, j as int);
    }
    if j < gs.len() {
        proof {
            assert(gsm[j as int] == gs@[j as int]@);
        }
        if gs[j].key == k {
            let mut group = gs.remove(j);
            group.sets.push(d);
            gs.insert(j, group);
            proof {
                let merged = GroupModel { key: k, sets: gsm[j as int].sets.push(d@) };
                assert(gsm.skip(j as int)[0] == gsm[j as int]);
                assert(spec_insert_dataset(gsm.skip(j as int), d@) =~= seq![merged] + gsm.skip(
                    j + 1,
                ));
                assert(group.sets@.map_values(|x: IptcDataset| x@) =~= gsm[j as int].sets.push(d@));
                assert(spec_groups_view(gs@) =~= gsm.take(j as int) + (seq![merged] + gsm.skip(
                    j + 1,
                )));
            }
        } else {
            let mut sets: Vec<IptcDataset> = Vec::new();
            sets.push(d);
            let group = IptcDatasetGroup { key: k, sets };
            gs.insert(j, group);
            proof {
                let fresh = GroupModel { key: k, sets: seq![d@] };
                assert(gsm.skip(j as int)[0] == gsm[j as int]);
                assert(spec_insert_dataset(gsm.skip(j as int), d@) =~= seq![fresh] + gsm.skip(
                    j as int,
                ));
                assert(group@.sets =~= seq![d@]);
                assert(spec_groups_view(gs@) =~= gsm.take(j as int) + (seq![fresh] + gsm.skip(
                    j as int,
                )));
            }
        }
    } else {
        let mut sets: Vec<IptcDataset> = Vec::new();
        sets.push(d);
        let group = IptcDatasetGroup { key: k, sets };
        gs.push(group);
        proof {
            let fresh = GroupModel { key: k, sets: seq![d@] };
            assert(gsm.skip(j as int) =~= Seq::<GroupModel>::empty());
            assert(spec_insert_dataset(gsm.skip(j as int), d@) =~= seq![fresh]);
            assert(group@.sets =~= seq![d@]);
            assert(spec_groups_view(gs@) =~= gsm.take(j as int) + seq![fresh]);
        }
    }
}

impl JpegApp13Payload {
    /// Decodes the payload bytes of an APP13 segment, or reports the
    /// payload offset of the byte where its structure broke down.
    #[verifier::rlimit(100)]
    pub fn decode(b: &[u8]) -> (r: Result<JpegApp13Payload, usize>)
        ensures
            r matches Ok(p) ==> spec_decode_app13(b@) == Ok::<App13Model, int>(p@),
            r matches Err(o) ==> spec_decode_app13(b@) == Err::<App13Model, int>(o as int) && o
                <= b@.len(),
    {
        let iz = crate::bytes_util::find_zero(b, 0);
        if iz == b.len() {
            return Err(b.len());
        }
        let id = crate::bytes_util::copy_range(b, 0, iz + 1);
        if b.len() - (iz + 1) < 6 {
            return Err(b.len());
        }
        let resource_type = crate::be::be32(b[iz + 1], b[iz + 2], b[iz + 3], b[iz + 4]);
        let resource_id = crate::be::be16(b[iz + 5], b[iz + 6]);
        let p1 = iz + 7;
        let nz = crate::bytes_util::find_zero(b, p1);
        if nz == b.len() {
            return Err(b.len());
        }
        let name_odd = (nz + 1 - p1) % 2 == 1;
        let resource_name: Vec<u8>;
        let p2: usize;
        if name_odd {
            if nz + 1 >= b.len() {
                return Err(b.len());
            }
            if b[nz + 1] != 0 {
                return Err(nz + 1);
            }
            resource_name = crate::bytes_util::copy_range(b, p1, nz + 2);
            p2 = nz + 2;
        } else {
            resource_name = crate::bytes_util::copy_range(b, p1, nz + 1);
            p2 = nz + 1;
        }
        if b.len() - p2 < 4 {
            assert(spec_decode_app13(b@) == Err::<App13Model, int>(b@.len() as int));
            return Err(b.len());
        }
        let p3 = p2 + 4;
        let ghost continuation_start = p3 as int;
        let ghost idg = id@;
        let ghost nameg = resource_name@;
        assert(spec_decode_app13(b@) == spec_decode_app13_rest(
            b@,
            idg,
            resource_type,
            resource_id,
            nameg,
            p2 as int,
        ));
        let mut groups: Vec<IptcDatasetGroup> = Vec::new();
        let ghost mut flat: Seq<DatasetModel> = Seq::empty();
        let mut pos: usize = p3;
        while pos < b.len() && b[pos] == IPTC_DATASET_TAG_MARKER
            invariant
                continuation_start == p2 + 4,
                p2 + 4 <= b@.len(),
                idg == id@,
                nameg == resource_name@,
                spec_decode_app13(b@) == spec_decode_app13_rest(
                    b@,
                    idg,
                    resource_type,
                    resource_id,
                    nameg,
                    p2 as int,
                ),
                continuation_start <= pos <= b@.len(),
                spec_groups_view(groups@) == spec_group_datasets(flat),
                spec_parse_sets(b@, continuation_start) == (match spec_parse_sets(b@, pos as int) {
                    Err(o) => Err::<(Seq<DatasetModel>, int), int>(o),
                    Ok((rest, end)) => Ok((flat + rest, end)),
                }),
            decreases b@.len() - pos,
        {
            if b.len() - pos < 5 {
                assert(spec_parse_sets(b@, pos as int) == Err::<(Seq<DatasetModel>, int), int>(
                    pos as int,
                ));
                assert(spec_decode_app13(b@) == Err::<App13Model, int>(pos as int));
                return Err(pos);
            }
            let size = crate::be::be16(b[pos + 3], b[pos + 4]) as usize;
            if b.len() - (pos + 5) < size {
                assert(spec_parse_sets(b@, pos as int) == Err::<(Seq<DatasetModel>, int), int>(
                    pos as int,
                ));
                assert(spec_decode_app13(b@) == Err::<App13Model, int>(pos as int));
                return Err(pos);
            }
            let data = crate::bytes_util::copy_range(b, pos + 5, pos + 5 + size);
            let d = IptcDataset {
                record_number: b[pos + 1],
                dataset_number: b[pos + 2],
                data,
            };
            let ghost dm = d@;
            insert_dataset_sorted(&mut groups, d);
            proof {
                assert((flat + seq![dm]).drop_last() =~= flat);
                assert((flat + seq![dm]).last() == dm);
                flat = flat + seq![dm];
            }
            pos = pos + 5 + size;
            proof {
                match spec_parse_sets(b@, pos as int) {
                    Ok((rest, end)) => {
                        assert(flat + rest =~= flat.drop_last() + (seq![dm] + rest));
                    },
                    Err(_) => {},
                }
            }
        }
        assert(spec_parse_sets(b@, pos as int) == Ok::<(Seq<DatasetModel>, int), int>(
            (Seq::<DatasetModel>::empty(), pos as int),
        ));
        proof {
            assert(flat + Seq::<DatasetModel>::empty() =~= flat);
        }
        let end2: usize = if pos < b.len() && b[pos] == 0 {
            pos + 1
        } else {
            pos
        };
        if end2 != b.len() {
            assert(spec_decode_app13(b@) == Err::<App13Model, int>(end2 as int));
            return Err(end2);
        }
        let payload = JpegApp13Payload {
            id,
            resource_type,
            resource_id,
            resource_name,
            datasets: groups,
        };
        proof {
            let m = spec_decode_app13(b@)->Ok_0;
            assert(payload@ =~~= m);
        }
        Ok(payload)
    }
}


/// All datasets of all groups, flattened in serialization order.
pub open spec fn spec_flatten_groups(gs: Seq<GroupModel>) -> Seq<DatasetModel>
    decreases gs.len(),
{
    if gs.len() == 0 {
        Seq::empty()
    } else {
        spec_flatten_groups(gs.drop_last()) + gs.last().sets
    }
}

/// A well-formed identifier: its only zero byte is its final terminator.
pub open spec fn spec_wf_identifier(id: Seq<u8>) -> bool {
    id.len() >= 1 && id.last() == 0 && (forall|i: int| 0 <= i < id.len() - 1 ==> id[i] != 0)
}

/// A well-formed stored resource name: even length, zero-terminated, with
/// zero bytes only in its final two positions.
pub open spec fn spec_wf_resource_name(n: Seq<u8>) -> bool {
    n.len() >= 2 && n.len() % 2 == 0 && n.last() == 0 && (forall|i: int|
        0 <= i < n.len() - 2 ==> n[i] != 0)
}

/// A well-formed dataset multimap: entries in strictly ascending key order,
/// none empty, every dataset keyed consistently with its entry, and every
/// value within the two-byte length field.
pub open spec fn spec_wf_groups(gs: Seq<GroupModel>) -> bool {
    &&& forall|i: int| 0 <= i < gs.len() ==> (#[trigger] gs[i].sets.len()) >= 1
    &&& forall|i: int, j: int| 0 <= i < j < gs.len() ==> gs[i].key < gs[j].key
    &&& forall|i: int, j: int|
        0 <= i < gs.len() && 0 <= j < gs[i].sets.len() ==> spec_dataset_key(
            (#[trigger] gs[i].sets[j]).record_number,
            gs[i].sets[j].dataset_number,
        ) == gs[i].key
    &&& forall|i: int, j: int|
        0 <= i < gs.len() && 0 <= j < gs[i].sets.len()
            ==> (#[trigger] gs[i].sets[j].data.len()) <= 0xFFFF
}

/// A payload that the encoding inverts exactly: well-formed identifier,
/// resource name and multimap, with every length field in range.
pub open spec fn spec_wf_app13(m: App13Model) -> bool {
    &&& spec_wf_identifier(m.id)
    &&& spec_wf_resource_name(m.resource_name)
    &&& spec_wf_groups(m.datasets)
    &&& spec_app13_sizes_fit(m)
}

/// Encoding distributes over concatenation of dataset lists.
proof fn lemma_encode_sets_concat(a: Seq<DatasetModel>, b: Seq<DatasetModel>)
    ensures
        spec_encode_sets(a + b) == spec_encode_sets(a) + spec_encode_sets(b),
    decreases b.len(),
{
    if b.len() == 0 {
        assert(a + b =~= a);
        assert(spec_encode_sets(a) + spec_encode_sets(b) =~= spec_encode_sets(a));
    } else {
        lemma_encode_sets_concat(a, b.drop_last());
        assert((a + b).drop_last() =~= a + b.drop_last());
        assert((a + b).last() == b.last());
        assert(spec_encode_sets(a) + spec_encode_sets(b) =~= (spec_encode_sets(a)
            + spec_encode_sets(b.drop_last())) + spec_encode_dataset(b.last()));
    }
}

/// The grouped encoding equals the flat encoding of the flattened datasets.
proof fn lemma_encode_groups_flatten(gs: Seq<GroupModel>)
    ensures
        spec_encode_groups(gs) == spec_encode_sets(spec_flatten_groups(gs)),
    decreases gs.len(),
{
    if gs.len() > 0 {
        lemma_encode_groups_flatten(gs.drop_last());
        lemma_encode_sets_concat(spec_flatten_groups(gs.drop_last()), gs.last().sets);
    }
}

/// Parsing the encoding of a dataset list, laid down at `pos` and followed
/// by anything but the tag byte, recovers exactly the list.
proof fn lemma_parse_sets_encoded(b: Seq<u8>, pos: int, ds: Seq<DatasetModel>)
    requires
        0 <= pos,
        pos + spec_encode_sets(ds).len() <= b.len(),
        b.subrange(pos, pos + spec_encode_sets(ds).len()) == spec_encode_sets(ds),
        forall|i: int| 0 <= i < ds.len() ==> (#[trigger] ds[i].data.len()) <= 0xFFFF,
        pos + spec_encode_sets(ds).len() == b.len() || b[pos + spec_encode_sets(ds).len()]
            != IPTC_DATASET_TAG_MARKER,
    ensures
        spec_parse_sets(b, pos) == Ok::<(Seq<DatasetModel>, int), int>(
            (ds, pos + spec_encode_sets(ds).len()),
        ),
    decreases ds.len(),
{
    if ds.len() == 0 {
        assert(spec_encode_sets(ds).len() == 0);
        assert(ds =~= Seq::<DatasetModel>::empty());
    } else {
        let h = ds[0];
        let rest = ds.drop_first();
        assert(seq![h] + rest =~= ds);
        lemma_encode_sets_concat(seq![h], rest);
        assert(seq![h].drop_last() =~= Seq::<DatasetModel>::empty());
        assert(seq![h].last() == h);
        assert(spec_encode_sets(Seq::<DatasetModel>::empty()) =~= Seq::<u8>::empty());
        assert(spec_encode_sets(seq![h]) == spec_encode_sets(seq![h].drop_last())
            + spec_encode_dataset(seq![h].last()));
        assert(spec_encode_sets(seq![h]) =~= spec_encode_dataset(h));
        let eh = spec_encode_dataset(h);
        let er = spec_encode_sets(rest);
        let etotal = spec_encode_sets(ds);
        assert(etotal =~= eh + er);
        let dlen = h.data.len() as int;
        assert(eh.len() == 5 + dlen);
        // the head entry's bytes
        let sub = b.subrange(pos, pos + etotal.len());
        assert forall|i: int| 0 <= i < etotal.len() implies b[pos + i] == #[trigger] etotal[i] by {
            assert(sub[i] == b[pos + i]);
        }
        assert(etotal[0] == IPTC_DATASET_TAG_MARKER);
        assert(b[pos + 0] == etotal[0]);
        assert(b[pos] == IPTC_DATASET_TAG_MARKER);
        assert(etotal[1] == h.record_number);
        assert(b[pos + 1] == h.record_number);
        assert(etotal[2] == h.dataset_number);
        assert(b[pos + 2] == h.dataset_number);
        assert(etotal[3] == spec_be16_bytes(h.data.len() as u16)[0]);
        assert(b[pos + 3] == spec_be16_bytes(h.data.len() as u16)[0]);
        assert(etotal[4] == spec_be16_bytes(h.data.len() as u16)[1]);
        assert(b[pos + 4] == spec_be16_bytes(h.data.len() as u16)[1]);
        crate::be::lemma_be16_roundtrip(h.data.len() as u16);
        let size = crate::be::spec_be16(b[pos + 3], b[pos + 4]) as int;
        assert(size == dlen);
        assert(b.subrange(pos + 5, pos + 5 + size) =~= h.data) by {
            assert forall|i: int| 0 <= i < dlen implies b.subrange(pos + 5, pos + 5 + dlen)[i]
                == h.data[i] by {
                assert(etotal[5 + i] == h.data[i]);
                assert(b[pos + (5 + i)] == etotal[5 + i]);
            }
        }
        let d_parsed = DatasetModel {
            record_number: b[pos + 1],
            dataset_number: b[pos + 2],
            data: b.subrange(pos + 5, pos + 5 + size),
        };
        assert(d_parsed =~= h);
        // the remaining entries
        let pos2 = pos + 5 + size;
        assert forall|i: int| 0 <= i < rest.len() implies (#[trigger] rest[i].data.len())
            <= 0xFFFF by {
            assert(rest[i] == ds[i + 1]);
        }
        assert(b.subrange(pos2, pos2 + er.len()) =~= er) by {
            assert forall|i: int| 0 <= i < er.len() implies b.subrange(pos2, pos2 + er.len())[i]
                == er[i] by {
                assert(b[pos + (5 + dlen + i)] == etotal[5 + dlen + i]);
                assert(etotal[5 + dlen + i] == er[i]);
            }
        }
        lemma_parse_sets_encoded(b, pos2, rest);
        assert(spec_parse_sets(b, pos) == Ok::<(Seq<DatasetModel>, int), int>(
            (seq![d_parsed] + rest, pos2 + er.len()),
        ));
        assert(seq![d_parsed] + rest =~= ds);
    }
}

/// Inserting a dataset whose key exceeds every stored key, except that it
/// matches the last entry's key, appends it to the last entry.
proof fn lemma_insert_append_last(gs: Seq<GroupModel>, d: DatasetModel)
    requires
        gs.len() >= 1,
        forall|j: int|
            0 <= j < gs.len() - 1 ==> (#[trigger] gs[j].key) < spec_dataset_key(
                d.record_number,
                d.dataset_number,
            ),
        gs.last().key == spec_dataset_key(d.record_number, d.dataset_number),
    ensures
        spec_insert_dataset(gs, d) == gs.update(
            gs.len() - 1,
            GroupModel { key: gs.last().key, sets: gs.last().sets.push(d) },
        ),
{
    let k = spec_dataset_key(d.record_number, d.dataset_number);
    let n = gs.len() as int;
    lemma_insert_passthrough(gs, d, n - 1);
    let tailseq = gs.skip(n - 1);
    assert(tailseq.len() == 1);
    assert(tailseq[0] == gs[n - 1]);
    assert(spec_insert_dataset(tailseq, d) =~= seq![
        GroupModel { key: k, sets: gs[n - 1].sets.push(d) },
    ]);
    assert(gs.take(n - 1) + spec_insert_dataset(tailseq, d) =~= gs.update(
        n - 1,
        GroupModel { key: gs.last().key, sets: gs.last().sets.push(d) },
    ));
}

/// Inserting a dataset whose key exceeds every stored key appends a new
/// entry at the end.
proof fn lemma_insert_new_last(gs: Seq<GroupModel>, d: DatasetModel)
    requires
        forall|j: int|
            0 <= j < gs.len() ==> (#[trigger] gs[j].key) < spec_dataset_key(
                d.record_number,
                d.dataset_number,
            ),
    ensures
        spec_insert_dataset(gs, d) == gs.push(
            GroupModel {
                key: spec_dataset_key(d.record_number, d.dataset_number),
                sets: seq![d],
            },
        ),
{
    let k = spec_dataset_key(d.record_number, d.dataset_number);
    let n = gs.len() as int;
    lemma_insert_passthrough(gs, d, n);
    assert(gs.skip(n) =~= Seq::<GroupModel>::empty());
    assert(spec_insert_dataset(gs.skip(n), d) =~= seq![GroupModel { key: k, sets: seq![d] }]);
    assert(gs.take(n) + spec_insert_dataset(gs.skip(n), d) =~= gs.push(
        GroupModel { key: k, sets: seq![d] },
    ));
}

/// Feeding one entry's datasets, one by one, onto a grouped prefix whose
/// keys all order below the entry's key builds exactly that entry.
proof fn lemma_group_extend(
    gs: Seq<GroupModel>,
    flat0: Seq<DatasetModel>,
    g: GroupModel,
    j: int,
)
    requires
        spec_group_datasets(flat0) == gs,
        1 <= j <= g.sets.len(),
        forall|i: int| 0 <= i < gs.len() ==> (#[trigger] gs[i].key) < g.key,
        forall|i: int|
            0 <= i < g.sets.len() ==> spec_dataset_key(
                (#[trigger] g.sets[i]).record_number,
                g.sets[i].dataset_number,
            ) == g.key,
    ensures
        spec_group_datasets(flat0 + g.sets.take(j)) == gs.push(
            GroupModel { key: g.key, sets: g.sets.take(j) },
        ),
    decreases j,
{
    if j == 1 {
        let s0 = g.sets[0];
        assert((flat0 + g.sets.take(1)).drop_last() =~= flat0);
        assert((flat0 + g.sets.take(1)).last() == s0);
        lemma_insert_new_last(gs, s0);
        assert(seq![s0] =~= g.sets.take(1));
        assert(gs.push(GroupModel { key: spec_dataset_key(s0.record_number, s0.dataset_number), sets: seq![s0] })
            =~= gs.push(GroupModel { key: g.key, sets: g.sets.take(1) }));
    } else {
        lemma_group_extend(gs, flat0, g, j - 1);
        let s = g.sets[j - 1];
        let prev = gs.push(GroupModel { key: g.key, sets: g.sets.take(j - 1) });
        assert((flat0 + g.sets.take(j)).drop_last() =~= flat0 + g.sets.take(j - 1));
        assert((flat0 + g.sets.take(j)).last() == s);
        assert forall|i: int| 0 <= i < prev.len() - 1 implies (#[trigger] prev[i].key)
            < spec_dataset_key(s.record_number, s.dataset_number) by {
            assert(prev[i] == gs[i]);
        }
        lemma_insert_append_last(prev, s);
        assert(prev.update(
            prev.len() - 1,
            GroupModel { key: prev.last().key, sets: prev.last().sets.push(s) },
        ) =~= gs.push(GroupModel { key: g.key, sets: g.sets.take(j) })) by {
            assert(g.sets.take(j - 1).push(s) =~= g.sets.take(j));
        }
    }
}

/// Grouping the flattened datasets of a well-formed multimap rebuilds the
/// multimap.
proof fn lemma_group_flatten(gs: Seq<GroupModel>)
    requires
        spec_wf_groups(gs),
    ensures
        spec_group_datasets(spec_flatten_groups(gs)) == gs,
    decreases gs.len(),
{
    if gs.len() > 0 {
        let dl = gs.drop_last();
        let g = gs.last();
        assert(spec_wf_groups(dl)) by {
            assert(forall|i: int| 0 <= i < dl.len() ==> dl[i] == gs[i]);
        }
        lemma_group_flatten(dl);
        assert forall|i: int| 0 <= i < dl.len() implies (#[trigger] dl[i].key) < g.key by {
            assert(dl[i] == gs[i]);
        }
        assert forall|i: int| 0 <= i < g.sets.len() implies spec_dataset_key(
            (#[trigger] g.sets[i]).record_number,
            g.sets[i].dataset_number,
        ) == g.key by {
            assert(gs[gs.len() - 1].sets[i] == g.sets[i]);
        }
        assert(g.sets.len() >= 1);
        lemma_group_extend(dl, spec_flatten_groups(dl), g, g.sets.len() as int);
        assert(g.sets.take(g.sets.len() as int) =~= g.sets);
        assert(dl.push(GroupModel { key: g.key, sets: g.sets.take(g.sets.len() as int) }) =~= gs);
    }
}

/// Decoding inverts encoding on every well-formed payload: the exact
/// identifier, resource fields, name and multimap come back.
#[verifier::rlimit(100)]
#[verifier::spinoff_prover]
pub proof fn lemma_app13_roundtrip(m: App13Model)
    requires
        spec_wf_app13(m),
    ensures
        spec_decode_app13(spec_encode_app13(m)) == Ok::<App13Model, int>(m),
{
    let b = spec_encode_app13(m);
    let idn = m.id.len() as int;
    let raw = spec_encode_groups(m.datasets);
    let block = spec_dataset_block(m.datasets);
    let name = m.resource_name;
    let nn = name.len() as int;
    let szfield = spec_be32_bytes(block.len() as u32);
    assert(spec_encode_name(name) == name);
    assert(b =~= m.id + spec_be32_bytes(m.resource_type) + spec_be16_bytes(m.resource_id) + name
        + szfield + block);
    let p1 = idn + 6;
    let p2 = p1 + nn;
    let p3 = p2 + 4;
    assert(b.len() == p3 + block.len());
    // the identifier's terminator is the first zero byte
    assert forall|j: int| 0 <= j < idn - 1 implies b[j] != 0 by {
        assert(b[j] == m.id[j]);
    }
    assert(b[idn - 1] == m.id[idn - 1]);
    assert(b[idn - 1] == 0);
    crate::bytes_util::lemma_find_zero_at(b, 0, idn - 1);
    let iz = crate::bytes_util::spec_find_zero(b, 0);
    assert(iz == idn - 1);
    assert(b.subrange(0, idn) =~= m.id);
    assert(b.len() - idn >= 6 + nn + 4);
    // resource type and id
    crate::be::lemma_be32_roundtrip(m.resource_type);
    crate::be::lemma_be16_roundtrip(m.resource_id);
    assert(b[idn] == spec_be32_bytes(m.resource_type)[0]);
    assert(b[idn + 1] == spec_be32_bytes(m.resource_type)[1]);
    assert(b[idn + 2] == spec_be32_bytes(m.resource_type)[2]);
    assert(b[idn + 3] == spec_be32_bytes(m.resource_type)[3]);
    assert(crate::be::spec_be32(b[idn], b[idn + 1], b[idn + 2], b[idn + 3]) == m.resource_type);
    assert(b[idn + 4] == spec_be16_bytes(m.resource_id)[0]);
    assert(b[idn + 5] == spec_be16_bytes(m.resource_id)[1]);
    assert(crate::be::spec_be16(b[idn + 4], b[idn + 5]) == m.resource_id);
    // the resource name region
    assert forall|j: int| p1 <= j < p2 implies b[j] == name[j - p1] by {}
    assert forall|j: int| p1 <= j < p2 - 2 implies b[j] != 0 by {
        assert(b[j] == name[j - p1]);
    }
    assert(b[p2 - 1] == name[nn - 1]);
    assert(b[p2 - 1] == 0);
    let nz = crate::bytes_util::spec_find_zero(b, p1);
    if name[nn - 2] == 0 {
        crate::bytes_util::lemma_find_zero_at(b, p1, p2 - 2);
        assert(nz == p2 - 2);
        assert((nz + 1 - p1) % 2 == 1);
        assert(nz + 1 < b.len());
        assert(b[nz + 1] == 0);
        assert(b.subrange(p1, nz + 2) =~= name);
    } else {
        crate::bytes_util::lemma_find_zero_at(b, p1, p2 - 1);
        assert(nz == p2 - 1);
        assert((nz + 1 - p1) % 2 == 0);
        assert(b.subrange(p1, nz + 1) =~= name);
    }
    // the dataset block
    lemma_encode_groups_flatten(m.datasets);
    let flat = spec_flatten_groups(m.datasets);
    assert(raw == spec_encode_sets(flat));
    assert(b.subrange(p3, p3 + raw.len()) =~= raw) by {
        assert forall|i: int| 0 <= i < raw.len() implies b.subrange(p3, p3 + raw.len())[i]
            == raw[i] by {
            assert(b[p3 + i] == block[i]);
            assert(block[i] == raw[i]);
        }
    }
    assert forall|i: int| 0 <= i < flat.len() implies (#[trigger] flat[i].data.len())
        <= 0xFFFF by {
        lemma_flatten_wf(m.datasets, i);
    }
    if raw.len() % 2 == 1 {
        assert(block =~= raw + seq![0u8]);
        assert(b[p3 + raw.len()] == 0);
        assert(p3 + raw.len() < b.len());
        lemma_parse_sets_encoded(b, p3, flat);
        assert(spec_parse_sets(b, p3) == Ok::<(Seq<DatasetModel>, int), int>((flat, p3 + raw.len())));
    } else {
        assert(block =~= raw);
        assert(p3 + raw.len() == b.len());
        lemma_parse_sets_encoded(b, p3, flat);
        assert(spec_parse_sets(b, p3) == Ok::<(Seq<DatasetModel>, int), int>((flat, p3 + raw.len())));
    }
    lemma_group_flatten(m.datasets);
    let out = spec_decode_app13(b);
    assert(out == spec_decode_app13_rest(b, m.id, m.resource_type, m.resource_id, name, p2));
    assert(out == Ok::<App13Model, int>(m)) by {
        assert(spec_group_datasets(flat) == m.datasets);
        match out {
            Ok(dm) => {
                assert(dm =~~= m);
            },
            Err(_) => {},
        }
    }
}

/// Every flattened dataset comes from some entry, so its value length obeys
/// the entry's bound.
proof fn lemma_flatten_wf(gs: Seq<GroupModel>, i: int)
    requires
        spec_wf_groups(gs),
        0 <= i < spec_flatten_groups(gs).len(),
    ensures
        spec_flatten_groups(gs)[i].data.len() <= 0xFFFF,
    decreases gs.len(),
{
    if gs.len() > 0 {
        let dl = gs.drop_last();
        let fl = spec_flatten_groups(dl);
        assert(spec_wf_groups(dl)) by {
            assert(forall|x: int| 0 <= x < dl.len() ==> dl[x] == gs[x]);
        }
        if i < fl.len() {
            lemma_flatten_wf(dl, i);
        } else {
            assert(spec_flatten_groups(gs)[i] == gs.last().sets[i - fl.len()]);
            assert(gs[gs.len() - 1].sets[i - fl.len()].data.len() <= 0xFFFF);
        }
    }
}

} // verus!
