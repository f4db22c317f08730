use vstd::prelude::*;
use crate::wire::{
    agree_before, field_advances, field_agree, field_at, key_end_at, lemma_key_agree,
    lemma_varint_bounds, parse_varint, read_field, read_key_end, read_varint, varint_agree,
};
use byteorder::ByteOrder;
use std::io::Read;

verus! {

/// Content type of a block of a PBF file, ordered as a reader wants to visit them.
#[derive(Clone, Copy, Debug, PartialEq, Eq, PartialOrd, Ord)]
pub enum BlockType {
    Header,
    Nodes,
    DenseNodes,
    Ways,
    Relations,
}

/// Errors of reading, decoding and classifying blocks.
#[derive(Clone, Copy, Debug, PartialEq, Eq)]
pub enum PbfError {
    /// Bytes missing where a frame or a field should be.
    UnexpectedEof,
    /// A declared header or blob length is out of range.
    InvalidFrameLength,
    /// A protobuf message is malformed.
    DecodeError,
    /// A blob uses a compression other than none or zlib.
    UnsupportedCompression,
    /// Inflating failed, or gave another length than the blob declares.
    DecompressionError,
    /// A data block holds changesets.
    UnsupportedChangeset,
    /// A primitive group starts with an unknown field.
    MalformedPrimitiveBlock,
    /// A block's bytes lie outside the file.
    InvalidOffset,
    /// A blob header names neither `OSMHeader` nor `OSMData`.
    UnknownBlobType,
    /// A data block ends before any primitive group.
    Truncated,
}

/// Field number of `primitivegroup` in a `PrimitiveBlock`.
pub const PRIMITIVE_GROUP_TAG: u32 = 2;

/// The block type that the first field of a primitive group stands for.
pub open spec fn group_kind(tag: u32) -> Result<BlockType, PbfError> {
    if tag == 1 {
        Ok(BlockType::Nodes)
    } else if tag == 2 {
        Ok(BlockType::DenseNodes)
    } else if tag == 3 {
        Ok(BlockType::Ways)
    } else if tag == 4 {
        Ok(BlockType::Relations)
    } else if tag == 5 {
        Err(PbfError::UnsupportedChangeset)
    } else {
        Err(PbfError::MalformedPrimitiveBlock)
    }
}

/// Type of the primitive block in `b`, scanning its top-level fields from `pos`:
/// fields other than the first primitive group are skipped, and the number of
/// the first field inside that group decides. Of the group itself only its
/// length prefix and that first key are read.
pub open spec fn classify(b: Seq<u8>, pos: int) -> Result<BlockType, PbfError>
    decreases b.len() - pos,
{
    if pos < 0 || pos >= b.len() {
        Err(PbfError::Truncated)
    } else {
        match key_end_at(b, pos) {
            None => Err(PbfError::DecodeError),
            Some((tag, wt, key_end)) => if tag != PRIMITIVE_GROUP_TAG {
                match field_at(b, pos) {
                    None => Err(PbfError::DecodeError),
                    Some(f) => if pos < f.next && f.next <= b.len() {
                        classify(b, f.next as int)
                    } else {
                        Err(PbfError::DecodeError)
                    },
                }
            } else if wt != 2 {
                Err(PbfError::DecodeError)
            } else {
                match parse_varint(b, key_end) {
                    None => Err(PbfError::DecodeError),
                    Some((len, body)) => match key_end_at(b, body) {
                        None => Err(PbfError::DecodeError),
                        Some((inner, _, inner_end)) => if inner_end > body + len {
                            Err(PbfError::DecodeError)
                        } else {
                            group_kind(inner)
                        },
                    },
                }
            },
        }
    }
}

/// Where the key of the first field inside the first primitive group ends, if
/// the scan of `classify` from `pos` gets that far.
pub open spec fn group_key_end(b: Seq<u8>, pos: int) -> Option<int>
    decreases b.len() - pos,
{
    if pos < 0 || pos >= b.len() {
        None
    } else {
        match key_end_at(b, pos) {
            None => None,
            Some((tag, wt, key_end)) => if tag != PRIMITIVE_GROUP_TAG {
                match field_at(b, pos) {
                    None => None,
                    Some(f) => if pos < f.next && f.next <= b.len() {
                        group_key_end(b, f.next as int)
                    } else {
                        None
                    },
                }
            } else if wt != 2 {
                None
            } else {
                match parse_varint(b, key_end) {
                    None => None,
                    Some((len, body)) => match key_end_at(b, body) {
                        None => None,
                        Some((_, _, inner_end)) => Some(inner_end),
                    },
                }
            },
        }
    }
}

impl BlockType {
    /// Type of a decompressed `OSMData` block, read from the field number of
    /// the first element of its first primitive group; nothing else is decoded.
    pub fn from_osmdata_blob(blob: &[u8]) -> (r: Result<BlockType, PbfError>)
        ensures
            r == classify(blob@, 0),
    {
        let len = blob.len();
        let mut pos: usize = 0;
        while pos < len
            invariant
                len == blob@.len(),
                pos <= len,
                classify(blob@, pos as int) == classify(blob@, 0),
            decreases len - pos,
        {
            let (tag, wt, key_end) = match read_key_end(blob, pos) {
                Some(k) => k,
                None => return Err(PbfError::DecodeError),
            };
            if tag != PRIMITIVE_GROUP_TAG {
                let f = match read_field(blob, pos) {
                    Some(f) => f,
                    None => return Err(PbfError::DecodeError),
                };
                proof {
                    field_advances(blob@, pos as int);
                }
                pos = f.next;
            } else if wt != 2 {
                return Err(PbfError::DecodeError);
            } else {
                let (glen, body) = match read_varint(blob, key_end) {
                    Some(v) => v,
                    None => return Err(PbfError::DecodeError),
                };
                return match read_key_end(blob, body) {
                    None => Err(PbfError::DecodeError),
                    Some((inner, _, inner_end)) => {
                        proof {
                            lemma_varint_bounds(blob@, body as int);
                        }
                        if (inner_end - body) as u64 > glen {
                            Err(PbfError::DecodeError)
                        } else if inner == 1 {
                            Ok(BlockType::Nodes)
                        } else if inner == 2 {
                            Ok(BlockType::DenseNodes)
                        } else if inner == 3 {
                            Ok(BlockType::Ways)
                        } else if inner == 4 {
                            Ok(BlockType::Relations)
                        } else if inner == 5 {
                            Err(PbfError::UnsupportedChangeset)
                        } else {
                            Err(PbfError::MalformedPrimitiveBlock)
                        }
                    },
                };
            }
        }
        Err(PbfError::Truncated)
    }
}

/// A primitive group whose first element is nodes, dense nodes, ways or
/// relations gives the block that type, whatever follows that element's key.
pub proof fn classify_at_group(b: Seq<u8>, pos: int, len: u64, body: int, tag: u32, wire_type: u8, inner_end: int)
    requires
        0 <= pos < b.len(),
        key_end_at(b, pos) matches Some((t, w, key_end)) && t == PRIMITIVE_GROUP_TAG && w == 2
            && parse_varint(b, key_end) == Some((len, body)),
        key_end_at(b, body) == Some((tag, wire_type, inner_end)),
        inner_end <= body + len,
        1 <= tag <= 4,
    ensures
        classify(b, pos) == group_kind(tag),
        classify(b, pos) is Ok,
{
}

/// Top-level fields before the first primitive group are skipped unread.
pub proof fn classify_skips_other_fields(b: Seq<u8>, pos: int)
    requires
        0 <= pos < b.len(),
        b.len() <= usize::MAX,
        field_at(b, pos) is Some,
        field_at(b, pos)->0.tag != PRIMITIVE_GROUP_TAG,
    ensures
        classify(b, pos) == classify(b, field_at(b, pos)->0.next as int),
{
    field_advances(b, pos);
}

proof fn lemma_group_key_end_bounds(b: Seq<u8>, pos: int)
    requires
        b.len() <= usize::MAX,
    ensures
        group_key_end(b, pos) matches Some(e) ==> pos < e <= b.len(),
    decreases b.len() - pos,
{
    if 0 <= pos < b.len() {
        if let Some((tag, wt, key_end)) = key_end_at(b, pos) {
            lemma_varint_bounds(b, pos);
            if tag != PRIMITIVE_GROUP_TAG {
                if let Some(f) = field_at(b, pos) {
                    if pos < f.next && f.next <= b.len() {
                        lemma_group_key_end_bounds(b, f.next as int);
                    }
                }
            } else {
                lemma_varint_bounds(b, key_end);
                if let Some((len, body)) = parse_varint(b, key_end) {
                    lemma_varint_bounds(b, body);
                }
            }
        }
    }
}

proof fn lemma_classify_agree(b1: Seq<u8>, b2: Seq<u8>, n: int, pos: int)
    requires
        agree_before(b1, b2, n),
        b1.len() <= usize::MAX,
        group_key_end(b1, pos) matches Some(e) && e <= n,
    ensures
        classify(b2, pos) == classify(b1, pos),
    decreases b1.len() - pos,
{
    let (tag, wt, key_end) = key_end_at(b1, pos)->0;
    lemma_varint_bounds(b1, pos);
    lemma_group_key_end_bounds(b1, pos);
    if tag != PRIMITIVE_GROUP_TAG {
        let f = field_at(b1, pos)->0;
        lemma_group_key_end_bounds(b1, f.next as int);
        field_advances(b1, pos);
        lemma_key_agree(b1, b2, n, pos);
        field_agree(b1, b2, n, pos);
        lemma_classify_agree(b1, b2, n, f.next as int);
    } else {
        let (len, body) = parse_varint(b1, key_end)->0;
        lemma_varint_bounds(b1, key_end);
        lemma_varint_bounds(b1, body);
        lemma_key_agree(b1, b2, n, pos);
        varint_agree(b1, b2, n, key_end);
        lemma_key_agree(b1, b2, n, body);
    }
}

/// The classifier reads no byte past the key of the first field inside the
/// first primitive group: two blocks that agree up to that key, whatever
/// follows it (or nothing), are classified alike.
pub proof fn classify_reads_only_prefix(b1: Seq<u8>, b2: Seq<u8>, n: int)
    requires
        b1.len() <= usize::MAX,
        group_key_end(b1, 0) matches Some(e) && e <= n,
        agree_before(b1, b2, n),
    ensures
        classify(b1, 0) == classify(b2, 0),
{
    lemma_classify_agree(b1, b2, n, 0);
}


/// Largest `BlobHeader` that a frame may declare.
pub const MAX_BLOB_HEADER_LEN: i32 = 65536;

/// The four bytes of `b` at `pos` read as a big-endian two's-complement integer.
pub open spec fn be_i32(b: Seq<u8>, pos: int) -> int {
    let u = b[pos] as int * 16777216 + b[pos + 1] as int * 65536 + b[pos + 2] as int * 256
        + b[pos + 3] as int;
    if u >= 2147483648 {
        u - 4294967296
    } else {
        u
    }
}

/// Relies on byteorder's `NetworkEndian::read_i32`: the first four bytes of
/// `buf` as a big-endian `i32`. It panics on fewer than four bytes.
#[verifier::external_body]
fn read_be_i32(buf: &[u8]) -> (r: i32)
    requires
        buf@.len() >= 4,
    ensures
        r as int == be_i32(buf@, 0),
{
    byteorder::NetworkEndian::read_i32(buf)
}

/// What inflating the zlib stream `data` gives, or `None` where it is not a valid stream.
pub uninterp spec fn zlib_inflate(data: Seq<u8>) -> Option<Seq<u8>>;

/// Relies on flate2's `read::ZlibDecoder` read to its end: the inflated bytes
/// of a zlib stream held in memory depend on that stream alone.
#[verifier::external_body]
fn inflate(data: &[u8]) -> (r: Option<Vec<u8>>)
    ensures
        match r {
            Some(v) => zlib_inflate(data@) == Some(v@),
            None => zlib_inflate(data@) is None,
        },
{
    let mut out = Vec::new();
    match flate2::read::ZlibDecoder::new(data).read_to_end(&mut out) {
        Ok(_) => Some(out),
        Err(_) => None,
    }
}

/// Where a blob's payload lies, by the last of its data fields.
#[derive(Clone, Copy, Debug, PartialEq, Eq)]
pub enum BlobData {
    Missing,
    Raw(usize, usize),
    Zlib(usize, usize),
    OtherCompression,
}

/// What the fields of a `BlobHeader` from `pos` on set: the extent of `type`
/// and the value of `datasize`, starting from `ty` and `ds`.
pub open spec fn header_scan(b: Seq<u8>, pos: int, ty: Option<(usize, usize)>, ds: u64) -> Result<
    (Option<(usize, usize)>, u64),
    PbfError,
>
    decreases b.len() - pos,
{
    if pos < 0 || pos >= b.len() {
        Ok((ty, ds))
    } else {
        match field_at(b, pos) {
            None => Err(PbfError::DecodeError),
            Some(f) => if !(pos < f.next && f.next <= b.len()) {
                Err(PbfError::DecodeError)
            } else if f.tag == 1 {
                if f.wire_type == 2 {
                    header_scan(b, f.next as int, Some((f.start, f.next)), ds)
                } else {
                    Err(PbfError::DecodeError)
                }
            } else if f.tag == 3 {
                if f.wire_type == 0 {
                    header_scan(b, f.next as int, ty, f.value)
                } else {
                    Err(PbfError::DecodeError)
                }
            } else {
                header_scan(b, f.next as int, ty, ds)
            },
        }
    }
}

/// What the fields of a `Blob` from `pos` on set: where its data lies and its
/// declared `raw_size`, starting from `data` and `raw_size`.
pub open spec fn blob_scan(b: Seq<u8>, pos: int, data: BlobData, raw_size: Option<u64>) -> Result<
    (BlobData, Option<u64>),
    PbfError,
>
    decreases b.len() - pos,
{
    if pos < 0 || pos >= b.len() {
        Ok((data, raw_size))
    } else {
        match field_at(b, pos) {
            None => Err(PbfError::DecodeError),
            Some(f) => if !(pos < f.next && f.next <= b.len()) {
                Err(PbfError::DecodeError)
            } else if f.tag == 2 {
                if f.wire_type == 0 {
                    blob_scan(b, f.next as int, data, Some(f.value))
                } else {
                    Err(PbfError::DecodeError)
                }
            } else if 1 <= f.tag <= 7 {
                if f.wire_type != 2 {
                    Err(PbfError::DecodeError)
                } else if f.tag == 1 {
                    blob_scan(b, f.next as int, BlobData::Raw(f.start, f.next), raw_size)
                } else if f.tag == 3 {
                    blob_scan(b, f.next as int, BlobData::Zlib(f.start, f.next), raw_size)
                } else {
                    blob_scan(b, f.next as int, BlobData::OtherCompression, raw_size)
                }
            } else {
                blob_scan(b, f.next as int, data, raw_size)
            },
        }
    }
}

/// The decompressed payload of the `Blob` message `b`.
pub open spec fn blob_payload(b: Seq<u8>) -> Result<Seq<u8>, PbfError> {
    match blob_scan(b, 0, BlobData::Missing, None) {
        Err(e) => Err(e),
        Ok((data, raw_size)) => match data {
            BlobData::Raw(s, e) => Ok(b.subrange(s as int, e as int)),
            BlobData::Zlib(s, e) => match zlib_inflate(b.subrange(s as int, e as int)) {
                None => Err(PbfError::DecompressionError),
                Some(out) => if raw_size is Some && out.len() != raw_size->0 {
                    Err(PbfError::DecompressionError)
                } else {
                    Ok(out)
                },
            },
            _ => Err(PbfError::UnsupportedCompression),
        },
    }
}

fn scan_header(b: &[u8]) -> (r: Result<(Option<(usize, usize)>, u64), PbfError>)
    ensures
        r == header_scan(b@, 0, None, 0),
{
    let len = b.len();
    let mut pos: usize = 0;
    let mut ty: Option<(usize, usize)> = None;
    let mut ds: u64 = 0;
    while pos < len
        invariant
            len == b@.len(),
            pos <= len,
            header_scan(b@, pos as int, ty, ds) == header_scan(b@, 0, None, 0),
        decreases len - pos,
    {
        let f = match read_field(b, pos) {
            Some(f) => f,
            None => return Err(PbfError::DecodeError),
        };
        proof {
            field_advances(b@, pos as int);
        }
        if f.tag == 1 {
            if f.wire_type != 2 {
                return Err(PbfError::DecodeError);
            }
            ty = Some((f.start, f.next));
        } else if f.tag == 3 {
            if f.wire_type != 0 {
                return Err(PbfError::DecodeError);
            }
            ds = f.value;
        }
        pos = f.next;
    }
    Ok((ty, ds))
}

fn scan_blob(b: &[u8]) -> (r: Result<(BlobData, Option<u64>), PbfError>)
    ensures
        r == blob_scan(b@, 0, BlobData::Missing, None),
{
    let len = b.len();
    let mut pos: usize = 0;
    let mut data = BlobData::Missing;
    let mut raw_size: Option<u64> = None;
    while pos < len
        invariant
            len == b@.len(),
            pos <= len,
            blob_scan(b@, pos as int, data, raw_size) == blob_scan(b@, 0, BlobData::Missing, None),
        decreases len - pos,
    {
        let f = match read_field(b, pos) {
            Some(f) => f,
            None => return Err(PbfError::DecodeError),
        };
        proof {
            field_advances(b@, pos as int);
        }
        if f.tag == 2 {
            if f.wire_type != 0 {
                return Err(PbfError::DecodeError);
            }
            raw_size = Some(f.value);
        } else if 1 <= f.tag && f.tag <= 7 {
            if f.wire_type != 2 {
                return Err(PbfError::DecodeError);
            }
            if f.tag == 1 {
                data = BlobData::Raw(f.start, f.next);
            } else if f.tag == 3 {
                data = BlobData::Zlib(f.start, f.next);
            } else {
                data = BlobData::OtherCompression;
            }
        }
        pos = f.next;
    }
    Ok((data, raw_size))
}

/// Decodes a `Blob` message and returns its payload, inflated where it is
/// zlib-compressed.
pub fn decode_blob(blob: &[u8]) -> (r: Result<Vec<u8>, PbfError>)
    ensures
        match r {
            Ok(v) => blob_payload(blob@) == Ok::<Seq<u8>, PbfError>(v@),
            Err(e) => blob_payload(blob@) == Err::<Seq<u8>, PbfError>(e),
        },
{
    let (data, raw_size) = match scan_blob(blob) {
        Ok(x) => x,
        Err(e) => return Err(e),
    };
    let n = blob.len();
    proof {
        assert(n == blob@.len());
        lemma_blob_scan_bounds(blob@, 0, BlobData::Missing, None);
    }
    match data {
        BlobData::Raw(s, e) => {
            let raw = vstd::slice::slice_subrange(blob, s, e);
            Ok(vstd::slice::slice_to_vec(raw))
        },
        BlobData::Zlib(s, e) => {
            let compressed = vstd::slice::slice_subrange(blob, s, e);
            match inflate(compressed) {
                None => Err(PbfError::DecompressionError),
                Some(out) => match raw_size {
                    Some(n) => if out.len() as u64 != n {
                        Err(PbfError::DecompressionError)
                    } else {
                        Ok(out)
                    },
                    None => Ok(out),
                },
            }
        },
        _ => Err(PbfError::UnsupportedCompression),
    }
}

/// Data extents that a blob scan reports lie within the message.
pub open spec fn data_in_bounds(data: BlobData, len: int) -> bool {
    match data {
        BlobData::Raw(s, e) => s <= e <= len,
        BlobData::Zlib(s, e) => s <= e <= len,
        _ => true,
    }
}

proof fn lemma_blob_scan_bounds(b: Seq<u8>, pos: int, data: BlobData, raw_size: Option<u64>)
    requires
        data_in_bounds(data, b.len() as int),
        b.len() <= usize::MAX,
    ensures
        blob_scan(b, pos, data, raw_size) is Ok ==> data_in_bounds(
            blob_scan(b, pos, data, raw_size)->Ok_0.0,
            b.len() as int,
        ),
    decreases b.len() - pos,
{
    if 0 <= pos < b.len() {
        if let Some(f) = field_at(b, pos) {
            field_advances(b, pos);
            if pos < f.next && f.next <= b.len() {
                if f.tag == 1 {
                    lemma_blob_scan_bounds(b, f.next as int, BlobData::Raw(f.start, f.next), raw_size);
                } else if f.tag == 3 {
                    lemma_blob_scan_bounds(b, f.next as int, BlobData::Zlib(f.start, f.next), raw_size);
                } else if 4 <= f.tag <= 7 {
                    lemma_blob_scan_bounds(b, f.next as int, BlobData::OtherCompression, raw_size);
                } else if f.tag == 2 {
                    lemma_blob_scan_bounds(b, f.next as int, data, Some(f.value));
                } else {
                    lemma_blob_scan_bounds(b, f.next as int, data, raw_size);
                }
            }
        }
    }
}


/// Where a block lies in a PBF file, and what it holds. Ordered by type,
/// then by position.
#[derive(Clone, Copy, Debug, PartialEq, Eq, PartialOrd, Ord)]
pub struct BlockIndex {
    pub block_type: BlockType,
    /// Offset of the `Blob` message from the start of the file.
    pub blob_start: usize,
    /// Length of the `Blob` message, as its header declares.
    pub blob_len: usize,
    /// Length of the `BlobHeader` message.
    pub blob_header_len: usize,
}

/// The two kinds of blob that a PBF file holds.
#[derive(Clone, Copy, Debug, PartialEq, Eq)]
pub enum BlobKind {
    OsmHeader,
    OsmData,
    /// A blob whose header names another type, or none.
    Unknown,
}

/// One `[length][BlobHeader][Blob]` frame of a PBF file.
#[derive(Clone, Copy, Debug, PartialEq, Eq)]
pub struct Frame {
    pub kind: BlobKind,
    pub header_len: usize,
    pub blob_start: usize,
    pub blob_len: usize,
}

/// The bytes of the blob type `OSMHeader`.
pub open spec fn osm_header_name() -> Seq<u8> {
    seq![79u8, 83u8, 77u8, 72u8, 101u8, 97u8, 100u8, 101u8, 114u8]
}

/// The bytes of the blob type `OSMData`.
pub open spec fn osm_data_name() -> Seq<u8> {
    seq![79u8, 83u8, 77u8, 68u8, 97u8, 116u8, 97u8]
}

/// The blob kind that a `type` field names, if it names one.
pub open spec fn kind_of_name(name: Seq<u8>) -> Option<BlobKind> {
    if name == osm_header_name() {
        Some(BlobKind::OsmHeader)
    } else if name == osm_data_name() {
        Some(BlobKind::OsmData)
    } else {
        None
    }
}

/// The frame that starts at `pos` in the file `b`.
#[verifier::opaque]
pub open spec fn frame_at(b: Seq<u8>, pos: int) -> Result<Frame, PbfError> {
    if pos < 0 || pos + 4 > b.len() {
        Err(PbfError::UnexpectedEof)
    } else {
        let hl = be_i32(b, pos);
        if hl <= 0 || hl > MAX_BLOB_HEADER_LEN {
            Err(PbfError::InvalidFrameLength)
        } else if pos + 4 + hl > b.len() {
            Err(PbfError::UnexpectedEof)
        } else {
            let header = b.subrange(pos + 4, pos + 4 + hl);
            match header_scan(header, 0, None, 0) {
                Err(e) => Err(e),
                Ok((ty, ds)) => if ds > i32::MAX {
                    Err(PbfError::InvalidFrameLength)
                } else {
                    let kind = match ty {
                        None => BlobKind::Unknown,
                        Some((s, e)) => match kind_of_name(header.subrange(s as int, e as int)) {
                            None => BlobKind::Unknown,
                            Some(k) => k,
                        },
                    };
                    if pos + 4 + hl + ds > b.len() {
                        Err(PbfError::UnexpectedEof)
                    } else {
                        Ok(
                            Frame {
                                kind: kind,
                                header_len: hl as usize,
                                blob_start: (pos + 4 + hl) as usize,
                                blob_len: ds as usize,
                            },
                        )
                    }
                },
            }
        }
    }
}

/// The index entry of frame `f` of the file `b`: a header blob is indexed as
/// it stands, a data blob is decoded and classified, a blob of unknown type
/// gives `UnknownBlobType`.
#[verifier::opaque]
pub open spec fn entry_of(b: Seq<u8>, f: Frame) -> Result<BlockIndex, PbfError> {
    let bt = match f.kind {
        BlobKind::OsmHeader => Ok(BlockType::Header),
        BlobKind::OsmData => match blob_payload(
            b.subrange(f.blob_start as int, f.blob_start + f.blob_len),
        ) {
            Err(e) => Err(e),
            Ok(p) => classify(p, 0),
        },
        BlobKind::Unknown => Err(PbfError::UnknownBlobType),
    };
    match bt {
        Err(e) => Err(e),
        Ok(t) => Ok(
            BlockIndex {
                block_type: t,
                blob_start: f.blob_start,
                blob_len: f.blob_len,
                blob_header_len: f.header_len,
            },
        ),
    }
}

/// The entries of the frames from `pos` to the end of `b`, in file order, and
/// the blocks left out with the offset of their blob and the reason. A frame
/// that cannot be read ends the scan with its error.
pub open spec fn scan_from(b: Seq<u8>, pos: int) -> Result<
    (Seq<BlockIndex>, Seq<(usize, PbfError)>),
    PbfError,
>
    decreases b.len() - pos,
{
    if pos < 0 || pos >= b.len() {
        Ok((Seq::empty(), Seq::empty()))
    } else {
        match frame_at(b, pos) {
            Err(e) => Err(e),
            Ok(f) => {
                let next = f.blob_start + f.blob_len;
                if next <= pos || next > b.len() {
                    Err(PbfError::InvalidFrameLength)
                } else {
                    match scan_from(b, next) {
                        Err(e) => Err(e),
                        Ok((rest, skipped)) => match entry_of(b, f) {
                            Ok(ix) => Ok((seq![ix] + rest, skipped)),
                            Err(e) => Ok((rest, seq![(f.blob_start, e)] + skipped)),
                        },
                    }
                }
            },
        }
    }
}

/// A frame that can be read lies within the file, past its own start.
pub proof fn frame_within_file(b: Seq<u8>, pos: int)
    requires
        frame_at(b, pos) is Ok,
        b.len() <= usize::MAX,
    ensures
        frame_at(b, pos)->Ok_0.blob_start == pos + 4 + frame_at(b, pos)->Ok_0.header_len,
        frame_at(b, pos)->Ok_0.header_len > 0,
        frame_at(b, pos)->Ok_0.blob_start + frame_at(b, pos)->Ok_0.blob_len <= b.len(),
{
    reveal(frame_at);
}

proof fn lemma_header_scan_bounds(b: Seq<u8>, pos: int, ty: Option<(usize, usize)>, ds: u64)
    requires
        ty matches Some((s, e)) ==> s <= e <= b.len(),
        b.len() <= usize::MAX,
    ensures
        header_scan(b, pos, ty, ds) matches Ok((Some((s, e)), _)) ==> s <= e <= b.len(),
    decreases b.len() - pos,
{
    if 0 <= pos < b.len() {
        if let Some(f) = field_at(b, pos) {
            field_advances(b, pos);
            if pos < f.next && f.next <= b.len() {
                if f.tag == 1 {
                    lemma_header_scan_bounds(b, f.next as int, Some((f.start, f.next)), ds);
                } else if f.tag == 3 {
                    lemma_header_scan_bounds(b, f.next as int, ty, f.value);
                } else {
                    lemma_header_scan_bounds(b, f.next as int, ty, ds);
                }
            }
        }
    }
}

fn bytes_equal(a: &[u8], lit: &Vec<u8>) -> (r: bool)
    ensures
        r == (a@ == lit@),
{
    if a.len() != lit.len() {
        return false;
    }
    let mut i: usize = 0;
    while i < a.len()
        invariant
            a@.len() == lit@.len(),
            0 <= i <= a@.len(),
            forall|j: int| 0 <= j < i ==> a@[j] == lit@[j],
        decreases a@.len() - i,
    {
        if a[i] != lit[i] {
            return false;
        }
        i = i + 1;
    }
    assert(a@ =~= lit@);
    true
}

/// Reads the frame that starts at `pos`: its length prefix and its `BlobHeader`.
pub fn read_frame(data: &[u8], pos: usize) -> (r: Result<Frame, PbfError>)
    ensures
        r == frame_at(data@, pos as int),
{
    reveal(frame_at);
    let len = data.len();
    if pos > len || len - pos < 4 {
        return Err(PbfError::UnexpectedEof);
    }
    let prefix = vstd::slice::slice_subrange(data, pos, pos + 4);
    let hl = read_be_i32(prefix);
    if hl <= 0 || hl > MAX_BLOB_HEADER_LEN {
        return Err(PbfError::InvalidFrameLength);
    }
    let hs = pos + 4;
    if len - hs < hl as usize {
        return Err(PbfError::UnexpectedEof);
    }
    let he = hs + hl as usize;
    let header = vstd::slice::slice_subrange(data, hs, he);
    proof {
        assert(header@ == data@.subrange(pos + 4, pos + 4 + hl));
        lemma_header_scan_bounds(header@, 0, None, 0);
    }
    let (ty, ds) = match scan_header(header) {
        Ok(x) => x,
        Err(e) => return Err(e),
    };
    if ds > 0x7fff_ffffu64 {
        return Err(PbfError::InvalidFrameLength);
    }
    let kind = match ty {
        None => BlobKind::Unknown,
        Some((s, e)) => {
            let name = vstd::slice::slice_subrange(header, s, e);
            let header_name: Vec<u8> = vec![79u8, 83u8, 77u8, 72u8, 101u8, 97u8, 100u8, 101u8, 114u8];
            let data_name: Vec<u8> = vec![79u8, 83u8, 77u8, 68u8, 97u8, 116u8, 97u8];
            proof {
                assert(header_name@ =~= osm_header_name());
                assert(data_name@ =~= osm_data_name());
            }
            if bytes_equal(name, &header_name) {
                BlobKind::OsmHeader
            } else if bytes_equal(name, &data_name) {
                BlobKind::OsmData
            } else {
                BlobKind::Unknown
            }
        },
    };
    if ((len - he) as u64) < ds {
        Err(PbfError::UnexpectedEof)
    } else {
        Ok(Frame { kind: kind, header_len: hl as usize, blob_start: he, blob_len: ds as usize })
    }
}

/// The index entry of a frame that `read_frame` returned for `data`.
pub fn index_frame(data: &[u8], f: Frame) -> (r: Result<BlockIndex, PbfError>)
    requires
        f.blob_start + f.blob_len <= data@.len(),
    ensures
        r == entry_of(data@, f),
{
    reveal(entry_of);
    let n = data.len();
    assert(n == data@.len());
    let bt = match f.kind {
        BlobKind::OsmHeader => Ok(BlockType::Header),
        BlobKind::OsmData => {
            let blob = vstd::slice::slice_subrange(data, f.blob_start, f.blob_start + f.blob_len);
            match decode_blob(blob) {
                Err(e) => Err(e),
                Ok(payload) => BlockType::from_osmdata_blob(payload.as_slice()),
            }
        },
        BlobKind::Unknown => Err(PbfError::UnknownBlobType),
    };
    match bt {
        Err(e) => Err(e),
        Ok(t) => Ok(
            BlockIndex {
                block_type: t,
                blob_start: f.blob_start,
                blob_len: f.blob_len,
                blob_header_len: f.header_len,
            },
        ),
    }
}

/// Indexes every frame of the file `data` in file order. Blocks that cannot
/// be decoded or classified are left out and reported with the offset of
/// their blob; a frame that cannot be read is an error.
pub fn scan_blocks(data: &[u8]) -> (r: Result<(Vec<BlockIndex>, Vec<(usize, PbfError)>), PbfError>)
    ensures
        match r {
            Ok((ix, skipped)) => scan_from(data@, 0) == Ok::<_, PbfError>((ix@, skipped@)),
            Err(e) => scan_from(data@, 0) == Err::<(Seq<BlockIndex>, Seq<(usize, PbfError)>), _>(e),
        },
{
    let len = data.len();
    let mut pos: usize = 0;
    let mut blocks: Vec<BlockIndex> = Vec::new();
    let mut skipped: Vec<(usize, PbfError)> = Vec::new();
    while pos < len
        invariant
            len == data@.len(),
            pos <= len,
            match scan_from(data@, pos as int) {
                Ok((rest, sk)) => scan_from(data@, 0) == Ok::<_, PbfError>(
                    (blocks@ + rest, skipped@ + sk),
                ),
                Err(e) => scan_from(data@, 0) == Err::<(Seq<BlockIndex>, Seq<(usize, PbfError)>), _>(e),
            },
        decreases len - pos,
    {
        let f = match read_frame(data, pos) {
            Ok(f) => f,
            Err(e) => return Err(e),
        };
        proof {
            frame_within_file(data@, pos as int);
        }
        let next = f.blob_start + f.blob_len;
        let ghost old_blocks = blocks@;
        let ghost old_skipped = skipped@;
        match index_frame(data, f) {
            Ok(ix) => blocks.push(ix),
            Err(e) => skipped.push((f.blob_start, e)),
        }
        proof {
            if let Ok((rest, sk)) = scan_from(data@, next as int) {
                if let Ok(ix) = entry_of(data@, f) {
                    assert(old_blocks + (seq![ix] + rest) =~= blocks@ + rest);
                    assert(old_skipped + sk =~= skipped@ + sk);
                } else {
                    let e = entry_of(data@, f)->Err_0;
                    assert(old_skipped + (seq![(f.blob_start, e)] + sk) =~= skipped@ + sk);
                    assert(old_blocks + rest =~= blocks@ + rest);
                }
            }
        }
        pos = next;
    }
    assert(blocks@ + Seq::<BlockIndex>::empty() =~= blocks@);
    assert(skipped@ + Seq::<(usize, PbfError)>::empty() =~= skipped@);
    Ok((blocks, skipped))
}


/// Position of a block type in the order `Header < Nodes < DenseNodes < Ways < Relations`.
pub open spec fn rank(t: BlockType) -> int {
    match t {
        BlockType::Header => 0,
        BlockType::Nodes => 1,
        BlockType::DenseNodes => 2,
        BlockType::Ways => 3,
        BlockType::Relations => 4,
    }
}

fn type_rank(t: BlockType) -> (r: u8)
    ensures
        r as int == rank(t),
{
    match t {
        BlockType::Header => 0,
        BlockType::Nodes => 1,
        BlockType::DenseNodes => 2,
        BlockType::Ways => 3,
        BlockType::Relations => 4,
    }
}

/// The natural order on index entries: by type, then blob offset, then blob
/// length, then header length.
pub open spec fn index_le(x: BlockIndex, y: BlockIndex) -> bool {
    rank(x.block_type) < rank(y.block_type) || (rank(x.block_type) == rank(y.block_type) && (
    x.blob_start < y.blob_start || (x.blob_start == y.blob_start && (x.blob_len < y.blob_len || (
    x.blob_len == y.blob_len && x.blob_header_len <= y.blob_header_len)))))
}

/// `s` is non-decreasing under the natural order.
pub open spec fn is_sorted(s: Seq<BlockIndex>) -> bool {
    forall|i: int, j: int| 0 <= i < j < s.len() ==> index_le(#[trigger] s[i], #[trigger] s[j])
}

/// The entries of `s` of type `t`, in the order of `s`.
pub open spec fn of_type(s: Seq<BlockIndex>, t: BlockType) -> Seq<BlockIndex>
    decreases s.len(),
{
    if s.len() == 0 {
        Seq::empty()
    } else if s.last().block_type == t {
        of_type(s.drop_last(), t).push(s.last())
    } else {
        of_type(s.drop_last(), t)
    }
}

/// `s` with its entries grouped by type in the natural order of types, each
/// group keeping the order of `s`.
pub open spec fn group_by_type(s: Seq<BlockIndex>) -> Seq<BlockIndex> {
    of_type(s, BlockType::Header) + of_type(s, BlockType::Nodes) + of_type(s, BlockType::DenseNodes)
        + of_type(s, BlockType::Ways) + of_type(s, BlockType::Relations)
}

/// Bytes that the frame of an entry takes in the file: the length prefix,
/// the header and the blob.
pub open spec fn frame_size(x: BlockIndex) -> int {
    4 + x.blob_header_len + x.blob_len
}

/// Sum of the frame sizes of the entries of `s`.
pub open spec fn total_frame_size(s: Seq<BlockIndex>) -> int
    decreases s.len(),
{
    if s.len() == 0 {
        0
    } else {
        total_frame_size(s.drop_last()) + frame_size(s.last())
    }
}

fn append_of_type(out: &mut Vec<BlockIndex>, s: &Vec<BlockIndex>, t: BlockType)
    ensures
        final(out)@ == old(out)@ + of_type(s@, t),
{
    let ghost start = out@;
    let rt = type_rank(t);
    let mut i: usize = 0;
    assert(s@.take(0) =~= Seq::<BlockIndex>::empty());
    assert(start + Seq::<BlockIndex>::empty() =~= start);
    while i < s.len()
        invariant
            0 <= i <= s@.len(),
            rt as int == rank(t),
            out@ == start + of_type(s@.take(i as int), t),
        decreases s@.len() - i,
    {
        let x = s[i];
        proof {
            assert(s@.take(i + 1).drop_last() =~= s@.take(i as int));
            assert(s@.take(i + 1).last() == x);
        }
        if type_rank(x.block_type) == rt {
            out.push(x);
            proof {
                assert(start + of_type(s@.take(i as int), t).push(x) =~= (start + of_type(s@.take(i as int), t)).push(x));
            }
        }
        i = i + 1;
    }
    assert(s@.take(s@.len() as int) =~= s@);
}

/// Indexes the PBF file `data`: the entries of `scan_blocks`, grouped by block
/// type in the order `Header, Nodes, DenseNodes, Ways, Relations`, and within
/// a type in file order, together with the blocks that were left out.
pub fn index_blocks(data: &[u8]) -> (r: Result<(Vec<BlockIndex>, Vec<(usize, PbfError)>), PbfError>)
    ensures
        match r {
            Ok((ix, skipped)) => scan_from(data@, 0) matches Ok((s, k)) && ix@ == group_by_type(s)
                && skipped@ == k,
            Err(e) => scan_from(data@, 0) == Err::<(Seq<BlockIndex>, Seq<(usize, PbfError)>), _>(e),
        },
{
    let (blocks, skipped) = match scan_blocks(data) {
        Ok(x) => x,
        Err(e) => return Err(e),
    };
    let mut out: Vec<BlockIndex> = Vec::new();
    append_of_type(&mut out, &blocks, BlockType::Header);
    append_of_type(&mut out, &blocks, BlockType::Nodes);
    append_of_type(&mut out, &blocks, BlockType::DenseNodes);
    append_of_type(&mut out, &blocks, BlockType::Ways);
    append_of_type(&mut out, &blocks, BlockType::Relations);
    assert(out@ =~= group_by_type(blocks@));
    Ok((out, skipped))
}

/// Entries of a scan have strictly increasing blob offsets, all past `pos`.
proof fn lemma_scan_increasing(b: Seq<u8>, pos: int)
    requires
        scan_from(b, pos) is Ok,
        b.len() <= usize::MAX,
    ensures
        forall|i: int|
            0 <= i < scan_from(b, pos)->Ok_0.0.len() ==> #[trigger] scan_from(b, pos)->Ok_0.0[i].blob_start
                > pos && scan_from(b, pos)->Ok_0.0[i].blob_start <= b.len(),
        forall|i: int, j: int|
            0 <= i < j < scan_from(b, pos)->Ok_0.0.len() ==> #[trigger] scan_from(b, pos)->Ok_0.0[i].blob_start
                < #[trigger] scan_from(b, pos)->Ok_0.0[j].blob_start,
    decreases b.len() - pos,
{
    if 0 <= pos < b.len() {
        let f = frame_at(b, pos)->Ok_0;
        frame_within_file(b, pos);
        let next = f.blob_start + f.blob_len;
        lemma_scan_increasing(b, next);
        reveal(entry_of);
        let rest = scan_from(b, next)->Ok_0.0;
        if let Ok(ix) = entry_of(b, f) {
            let s = seq![ix] + rest;
            assert forall|i: int| 0 <= i < s.len() implies #[trigger] s[i].blob_start > pos && s[i].blob_start <= b.len() by {
                if i > 0 {
                    assert(s[i] == rest[i - 1]);
                }
            }
            assert forall|i: int, j: int| 0 <= i < j < s.len() implies #[trigger] s[i].blob_start
                < #[trigger] s[j].blob_start by {
                assert(s[j] == rest[j - 1]);
                if i > 0 {
                    assert(s[i] == rest[i - 1]);
                }
            }
        }
    }
}

proof fn lemma_of_type_props(s: Seq<BlockIndex>, t: BlockType, c: int)
    requires
        forall|i: int, j: int| 0 <= i < j < s.len() ==> #[trigger] s[i].blob_start < #[trigger] s[j].blob_start,
        forall|i: int| 0 <= i < s.len() ==> #[trigger] s[i].blob_start < c,
    ensures
        forall|k: int| 0 <= k < of_type(s, t).len() ==> #[trigger] of_type(s, t)[k].block_type == t,
        forall|k: int| 0 <= k < of_type(s, t).len() ==> #[trigger] of_type(s, t)[k].blob_start < c,
        is_sorted(of_type(s, t)),
    decreases s.len(),
{
    if s.len() > 0 {
        let p = s.drop_last();
        let e = s.last();
        lemma_of_type_props(p, t, e.blob_start as int);
        let g = of_type(s, t);
        let gp = of_type(p, t);
        if e.block_type == t {
            assert forall|k: int| 0 <= k < g.len() implies #[trigger] g[k].blob_start < c by {
                if k < gp.len() {
                    assert(g[k] == gp[k]);
                }
            }
            assert forall|i: int, j: int| 0 <= i < j < g.len() implies index_le(#[trigger] g[i], #[trigger] g[j]) by {
                assert(g[i] == gp[i]);
                if j < gp.len() {
                    assert(g[j] == gp[j]);
                }
            }
        } else {
            lemma_of_type_props(p, t, c);
        }
    }
}

proof fn lemma_concat_sorted(a: Seq<BlockIndex>, b: Seq<BlockIndex>, r: int)
    requires
        is_sorted(a),
        is_sorted(b),
        forall|i: int| 0 <= i < a.len() ==> rank(#[trigger] a[i].block_type) <= r,
        forall|j: int| 0 <= j < b.len() ==> rank(#[trigger] b[j].block_type) > r,
    ensures
        is_sorted(a + b),
{
    let c = a + b;
    assert forall|i: int, j: int| 0 <= i < j < c.len() implies index_le(#[trigger] c[i], #[trigger] c[j]) by {
        if j < a.len() {
            assert(c[i] == a[i] && c[j] == a[j]);
        } else if i >= a.len() {
            assert(c[i] == b[i - a.len()] && c[j] == b[j - a.len()]);
        } else {
            assert(c[i] == a[i] && c[j] == b[j - a.len()]);
        }
    }
}

/// The index that `index_blocks` returns is sorted under the natural order
/// on entries.
pub proof fn index_is_sorted(b: Seq<u8>)
    requires
        scan_from(b, 0) is Ok,
        b.len() <= usize::MAX,
    ensures
        is_sorted(group_by_type(scan_from(b, 0)->Ok_0.0)),
{
    let s = scan_from(b, 0)->Ok_0.0;
    lemma_scan_increasing(b, 0);
    let c: int = b.len() as int + 1;
    assert forall|i: int| 0 <= i < s.len() implies #[trigger] s[i].blob_start < c by {}
    lemma_of_type_props(s, BlockType::Header, c);
    lemma_of_type_props(s, BlockType::Nodes, c);
    lemma_of_type_props(s, BlockType::DenseNodes, c);
    lemma_of_type_props(s, BlockType::Ways, c);
    lemma_of_type_props(s, BlockType::Relations, c);
    let g0 = of_type(s, BlockType::Header);
    let g1 = of_type(s, BlockType::Nodes);
    let g2 = of_type(s, BlockType::DenseNodes);
    let g3 = of_type(s, BlockType::Ways);
    let g4 = of_type(s, BlockType::Relations);
    lemma_concat_sorted(g0, g1, 0);
    let a1 = g0 + g1;
    assert forall|i: int| 0 <= i < a1.len() implies rank(#[trigger] a1[i].block_type) <= 1 by {
        if i < g0.len() { assert(a1[i] == g0[i]); } else { assert(a1[i] == g1[i - g0.len()]); }
    }
    lemma_concat_sorted(a1, g2, 1);
    let a2 = a1 + g2;
    assert forall|i: int| 0 <= i < a2.len() implies rank(#[trigger] a2[i].block_type) <= 2 by {
        if i < a1.len() { assert(a2[i] == a1[i]); } else { assert(a2[i] == g2[i - a1.len()]); }
    }
    lemma_concat_sorted(a2, g3, 2);
    let a3 = a2 + g3;
    assert forall|i: int| 0 <= i < a3.len() implies rank(#[trigger] a3[i].block_type) <= 3 by {
        if i < a2.len() { assert(a3[i] == a2[i]); } else { assert(a3[i] == g3[i - a2.len()]); }
    }
    lemma_concat_sorted(a3, g4, 3);
}

proof fn lemma_total_frame_size_concat(a: Seq<BlockIndex>, b: Seq<BlockIndex>)
    ensures
        total_frame_size(a + b) == total_frame_size(a) + total_frame_size(b),
    decreases b.len(),
{
    if b.len() > 0 {
        lemma_total_frame_size_concat(a, b.drop_last());
        assert((a + b).drop_last() =~= a + b.drop_last());
    } else {
        assert(a + b =~= a);
    }
}

proof fn lemma_push_total(x: Seq<BlockIndex>, e: BlockIndex)
    ensures
        total_frame_size(x.push(e)) == total_frame_size(x) + frame_size(e),
{
    assert(x.push(e).drop_last() =~= x);
}

/// Sum of the frame sizes of the five groups of `s`.
spec fn groups_total(s: Seq<BlockIndex>) -> int {
    total_frame_size(of_type(s, BlockType::Header)) + total_frame_size(of_type(s, BlockType::Nodes))
        + total_frame_size(of_type(s, BlockType::DenseNodes)) + total_frame_size(
        of_type(s, BlockType::Ways),
    ) + total_frame_size(of_type(s, BlockType::Relations))
}

proof fn lemma_of_type_step(s: Seq<BlockIndex>, t: BlockType)
    requires
        s.len() > 0,
    ensures
        total_frame_size(of_type(s, t)) == total_frame_size(of_type(s.drop_last(), t)) + if s.last().block_type == t {
            frame_size(s.last())
        } else {
            0
        },
{
    if s.last().block_type == t {
        lemma_push_total(of_type(s.drop_last(), t), s.last());
    }
}

proof fn lemma_groups_sum(s: Seq<BlockIndex>)
    ensures
        groups_total(s) == total_frame_size(s),
    decreases s.len(),
{
    if s.len() > 0 {
        let p = s.drop_last();
        lemma_groups_sum(p);
        lemma_of_type_step(s, BlockType::Header);
        lemma_of_type_step(s, BlockType::Nodes);
        lemma_of_type_step(s, BlockType::DenseNodes);
        lemma_of_type_step(s, BlockType::Ways);
        lemma_of_type_step(s, BlockType::Relations);
    }
}

proof fn lemma_groups_total(s: Seq<BlockIndex>)
    ensures
        total_frame_size(group_by_type(s)) == total_frame_size(s),
{
    let g0 = of_type(s, BlockType::Header);
    let g1 = of_type(s, BlockType::Nodes);
    let g2 = of_type(s, BlockType::DenseNodes);
    let g3 = of_type(s, BlockType::Ways);
    let g4 = of_type(s, BlockType::Relations);
    lemma_total_frame_size_concat(g0, g1);
    lemma_total_frame_size_concat(g0 + g1, g2);
    lemma_total_frame_size_concat(g0 + g1 + g2, g3);
    lemma_total_frame_size_concat(g0 + g1 + g2 + g3, g4);
    lemma_groups_sum(s);
}

proof fn lemma_scan_covers(b: Seq<u8>, pos: int)
    requires
        0 <= pos <= b.len(),
        b.len() <= usize::MAX,
        scan_from(b, pos) matches Ok((_, skipped)) && skipped.len() == 0,
    ensures
        total_frame_size(scan_from(b, pos)->Ok_0.0) == b.len() - pos,
    decreases b.len() - pos,
{
    if pos < b.len() {
        let f = frame_at(b, pos)->Ok_0;
        frame_within_file(b, pos);
        let next = f.blob_start + f.blob_len;
        reveal(entry_of);
        assert(scan_from(b, next) is Ok);
        let (rest, sk) = scan_from(b, next)->Ok_0;
        if let Ok(ix) = entry_of(b, f) {
            lemma_scan_covers(b, next);
            lemma_total_frame_size_concat(seq![ix], rest);
            lemma_push_total(Seq::<BlockIndex>::empty(), ix);
            assert(Seq::<BlockIndex>::empty().push(ix) =~= seq![ix]);
            assert(total_frame_size(seq![ix]) == frame_size(ix));
            assert(scan_from(b, pos)->Ok_0.0 == seq![ix] + rest);
        } else {
            assert((seq![(f.blob_start, entry_of(b, f)->Err_0)] + sk).len() > 0);
        }
    }
}

/// When no block of a file is left out, the frames of its index cover the
/// file exactly: their sizes sum to the file's length.
pub proof fn index_covers_file(b: Seq<u8>)
    requires
        b.len() <= usize::MAX,
        scan_from(b, 0) matches Ok((_, skipped)) && skipped.len() == 0,
    ensures
        total_frame_size(group_by_type(scan_from(b, 0)->Ok_0.0)) == b.len(),
{
    lemma_scan_covers(b, 0);
    lemma_groups_total(scan_from(b, 0)->Ok_0.0);
}


/// The decompressed payload of the block that `idx` locates in the file `b`.
pub open spec fn block_at(b: Seq<u8>, idx: BlockIndex) -> Result<Seq<u8>, PbfError> {
    if idx.blob_start + idx.blob_len > b.len() {
        Err(PbfError::InvalidOffset)
    } else {
        blob_payload(b.subrange(idx.blob_start as int, idx.blob_start + idx.blob_len))
    }
}

/// Reads the block that `idx` locates in the file `data` and returns its
/// decompressed payload, ready to be decoded as a `HeaderBlock` or a
/// `PrimitiveBlock`.
pub fn read_block_payload(data: &[u8], idx: &BlockIndex) -> (r: Result<Vec<u8>, PbfError>)
    ensures
        match r {
            Ok(v) => block_at(data@, *idx) == Ok::<Seq<u8>, PbfError>(v@),
            Err(e) => block_at(data@, *idx) == Err::<Seq<u8>, PbfError>(e),
        },
{
    let len = data.len();
    if idx.blob_start > len || len - idx.blob_start < idx.blob_len {
        return Err(PbfError::InvalidOffset);
    }
    let blob = vstd::slice::slice_subrange(data, idx.blob_start, idx.blob_start + idx.blob_len);
    decode_blob(blob)
}


/// The entry `e` lies within the file `b`, and where it is a data block, its
/// payload reads back and classifies as the type that `e` gives.
pub open spec fn reads_back(b: Seq<u8>, e: BlockIndex) -> bool {
    &&& e.blob_start + e.blob_len <= b.len()
    &&& e.block_type != BlockType::Header ==> block_at(b, e) is Ok && classify(
        block_at(b, e)->Ok_0,
        0,
    ) == Ok::<BlockType, PbfError>(e.block_type)
}

proof fn lemma_scan_reads_back(b: Seq<u8>, pos: int)
    requires
        scan_from(b, pos) is Ok,
        b.len() <= usize::MAX,
    ensures
        forall|i: int|
            0 <= i < scan_from(b, pos)->Ok_0.0.len() ==> reads_back(b, #[trigger] scan_from(b, pos)->Ok_0.0[i]),
    decreases b.len() - pos,
{
    if 0 <= pos < b.len() {
        let f = frame_at(b, pos)->Ok_0;
        frame_within_file(b, pos);
        let next = f.blob_start + f.blob_len;
        lemma_scan_increasing(b, next);
        lemma_scan_reads_back(b, next);
        reveal(entry_of);
        let rest = scan_from(b, next)->Ok_0.0;
        if let Ok(ix) = entry_of(b, f) {
            let s = seq![ix] + rest;
            assert(reads_back(b, ix));
            assert forall|i: int| 0 <= i < s.len() implies reads_back(b, #[trigger] s[i]) by {
                if i > 0 {
                    assert(s[i] == rest[i - 1]);
                }
            }
        }
    }
}

proof fn lemma_of_type_members(s: Seq<BlockIndex>, t: BlockType, k: int)
    requires
        0 <= k < of_type(s, t).len(),
    ensures
        s.contains(of_type(s, t)[k]),
    decreases s.len(),
{
    let p = s.drop_last();
    if s.last().block_type == t && k == of_type(p, t).len() {
        assert(s[s.len() - 1] == s.last());
    } else {
        lemma_of_type_members(p, t, k);
        let j = choose|j: int| 0 <= j < p.len() && p[j] == of_type(p, t)[k];
        assert(s[j] == p[j]);
    }
}

/// Round trip: every entry of the index that `index_blocks` returns reads back
/// with `read_block_payload`, and a data block's payload classifies as the
/// type that the index gives it.
pub proof fn indexed_blocks_read_back(b: Seq<u8>, k: int)
    requires
        b.len() <= usize::MAX,
        scan_from(b, 0) is Ok,
        0 <= k < group_by_type(scan_from(b, 0)->Ok_0.0).len(),
    ensures
        reads_back(b, group_by_type(scan_from(b, 0)->Ok_0.0)[k]),
{
    let s = scan_from(b, 0)->Ok_0.0;
    lemma_scan_reads_back(b, 0);
    let g0 = of_type(s, BlockType::Header);
    let g1 = of_type(s, BlockType::Nodes);
    let g2 = of_type(s, BlockType::DenseNodes);
    let g3 = of_type(s, BlockType::Ways);
    let g4 = of_type(s, BlockType::Relations);
    let g = group_by_type(s);
    let x = g[k];
    let n0 = g0.len() as int;
    let n1 = n0 + g1.len();
    let n2 = n1 + g2.len();
    let n3 = n2 + g3.len();
    if k < n0 {
        assert(x == g0[k]);
        lemma_of_type_members(s, BlockType::Header, k);
    } else if k < n1 {
        assert(x == g1[k - n0]);
        lemma_of_type_members(s, BlockType::Nodes, k - n0);
    } else if k < n2 {
        assert(x == g2[k - n1]);
        lemma_of_type_members(s, BlockType::DenseNodes, k - n1);
    } else if k < n3 {
        assert(x == g3[k - n2]);
        lemma_of_type_members(s, BlockType::Ways, k - n2);
    } else {
        assert(x == g4[k - n3]);
        lemma_of_type_members(s, BlockType::Relations, k - n3);
    }
    let j = choose|j: int| 0 <= j < s.len() && s[j] == x;
    assert(reads_back(b, s[j]));
}


/// A block that cannot be decoded or classified, in a frame that can be read,
/// is left out with its error, and the scan goes on with the next frame: the
/// entries and the other skipped blocks are those of the rest of the file.
pub proof fn failed_block_is_skipped(b: Seq<u8>, pos: int)
    requires
        0 <= pos < b.len(),
        b.len() <= usize::MAX,
        frame_at(b, pos) is Ok,
        entry_of(b, frame_at(b, pos)->Ok_0) is Err,
    ensures
        ({
            let f = frame_at(b, pos)->Ok_0;
            let next = f.blob_start + f.blob_len;
            match scan_from(b, next) {
                Ok((rest, skipped)) => scan_from(b, pos) == Ok::<_, PbfError>(
                    (rest, seq![(f.blob_start, entry_of(b, f)->Err_0)] + skipped),
                ),
                Err(e) => scan_from(b, pos) == Err::<(Seq<BlockIndex>, Seq<(usize, PbfError)>), _>(e),
            }
        }),
{
    frame_within_file(b, pos);
}

} // verus!
