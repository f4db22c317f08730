use std::io::Write;

use osmpbf::pbf::{decode_blob, index_blocks, read_block_payload, read_frame, scan_blocks, BlobKind};
use osmpbf::wire::read_varint;
use osmpbf::{BlockIndex, BlockType, PbfError};

fn varint(mut v: u64) -> Vec<u8> {
    let mut out = Vec::new();
    loop {
        let byte = (v & 0x7f) as u8;
        v >>= 7;
        if v == 0 {
            out.push(byte);
            return out;
        }
        out.push(byte | 0x80);
    }
}

fn bytes_field(tag: u64, payload: &[u8]) -> Vec<u8> {
    let mut out = varint(tag << 3 | 2);
    out.extend(varint(payload.len() as u64));
    out.extend(payload);
    out
}

fn varint_field(tag: u64, v: u64) -> Vec<u8> {
    let mut out = varint(tag << 3);
    out.extend(varint(v));
    out
}

fn zlib(data: &[u8]) -> Vec<u8> {
    let mut enc = flate2::write::ZlibEncoder::new(Vec::new(), flate2::Compression::default());
    enc.write_all(data).unwrap();
    enc.finish().unwrap()
}

fn raw_blob(payload: &[u8]) -> Vec<u8> {
    let mut b = bytes_field(1, payload);
    b.extend(varint_field(2, payload.len() as u64));
    b
}

fn zlib_blob(payload: &[u8]) -> Vec<u8> {
    let mut b = varint_field(2, payload.len() as u64);
    b.extend(bytes_field(3, &zlib(payload)));
    b
}

fn frame(kind: &str, blob: &[u8]) -> Vec<u8> {
    let mut header = bytes_field(1, kind.as_bytes());
    header.extend(varint_field(3, blob.len() as u64));
    let mut out = (header.len() as u32).to_be_bytes().to_vec();
    out.extend(header);
    out.extend(blob);
    out
}

fn header_payload() -> Vec<u8> {
    bytes_field(4, b"OsmSchema-V0.6")
}

/// A primitive block: a string table, then one group whose first element has field number `kind`.
fn primitive_block(kind: u64) -> Vec<u8> {
    let mut block = bytes_field(1, &bytes_field(1, b""));
    let group = bytes_field(kind, &varint_field(1, 42));
    block.extend(bytes_field(2, &group));
    block.extend(varint_field(17, 100));
    block
}

#[test]
fn one_frame_pbf_gives_header_then_dense_nodes() {
    let first = frame("OSMHeader", &raw_blob(&header_payload()));
    let second = frame("OSMData", &zlib_blob(&primitive_block(2)));
    let mut file = first.clone();
    file.extend(&second);
    let (index, skipped) = index_blocks(&file).unwrap();
    assert!(skipped.is_empty());
    assert_eq!(index.len(), 2);
    assert_eq!(index[0].block_type, BlockType::Header);
    assert_eq!(index[1].block_type, BlockType::DenseNodes);
    let h0 = u32::from_be_bytes([file[0], file[1], file[2], file[3]]) as usize;
    assert_eq!(index[0].blob_header_len, h0);
    assert_eq!(index[0].blob_start, 4 + h0);
    let h1 = u32::from_be_bytes([second[0], second[1], second[2], second[3]]) as usize;
    assert_eq!(index[1].blob_start, first.len() + 4 + h1);
    assert_eq!(index[1].blob_len, second.len() - 4 - h1);
}

fn mixed_file() -> Vec<u8> {
    let mut file = frame("OSMHeader", &raw_blob(&header_payload()));
    for kind in [4u64, 3, 1, 2, 3, 1, 4] {
        file.extend(frame("OSMData", &zlib_blob(&primitive_block(kind))));
    }
    file
}

#[test]
fn index_covers_whole_file() {
    let file = mixed_file();
    let (index, skipped) = index_blocks(&file).unwrap();
    assert!(skipped.is_empty());
    assert_eq!(index.len(), 8);
    let total: usize = index.iter().map(|b| 4 + b.blob_header_len + b.blob_len).sum();
    assert_eq!(total, file.len());
}

#[test]
fn index_is_sorted_by_type_then_offset() {
    let file = mixed_file();
    let (index, _) = index_blocks(&file).unwrap();
    for pair in index.windows(2) {
        assert!(pair[0] <= pair[1]);
    }
    let types: Vec<BlockType> = index.iter().map(|b| b.block_type).collect();
    assert_eq!(
        types,
        vec![
            BlockType::Header,
            BlockType::Nodes,
            BlockType::Nodes,
            BlockType::DenseNodes,
            BlockType::Ways,
            BlockType::Ways,
            BlockType::Relations,
            BlockType::Relations,
        ]
    );
    let (in_file_order, _) = scan_blocks(&file).unwrap();
    let mut sorted = in_file_order.clone();
    sorted.sort();
    assert_eq!(sorted, index);
}

#[test]
fn blocks_read_back_in_reverse_order() {
    let payloads: Vec<Vec<u8>> = vec![header_payload(), primitive_block(1), primitive_block(3), primitive_block(4)];
    let mut file = frame("OSMHeader", &raw_blob(&payloads[0]));
    file.extend(frame("OSMData", &zlib_blob(&payloads[1])));
    file.extend(frame("OSMData", &raw_blob(&payloads[2])));
    file.extend(frame("OSMData", &zlib_blob(&payloads[3])));
    let (index, _) = scan_blocks(&file).unwrap();
    assert_eq!(index.len(), 4);
    for k in (0..index.len()).rev() {
        let payload = read_block_payload(&file, &index[k]).unwrap();
        assert_eq!(payload, payloads[k]);
    }
}

#[test]
fn corrupted_middle_blob_is_skipped() {
    let first = frame("OSMHeader", &raw_blob(&header_payload()));
    let mut middle = frame("OSMData", &zlib_blob(&primitive_block(1)));
    let last = frame("OSMData", &zlib_blob(&primitive_block(3)));
    // damage the zlib stream of the middle blob, keeping every length intact
    let n = middle.len();
    for b in &mut middle[n - 8..n - 4] {
        *b ^= 0xff;
    }
    let mut file = first.clone();
    file.extend(&middle);
    file.extend(&last);
    let (index, skipped) = index_blocks(&file).unwrap();
    assert_eq!(skipped.len(), 1);
    assert_eq!(skipped[0].1, PbfError::DecompressionError);
    assert_eq!(index.len(), 2);
    assert_eq!(index[0].block_type, BlockType::Header);
    assert_eq!(index[1].block_type, BlockType::Ways);
    assert_eq!(index[1].blob_start, first.len() + middle.len() + 4 + (u32::from_be_bytes([last[0], last[1], last[2], last[3]]) as usize));
}

#[test]
fn classifier_reads_each_kind() {
    assert_eq!(BlockType::from_osmdata_blob(&primitive_block(1)), Ok(BlockType::Nodes));
    assert_eq!(BlockType::from_osmdata_blob(&primitive_block(2)), Ok(BlockType::DenseNodes));
    assert_eq!(BlockType::from_osmdata_blob(&primitive_block(3)), Ok(BlockType::Ways));
    assert_eq!(BlockType::from_osmdata_blob(&primitive_block(4)), Ok(BlockType::Relations));
    assert_eq!(BlockType::from_osmdata_blob(&primitive_block(5)), Err(PbfError::UnsupportedChangeset));
    assert_eq!(BlockType::from_osmdata_blob(&primitive_block(9)), Err(PbfError::MalformedPrimitiveBlock));
}

#[test]
fn classifier_errors() {
    assert_eq!(BlockType::from_osmdata_blob(&[]), Err(PbfError::Truncated));
    assert_eq!(BlockType::from_osmdata_blob(&bytes_field(1, b"abc")), Err(PbfError::Truncated));
    assert_eq!(BlockType::from_osmdata_blob(&[0x0a, 0x05, 0x01]), Err(PbfError::DecodeError));
    assert_eq!(BlockType::from_osmdata_blob(&varint_field(2, 1)), Err(PbfError::DecodeError));
}

#[test]
fn classifier_skips_fixed_width_fields() {
    let mut block = vec![(7 << 3) | 1];
    block.extend([0u8; 8]);
    block.push((8 << 3) | 5);
    block.extend([0u8; 4]);
    block.extend(bytes_field(2, &bytes_field(3, b"")));
    assert_eq!(BlockType::from_osmdata_blob(&block), Ok(BlockType::Ways));
}

#[test]
fn blob_decoding() {
    let payload = primitive_block(1);
    assert_eq!(decode_blob(&raw_blob(&payload)), Ok(payload.clone()));
    assert_eq!(decode_blob(&zlib_blob(&payload)), Ok(payload.clone()));
    assert_ne!(zlib(&payload), payload);
    let lzma = bytes_field(4, b"xx");
    assert_eq!(decode_blob(&lzma), Err(PbfError::UnsupportedCompression));
    assert_eq!(decode_blob(&[]), Err(PbfError::UnsupportedCompression));
    let mut wrong_size = varint_field(2, payload.len() as u64 + 1);
    wrong_size.extend(bytes_field(3, &zlib(&payload)));
    assert_eq!(decode_blob(&wrong_size), Err(PbfError::DecompressionError));
    let not_zlib = bytes_field(3, b"not a zlib stream");
    assert_eq!(decode_blob(&not_zlib), Err(PbfError::DecompressionError));
    assert_eq!(decode_blob(&[0x0a, 0x09]), Err(PbfError::DecodeError));
}

#[test]
fn frame_errors() {
    assert_eq!(read_frame(&[0, 0, 0], 0), Err(PbfError::UnexpectedEof));
    assert_eq!(read_frame(&[0, 0, 0, 0], 0), Err(PbfError::InvalidFrameLength));
    assert_eq!(read_frame(&[0xff, 0xff, 0xff, 0xff, 1], 0), Err(PbfError::InvalidFrameLength));
    assert_eq!(read_frame(&[0, 1, 0, 1, 1], 0), Err(PbfError::InvalidFrameLength));
    assert_eq!(read_frame(&[0, 0, 0, 5, 1], 0), Err(PbfError::UnexpectedEof));
    let unknown = frame("OSMOther", &raw_blob(b"x"));
    assert_eq!(read_frame(&unknown, 0).unwrap().kind, BlobKind::Unknown);
    let full = frame("OSMData", &raw_blob(b"xyz"));
    let cut = &full[..full.len() - 1];
    assert_eq!(read_frame(cut, 0), Err(PbfError::UnexpectedEof));
    assert_eq!(index_blocks(cut), Err(PbfError::UnexpectedEof));
    let f = read_frame(&full, 0).unwrap();
    assert_eq!(f.kind, BlobKind::OsmData);
    assert_eq!(f.blob_start + f.blob_len, full.len());
}

#[test]
fn invalid_offset_is_reported() {
    let file = frame("OSMHeader", &raw_blob(&header_payload()));
    let idx = BlockIndex { block_type: BlockType::Header, blob_start: file.len() - 2, blob_len: 3, blob_header_len: 1 };
    assert_eq!(read_block_payload(&file, &idx), Err(PbfError::InvalidOffset));
}

#[test]
fn empty_file_has_empty_index() {
    assert_eq!(index_blocks(&[]), Ok((Vec::new(), Vec::new())));
}

#[test]
fn varints() {
    assert_eq!(read_varint(&[0x96, 0x01], 0), Some((150, 2)));
    assert_eq!(read_varint(&[0x00, 0x7f], 1), Some((127, 2)));
    assert_eq!(read_varint(&[0x80, 0x80], 0), None);
    let max = varint(u64::MAX);
    assert_eq!(max.len(), 10);
    assert_eq!(read_varint(&max, 0), Some((u64::MAX, 10)));
    let mut too_big = max.clone();
    too_big[9] = 0x02;
    assert_eq!(read_varint(&too_big, 0), None);
    assert_eq!(read_varint(&[0x05], 3), None);
}

#[test]
fn unknown_blob_type_is_skipped() {
    let first = frame("OSMHeader", &raw_blob(&header_payload()));
    let other = frame("OSMOther", &raw_blob(b"whatever"));
    let last = frame("OSMData", &raw_blob(&primitive_block(4)));
    let mut file = first.clone();
    file.extend(&other);
    file.extend(&last);
    let (index, skipped) = index_blocks(&file).unwrap();
    assert_eq!(skipped.len(), 1);
    assert_eq!(skipped[0].1, PbfError::UnknownBlobType);
    assert_eq!(skipped[0].0, first.len() + other.len() - raw_blob(b"whatever").len());
    assert_eq!(index.len(), 2);
    assert_eq!(index[0].block_type, BlockType::Header);
    assert_eq!(index[1].block_type, BlockType::Relations);
}

#[test]
fn classifier_skips_group_fields() {
    assert_eq!(BlockType::from_osmdata_blob(&[0x7b, 0x7c, 0x12, 0x02, 0x0a, 0x00]), Ok(BlockType::Nodes));
    assert_eq!(BlockType::from_osmdata_blob(&[0x7b, 0x7c, 0x12, 0x02, 0x2a, 0x00]), Err(PbfError::UnsupportedChangeset));
    assert_eq!(BlockType::from_osmdata_blob(&[0x7b, 0x7c, 0x12, 0x02, 0x32, 0x00]), Err(PbfError::MalformedPrimitiveBlock));
    assert_eq!(BlockType::from_osmdata_blob(&[0x7b, 0x7c]), Err(PbfError::Truncated));
    // a group holding a nested group and a varint
    let nested = [0x7b, 0x83, 0x01, 0x08, 0x05, 0x84, 0x01, 0x7c, 0x12, 0x02, 0x1a, 0x00];
    assert_eq!(BlockType::from_osmdata_blob(&nested), Ok(BlockType::Ways));
    // end-group key of another field number
    assert_eq!(BlockType::from_osmdata_blob(&[0x7b, 0x84, 0x01, 0x12, 0x02, 0x0a, 0x00]), Err(PbfError::DecodeError));
    // a group that never ends
    assert_eq!(BlockType::from_osmdata_blob(&[0x7b, 0x08, 0x01]), Err(PbfError::DecodeError));
    // a lone end-group key
    assert_eq!(BlockType::from_osmdata_blob(&[0x7c, 0x12, 0x02, 0x0a, 0x00]), Err(PbfError::DecodeError));
}

fn nested_groups(levels: usize) -> Vec<u8> {
    let mut block = vec![0x0bu8; levels];
    block.extend(vec![0x0cu8; levels]);
    block.extend([0x12, 0x02, 0x22, 0x00]);
    block
}

#[test]
fn group_nesting_limit() {
    assert_eq!(BlockType::from_osmdata_blob(&nested_groups(100)), Ok(BlockType::Relations));
    assert_eq!(BlockType::from_osmdata_blob(&nested_groups(101)), Err(PbfError::DecodeError));
}

#[test]
fn primitive_group_key_must_lie_inside_group() {
    assert_eq!(BlockType::from_osmdata_blob(&[0x12, 0x00, 0x0a, 0x00]), Err(PbfError::DecodeError));
    assert_eq!(BlockType::from_osmdata_blob(&[0x12, 0x01, 0x80, 0x01]), Err(PbfError::DecodeError));
    assert_eq!(BlockType::from_osmdata_blob(&[0x12, 0x01, 0x08]), Ok(BlockType::Nodes));
}

#[test]
fn group_fields_in_headers_and_blobs_are_skipped() {
    let blob = raw_blob(&primitive_block(1));
    let mut blob_with_group = vec![0x7b, 0x7c];
    blob_with_group.extend(&blob);
    let mut header2 = vec![0x7b, 0x08, 0x01, 0x7c];
    header2.extend(bytes_field(1, b"OSMData"));
    header2.extend(varint_field(3, blob_with_group.len() as u64));
    let mut file2 = (header2.len() as u32).to_be_bytes().to_vec();
    file2.extend(&header2);
    file2.extend(&blob_with_group);
    let (index, skipped) = index_blocks(&file2).unwrap();
    assert!(skipped.is_empty());
    assert_eq!(index.len(), 1);
    assert_eq!(index[0].block_type, BlockType::Nodes);
    assert_eq!(decode_blob(&blob_with_group), Ok(primitive_block(1)));
}

#[test]
fn classifier_ignores_bytes_after_first_key() {
    let block = primitive_block(3);
    // the prefix ends with the key of the first element inside the primitive group
    let string_table = bytes_field(1, &bytes_field(1, b""));
    let cut = string_table.len() + 3;
    assert_eq!(BlockType::from_osmdata_blob(&block), Ok(BlockType::Ways));
    assert_eq!(BlockType::from_osmdata_blob(&block[..cut]), Ok(BlockType::Ways));
    let mut garbage = block[..cut].to_vec();
    garbage.extend([0xff, 0xff, 0xff]);
    assert_eq!(BlockType::from_osmdata_blob(&garbage), Ok(BlockType::Ways));
    assert_eq!(BlockType::from_osmdata_blob(&[0x12, 0x7f, 0x0a]), Ok(BlockType::Nodes));
}
