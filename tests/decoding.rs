use edds::assemble::{assemble, BlockOrder};
use edds::block::{block, blocks, Block, Blocks};
use edds::convert::{decode, decode_with, EddsFile, FramePolicy};
use edds::format::{read_i32_le, read_u32_le, DecodeError};
use edds::frames::{collect_frames, decode_frames, frame_table, Frame};
use edds::header::{
    block_identifier, block_identifiers, header_flags, BlockHeader, BlockIdentifier,
    BlockIdentifiers, BlockKind, Header,
};

fn base_header() -> Vec<u8> {
    let mut h = vec![0u8; 128];
    h[0..4].copy_from_slice(b"DDS ");
    for (i, b) in h.iter_mut().enumerate().skip(4) {
        *b = (i % 251) as u8;
    }
    h
}

fn dx10_header() -> Vec<u8> {
    let mut h = base_header();
    h[84..88].copy_from_slice(b"DX10");
    h.extend((0..20u8).map(|i| 0xA0 + i));
    h
}

fn record(tag: &[u8; 4], len: i32) -> Vec<u8> {
    let mut r = tag.to_vec();
    r.extend_from_slice(&len.to_le_bytes());
    r
}

/// A container with one verbatim block of sixteen bytes.
fn sample_container() -> Vec<u8> {
    let mut v = base_header();
    v.extend(record(b"COPY", 16));
    v.extend((0..16u8).map(|i| i * 3));
    v
}

/// A framed block body: total size, then each frame with its header, then
/// the sentinel.
fn framed_body(total: i32, frames: &[Vec<u8>]) -> Vec<u8> {
    let len: usize = 4 + frames.iter().map(|f| 4 + f.len()).sum::<usize>() + 4;
    let mut v = total.to_le_bytes().to_vec();
    for f in frames {
        v.extend_from_slice(&(f.len() as i32).to_le_bytes());
        v.extend_from_slice(f);
    }
    v.extend_from_slice(&(len as i32).to_le_bytes());
    v
}

#[test]
fn test_file_creation() {
    let input = sample_container();
    let edds_file = match EddsFile::new(&input) {
        Ok(file) => file,
        Err(err) => panic!("Error {:?}", err),
    };
    assert_eq!(&edds_file.header.flags.0[0..4], b"DDS ");
    assert_eq!(edds_file.blocks.0.len(), 1);
    assert_eq!(edds_file.blocks.0[0].data, input[136..152].to_vec());
}

#[test]
fn test_() {
    let input = sample_container();
    let header = Header::from_bytes(&input).expect("header");
    let start = header.len();
    let blocks = blocks(&header.block_identifiers, &input, start).expect("blocks");
    assert_eq!(blocks.0.len(), 1);
    assert_eq!(blocks.0[0].id, BlockIdentifier { kind: BlockKind::Copy, length: 16 });
}

#[test]
fn test_parse_block_identifier() {
    let input = sample_container();
    let res = block_identifier(&input[128..input.len()], 0);

    assert!(res.is_ok());

    if let Ok(block_id) = res {
        assert_eq!(block_id.kind, BlockKind::Copy);
        assert_eq!(block_id.length, 16);
    }
}

#[test]
fn test_parse_block_identifiers() {
    let input = sample_container();
    let res = block_identifiers(&input[128..input.len()], 0);

    assert!(res.is_ok());

    if let Ok(block_ids) = res {
        assert_eq!(block_ids.0[0].kind, BlockKind::Copy);
        assert_eq!(block_ids.0[0].length, 16);
    }
}

#[test]
fn test_parse_header_flags() {
    let input = sample_container();
    let res = header_flags(&input);

    assert!(res.is_ok());

    if let Ok(header_flags) = res {
        assert_eq!(&header_flags.0[0..4], b"DDS ");
        assert_eq!(header_flags.0.len(), 128);
    }
}

#[test]
fn test_parse_header() {
    let input = sample_container();
    let res = Header::from_bytes(&input);

    assert!(res.is_ok());

    if let Ok(header) = res {
        assert_eq!(&header.flags.0[0..4], b"DDS ");
        assert_eq!(header.flags.0.len(), 128);
    }
}

#[test]
fn base_header_is_128_bytes() {
    let h = base_header();
    let flags = header_flags(&h).unwrap();
    assert_eq!(flags.0, h);
}

#[test]
fn dx10_header_is_148_bytes() {
    let mut input = dx10_header();
    input.extend(record(b"COPY", 0));
    let flags = header_flags(&input).unwrap();
    assert_eq!(flags.0.len(), 148);
    assert_eq!(flags.0, input[0..148].to_vec());
    let header = Header::from_bytes(&input).unwrap();
    assert_eq!(header.len(), 156);
}

#[test]
fn dx10_tag_elsewhere_is_ignored() {
    let mut h = base_header();
    h[0..4].copy_from_slice(b"DX10");
    assert_eq!(header_flags(&h).unwrap().0.len(), 128);
}

#[test]
fn short_header_is_truncated() {
    assert_eq!(header_flags(&[0u8; 127]), Err(DecodeError::TruncatedInput));
    let mut h = dx10_header();
    h.truncate(147);
    assert_eq!(header_flags(&h), Err(DecodeError::TruncatedInput));
    assert_eq!(decode(&[]), Err(DecodeError::TruncatedInput));
}

#[test]
fn little_endian_reads() {
    let b = [0x78u8, 0x56, 0x34, 0x12, 0xff, 0xff, 0xff, 0xff];
    assert_eq!(read_u32_le(&b, 0), 0x1234_5678);
    assert_eq!(read_i32_le(&b, 4), -1);
    assert_eq!(read_u32_le(&b, 4), 0xffff_ffff);
}

#[test]
fn record_from_bytes() {
    let mut r = [0u8; 8];
    r.copy_from_slice(&record(b"LZ4 ", 300));
    assert_eq!(BlockHeader::from_bytes(&r), Ok(BlockHeader::Lz4(300)));
    r.copy_from_slice(&record(b"COPY", -5));
    assert_eq!(BlockHeader::from_bytes(&r), Err(DecodeError::InvalidBlockLength));
    r.copy_from_slice(&record(b"LZ4 ", -1));
    assert_eq!(BlockHeader::from_bytes(&r), Err(DecodeError::InvalidBlockLength));
    r.copy_from_slice(&record(b"COPY", 0));
    assert_eq!(BlockHeader::from_bytes(&r), Ok(BlockHeader::Copy(0)));
    assert_eq!(BlockHeader::Copy(-5).identifier(), Err(DecodeError::InvalidBlockLength));
    r.copy_from_slice(&record(b"LZ4_", 3));
    assert_eq!(BlockHeader::from_bytes(&r), Err(DecodeError::InvalidMagic));
    assert_eq!(BlockKind::from_tag(b"COPY"), Some(BlockKind::Copy));
    assert_eq!(BlockKind::from_tag(b"copy"), None);
    assert_eq!(BlockKind::from_tag(b"LZ4 "), Some(BlockKind::Lz4));
    assert_eq!(BlockKind::from_tag(b"COP"), None);
    assert_eq!(BlockKind::from_tag(b"COPYX"), None);
    assert_eq!(BlockKind::from_tag(b""), None);
}

#[test]
fn table_of_three_records_in_order() {
    let mut input = base_header();
    input.extend(record(b"COPY", 2));
    input.extend(record(b"LZ4 ", 40));
    input.extend(record(b"COPY", 7));
    input.extend(b"DATA....".iter());
    let ids = block_identifiers(&input, 128).unwrap();
    assert_eq!(
        ids.0,
        vec![
            BlockIdentifier { kind: BlockKind::Copy, length: 2 },
            BlockIdentifier { kind: BlockKind::Lz4, length: 40 },
            BlockIdentifier { kind: BlockKind::Copy, length: 7 },
        ]
    );
    let header = Header::from_bytes(&input).unwrap();
    assert_eq!(header.len(), 128 + 24);
}

#[test]
fn table_may_be_empty() {
    let mut input = base_header();
    input.extend(b"NONE");
    let ids = block_identifiers(&input, 128).unwrap();
    assert_eq!(ids, BlockIdentifiers(vec![]));
    assert_eq!(decode(&input), Ok(base_header()));
}

#[test]
fn negative_length_fails_for_either_kind() {
    for tag in [b"COPY", b"LZ4 "] {
        let mut input = base_header();
        input.extend(record(b"COPY", 1));
        input.extend(record(tag, -1));
        input.extend(b"xxxxxxxx".iter());
        assert_eq!(block_identifiers(&input, 128), Err(DecodeError::InvalidBlockLength));
        assert_eq!(block_identifier(&input, 136), Err(DecodeError::InvalidBlockLength));
        assert_eq!(decode(&input), Err(DecodeError::InvalidBlockLength));
        assert!(EddsFile::new(&input).is_err());
    }
}

#[test]
fn verbatim_round_trip() {
    let body = b"any bytes at all".to_vec();
    let mut input = base_header();
    input.extend(record(b"COPY", body.len() as i32));
    input.extend(&body);
    let mut expected = base_header();
    expected.extend(&body);
    assert_eq!(decode(&input), Ok(expected));
}

#[test]
fn single_copy_block_scenario() {
    let mut input = base_header();
    input.extend(record(b"COPY", 4));
    input.extend(b"DEAD");
    let mut expected = base_header();
    expected.extend(b"DEAD");
    assert_eq!(decode(&input), Ok(expected));
}

#[test]
fn two_copy_blocks_are_reversed() {
    let mut input = base_header();
    input.extend(record(b"COPY", 2));
    input.extend(record(b"COPY", 2));
    input.extend(b"AABB");
    let mut expected = base_header();
    expected.extend(b"BBAA");
    assert_eq!(decode(&input), Ok(expected));
}

#[test]
fn three_blocks_order() {
    let mut input = base_header();
    input.extend(record(b"COPY", 1));
    input.extend(record(b"COPY", 2));
    input.extend(record(b"COPY", 3));
    input.extend(b"ABBCCC");
    let file = EddsFile::new(&input).unwrap();
    let mut reversed = base_header();
    reversed.extend(b"CCCBBA");
    assert_eq!(file.to_dds(BlockOrder::Reversed), reversed);
    let mut parsed = base_header();
    parsed.extend(b"ABBCCC");
    assert_eq!(file.to_dds(BlockOrder::AsParsed), parsed);
}

#[test]
fn assemble_with_prefix() {
    let id = BlockIdentifier { kind: BlockKind::Copy, length: 1 };
    let bs = Blocks(vec![
        Block { id, data: b"A".to_vec(), failed_frames: vec![] },
        Block { id, data: b"B".to_vec(), failed_frames: vec![] },
        Block { id, data: b"C".to_vec(), failed_frames: vec![] },
    ]);
    assert_eq!(assemble(b"H", &bs, BlockOrder::Reversed), b"HCBA".to_vec());
    assert_eq!(assemble(b"H", &bs, BlockOrder::AsParsed), b"HABC".to_vec());
}

#[test]
fn truncated_copy_block() {
    let mut input = base_header();
    input.extend(record(b"COPY", 10));
    input.extend(b"short");
    assert_eq!(decode(&input), Err(DecodeError::TruncatedInput));
    assert!(EddsFile::new(&input).is_err());
}

#[test]
fn truncated_second_block() {
    let mut input = base_header();
    input.extend(record(b"COPY", 2));
    input.extend(record(b"COPY", 5));
    input.extend(b"AABBB");
    assert_eq!(decode(&input), Err(DecodeError::TruncatedInput));
}

#[test]
fn sentinel_ends_frames_at_once() {
    // stored length 16; the first frame header holds 16.
    let mut body = 100i32.to_le_bytes().to_vec();
    body.extend(16i32.to_le_bytes());
    body.extend([0u8; 8]);
    assert_eq!(frame_table(&body, 4, 16), Some(vec![]));
    let id = BlockIdentifier { kind: BlockKind::Lz4, length: 16 };
    let b = block(id, &body, 0).unwrap();
    assert!(b.data.is_empty());
    assert!(b.failed_frames.is_empty());
}

#[test]
fn sentinel_ignores_flag_bit() {
    let mut body = 100i32.to_le_bytes().to_vec();
    body.extend((16u32 | 0x8000_0000).to_le_bytes());
    body.extend([0u8; 8]);
    assert_eq!(frame_table(&body, 4, 16), Some(vec![]));
}

#[test]
fn frame_table_walk() {
    let mut v = vec![0u8; 4];
    v.extend(3u32.to_le_bytes());
    v.extend(b"abc");
    v.extend((2u32 | 0x8000_0000).to_le_bytes());
    v.extend(b"de");
    v.extend(50u32.to_le_bytes());
    assert_eq!(
        frame_table(&v, 4, 50),
        Some(vec![
            Frame { offset: 4, size: 3, flag: false },
            Frame { offset: 11, size: 2, flag: true },
        ])
    );
    // Without the sentinel the walk runs off the end.
    v.truncate(17);
    assert_eq!(frame_table(&v, 4, 50), None);
}

#[test]
fn framed_block_joins_frames() {
    let part1: Vec<u8> = (0..300u32).map(|i| (i % 7) as u8).collect();
    let part2: Vec<u8> = b"hello hello hello hello".to_vec();
    let f1 = lz4_flex::compress(&part1);
    let f2 = lz4_flex::compress(&part2);
    let body = framed_body((part1.len() + part2.len()) as i32, &[f1, f2]);
    let mut input = base_header();
    input.extend(record(b"LZ4 ", body.len() as i32));
    input.extend(record(b"COPY", 3));
    input.extend(&body);
    input.extend(b"XYZ");
    let file = EddsFile::new(&input).unwrap();
    let mut joined = part1.clone();
    joined.extend(&part2);
    assert_eq!(file.blocks.0[0].data, joined);
    assert!(file.blocks.0[0].failed_frames.is_empty());
    // The cursor moved past the framed block by its stored length.
    assert_eq!(file.blocks.0[1].data, b"XYZ".to_vec());
    let mut expected = base_header();
    expected.extend(b"XYZ");
    expected.extend(&joined);
    assert_eq!(decode(&input).unwrap(), expected);
}

#[test]
fn frame_output_is_bounded_by_total_size() {
    let part: Vec<u8> = vec![7u8; 100];
    let f = lz4_flex::compress(&part);
    // A total size of 50 leaves too little room for the frame's output.
    let body = framed_body(50, &[f.clone()]);
    let id = BlockIdentifier { kind: BlockKind::Lz4, length: body.len() };
    let b = block(id, &body, 0).unwrap();
    assert!(b.data.is_empty());
    assert_eq!(b.failed_frames, vec![4]);
    let body = framed_body(100, &[f]);
    let id = BlockIdentifier { kind: BlockKind::Lz4, length: body.len() };
    assert_eq!(block(id, &body, 0).unwrap().data, part);
}

#[test]
fn corrupt_frame_is_recorded_and_skipped() {
    let good = lz4_flex::compress(b"good data good data");
    let bad = vec![0xf0u8, 0x01];
    let body = framed_body(1000, &[bad, good]);
    let id = BlockIdentifier { kind: BlockKind::Lz4, length: body.len() };
    let b = block(id, &body, 0).unwrap();
    assert_eq!(b.data, b"good data good data".to_vec());
    assert_eq!(b.failed_frames, vec![4]);
}

#[test]
fn decode_frames_each_frame() {
    let f = lz4_flex::compress(b"abcabcabc");
    let body = framed_body(9, &[f.clone(), f]);
    let frames = frame_table(&body, 4, body.len()).unwrap();
    assert_eq!(frames.len(), 2);
    let outs = decode_frames(&body, &frames, 9);
    assert_eq!(outs, vec![Some(b"abcabcabc".to_vec()), Some(b"abcabcabc".to_vec())]);
}

#[test]
fn collect_frames_joins_and_lists_failures() {
    let frames = vec![
        Frame { offset: 4, size: 1, flag: false },
        Frame { offset: 9, size: 1, flag: false },
        Frame { offset: 14, size: 1, flag: true },
    ];
    let outs = vec![Some(b"ab".to_vec()), None, Some(b"c".to_vec())];
    let (data, failed) = collect_frames(&frames, &outs);
    assert_eq!(data, b"abc".to_vec());
    assert_eq!(failed, vec![9]);
}

#[test]
fn framed_block_without_size_field_is_truncated() {
    let id = BlockIdentifier { kind: BlockKind::Lz4, length: 2 };
    assert_eq!(block(id, &[1u8, 2], 0), Err(DecodeError::TruncatedInput));
}

#[test]
fn blocks_carry_their_records() {
    let mut input = base_header();
    input.extend(record(b"COPY", 4));
    input.extend(b"DEAD");
    let file = EddsFile::new(&input).unwrap();
    assert_eq!(file.header.flags.0, base_header());
    assert_eq!(
        file.blocks.0,
        vec![Block {
            id: BlockIdentifier { kind: BlockKind::Copy, length: 4 },
            data: b"DEAD".to_vec(),
            failed_frames: vec![],
        }]
    );
}

#[test]
fn failed_frames_reach_the_caller() {
    let good = lz4_flex::compress(b"good data good data");
    let bad = vec![0xf0u8, 0x01];
    let body = framed_body(1000, &[good, bad]);
    let mut input = base_header();
    input.extend(record(b"LZ4 ", body.len() as i32));
    input.extend(&body);
    let bad_offset = 128 + 8 + 4 + 4 + lz4_flex::compress(b"good data good data").len();
    let mut expected = base_header();
    expected.extend(b"good data good data");
    assert_eq!(
        decode_with(&input, BlockOrder::Reversed, FramePolicy::Lenient),
        Ok((expected.clone(), vec![bad_offset]))
    );
    assert_eq!(
        decode_with(&input, BlockOrder::Reversed, FramePolicy::Strict),
        Err(DecodeError::DecompressionError)
    );
    assert_eq!(decode(&input), Ok(expected));
}

#[test]
fn strict_policy_passes_clean_input() {
    let mut input = base_header();
    input.extend(record(b"COPY", 2));
    input.extend(record(b"COPY", 2));
    input.extend(b"AABB");
    let mut expected = base_header();
    expected.extend(b"AABB");
    assert_eq!(
        decode_with(&input, BlockOrder::AsParsed, FramePolicy::Strict),
        Ok((expected, vec![]))
    );
    let mut short = base_header();
    short.extend(record(b"COPY", 9));
    assert_eq!(
        decode_with(&short, BlockOrder::AsParsed, FramePolicy::Lenient),
        Err(DecodeError::TruncatedInput)
    );
}

#[test]
fn oversized_frame_counts_as_failed() {
    let size: usize = 1_048_577;
    let mut frame = vec![0xF0u8];
    frame.extend(std::iter::repeat(0xFFu8).take(size - 2));
    frame.push(1);
    let body = framed_body(100, &[frame]);
    let id = BlockIdentifier { kind: BlockKind::Lz4, length: body.len() };
    let b = block(id, &body, 0).unwrap();
    assert!(b.data.is_empty());
    assert_eq!(b.failed_frames, vec![4]);
}

#[test]
fn framed_block_then_copy_block_cursor() {
    let d: Vec<u8> = b"abcdabcdabcdabcd".to_vec();
    let f = lz4_flex::compress(&d);
    // Three frames, the middle one with the reserved bit set.
    let mut body = 48i32.to_le_bytes().to_vec();
    for flagged in [false, true, false] {
        let g = f.len() as u32 | if flagged { 0x8000_0000 } else { 0 };
        body.extend(g.to_le_bytes());
        body.extend(&f);
    }
    let len = body.len() + 4;
    body.extend((len as u32 | 0x8000_0000).to_le_bytes());
    let mut input = base_header();
    input.extend(record(b"LZ4 ", body.len() as i32));
    input.extend(record(b"COPY", 2));
    input.extend(&body);
    input.extend(b"cc");
    let mut expected = base_header();
    expected.extend(b"cc");
    expected.extend(&d);
    expected.extend(&d);
    expected.extend(&d);
    assert_eq!(decode(&input), Ok(expected));
}
