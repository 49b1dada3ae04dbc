use gif_reader::channel::FrameChannel;
use gif_reader::error::DecodeError;
use gif_reader::frame::DisposalMethod;
use gif_reader::reader::PipelineState;
use gif_reader::reader::ReadStatus;
use gif_reader::reader::init_gif_reader;

fn push_bits(bits: &mut Vec<bool>, value: u16, width: u16) {
    for k in 0..width {
        bits.push((value >> k) & 1 == 1);
    }
}

fn bits_to_bytes(bits: &[bool]) -> Vec<u8> {
    let mut out = vec![0u8; (bits.len() + 7) / 8];
    for (i, &b) in bits.iter().enumerate() {
        if b {
            out[i / 8] |= 1 << (i % 8);
        }
    }
    out
}

fn encode_lzw(indices: &[u8], min_code_size: u8) -> Vec<u8> {
    let clear: u16 = 1 << min_code_size;
    let end: u16 = clear + 1;
    let mut bits: Vec<bool> = Vec::new();
    let mut width: u16 = min_code_size as u16 + 1;
    let mut dict: Vec<(Vec<u8>, u16)> = Vec::new();
    let mut next_code: u16 = end + 1;
    push_bits(&mut bits, clear, width);
    let lookup = |dict: &Vec<(Vec<u8>, u16)>, seq: &Vec<u8>| -> Option<u16> {
        if seq.len() == 1 {
            return Some(seq[0] as u16);
        }
        dict.iter().find(|(s, _)| s == seq).map(|(_, c)| *c)
    };
    let mut cur: Vec<u8> = Vec::new();
    for &idx in indices {
        let mut ext = cur.clone();
        ext.push(idx);
        if lookup(&dict, &ext).is_some() {
            cur = ext;
        } else {
            let code = lookup(&dict, &cur).expect("prefix must be known");
            push_bits(&mut bits, code, width);
            if next_code < 4096 {
                dict.push((ext, next_code));
                next_code += 1;
                if next_code > (1 << width) && width < 12 {
                    width += 1;
                }
            }
            cur = vec![idx];
        }
    }
    if !cur.is_empty() {
        let code = lookup(&dict, &cur).expect("prefix must be known");
        push_bits(&mut bits, code, width);
        if next_code < 4096 {
            next_code += 1;
            if next_code > (1 << width) && width < 12 {
                width += 1;
            }
        }
    }
    push_bits(&mut bits, end, width);
    bits_to_bytes(&bits)
}

fn sub_blocks(data: &[u8]) -> Vec<u8> {
    let mut out = Vec::new();
    for chunk in data.chunks(255) {
        out.push(chunk.len() as u8);
        out.extend_from_slice(chunk);
    }
    out.push(0);
    out
}

/// Header for a `w` by `h` screen with a 2-entry global color table:
/// color 0 = (0x11, 0x22, 0x33), color 1 = (0x44, 0x55, 0x66).
fn header(w: u16, h: u16, bg: u8) -> Vec<u8> {
    let mut v = vec![b'G', b'I', b'F', b'8', b'9', b'a'];
    v.push((w & 0xff) as u8);
    v.push((w >> 8) as u8);
    v.push((h & 0xff) as u8);
    v.push((h >> 8) as u8);
    v.push(0x80); // global table, N = 0: 2 entries
    v.push(bg);
    v.push(0);
    v.extend_from_slice(&[0x11, 0x22, 0x33, 0x44, 0x55, 0x66]);
    v
}

const COLOR0: u32 = 0xff33_2211;
const COLOR1: u32 = 0xff66_5544;

fn image_block(left: u16, top: u16, w: u16, h: u16, indices: &[u8]) -> Vec<u8> {
    let mut v = vec![0x2c];
    for x in [left, top, w, h] {
        v.push((x & 0xff) as u8);
        v.push((x >> 8) as u8);
    }
    v.push(0); // not interlaced, no local table
    v.push(2); // minimum code size
    v.extend_from_slice(&sub_blocks(&encode_lzw(indices, 2)));
    v
}

fn graphic_control(packed: u8, delay: u16, tidx: u8) -> Vec<u8> {
    vec![0x21, 0xf9, 0x04, packed, (delay & 0xff) as u8, (delay >> 8) as u8, tidx, 0x00]
}

#[test]
fn end_to_end_single_frame_2x2() {
    // One clear code up front, four pixel codes, one end code: the
    // four pixels come out in the two palette colors at the expected
    // positions.
    let mut bytes = header(2, 2, 0);
    bytes.extend_from_slice(&image_block(0, 0, 2, 2, &[0, 1, 1, 0]));
    bytes.push(0x3b);
    let (mut controller, mut reader) = init_gif_reader();
    let status = reader.Read(&bytes, &mut controller.frame_receiver).expect("decode");
    assert!(matches!(status, ReadStatus::Finished));
    let frame = controller.receive().expect("one frame");
    assert_eq!(frame.width, 2);
    assert_eq!(frame.height, 2);
    assert_eq!(frame.pixels, vec![COLOR0, COLOR1, COLOR1, COLOR0]);
    assert!(controller.receive().is_none());
}

#[test]
fn missing_trailer_is_malformed() {
    // The trailer byte replaced by a byte that introduces nothing: the
    // decode must fail as malformed, not count as done.
    let mut bytes = header(2, 2, 0);
    bytes.extend_from_slice(&image_block(0, 0, 2, 2, &[0, 1, 1, 0]));
    bytes.push(0x00);
    let (mut controller, mut reader) = init_gif_reader();
    let r = reader.Read(&bytes, &mut controller.frame_receiver);
    assert_eq!(r, Err(DecodeError::MalformedBlock));
    assert!(matches!(reader.state, PipelineState::Failed));
    // the frame decoded before the failure stays delivered
    assert!(controller.receive().is_some());
}

#[test]
fn stream_ending_without_trailer_is_truncated() {
    let mut bytes = header(2, 2, 0);
    bytes.extend_from_slice(&image_block(0, 0, 2, 2, &[0, 1, 1, 0]));
    let (mut controller, mut reader) = init_gif_reader();
    let r = reader.Read(&bytes, &mut controller.frame_receiver);
    assert_eq!(r, Err(DecodeError::TruncatedInput));
}

#[test]
fn producer_blocks_on_full_channel() {
    // A bounded channel of capacity one and a two-frame stream: the
    // producer must hold the second frame back rather than drop it or
    // buffer it beyond the bound.
    let mut bytes = header(1, 1, 0);
    bytes.extend_from_slice(&image_block(0, 0, 1, 1, &[0]));
    bytes.extend_from_slice(&image_block(0, 0, 1, 1, &[1]));
    bytes.push(0x3b);
    let (_, mut reader) = init_gif_reader();
    let mut sink = FrameChannel::new(1);
    let status = reader.Read(&bytes, &mut sink).expect("first run");
    assert!(matches!(status, ReadStatus::Blocked));
    assert_eq!(sink.len(), 1);
    let first = sink.recv().expect("first frame");
    assert_eq!(first.pixels, vec![COLOR0]);
    let status = reader.Read(&bytes, &mut sink).expect("second run");
    assert!(matches!(status, ReadStatus::Finished));
    let second = sink.recv().expect("second frame");
    assert_eq!(second.pixels, vec![COLOR1]);
}

#[test]
fn closed_channel_aborts_decode() {
    let mut bytes = header(1, 1, 0);
    bytes.extend_from_slice(&image_block(0, 0, 1, 1, &[0]));
    bytes.push(0x3b);
    let (mut controller, mut reader) = init_gif_reader();
    controller.close();
    let status = reader.Read(&bytes, &mut controller.frame_receiver).expect("run");
    assert!(matches!(status, ReadStatus::Aborted));
    assert!(matches!(reader.state, PipelineState::Aborted));
}

#[test]
fn transparency_preserves_previous_frame() {
    // Frame two paints index 1 everywhere but declares it transparent:
    // the delivered frame still shows frame one's pixels beneath.
    let mut bytes = header(1, 1, 0);
    bytes.extend_from_slice(&image_block(0, 0, 1, 1, &[0]));
    bytes.extend_from_slice(&graphic_control(0x01, 7, 1));
    bytes.extend_from_slice(&image_block(0, 0, 1, 1, &[1]));
    bytes.push(0x3b);
    let (mut controller, mut reader) = init_gif_reader();
    let status = reader.Read(&bytes, &mut controller.frame_receiver).expect("decode");
    assert!(matches!(status, ReadStatus::Finished));
    let first = controller.receive().expect("frame one");
    assert_eq!(first.pixels, vec![COLOR0]);
    let second = controller.receive().expect("frame two");
    assert_eq!(second.pixels, vec![COLOR0]); // transparent pixel never overwrites
    assert_eq!(second.delay_cs, 7);
}

#[test]
fn restore_to_background_between_frames() {
    // Frame one paints color 1 with a restore-to-background disposal;
    // frame two covers only the left cell, so the right cell shows the
    // restored background, not frame one's pixel.
    let mut bytes = header(2, 1, 0);
    bytes.extend_from_slice(&graphic_control(0x08, 0, 0)); // disposal 2, no transparency
    bytes.extend_from_slice(&image_block(0, 0, 2, 1, &[1, 1]));
    bytes.extend_from_slice(&image_block(0, 0, 1, 1, &[1]));
    bytes.push(0x3b);
    let (mut controller, mut reader) = init_gif_reader();
    reader.Read(&bytes, &mut controller.frame_receiver).expect("decode");
    let first = controller.receive().expect("frame one");
    assert_eq!(first.pixels, vec![COLOR1, COLOR1]);
    let second = controller.receive().expect("frame two");
    // background color index 0, no transparency: opaque color 0
    assert_eq!(second.pixels, vec![COLOR1, COLOR0]);
}

#[test]
fn descriptor_outside_canvas_is_malformed() {
    let mut bytes = header(2, 2, 0);
    bytes.extend_from_slice(&image_block(1, 0, 2, 2, &[0, 1, 1, 0]));
    bytes.push(0x3b);
    let (mut controller, mut reader) = init_gif_reader();
    let r = reader.Read(&bytes, &mut controller.frame_receiver);
    assert_eq!(r, Err(DecodeError::MalformedBlock));
}

#[test]
fn comment_extension_is_skipped() {
    let mut bytes = header(1, 1, 0);
    bytes.extend_from_slice(&[0x21, 0xfe]); // comment extension
    bytes.extend_from_slice(&sub_blocks(b"not pixel data"));
    bytes.extend_from_slice(&image_block(0, 0, 1, 1, &[1]));
    bytes.push(0x3b);
    let (mut controller, mut reader) = init_gif_reader();
    let status = reader.Read(&bytes, &mut controller.frame_receiver).expect("decode");
    assert!(matches!(status, ReadStatus::Finished));
    assert_eq!(controller.receive().expect("frame").pixels, vec![COLOR1]);
}

#[test]
fn frames_arrive_in_decode_order() {
    let mut bytes = header(1, 1, 0);
    bytes.extend_from_slice(&image_block(0, 0, 1, 1, &[0]));
    bytes.extend_from_slice(&image_block(0, 0, 1, 1, &[1]));
    bytes.extend_from_slice(&image_block(0, 0, 1, 1, &[0]));
    bytes.push(0x3b);
    let (mut controller, mut reader) = init_gif_reader();
    reader.Read(&bytes, &mut controller.frame_receiver).expect("decode");
    assert_eq!(controller.receive().expect("f1").pixels, vec![COLOR0]);
    assert_eq!(controller.receive().expect("f2").pixels, vec![COLOR1]);
    assert_eq!(controller.receive().expect("f3").pixels, vec![COLOR0]);
    assert!(controller.receive().is_none());
}

#[test]
fn bad_graphic_control_size_is_malformed() {
    let mut bytes = header(1, 1, 0);
    bytes.extend_from_slice(&[0x21, 0xf9, 0x05, 0, 0, 0, 0, 0, 0x00]);
    bytes.extend_from_slice(&image_block(0, 0, 1, 1, &[0]));
    bytes.push(0x3b);
    let (mut controller, mut reader) = init_gif_reader();
    let r = reader.Read(&bytes, &mut controller.frame_receiver);
    assert_eq!(r, Err(DecodeError::MalformedBlock));
}

#[test]
fn local_color_table_overrides_global() {
    // An image carrying its own two-entry table resolves indices
    // through it, not through the global one.
    let mut bytes = header(1, 1, 0);
    bytes.push(0x2c);
    bytes.extend_from_slice(&[0, 0, 0, 0, 1, 0, 1, 0]); // at (0,0), 1x1
    bytes.push(0x80); // local table, N = 0: 2 entries
    bytes.extend_from_slice(&[0xaa, 0xbb, 0xcc, 0xdd, 0xee, 0xff]);
    bytes.push(2); // minimum code size
    bytes.extend_from_slice(&sub_blocks(&encode_lzw(&[1], 2)));
    bytes.push(0x3b);
    let (mut controller, mut reader) = init_gif_reader();
    let status = reader.Read(&bytes, &mut controller.frame_receiver).expect("decode");
    assert!(matches!(status, ReadStatus::Finished));
    let frame = controller.receive().expect("frame");
    assert_eq!(frame.pixels, vec![0xffff_eedd]);
}

#[test]
fn restore_to_previous_between_frames() {
    // Frame one paints over the fresh (transparent) canvas with a
    // restore-to-previous disposal: frame two sees the region as it
    // was before frame one painted.
    let mut bytes = header(2, 1, 0);
    bytes.extend_from_slice(&graphic_control(0x0c, 0, 0)); // disposal 3
    bytes.extend_from_slice(&image_block(0, 0, 2, 1, &[1, 1]));
    bytes.extend_from_slice(&image_block(0, 0, 1, 1, &[0]));
    bytes.push(0x3b);
    let (mut controller, mut reader) = init_gif_reader();
    reader.Read(&bytes, &mut controller.frame_receiver).expect("decode");
    let first = controller.receive().expect("frame one");
    assert_eq!(first.pixels, vec![COLOR1, COLOR1]);
    let second = controller.receive().expect("frame two");
    assert_eq!(second.pixels, vec![COLOR0, 0x0000_0000]);
}

#[test]
fn bad_minimum_code_size_is_malformed() {
    let mut bytes = header(1, 1, 0);
    bytes.push(0x2c);
    bytes.extend_from_slice(&[0, 0, 0, 0, 1, 0, 1, 0, 0x00]);
    bytes.push(9); // minimum code size out of range
    bytes.extend_from_slice(&sub_blocks(&encode_lzw(&[0], 2)));
    bytes.push(0x3b);
    let (mut controller, mut reader) = init_gif_reader();
    let r = reader.Read(&bytes, &mut controller.frame_receiver);
    assert_eq!(r, Err(DecodeError::MalformedBlock));
}
