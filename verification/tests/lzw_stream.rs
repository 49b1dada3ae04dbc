use gif_reader::error::DecodeError;
use gif_reader::lzw::lzw_decode;

/// Appends `width` bits of `value` to the stream, least significant
/// bit first, as GIF packs LZW codes.
fn push_bits(bits: &mut Vec<bool>, value: u16, width: u16) {
    for k in 0..width {
        bits.push((value >> k) & 1 == 1);
    }
}

fn bits_to_bytes(bits: &[bool]) -> Vec<u8> {
    let mut out = vec![0u8; (bits.len() + 7) / 8];
    for (i, &b) in bits.iter().enumerate() {
        if b {
            out[i / 8] |= 1 << (i % 8);
        }
    }
    out
}

/// A plain greedy LZW encoder for GIF: a clear code up front, growing
/// code widths capped at 12 bits, and the end code last.
fn encode_lzw(indices: &[u8], min_code_size: u8) -> Vec<u8> {
    let clear: u16 = 1 << min_code_size;
    let end: u16 = clear + 1;
    let mut bits: Vec<bool> = Vec::new();
    let mut width: u16 = min_code_size as u16 + 1;
    // dictionary: sequence -> code
    let mut dict: Vec<(Vec<u8>, u16)> = Vec::new();
    let mut next_code: u16 = end + 1;
    push_bits(&mut bits, clear, width);
    let lookup = |dict: &Vec<(Vec<u8>, u16)>, seq: &Vec<u8>| -> Option<u16> {
        if seq.len() == 1 {
            return Some(seq[0] as u16);
        }
        dict.iter().find(|(s, _)| s == seq).map(|(_, c)| *c)
    };
    let mut cur: Vec<u8> = Vec::new();
    for &idx in indices {
        let mut ext = cur.clone();
        ext.push(idx);
        if lookup(&dict, &ext).is_some() {
            cur = ext;
        } else {
            let code = lookup(&dict, &cur).expect("prefix must be known");
            push_bits(&mut bits, code, width);
            if next_code < 4096 {
                dict.push((ext, next_code));
                next_code += 1;
                // the decoder assigns this entry one code later, so its
                // width grows once the entry index itself fills the
                // current code space
                if next_code > (1 << width) && width < 12 {
                    width += 1;
                }
            }
            cur = vec![idx];
        }
    }
    if !cur.is_empty() {
        let code = lookup(&dict, &cur).expect("prefix must be known");
        push_bits(&mut bits, code, width);
        if next_code < 4096 {
            next_code += 1;
            if next_code > (1 << width) && width < 12 {
                width += 1;
            }
        }
    }
    push_bits(&mut bits, end, width);
    bits_to_bytes(&bits)
}

#[test]
fn lzw_round_trip_distinct_indices() {
    let indices = vec![0u8, 1, 2, 0];
    let data = encode_lzw(&indices, 2);
    let out = lzw_decode(&data, 2, indices.len()).expect("decode");
    assert_eq!(out, indices);
}

#[test]
fn lzw_round_trip_repeats() {
    let indices = vec![1u8, 1, 1, 1, 1];
    let data = encode_lzw(&indices, 2);
    let out = lzw_decode(&data, 2, indices.len()).expect("decode");
    assert_eq!(out, indices);
}

#[test]
fn lzw_round_trip_longer() {
    let mut indices = Vec::new();
    for i in 0..200u32 {
        indices.push((i % 7) as u8);
        indices.push((i % 3) as u8);
        indices.push(0u8);
    }
    let data = encode_lzw(&indices, 3);
    let out = lzw_decode(&data, 3, indices.len()).expect("decode");
    assert_eq!(out, indices);
}

#[test]
fn lzw_clear_code_resets_dictionary() {
    // clear, 0, 1 builds entry 6 = [0, 1]; a clear then forgets it, so
    // referencing 6 right after the reset (with no previous code) is an
    // invalid code.
    let mut bits = Vec::new();
    push_bits(&mut bits, 4, 3); // clear
    push_bits(&mut bits, 0, 3);
    push_bits(&mut bits, 1, 3); // adds entry 6
    push_bits(&mut bits, 4, 3); // clear: seeded entries only again
    push_bits(&mut bits, 6, 3); // would be fine without the clear
    let data = bits_to_bytes(&bits);
    assert_eq!(lzw_decode(&data, 2, 10), Err(DecodeError::InvalidLzwCode));
}

#[test]
fn lzw_same_stream_without_clear_accepts_entry() {
    // The same reference as above minus the mid-stream clear: entry 6
    // exists and decodes to [0, 1].
    let mut bits = Vec::new();
    push_bits(&mut bits, 4, 3); // clear
    push_bits(&mut bits, 0, 3);
    push_bits(&mut bits, 1, 3); // adds entry 6 = [0, 1]
    push_bits(&mut bits, 6, 3);
    push_bits(&mut bits, 5, 4); // end; width grew when entry 8 filled 3 bits
    let data = bits_to_bytes(&bits);
    assert_eq!(lzw_decode(&data, 2, 4), Ok(vec![0u8, 1, 0, 1]));
}

#[test]
fn lzw_code_width_grows_at_exact_boundary() {
    // min code size 2: the dictionary seeds 6 entries. After the codes
    // 0, 1, 2 it holds 8 = 2^3 entries, so the width moves from 3 to 4
    // bits exactly there; the next codes must be read at 4 bits.
    let mut bits = Vec::new();
    push_bits(&mut bits, 4, 3); // clear
    push_bits(&mut bits, 0, 3);
    push_bits(&mut bits, 1, 3); // entry 6, len 7
    push_bits(&mut bits, 2, 3); // entry 7, len 8 -> width 4
    push_bits(&mut bits, 3, 4);
    push_bits(&mut bits, 5, 4); // end
    let data = bits_to_bytes(&bits);
    assert_eq!(lzw_decode(&data, 2, 4), Ok(vec![0u8, 1, 2, 3]));
}

#[test]
fn lzw_invalid_code_rejected() {
    // Code 7 with only 6 seeded entries and one previous code: past
    // even the next assignable entry.
    let mut bits = Vec::new();
    push_bits(&mut bits, 4, 3); // clear
    push_bits(&mut bits, 0, 3);
    push_bits(&mut bits, 7, 3);
    let data = bits_to_bytes(&bits);
    assert_eq!(lzw_decode(&data, 2, 10), Err(DecodeError::InvalidLzwCode));
}

#[test]
fn lzw_shortfall_is_pixel_count_mismatch() {
    let indices = vec![0u8, 1, 2];
    let data = encode_lzw(&indices, 2);
    assert_eq!(lzw_decode(&data, 2, 4), Err(DecodeError::PixelCountMismatch));
}

#[test]
fn lzw_excess_output_is_truncated() {
    let indices = vec![0u8, 1, 2, 0, 1];
    let data = encode_lzw(&indices, 2);
    assert_eq!(lzw_decode(&data, 2, 3), Ok(vec![0u8, 1, 2]));
}
