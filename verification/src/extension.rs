use vstd::prelude::*;

use crate::cursor::ByteCursor;
use crate::cursor::u16_le;
use crate::error::DecodeError;
use crate::frame::DisposalMethod;
use crate::frame::GraphicControlState;
use crate::subblock::read_sub_blocks;
use crate::subblock::spec_sub_blocks;

verus! {

/// The extension label that introduces a graphic control block.
pub const GRAPHIC_CONTROL_LABEL: u8 = 0xf9;

/// The disposal method in bits 4..2 of a graphic control packed
/// byte; the reserved values act as no disposal specified.
pub open spec fn spec_disposal(packed: u8) -> DisposalMethod {
    if (packed >> 2) & 7 == 1 {
        DisposalMethod::DoNotDispose
    } else if (packed >> 2) & 7 == 2 {
        DisposalMethod::RestoreToBackground
    } else if (packed >> 2) & 7 == 3 {
        DisposalMethod::RestoreToPrevious
    } else {
        DisposalMethod::NoDisposal
    }
}

/// The graphic-control state a 4-byte payload encodes: the disposal
/// method, the delay in centiseconds (little endian), the transparent
/// color index when bit 0 enables it, and the user-input flag.
pub open spec fn spec_graphic_control(packed: u8, d0: u8, d1: u8, tidx: u8) -> GraphicControlState {
    GraphicControlState {
        disposal: spec_disposal(packed),
        delay_cs: u16_le(d0, d1) as u16,
        transparent_index: if packed & 1 == 1 {
            Some(tidx)
        } else {
            None
        },
        user_input: (packed >> 1) & 1 == 1,
    }
}

/// What one extension block starting at label position `p` denotes:
/// the graphic-control state in force afterwards and the position
/// past the block, or the decode error. A graphic control label must
/// carry a block size of exactly 4 and a zero terminator; any other
/// label's payload is skipped through the sub-block layout, leaving
/// `control` as it was.
pub open spec fn spec_extension(s: Seq<u8>, p: int, control: GraphicControlState) -> Result<
    (GraphicControlState, int),
    DecodeError,
> {
    if p >= s.len() {
        Err(DecodeError::TruncatedInput)
    } else if s[p] == GRAPHIC_CONTROL_LABEL {
        if p + 2 > s.len() {
            Err(DecodeError::TruncatedInput)
        } else if s[p + 1] != 4 {
            Err(DecodeError::MalformedBlock)
        } else if p + 7 > s.len() {
            Err(DecodeError::TruncatedInput)
        } else if s[p + 6] != 0 {
            Err(DecodeError::MalformedBlock)
        } else {
            Ok((spec_graphic_control(s[p + 2], s[p + 3], s[p + 4], s[p + 5]), p + 7))
        }
    } else {
        match spec_sub_blocks(s, p + 1) {
            Some(unit) => Ok((control, unit.1)),
            None => Err(DecodeError::TruncatedInput),
        }
    }
}

/// Parses one extension block, the introducer byte already consumed.
///
/// A graphic control label (0xF9) must carry a block size of exactly
/// 4, then the packed byte, the delay, the transparent index and a
/// zero terminator; the decoded state replaces `control` and applies
/// to exactly the next image. Any other label's payload is consumed
/// through the sub-block reader and discarded, leaving `control`
/// untouched. A wrong block size or terminator is `MalformedBlock`; a
/// stream that ends first is `TruncatedInput`.
pub fn parse_extension(cur: &mut ByteCursor, control: &mut GraphicControlState) -> (r: Result<
    (),
    DecodeError,
>)
    requires
        old(cur).wf(),
    ensures
        final(cur).wf(),
        final(cur).bytes() == old(cur).bytes(),
        final(cur).position() >= old(cur).position(),
        ({
            match spec_extension(old(cur).bytes(), old(cur).position(), *old(control)) {
                Ok(x) => r is Ok && *final(control) == x.0 && final(cur).position() == x.1,
                Err(e) => (r matches Err(e2) && e2 == e),
            }
        }),
        ({
            let s = old(cur).bytes();
            let p = old(cur).position();
            if p >= s.len() {
                (r matches Err(e) && e == DecodeError::TruncatedInput) && *final(control)
                    == *old(control)
            } else if s[p] == GRAPHIC_CONTROL_LABEL {
                if p + 2 > s.len() {
                    (r matches Err(e) && e == DecodeError::TruncatedInput) && *final(control)
                        == *old(control)
                } else if s[p + 1] != 4 {
                    (r matches Err(e) && e == DecodeError::MalformedBlock) && *final(control)
                        == *old(control)
                } else if p + 7 > s.len() {
                    (r matches Err(e) && e == DecodeError::TruncatedInput) && *final(control)
                        == *old(control)
                } else if s[p + 6] != 0 {
                    (r matches Err(e) && e == DecodeError::MalformedBlock) && *final(control)
                        == *old(control)
                } else {
                    r is Ok && *final(control) == spec_graphic_control(
                        s[p + 2],
                        s[p + 3],
                        s[p + 4],
                        s[p + 5],
                    ) && final(cur).position() == p + 7
                }
            } else {
                match spec_sub_blocks(s, p + 1) {
                    Some(unit) => r is Ok && final(cur).position() == unit.1
                        && *final(control) == *old(control),
                    None => (r matches Err(e) && e == DecodeError::TruncatedInput)
                        && *final(control) == *old(control),
                }
            }
        }),
{
    let label = match cur.read_u8() {
        Ok(b) => b,
        Err(e) => {
            return Err(e);
        },
    };
    if label == GRAPHIC_CONTROL_LABEL {
        let size = match cur.read_u8() {
            Ok(b) => b,
            Err(e) => {
                return Err(e);
            },
        };
        if size != 4 {
            return Err(DecodeError::MalformedBlock);
        }
        if cur.remaining_len() < 5 {
            return Err(DecodeError::TruncatedInput);
        }
        let packed = match cur.read_u8() {
            Ok(b) => b,
            Err(e) => {
                return Err(e);
            },
        };
        let delay = match cur.read_u16_le() {
            Ok(v) => v,
            Err(e) => {
                return Err(e);
            },
        };
        let tidx = match cur.read_u8() {
            Ok(b) => b,
            Err(e) => {
                return Err(e);
            },
        };
        let term = match cur.read_u8() {
            Ok(b) => b,
            Err(e) => {
                return Err(e);
            },
        };
        if term != 0 {
            return Err(DecodeError::MalformedBlock);
        }
        let disposal_bits = (packed >> 2) & 7;
        let disposal = if disposal_bits == 1 {
            DisposalMethod::DoNotDispose
        } else if disposal_bits == 2 {
            DisposalMethod::RestoreToBackground
        } else if disposal_bits == 3 {
            DisposalMethod::RestoreToPrevious
        } else {
            DisposalMethod::NoDisposal
        };
        let transparent_index = if packed & 1 == 1 {
            Some(tidx)
        } else {
            None
        };
        *control = GraphicControlState {
            disposal,
            delay_cs: delay,
            transparent_index,
            user_input: (packed >> 1) & 1 == 1,
        };
        Ok(())
    } else {
        match read_sub_blocks(cur) {
            Ok(_) => Ok(()),
            Err(e) => Err(e),
        }
    }
}

} // verus!
