use vstd::prelude::*;

use crate::cursor::ByteCursor;
use crate::error::DecodeError;

verus! {

/// What the chunked sub-block layout starting at `pos` denotes: the
/// reassembled payload and the position just past the terminator, or
/// `None` when the stream ends before the terminator. Each chunk is
/// one length byte L followed by L payload bytes; L = 0 terminates.
pub open spec fn spec_sub_blocks(s: Seq<u8>, pos: int) -> Option<(Seq<u8>, int)>
    decreases s.len() - pos,
{
    if pos < 0 || pos >= s.len() {
        None
    } else {
        let l = s[pos] as int;
        if l == 0 {
            Some((Seq::<u8>::empty(), pos + 1))
        } else if pos + 1 + l > s.len() {
            None
        } else {
            match spec_sub_blocks(s, pos + 1 + l) {
                None => None,
                Some(rest) => Some((s.subrange(pos + 1, pos + 1 + l) + rest.0, rest.1)),
            }
        }
    }
}

/// A reassembled unit is no longer than the stream it came from, and
/// its terminator lies past the start and within the stream.
pub proof fn lemma_sub_blocks_len(s: Seq<u8>, pos: int)
    ensures
        spec_sub_blocks(s, pos) matches Some(unit) ==> unit.0.len() + pos < s.len() && pos < unit.1
            <= s.len(),
    decreases s.len() - pos,
{
    if 0 <= pos < s.len() {
        let l = s[pos] as int;
        if l != 0 && pos + 1 + l <= s.len() {
            lemma_sub_blocks_len(s, pos + 1 + l);
        }
    }
}

/// Reassembles one logical data unit out of its sub-block chunks:
/// repeatedly reads a length byte L, appends the next L bytes, and
/// stops at the zero-length terminator. Fails with `TruncatedInput`
/// when the source ends before the terminator.
pub fn read_sub_blocks(cur: &mut ByteCursor) -> (r: Result<Vec<u8>, DecodeError>)
    requires
        old(cur).wf(),
    ensures
        final(cur).wf(),
        final(cur).bytes() == old(cur).bytes(),
        final(cur).position() >= old(cur).position(),
        match spec_sub_blocks(old(cur).bytes(), old(cur).position()) {
            Some(unit) => r is Ok && r.unwrap()@ == unit.0 && final(cur).position() == unit.1,
            None => r == Err::<Vec<u8>, DecodeError>(DecodeError::TruncatedInput),
        },
{
    let ghost s = cur.bytes();
    let ghost pos0 = cur.position();
    let mut out: Vec<u8> = Vec::new();
    loop
        invariant
            cur.wf(),
            s == old(cur).bytes(),
            pos0 == old(cur).position(),
            cur.bytes() == s,
            cur.position() >= pos0,
            match spec_sub_blocks(s, cur.position()) {
                Some(unit) => spec_sub_blocks(s, pos0) == Some::<(Seq<u8>, int)>(
                    (out@ + unit.0, unit.1),
                ),
                None => spec_sub_blocks(s, pos0) is None,
            },
        decreases s.len() - cur.position(),
    {
        let l = match cur.read_u8() {
            Ok(b) => b,
            Err(_) => {
                return Err(DecodeError::TruncatedInput);
            },
        };
        if l == 0 {
            proof {
                assert(out@ + Seq::<u8>::empty() =~= out@);
            }
            return Ok(out);
        }
        let mut chunk = match cur.read_exact(l as usize) {
            Ok(c) => c,
            Err(_) => {
                return Err(DecodeError::TruncatedInput);
            },
        };
        let ghost before = out@;
        let ghost chunkv = chunk@;
        out.append(&mut chunk);
        proof {
            match spec_sub_blocks(s, cur.position()) {
                Some(unit) => {
                    assert(before + (chunkv + unit.0) =~= out@ + unit.0);
                },
                None => {},
            }
        }
    }
}

} // verus!
